use vstd::prelude::*;
use vstd::std_specs::iter::IteratorSpec;

verus! {

broadcast use {vstd::string::axiom_spec_iter, vstd::string::next_postcondition};

/// Unicode's White_Space property, which `char::is_whitespace` tests.
pub open spec fn white_space(c: char) -> bool {
    ('\u{9}' <= c && c <= '\u{d}') || c == ' ' || c == '\u{85}' || c == '\u{a0}'
        || c == '\u{1680}' || ('\u{2000}' <= c && c <= '\u{200a}') || c == '\u{2028}'
        || c == '\u{2029}' || c == '\u{202f}' || c == '\u{205f}' || c == '\u{3000}'
}

/// Position of the first character at or after `i` that is not white space.
pub open spec fn ws_end(s: Seq<char>, i: int) -> int
    decreases s.len() - i,
{
    if 0 <= i < s.len() && white_space(s[i]) {
        ws_end(s, i + 1)
    } else {
        i
    }
}

/// What an escaped character stands for.
pub open spec fn unescape(c: char) -> char {
    if c == 'n' {
        '\n'
    } else if c == 't' {
        '\t'
    } else {
        c
    }
}

/// Position just after the string literal whose body starts at `i`: after its closing
/// quote, or the end of the text where it has none.
pub open spec fn lit_end(s: Seq<char>, i: int) -> int
    decreases s.len() - i,
{
    if i < 0 || i >= s.len() {
        s.len() as int
    } else if s[i] == '\\' {
        if i + 1 >= s.len() {
            s.len() as int
        } else {
            lit_end(s, i + 2)
        }
    } else if s[i] == '"' {
        i + 1
    } else {
        lit_end(s, i + 1)
    }
}

/// Decoded content of the string literal whose body starts at `i`.
pub open spec fn lit_content(s: Seq<char>, i: int) -> Seq<char>
    decreases s.len() - i,
{
    if i < 0 || i >= s.len() {
        Seq::empty()
    } else if s[i] == '\\' {
        if i + 1 >= s.len() {
            Seq::empty()
        } else {
            seq![unescape(s[i + 1])] + lit_content(s, i + 2)
        }
    } else if s[i] == '"' {
        Seq::empty()
    } else {
        seq![s[i]] + lit_content(s, i + 1)
    }
}

/// Position just after the line comment whose body starts at `i`: after its newline, or
/// the end of the text.
pub open spec fn line_end(s: Seq<char>, i: int) -> int
    decreases s.len() - i,
{
    if i < 0 || i >= s.len() {
        s.len() as int
    } else if s[i] == '\n' {
        i + 1
    } else {
        line_end(s, i + 1)
    }
}

/// Position just after the block comment whose body starts at `i`: after its `*/`, or the
/// end of the text.
pub open spec fn block_end(s: Seq<char>, i: int) -> int
    decreases s.len() - i,
{
    if i < 0 || i + 1 >= s.len() {
        s.len() as int
    } else if s[i] == '*' && s[i + 1] == '/' {
        i + 2
    } else {
        block_end(s, i + 1)
    }
}

/// The two characters at `i` are `a` then `b`.
pub open spec fn pair_at(s: Seq<char>, i: int, a: char, b: char) -> bool {
    0 <= i && i + 1 < s.len() && s[i] == a && s[i + 1] == b
}

/// Where a comment that starts at `i` ends; `i` itself where none starts there.
pub open spec fn comment_end(s: Seq<char>, i: int) -> int {
    if pair_at(s, i, '/', '/') {
        line_end(s, i + 2)
    } else if pair_at(s, i, '/', '*') {
        block_end(s, i + 2)
    } else {
        i
    }
}

/// The directive keyword, `#` followed by the word.
pub open spec fn keyword() -> Seq<char> {
    seq!['#', 'i', 'n', 'c', 'l', 'u', 'd', 'e']
}

/// The keyword stands at `i`.
pub open spec fn keyword_at(s: Seq<char>, i: int) -> bool {
    0 <= i && i + 8 <= s.len() && s.subrange(i, i + 8) == keyword()
}

/// One move of the search for the keyword from `i < s.len()`: white space, a string literal
/// or a comment is passed over whole, anything else one character at a time.
pub open spec fn search_step(s: Seq<char>, i: int) -> int {
    if white_space(s[i]) {
        ws_end(s, i)
    } else if s[i] == '"' {
        lit_end(s, i + 1)
    } else if pair_at(s, i, '/', '/') || pair_at(s, i, '/', '*') {
        comment_end(s, i)
    } else {
        i + 1
    }
}

/// Where the search for the keyword, started at `i`, finds it; `None` when the text runs out.
pub open spec fn find_keyword(s: Seq<char>, i: int) -> Option<int>
    decreases s.len() - i via find_keyword_decreases
{
    if i < 0 || i > s.len() {
        None
    } else if keyword_at(s, i) {
        Some(i)
    } else if i == s.len() {
        None
    } else {
        find_keyword(s, search_step(s, i))
    }
}

#[via_fn]
proof fn find_keyword_decreases(s: Seq<char>, i: int) {
    if 0 <= i < s.len() {
        lemma_search_step(s, i);
    }
}

/// An attempt to read a string literal at `i`, after white space: the position after it and
/// the literal's content, or the position after the white space and `None` where no literal
/// starts there.
pub open spec fn string_attempt(s: Seq<char>, i: int) -> (int, Option<Seq<char>>) {
    let j = ws_end(s, i);
    if 0 <= j < s.len() && s[j] == '"' {
        (lit_end(s, j + 1), Some(lit_content(s, j + 1)))
    } else {
        (j, None)
    }
}

/// What follows a keyword found at `k`: the attempt to read a quoted name.
pub open spec fn after_keyword(s: Seq<char>, k: int) -> (int, Option<Seq<char>>) {
    string_attempt(s, k + 8)
}

/// The quoted names that follow each keyword found from `i` on, in order.
pub open spec fn scan_from(s: Seq<char>, i: int) -> Seq<Seq<char>>
    decreases s.len() - i via scan_from_decreases
{
    match find_keyword(s, i) {
        None => Seq::empty(),
        Some(k) => {
            let (next, name) = after_keyword(s, k);
            match name {
                Some(n) => seq![n] + scan_from(s, next),
                None => scan_from(s, next),
            }
        },
    }
}

#[via_fn]
proof fn scan_from_decreases(s: Seq<char>, i: int) {
    if let Some(k) = find_keyword(s, i) {
        lemma_find_keyword(s, i);
        lemma_after_keyword(s, k);
    }
}

/// The quoted names of all directives of a text, in order.
pub open spec fn scanned(s: Seq<char>) -> Seq<Seq<char>> {
    scan_from(s, 0)
}

pub proof fn lemma_ws_end(s: Seq<char>, i: int)
    requires
        0 <= i <= s.len(),
    ensures
        i <= ws_end(s, i) <= s.len(),
        i < s.len() && white_space(s[i]) ==> i < ws_end(s, i),
    decreases s.len() - i,
{
    if i < s.len() && white_space(s[i]) {
        lemma_ws_end(s, i + 1);
    }
}

pub proof fn lemma_lit_end(s: Seq<char>, i: int)
    requires
        0 <= i <= s.len(),
    ensures
        i <= lit_end(s, i) <= s.len(),
    decreases s.len() - i,
{
    if i < s.len() {
        if s[i] == '\\' {
            if i + 1 < s.len() {
                lemma_lit_end(s, i + 2);
            }
        } else if s[i] != '"' {
            lemma_lit_end(s, i + 1);
        }
    }
}

proof fn lemma_line_end(s: Seq<char>, i: int)
    requires
        0 <= i <= s.len(),
    ensures
        i <= line_end(s, i) <= s.len(),
    decreases s.len() - i,
{
    if i < s.len() && s[i] != '\n' {
        lemma_line_end(s, i + 1);
    }
}

proof fn lemma_block_end(s: Seq<char>, i: int)
    requires
        0 <= i <= s.len(),
    ensures
        i <= block_end(s, i) <= s.len(),
    decreases s.len() - i,
{
    if i + 1 < s.len() && !(s[i] == '*' && s[i + 1] == '/') {
        lemma_block_end(s, i + 1);
    }
}

pub proof fn lemma_search_step(s: Seq<char>, i: int)
    requires
        0 <= i < s.len(),
    ensures
        i < search_step(s, i) <= s.len(),
{
    lemma_ws_end(s, i);
    lemma_lit_end(s, i + 1);
    if pair_at(s, i, '/', '/') {
        lemma_line_end(s, i + 2);
    }
    if pair_at(s, i, '/', '*') {
        lemma_block_end(s, i + 2);
    }
}

pub proof fn lemma_find_keyword(s: Seq<char>, i: int)
    requires
        find_keyword(s, i) is Some,
    ensures
        0 <= i <= find_keyword(s, i)->0,
        keyword_at(s, find_keyword(s, i)->0),
    decreases s.len() - i,
{
    if !keyword_at(s, i) {
        lemma_search_step(s, i);
        lemma_find_keyword(s, search_step(s, i));
    }
}

pub proof fn lemma_after_keyword(s: Seq<char>, k: int)
    requires
        keyword_at(s, k),
    ensures
        k + 8 <= after_keyword(s, k).0 <= s.len(),
{
    lemma_ws_end(s, k + 8);
    let j = ws_end(s, k + 8);
    if j < s.len() && s[j] == '"' {
        lemma_lit_end(s, j + 1);
    }
}

/// Relies on `String::push`: the character is appended at the end.
pub assume_specification[ String::push ](s: &mut String, ch: char)
    ensures
        final(s)@ == old(s)@.push(ch),
;

/// Returns the characters of `s` in order.
pub fn chars_of(s: &str) -> (r: Vec<char>)
    ensures
        r@ == s@,
{
    let mut it = s.chars();
    let mut out: Vec<char> = Vec::new();
    loop
        invariant
            it.remaining() == s@.skip(out@.len() as int),
            out@ == s@.take(out@.len() as int),
            out@.len() <= s@.len(),
            it.obeys_prophetic_iter_laws(),
        decreases s@.len() - out@.len(),
    {
        match it.next() {
            Some(c) => {
                out.push(c);
                assert(out@ =~= s@.take(out@.len() as int));
            },
            None => {
                assert(out@ =~= s@);
                return out;
            },
        }
    }
}

fn is_white(c: char) -> (r: bool)
    ensures
        r == white_space(c),
{
    ('\u{9}' <= c && c <= '\u{d}') || c == ' ' || c == '\u{85}' || c == '\u{a0}'
        || c == '\u{1680}' || ('\u{2000}' <= c && c <= '\u{200a}') || c == '\u{2028}'
        || c == '\u{2029}' || c == '\u{202f}' || c == '\u{205f}' || c == '\u{3000}'
}

fn skip_ws(s: &Vec<char>, start: usize) -> (r: usize)
    requires
        start <= s@.len(),
    ensures
        r == ws_end(s@, start as int),
        start <= r <= s@.len(),
{
    let mut i = start;
    while i < s.len() && is_white(s[i])
        invariant
            start <= i <= s@.len(),
            ws_end(s@, i as int) == ws_end(s@, start as int),
        decreases s@.len() - i,
    {
        i = i + 1;
    }
    i
}

fn scan_literal(s: &Vec<char>, start: usize) -> (r: (usize, String))
    requires
        start <= s@.len(),
    ensures
        r.0 == lit_end(s@, start as int),
        r.1@ == lit_content(s@, start as int),
        start <= r.0 <= s@.len(),
{
    let mut i = start;
    let mut out = String::new();
    while i < s.len()
        invariant
            start <= i <= s@.len(),
            lit_end(s@, i as int) == lit_end(s@, start as int),
            lit_content(s@, start as int) == out@ + lit_content(s@, i as int),
        decreases s@.len() - i,
    {
        let c = s[i];
        if c == '\\' {
            if i + 1 >= s.len() {
                i = s.len();
            } else {
                let d = s[i + 1];
                let e = if d == 'n' {
                    '\n'
                } else if d == 't' {
                    '\t'
                } else {
                    d
                };
                out.push(e);
                i = i + 2;
            }
        } else if c == '"' {
            proof {
                assert(out@ + Seq::<char>::empty() =~= out@);
            }
            return (i + 1, out);
        } else {
            out.push(c);
            i = i + 1;
        }
    }
    proof {
        assert(out@ + Seq::<char>::empty() =~= out@);
    }
    (i, out)
}

fn skip_line(s: &Vec<char>, start: usize) -> (r: usize)
    requires
        start <= s@.len(),
    ensures
        r == line_end(s@, start as int),
{
    let mut i = start;
    while i < s.len()
        invariant
            start <= i <= s@.len(),
            line_end(s@, i as int) == line_end(s@, start as int),
        decreases s@.len() - i,
    {
        if s[i] == '\n' {
            return i + 1;
        }
        i = i + 1;
    }
    i
}

fn skip_block(s: &Vec<char>, start: usize) -> (r: usize)
    requires
        start <= s@.len(),
    ensures
        r == block_end(s@, start as int),
{
    let mut i = start;
    while i < s.len() && i + 1 < s.len()
        invariant
            start <= i <= s@.len(),
            block_end(s@, i as int) == block_end(s@, start as int),
        decreases s@.len() - i,
    {
        if s[i] == '*' && s[i + 1] == '/' {
            return i + 2;
        }
        i = i + 1;
    }
    s.len()
}

fn pair_here(s: &Vec<char>, i: usize, a: char, b: char) -> (r: bool)
    ensures
        r == pair_at(s@, i as int, a, b),
        s@.len() <= usize::MAX,
{
    i < s.len() && i + 1 < s.len() && s[i] == a && s[i + 1] == b
}

fn skip_comment(s: &Vec<char>, i: usize) -> (r: usize)
    requires
        i <= s@.len(),
    ensures
        r == comment_end(s@, i as int),
{
    if pair_here(s, i, '/', '/') {
        skip_line(s, i + 2)
    } else if pair_here(s, i, '/', '*') {
        skip_block(s, i + 2)
    } else {
        i
    }
}

fn keyword_here(s: &Vec<char>, i: usize) -> (r: bool)
    requires
        i <= s@.len(),
    ensures
        r == keyword_at(s@, i as int),
{
    if s.len() < 8 || i > s.len() - 8 {
        return false;
    }
    let r = s[i] == '#' && s[i + 1] == 'i' && s[i + 2] == 'n' && s[i + 3] == 'c' && s[i + 4]
        == 'l' && s[i + 5] == 'u' && s[i + 6] == 'd' && s[i + 7] == 'e';
    proof {
        let w = s@.subrange(i as int, i + 8);
        if r {
            assert(w =~= keyword());
        } else if w == keyword() {
            assert(w[0] == '#' && w[1] == 'i' && w[2] == 'n' && w[3] == 'c');
            assert(w[4] == 'l' && w[5] == 'u' && w[6] == 'd' && w[7] == 'e');
        }
    }
    r
}

fn next_step(s: &Vec<char>, i: usize) -> (r: usize)
    requires
        i < s@.len(),
    ensures
        r == search_step(s@, i as int),
        i < r <= s@.len(),
{
    proof {
        lemma_search_step(s@, i as int);
    }
    if pair_here(s, i, '/', '/') || pair_here(s, i, '/', '*') {
        skip_comment(s, i)
    } else if is_white(s[i]) {
        skip_ws(s, i)
    } else if s[i] == '"' {
        scan_literal(s, i + 1).0
    } else {
        i + 1
    }
}

fn next_keyword(s: &Vec<char>, start: usize) -> (r: Option<usize>)
    requires
        start <= s@.len(),
    ensures
        r matches Some(k) ==> find_keyword(s@, start as int) == Some(k as int),
        r is None ==> find_keyword(s@, start as int) is None,
{
    let mut i = start;
    loop
        invariant
            start <= i <= s@.len(),
            find_keyword(s@, i as int) == find_keyword(s@, start as int),
        decreases s@.len() - i,
    {
        if keyword_here(s, i) {
            return Some(i);
        }
        if i == s.len() {
            return None;
        }
        i = next_step(s, i);
    }
}

fn read_string(s: &Vec<char>, i: usize) -> (r: (usize, Option<String>))
    requires
        i <= s@.len(),
    ensures
        r.0 == string_attempt(s@, i as int).0,
        opt_view(r.1) == string_attempt(s@, i as int).1,
        i <= r.0 <= s@.len(),
{
    let j = skip_ws(s, i);
    if j < s.len() && s[j] == '"' {
        let (e, content) = scan_literal(s, j + 1);
        (e, Some(content))
    } else {
        (j, None)
    }
}

fn scan_all(s: &Vec<char>) -> (r: Vec<String>)
    ensures
        r.deep_view() == scanned(s@),
{
    let n = s.len();
    let mut out: Vec<String> = Vec::new();
    let mut i: usize = 0;
    loop
        invariant
            n == s@.len(),
            i <= s@.len(),
            scanned(s@) == out.deep_view() + scan_from(s@, i as int),
        decreases s@.len() - i,
    {
        match next_keyword(s, i) {
            None => {
                assert(out.deep_view() + scan_from(s@, i as int) =~= out.deep_view());
                return out;
            },
            Some(k) => {
                proof {
                    lemma_find_keyword(s@, i as int);
                }
                let (next, name) = read_string(s, k + 8);
                match name {
                    Some(n) => {
                        let ghost before = out.deep_view();
                        out.push(n);
                        assert(out.deep_view() =~= before.push(n@));
                        assert(before + scan_from(s@, i as int) =~= out.deep_view() + scan_from(s@, next as int));
                    },
                    None => {},
                }
                i = next;
            },
        }
    }
}

/// The view of an optional string.
pub open spec fn opt_view(o: Option<String>) -> Option<Seq<char>> {
    match o {
        Some(x) => Some(x@),
        None => None,
    }
}

/// Drops the white space at the start of `source`.
pub fn eat_whitespace(source: &str) -> (r: &str)
    ensures
        r@ == source@.skip(ws_end(source@, 0)),
{
    let s = chars_of(source);
    let j = skip_ws(&s, 0);
    source.substring_char(j, s.len())
}

/// Drops the string literal at the start of `source`, after white space; where none
/// starts there, drops the white space alone.
pub fn eat_string(source: &str) -> (r: &str)
    ensures
        r@ == source@.skip(string_attempt(source@, 0).0),
{
    match_string(source).0
}

/// Drops the comment at the start of `source`, if one starts there.
pub fn eat_comment(source: &str) -> (r: &str)
    ensures
        r@ == source@.skip(comment_end(source@, 0)),
{
    let s = chars_of(source);
    let j = skip_comment(&s, 0);
    proof {
        if pair_at(s@, 0, '/', '/') {
            lemma_line_end(s@, 2);
        } else if pair_at(s@, 0, '/', '*') {
            lemma_block_end(s@, 2);
        }
    }
    source.substring_char(j, s.len())
}

/// Searches `source` for the directive keyword, passing over string literals and comments;
/// returns the text after the first keyword found, or `None` where there is none.
pub fn match_include(source: &str) -> (r: Option<&str>)
    ensures
        r is Some <==> find_keyword(source@, 0) is Some,
        r matches Some(rest) ==> rest@ == source@.skip(find_keyword(source@, 0)->0 + 8),
{
    let s = chars_of(source);
    match next_keyword(&s, 0) {
        Some(k) => {
            proof {
                lemma_find_keyword(s@, 0);
            }
            Some(source.substring_char(k + 8, s.len()))
        },
        None => None,
    }
}

/// Reads the string literal at the start of `source`, after white space: returns the text
/// after it and its decoded content. Where no literal starts there, returns the text after
/// the white space and `None`.
pub fn match_string(source: &str) -> (r: (&str, Option<String>))
    ensures
        r.0@ == source@.skip(string_attempt(source@, 0).0),
        opt_view(r.1) == string_attempt(source@, 0).1,
{
    let s = chars_of(source);
    let (j, content) = read_string(&s, 0);
    (source.substring_char(j, s.len()), content)
}

/// Finds the next directive in `source` and reads the quoted name after it. Returns the
/// text after that attempt, the name if there is one, and `true`; where `source` holds no
/// more directives, returns `source`, `None` and `false`.
pub fn match_include_line(source: &str) -> (r: (&str, Option<String>, bool))
    ensures
        r.2 <==> find_keyword(source@, 0) is Some,
        !r.2 ==> r.0@ == source@ && r.1 is None,
        r.2 ==> r.0@ == source@.skip(after_keyword(source@, find_keyword(source@, 0)->0).0)
            && opt_view(r.1) == after_keyword(source@, find_keyword(source@, 0)->0).1,
{
    let s = chars_of(source);
    match next_keyword(&s, 0) {
        Some(k) => {
            proof {
                lemma_find_keyword(s@, 0);
            }
            let (j, name) = read_string(&s, k + 8);
            (source.substring_char(j, s.len()), name, true)
        },
        None => (source, None, false),
    }
}

/// The quoted names of the directives in `source`, in the order they appear. A directive
/// inside a string literal or a comment does not count, and one that is not followed by a
/// quoted name adds nothing.
pub fn parse_includes(source: &str) -> (r: Vec<String>)
    ensures
        r.deep_view() == scanned(source@),
{
    let s = chars_of(source);
    scan_all(&s)
}

} // verus!
