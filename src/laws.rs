use vstd::prelude::*;

use crate::parser::{after_keyword, block_end, find_keyword, keyword, keyword_at, lemma_after_keyword, lemma_find_keyword, lemma_lit_end, lemma_search_step, lemma_ws_end, line_end, lit_content, lit_end, pair_at, scan_from, scanned, search_step, unescape, white_space, ws_end};

verus! {

proof fn lemma_index_after(p: Seq<char>, t: Seq<char>, i: int)
    requires
        0 <= i < t.len(),
    ensures
        (p + t)[p.len() + i] == t[i],
{
}

proof fn lemma_shift_ws(p: Seq<char>, t: Seq<char>, i: int)
    requires
        0 <= i <= t.len(),
    ensures
        ws_end(p + t, p.len() + i) == p.len() + ws_end(t, i),
    decreases t.len() - i,
{
    if i < t.len() {
        lemma_index_after(p, t, i);
        if white_space(t[i]) {
            lemma_shift_ws(p, t, i + 1);
        }
    }
}

proof fn lemma_shift_lit(p: Seq<char>, t: Seq<char>, i: int)
    requires
        0 <= i <= t.len(),
    ensures
        lit_end(p + t, p.len() + i) == p.len() + lit_end(t, i),
        lit_content(p + t, p.len() + i) == lit_content(t, i),
    decreases t.len() - i,
{
    if i < t.len() {
        lemma_index_after(p, t, i);
        if t[i] == '\\' {
            if i + 1 < t.len() {
                lemma_index_after(p, t, i + 1);
                lemma_shift_lit(p, t, i + 2);
            }
        } else if t[i] != '"' {
            lemma_shift_lit(p, t, i + 1);
        }
    }
}

proof fn lemma_shift_line(p: Seq<char>, t: Seq<char>, i: int)
    requires
        0 <= i <= t.len(),
    ensures
        line_end(p + t, p.len() + i) == p.len() + line_end(t, i),
    decreases t.len() - i,
{
    if i < t.len() {
        lemma_index_after(p, t, i);
        if t[i] != '\n' {
            lemma_shift_line(p, t, i + 1);
        }
    }
}

proof fn lemma_shift_block(p: Seq<char>, t: Seq<char>, i: int)
    requires
        0 <= i <= t.len(),
    ensures
        block_end(p + t, p.len() + i) == p.len() + block_end(t, i),
    decreases t.len() - i,
{
    if i + 1 < t.len() {
        lemma_index_after(p, t, i);
        lemma_index_after(p, t, i + 1);
        if !(t[i] == '*' && t[i + 1] == '/') {
            lemma_shift_block(p, t, i + 1);
        }
    }
}

proof fn lemma_shift_step(p: Seq<char>, t: Seq<char>, i: int)
    requires
        0 <= i < t.len(),
    ensures
        search_step(p + t, p.len() + i) == p.len() + search_step(t, i),
        keyword_at(p + t, p.len() + i) == keyword_at(t, i),
{
    let s = p + t;
    let n = p.len();
    lemma_index_after(p, t, i);
    if i + 1 < t.len() {
        lemma_index_after(p, t, i + 1);
    }
    assert(pair_at(s, n + i, '/', '/') == pair_at(t, i, '/', '/'));
    assert(pair_at(s, n + i, '/', '*') == pair_at(t, i, '/', '*'));
    lemma_shift_ws(p, t, i);
    lemma_shift_lit(p, t, i + 1);
    if i + 2 <= t.len() {
        lemma_shift_line(p, t, i + 2);
        lemma_shift_block(p, t, i + 2);
    }
    if i + 8 <= t.len() {
        assert(s.subrange(n + i, n + i + 8) =~= t.subrange(i, i + 8));
    }
}

proof fn lemma_shift_find(p: Seq<char>, t: Seq<char>, i: int)
    requires
        0 <= i <= t.len(),
    ensures
        find_keyword(p + t, p.len() + i) == (match find_keyword(t, i) {
            Some(k) => Some(p.len() + k),
            None => None,
        }),
    decreases t.len() - i,
{
    let s = p + t;
    let n = p.len();
    if i == t.len() {
        assert(!keyword_at(s, n + i));
        assert(!keyword_at(t, i));
    } else {
        lemma_shift_step(p, t, i);
        if !keyword_at(t, i) {
            lemma_search_step(t, i);
            lemma_shift_find(p, t, search_step(t, i));
        }
    }
}

proof fn lemma_shift_scan(p: Seq<char>, t: Seq<char>, i: int)
    requires
        0 <= i <= t.len(),
    ensures
        scan_from(p + t, p.len() + i) == scan_from(t, i),
    decreases t.len() - i,
{
    let s = p + t;
    let n = p.len();
    lemma_shift_find(p, t, i);
    if let Some(k) = find_keyword(t, i) {
        lemma_find_keyword(t, i);
        lemma_shift_ws(p, t, k + 8);
        let j = ws_end(t, k + 8);
        lemma_ws_end(t, k + 8);
        if j < t.len() {
            lemma_index_after(p, t, j);
            lemma_shift_lit(p, t, j + 1);
            lemma_lit_end(t, j + 1);
        }
        lemma_after_keyword(t, k);
        lemma_shift_scan(p, t, after_keyword(t, k).0);
    }
}

/// Two starting points from which the search finds the same keyword scan the same names.
proof fn lemma_same_find(s: Seq<char>, i: int, m: int)
    requires
        find_keyword(s, i) == find_keyword(s, m),
    ensures
        scan_from(s, i) == scan_from(s, m),
{
}

/// A character that the search passes over one at a time and that cannot start the keyword.
pub open spec fn plain(c: char) -> bool {
    !white_space(c) && c != '"' && c != '/' && c != '#'
}

proof fn lemma_plain_walk(s: Seq<char>, i: int, m: int)
    requires
        0 <= i <= m <= s.len(),
        forall|j: int| i <= j < m ==> plain(#[trigger] s[j]),
    ensures
        find_keyword(s, i) == find_keyword(s, m),
    decreases m - i,
{
    if i < m {
        assert(plain(s[i]));
        assert(!keyword_at(s, i)) by {
            if keyword_at(s, i) {
                assert(s.subrange(i, i + 8)[0] == keyword()[0]);
            }
        }
        lemma_plain_walk(s, i + 1, m);
    }
}

/// No character of `x` is a quote or a backslash.
pub open spec fn verbatim(x: Seq<char>) -> bool {
    forall|j: int| 0 <= j < x.len() ==> x[j] != '"' && x[j] != '\\'
}

proof fn lemma_verbatim_lit(x: Seq<char>, t: Seq<char>, i: int)
    requires
        verbatim(x),
        0 <= i <= x.len(),
    ensures
        lit_end(x + seq!['"'] + t, i) == x.len() + 1,
        lit_content(x + seq!['"'] + t, i) == x.subrange(i, x.len() as int),
    decreases x.len() - i,
{
    let s = x + seq!['"'] + t;
    if i < x.len() {
        assert(s[i] == x[i]);
        lemma_verbatim_lit(x, t, i + 1);
        assert(x.subrange(i, x.len() as int) =~= seq![x[i]] + x.subrange(i + 1, x.len() as int));
    } else {
        assert(s[i] == '"');
        assert(x.subrange(i, x.len() as int) =~= Seq::<char>::empty());
    }
}

/// Text without the directive keyword yields no names.
pub proof fn law_no_keyword(s: Seq<char>)
    requires
        forall|k: int| !keyword_at(s, k),
    ensures
        scanned(s) == Seq::<Seq<char>>::empty(),
{
    if find_keyword(s, 0) is Some {
        lemma_find_keyword(s, 0);
    }
}

/// A directive that names `x` in quotes, with `x` free of quotes and backslashes, yields `x`
/// and then the names of the text that follows it.
pub proof fn law_directive(x: Seq<char>, t: Seq<char>)
    requires
        verbatim(x),
    ensures
        scanned(keyword() + seq![' ', '"'] + x + seq!['"'] + t) == seq![x] + scanned(t),
{
    let d = keyword() + seq![' ', '"'] + x + seq!['"'];
    let s = d + t;
    assert(s.subrange(0, 8) =~= keyword());
    assert(keyword_at(s, 0));
    assert(s[8] == ' ');
    assert(s[9] == '"');
    assert(!white_space(s[9]));
    assert(ws_end(s, 9) == 9);
    assert(ws_end(s, 8) == 9);
    let rest = x + seq!['"'] + t;
    assert(s =~= (keyword() + seq![' ', '"']) + rest);
    lemma_verbatim_lit(x, t, 0);
    lemma_shift_lit(keyword() + seq![' ', '"'], rest, 0);
    assert(x.subrange(0, x.len() as int) =~= x);
    assert(after_keyword(s, 0) == (d.len() as int, Some(x)));
    lemma_shift_scan(d, t, 0);
}

/// A line comment, with no newline inside, hides what it holds.
pub proof fn law_line_comment(c: Seq<char>, t: Seq<char>)
    requires
        !c.contains('\n'),
    ensures
        scanned(seq!['/', '/'] + c + seq!['\n'] + t) == scanned(t),
{
    let d = seq!['/', '/'] + c + seq!['\n'];
    let s = d + t;
    assert(s[0] == '/' && s[1] == '/');
    assert(!keyword_at(s, 0)) by {
        if keyword_at(s, 0) {
            assert(s.subrange(0, 8)[0] == keyword()[0]);
        }
    }
    assert forall|j: int| 2 <= j <= c.len() + 2 implies line_end(s, j) == d.len() by {
        lemma_line_walk(c, t, j);
    }
    assert(search_step(s, 0) == d.len());
    lemma_same_find(s, 0, d.len() as int);
    lemma_shift_scan(d, t, 0);
}

proof fn lemma_line_walk(c: Seq<char>, t: Seq<char>, j: int)
    requires
        !c.contains('\n'),
        2 <= j <= c.len() + 2,
    ensures
        line_end(seq!['/', '/'] + c + seq!['\n'] + t, j) == c.len() + 3,
    decreases c.len() + 2 - j,
{
    let s = seq!['/', '/'] + c + seq!['\n'] + t;
    if j < c.len() + 2 {
        assert(s[j] == c[j - 2]);
        lemma_line_walk(c, t, j + 1);
    } else {
        assert(s[j] == '\n');
    }
}

/// The characters of `c` hold no `*/`.
pub open spec fn no_close(c: Seq<char>) -> bool {
    forall|j: int| 0 <= j < c.len() - 1 ==> !(#[trigger] c[j] == '*' && c[j + 1] == '/')
}

proof fn lemma_block_walk(c: Seq<char>, t: Seq<char>, j: int)
    requires
        no_close(c),
        2 <= j <= c.len() + 2,
    ensures
        block_end(seq!['/', '*'] + c + seq!['*', '/'] + t, j) == c.len() + 4,
    decreases c.len() + 2 - j,
{
    let s = seq!['/', '*'] + c + seq!['*', '/'] + t;
    if j < c.len() + 2 {
        assert(s[j] == c[j - 2]);
        if j + 1 < c.len() + 2 {
            assert(s[j + 1] == c[j - 1]);
        } else {
            assert(s[j + 1] == '*');
        }
        lemma_block_walk(c, t, j + 1);
    } else {
        assert(s[j] == '*' && s[j + 1] == '/');
    }
}

/// A closed block comment hides what it holds.
pub proof fn law_block_comment(c: Seq<char>, t: Seq<char>)
    requires
        no_close(c),
    ensures
        scanned(seq!['/', '*'] + c + seq!['*', '/'] + t) == scanned(t),
{
    let d = seq!['/', '*'] + c + seq!['*', '/'];
    let s = d + t;
    assert(s[0] == '/' && s[1] == '*');
    assert(!keyword_at(s, 0)) by {
        if keyword_at(s, 0) {
            assert(s.subrange(0, 8)[0] == keyword()[0]);
        }
    }
    lemma_block_walk(c, t, 2);
    assert(search_step(s, 0) == d.len());
    lemma_same_find(s, 0, d.len() as int);
    lemma_shift_scan(d, t, 0);
}

/// A string literal hides what it holds, a directive included.
pub proof fn law_string(c: Seq<char>, t: Seq<char>)
    requires
        verbatim(c),
    ensures
        scanned(seq!['"'] + c + seq!['"'] + t) == scanned(t),
{
    let d = seq!['"'] + c + seq!['"'];
    let s = d + t;
    assert(s[0] == '"');
    assert(!keyword_at(s, 0)) by {
        if keyword_at(s, 0) {
            assert(s.subrange(0, 8)[0] == keyword()[0]);
        }
    }
    let rest = c + seq!['"'] + t;
    assert(s =~= seq!['"'] + rest);
    lemma_verbatim_lit(c, t, 0);
    lemma_shift_lit(seq!['"'], rest, 0);
    assert(search_step(s, 0) == d.len());
    lemma_same_find(s, 0, d.len() as int);
    lemma_shift_scan(d, t, 0);
}

/// A directive in angle brackets yields nothing, and the scan goes on after it.
pub proof fn law_angle(h: Seq<char>, t: Seq<char>)
    requires
        forall|j: int| 0 <= j < h.len() ==> plain(#[trigger] h[j]),
    ensures
        scanned(keyword() + seq!['<'] + h + seq!['>'] + t) == scanned(t),
{
    let d = keyword() + seq!['<'] + h + seq!['>'];
    let s = d + t;
    assert(s.subrange(0, 8) =~= keyword());
    assert(s[8] == '<');
    assert(!white_space(s[8]));
    assert(ws_end(s, 8) == 8);
    assert(after_keyword(s, 0) == (8int, None::<Seq<char>>));
    assert forall|j: int| 8 <= j < d.len() implies plain(#[trigger] s[j]) by {
        if 9 <= j < 9 + h.len() {
            assert(s[j] == h[j - 9]);
        }
    }
    lemma_plain_walk(s, 8, d.len() as int);
    lemma_same_find(s, 8, d.len() as int);
    lemma_shift_scan(d, t, 0);
}

/// How an escaped character decodes: a backslash and a quote stand for themselves, `n` and
/// `t` for a newline and a tab, and any other character for itself.
pub proof fn law_escape(c: char)
    ensures
        lit_content(seq!['\\', c, '"'], 0) == seq![unescape(c)],
        unescape('\\') == '\\',
        unescape('"') == '"',
        unescape('n') == '\n',
        unescape('t') == '\t',
        c != 'n' && c != 't' ==> unescape(c) == c,
{
    let s = seq!['\\', c, '"'];
    assert(lit_content(s, 3) == Seq::<char>::empty());
    assert(lit_content(s, 2) == Seq::<char>::empty());
    assert(seq![unescape(c)] + Seq::<char>::empty() =~= seq![unescape(c)]);
}

} // verus!
