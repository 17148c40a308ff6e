use header_deper::parser::{eat_comment, eat_string, eat_whitespace, match_include, match_include_line, match_string, parse_includes};

#[test]
fn test_eat_whitespace() {
    assert_eq!(eat_whitespace("  k  "), "k  ");
    assert_eq!(eat_whitespace("tk  "), "tk  ");
    assert_eq!(eat_whitespace(""), "");
}

#[test]
fn test_match_include() {
    assert_eq!(match_include("kaljbdflkjbaljfb"), None);
    assert_eq!(match_include("#include"), Some(""));
    assert_eq!(match_include("#includelkejfhqghbbqwhebdkhqbekjdhb"), Some("lkejfhqghbbqwhebdkhqbekjdhb"));
    assert_eq!(match_include(" d    dlkjh #includelkejfhqghbbqwhebdkhqbekjdhb"), Some("lkejfhqghbbqwhebdkhqbekjdhb"));
}

#[test]
fn test_match_string() {
    assert_eq!(match_string("\"hello, world\"abc"), ("abc", Some("hello, world".to_string())));
    assert_eq!(match_string("\"hello, world\""), ("", Some("hello, world".to_string())));
    assert_eq!(match_string("\"hello, \\\\world\"abc"), ("abc", Some("hello, \\world".to_string())));
    assert_eq!(match_string("\"hello, \\\"world\"abc"), ("abc", Some("hello, \"world".to_string())));
    assert_eq!(match_string("  \"hello, \\\\world\"abc"), ("abc", Some("hello, \\world".to_string())));
    assert_eq!(match_string("a  \"hello, \\\\world\"abc").1, None);
}

#[test]
fn test_eat_string() {
    assert_eq!(eat_string("\"abhdflasbfhabdf\\\"akjhljahdf\""), "");
    assert_eq!(eat_string("\"abhdflasbfhabdf\\\"akjhljahdf\"djalfjlh"), "djalfjlh");
}

#[test]
fn test_parse() {
    assert_eq!(
        parse_includes(r##"
        // Some comment here
        // #include "commented"
        #include <fuckyou2.h>
        #include "aime.h"
        #include "aime.c"
        #include <fuckyou.h>
        "there is #include "in_between string"fuck"
        "##),
        vec!["aime.h".to_string(), "aime.c".to_string()]
    );
}

#[test]
fn no_keyword_gives_nothing() {
    assert!(parse_includes("").is_empty());
    assert!(parse_includes("int main() { return \"x\"; } // plain").is_empty());
}

#[test]
fn names_come_in_source_order() {
    let text = "#include \"one.h\"\nint x;\n#include \"two.h\"\n#include \"three.h\"\n";
    assert_eq!(parse_includes(text), vec!["one.h".to_string(), "two.h".to_string(), "three.h".to_string()]);
}

#[test]
fn comments_and_strings_hide_directives() {
    let text = "/* #include \"a.h\" */ // #include \"b.h\"\n\"#include \\\"c.h\\\"\" #include \"d.h\"";
    assert_eq!(parse_includes(text), vec!["d.h".to_string()]);
}

#[test]
fn unterminated_block_comment_ends_scan() {
    assert!(parse_includes("/* open\n#include \"a.h\"\n").is_empty());
}

#[test]
fn angle_brackets_are_passed_over() {
    let text = "#include <stdio.h>\n#include <stdlib.h>\n#include \"mine.h\"";
    assert_eq!(parse_includes(text), vec!["mine.h".to_string()]);
}

#[test]
fn properties_example_text() {
    let text = "// #include \"commented.h\"\n#include <sys.h>\n#include \"a.h\"\n#include \"b.h\"\n\"text with #include \"embedded\" inside\"\n";
    assert_eq!(parse_includes(text), vec!["a.h".to_string(), "b.h".to_string()]);
}

#[test]
fn escapes_are_decoded() {
    assert_eq!(match_string("\"a\\\\b\"").1, Some("a\\b".to_string()));
    assert_eq!(match_string("\"a\\\"b\"").1, Some("a\"b".to_string()));
    assert_eq!(match_string("\"a\\nb\"").1, Some("a\nb".to_string()));
    assert_eq!(match_string("\"a\\tb\"").1, Some("a\tb".to_string()));
    assert_eq!(match_string("\"a\\qb\"").1, Some("aqb".to_string()));
}

#[test]
fn unterminated_literal_keeps_content() {
    assert_eq!(match_string("\"abc"), ("", Some("abc".to_string())));
    assert_eq!(parse_includes("#include \"open.h"), vec!["open.h".to_string()]);
}

#[test]
fn comment_is_eaten_whole() {
    assert_eq!(eat_comment("// note\nrest"), "rest");
    assert_eq!(eat_comment("/* note */rest"), "rest");
    assert_eq!(eat_comment("/* open"), "");
    assert_eq!(eat_comment("code"), "code");
}

#[test]
fn line_reading_reports_each_directive() {
    assert_eq!(match_include_line("x #include \"a.h\" y"), (" y", Some("a.h".to_string()), true));
    assert_eq!(match_include_line("#include <a.h> y"), ("<a.h> y", None, true));
    assert_eq!(match_include_line("nothing here"), ("nothing here", None, false));
}

#[test]
fn literal_at_start_is_skipped_whole() {
    assert_eq!(parse_includes("\"a\" #include \"b\""), vec!["b".to_string()]);
}
