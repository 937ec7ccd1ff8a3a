use minigrep::lines::split_first_line;
use minigrep::substring::{contains, same_text, starts_with};
use minigrep::{search, search_case_insensitive};

const POEM: &str = "\
Lorem ipsum dolor sit amet.
Id adipisci harum aut vero dolorem
vel consequatur veniam aut quis
cupiditate et maxime repellat.
LOREM IPSuM DOLOR SIt AMET.";

#[test]
fn case_sensitive() {
    let query = "Id";
    let contents = "\
Lorem ipsum dolor sit amet.
Id adipisci harum aut vero dolorem
vel consequatur veniam aut quis
cupiditate et maxime repellat.
LOREM IPSuM DOLOR SIt AMET.";
    let result = vec!["Id adipisci harum aut vero dolorem"];
    assert_eq!(result, search(query, contents));
}

#[test]
fn case_insensitive() {
    let query = "doLor";
    let contents = "\
Lorem ipsum dolor sit amet.
Id adipisci harum aut vero dolorem
vel consequatur veniam aut quis
cupiditate et maxime repellat.
LOREM IPSuM DOLOR SIt AMET.";
    let result = vec![
        "Lorem ipsum dolor sit amet.",
        "Id adipisci harum aut vero dolorem",
        "LOREM IPSuM DOLOR SIt AMET.",
    ];
    assert_eq!(result, search_case_insensitive(query, contents));
}

#[test]
fn case_sensitive_search_tells_cases_apart() {
    assert_eq!(search("dolor", POEM).len(), 2);
    assert_eq!(search("DOLOR", POEM), vec!["LOREM IPSuM DOLOR SIt AMET."]);
    assert!(search("doLor", POEM).is_empty());
}

#[test]
fn empty_text_has_no_lines() {
    assert!(search("a", "").is_empty());
    assert!(search("", "").is_empty());
    assert!(search_case_insensitive("", "").is_empty());
}

#[test]
fn no_match_gives_nothing() {
    assert!(search("zebra", POEM).is_empty());
    assert!(search_case_insensitive("zebra", POEM).is_empty());
}

#[test]
fn empty_query_returns_every_line() {
    let all: Vec<&str> = POEM.lines().collect();
    assert_eq!(all.len(), 5);
    assert_eq!(search("", POEM), all);
    assert_eq!(search_case_insensitive("", POEM), all);
    assert_eq!(search("", "a\n\nb\n"), vec!["a", "", "b"]);
}

#[test]
fn last_line_needs_no_line_ending() {
    assert_eq!(search("b", "a\nb"), vec!["b"]);
    assert_eq!(search("b", "a\nb\n"), vec!["b"]);
    assert_eq!(search("", "\n"), vec![""]);
    assert_eq!(search("", "\n\n"), vec!["", ""]);
}

#[test]
fn both_line_endings_are_accepted() {
    assert_eq!(search("o", "one\r\ntwo\nthree\r\nfour"), vec!["one", "two", "four"]);
    assert_eq!(search("", "one\r\n\r\ntwo\r\n"), vec!["one", "", "two"]);
}

#[test]
fn carriage_return_is_kept_where_no_line_feed_follows() {
    assert_eq!(search("", "a\rb\nc\r"), vec!["a\rb", "c\r"]);
    assert_eq!(search("", "a\r\r\nb"), vec!["a\r", "b"]);
    assert_eq!(search("\r", "a\r\nb\r"), vec!["b\r"]);
}

#[test]
fn a_line_with_several_matches_is_returned_once() {
    assert_eq!(search("ab", "ababab\nxx\nab ab"), vec!["ababab", "ab ab"]);
    assert_eq!(search("aa", "aaaa"), vec!["aaaa"]);
}

#[test]
fn lines_are_returned_verbatim() {
    assert_eq!(search("x", "  x  \n\tx\t\nx"), vec!["  x  ", "\tx\t", "x"]);
}

#[test]
fn returned_lines_are_slices_of_the_text() {
    let text = String::from("first\nsecond\r\nthird");
    let range = text.as_bytes().as_ptr_range();
    let found = search("i", &text);
    assert_eq!(found, vec!["first", "third"]);
    for line in found {
        assert!(range.contains(&line.as_ptr()));
    }
}

#[test]
fn text_beyond_ascii_is_searched_by_character() {
    let text = "na\u{ef}ve caf\u{e9}\n\u{65e5}\u{672c}\u{8a9e}\r\n\u{1f600} smile\nplain";
    assert_eq!(search("\u{e9}", text), vec!["na\u{ef}ve caf\u{e9}"]);
    assert_eq!(search("\u{672c}", text), vec!["\u{65e5}\u{672c}\u{8a9e}"]);
    assert_eq!(search("\u{1f600} s", text), vec!["\u{1f600} smile"]);
    assert_eq!(search("e", text), vec!["na\u{ef}ve caf\u{e9}", "\u{1f600} smile"]);
    assert_eq!(search("", text).len(), 4);
}

#[test]
fn search_is_repeatable() {
    let first = search("dolor", POEM);
    let second = search("dolor", POEM);
    assert_eq!(first, second);
    assert_eq!(search_case_insensitive("DOLOR", POEM), search_case_insensitive("DOLOR", POEM));
}

#[test]
fn ignoring_case_returns_lines_in_their_own_case() {
    assert_eq!(
        search_case_insensitive("IPSUM", POEM),
        vec!["Lorem ipsum dolor sit amet.", "LOREM IPSuM DOLOR SIt AMET."]
    );
    assert_eq!(search_case_insensitive("rust", "Trust me\nRUST\nrest"), vec!["Trust me", "RUST"]);
}

#[test]
fn ignoring_case_lowercases_the_query_too() {
    assert_eq!(search_case_insensitive("RUST", "rust\nnothing"), vec!["rust"]);
    assert_eq!(search_case_insensitive("\u{c4}PFEL", "\u{e4}pfel\nApfel"), vec!["\u{e4}pfel"]);
}

#[test]
fn search_agrees_with_the_standard_library() {
    let texts = [
        "",
        "\n",
        "\r\n",
        "\r",
        "a",
        "a\n",
        "a\r\n",
        "a\r",
        "\na",
        "a\n\nb",
        "a\r\n\r\nb\r\n",
        "a\r\rb\n\rc\r\n\n",
        "caf\u{e9}\n\u{e9}\r\n\u{1f600}\n",
        POEM,
    ];
    let queries = ["", "a", "b", "\r", "\u{e9}", "dolor", "a\r", "m\u{e9}"];
    for text in texts {
        for query in queries {
            let expected: Vec<&str> = text.lines().filter(|line| line.contains(query)).collect();
            assert_eq!(search(query, text), expected, "{:?} in {:?}", query, text);
            let folded = query.to_lowercase();
            let expected_folded: Vec<&str> =
                text.lines().filter(|line| line.to_lowercase().contains(&folded)).collect();
            assert_eq!(search_case_insensitive(query, text), expected_folded);
        }
    }
}

#[test]
fn first_line_is_cut_at_the_first_line_feed() {
    assert_eq!(split_first_line(""), ("", ""));
    assert_eq!(split_first_line("abc"), ("abc", ""));
    assert_eq!(split_first_line("abc\r"), ("abc\r", ""));
    assert_eq!(split_first_line("abc\ndef\nghi"), ("abc", "def\nghi"));
    assert_eq!(split_first_line("abc\r\ndef"), ("abc", "def"));
    assert_eq!(split_first_line("\nabc"), ("", "abc"));
    assert_eq!(split_first_line("\r\n"), ("", ""));
    assert_eq!(split_first_line("\u{e9}\u{1f600}\r\n\u{e9}"), ("\u{e9}\u{1f600}", "\u{e9}"));
}

#[test]
fn containment_is_literal() {
    assert!(contains("hello world", "o w"));
    assert!(contains("hello", ""));
    assert!(contains("", ""));
    assert!(contains("hello", "hello"));
    assert!(contains("hello", "lo"));
    assert!(!contains("hello", "hello!"));
    assert!(!contains("", "a"));
    assert!(!contains("hello", "L"));
    assert!(!contains("a.c", "abc"));
    assert!(contains("a*c", "*"));
    assert!(contains("aab", "ab"));
    assert!(contains("caf\u{e9}", "\u{e9}"));
    assert!(!contains("caf\u{e9}", "\u{e8}"));
}

#[test]
fn prefixes_and_equality() {
    assert!(starts_with("--flag", "--"));
    assert!(starts_with("--", "--"));
    assert!(starts_with("abc", ""));
    assert!(!starts_with("-", "--"));
    assert!(!starts_with("a--", "--"));
    assert!(!starts_with("", "--"));
    assert!(same_text("true", "true"));
    assert!(same_text("", ""));
    assert!(!same_text("true", "True"));
    assert!(!same_text("true", "true "));
    assert!(!same_text("tru", "true"));
}
