use minigrep::search;
use minigrep::search_case_insensitive;
use minigrep::split_lines;
use minigrep::str_contains;

#[test]
fn one_result() {
    let query = "orld";
    let contents = "\
        hello world, I am very
        happy today";

    assert_eq!(vec!["hello world, I am very"], search(query, contents));
}

#[test]
fn case_insensitive_test() {
    let query = "WorLd";
    let contents = "\
        hello world, I am very
        happy today";

    assert_eq!(
        vec!["hello world, I am very"],
        search_case_insensitive(query, contents)
    );
}

#[test]
fn empty_query_matches_every_line() {
    let contents = "first line\nsecond line\nthird line";
    assert_eq!(
        vec!["first line", "second line", "third line"],
        search("", contents)
    );
}

#[test]
fn search_is_deterministic() {
    let query = "duct";
    let contents = "safe, fast, productive.\nPick three.\nDuct tape.";
    assert_eq!(search(query, contents), search(query, contents));
}

#[test]
fn case_insensitive_is_never_stricter() {
    let query = "to";
    let contents = "Today is new.\nStop to listen.\nnothing here";
    let sensitive = search(query, contents);
    let insensitive = search_case_insensitive(query, contents);
    for line in &sensitive {
        assert!(insensitive.contains(line));
    }
    // the sensitive matches appear in the insensitive result in the same order
    let narrowed: Vec<&str> = insensitive
        .iter()
        .copied()
        .filter(|line| str_contains(line, query))
        .collect();
    assert_eq!(narrowed, sensitive);
}

#[test]
fn no_match_is_empty_not_an_error() {
    let results = search("absent", "one line\nanother line");
    assert!(results.is_empty());
}

#[test]
fn matches_keep_file_order() {
    let contents = "alpha x\nbeta\ngamma x\ndelta x";
    assert_eq!(vec!["alpha x", "gamma x", "delta x"], search("x", contents));
}

#[test]
fn carriage_return_is_stripped_before_matching() {
    let contents = "one\r\ntwo\r\nthree";
    assert_eq!(vec!["one", "two", "three"], search("", contents));
    assert_eq!(vec!["one"], search("one", contents));
}

#[test]
fn final_carriage_return_without_line_feed_is_kept() {
    let contents = "ab\r";
    assert_eq!(vec!["ab\r"], search("", contents));
}

#[test]
fn trailing_line_feed_adds_no_empty_line() {
    assert_eq!(vec!["a", "b"], split_lines("a\nb\n"));
    assert_eq!(vec!["a", "", "b"], split_lines("a\n\nb"));
    assert_eq!(Vec::<&str>::new(), split_lines(""));
    assert_eq!(vec![""], split_lines("\n"));
}

#[test]
fn empty_contents_gives_no_results() {
    assert_eq!(Vec::<&str>::new(), search("anything", ""));
    assert_eq!(Vec::<&str>::new(), search("", ""));
}

#[test]
fn containment_is_exact_substring() {
    assert!(str_contains("hello world", "o w"));
    assert!(str_contains("hello", ""));
    assert!(str_contains("", ""));
    assert!(!str_contains("", "a"));
    assert!(!str_contains("short", "much too long"));
    assert!(!str_contains("hello", "He"));
}

#[test]
fn lowering_handles_non_ascii() {
    let contents = "GRÜSSE aus Wien\nnothing";
    assert_eq!(
        vec!["GRÜSSE aus Wien"],
        search_case_insensitive("grüsse", contents)
    );
}

#[test]
fn insensitive_returns_original_casing() {
    let contents = "MiXeD CaSe LiNe\nplain line";
    assert_eq!(
        vec!["MiXeD CaSe LiNe"],
        search_case_insensitive("mixed case", contents)
    );
}
