use minigrep::lines::{lines, split_line, trim_carriage_return};
use minigrep::substring::contains;

#[test]
fn split_line_gives_the_first_line_and_the_rest() {
    assert_eq!(None, split_line(""));
    assert_eq!(Some(("a", "")), split_line("a"));
    assert_eq!(Some(("a", "")), split_line("a\n"));
    assert_eq!(Some(("a", "b\nc")), split_line("a\nb\nc"));
    assert_eq!(Some(("a", "b")), split_line("a\r\nb"));
    assert_eq!(Some(("", "")), split_line("\n"));
    assert_eq!(Some(("", "\n")), split_line("\n\n"));
    assert_eq!(Some(("a\r", "")), split_line("a\r"));
    assert_eq!(Some(("é", "ü")), split_line("é\nü"));
}

#[test]
fn empty_text_has_no_lines() {
    assert_eq!(Vec::<&str>::new(), lines(""));
}

#[test]
fn last_line_needs_no_line_feed() {
    assert_eq!(vec!["one"], lines("one"));
    assert_eq!(vec!["one", "two"], lines("one\ntwo"));
}

#[test]
fn final_line_feed_starts_no_line() {
    assert_eq!(vec!["one"], lines("one\n"));
    assert_eq!(vec!["one", "two"], lines("one\ntwo\n"));
    assert_eq!(vec!["one", ""], lines("one\n\n"));
}

#[test]
fn empty_lines_are_lines() {
    assert_eq!(vec![""], lines("\n"));
    assert_eq!(vec!["", ""], lines("\n\n"));
    assert_eq!(vec!["a", "", "b"], lines("a\n\nb"));
    assert_eq!(vec!["", "a"], lines("\na"));
}

#[test]
fn carriage_return_before_line_feed_is_dropped() {
    assert_eq!(vec!["one", "two"], lines("one\r\ntwo\r\n"));
    assert_eq!(vec![""], lines("\r\n"));
    assert_eq!(vec!["one", "", "two"], lines("one\r\n\r\ntwo"));
}

#[test]
fn only_one_carriage_return_is_dropped() {
    assert_eq!(vec!["one\r", "two"], lines("one\r\r\ntwo"));
}

#[test]
fn other_carriage_returns_are_kept() {
    assert_eq!(vec!["one\rtwo"], lines("one\rtwo"));
    assert_eq!(vec!["\rone", "two"], lines("\rone\ntwo"));
    assert_eq!(vec!["one\r"], lines("one\r"));
    assert_eq!(vec!["one", "two\r"], lines("one\ntwo\r"));
    assert_eq!(vec!["\r"], lines("\r"));
}

#[test]
fn lines_with_multi_byte_characters() {
    assert_eq!(vec!["héllo", "wörld", "日本語"], lines("héllo\r\nwörld\n日本語"));
    assert_eq!(vec!["é"], lines("é\n"));
    assert_eq!(vec!["𝄞", "𝄞"], lines("𝄞\n𝄞"));
}

#[test]
fn lines_agree_with_the_standard_library() {
    let samples = [
        "",
        "\n",
        "\r",
        "\r\n",
        "\n\r",
        "a",
        "a\n",
        "a\r\n",
        "a\n\r\nb",
        "a\r\r\n\rb\r",
        "one\ntwo\nthree",
        "α\nβ\r\nγ\n",
        "tab\there\n  spaces  \n",
        "\u{85}next line\n\u{2028}separator",
        "\n\n\n",
    ];
    for sample in samples {
        let expected: Vec<&str> = sample.lines().collect();
        assert_eq!(expected, lines(sample));
    }
}

#[test]
fn trim_drops_one_carriage_return_at_the_end() {
    assert_eq!("", trim_carriage_return(""));
    assert_eq!("", trim_carriage_return("\r"));
    assert_eq!("a", trim_carriage_return("a\r"));
    assert_eq!("a\r", trim_carriage_return("a\r\r"));
    assert_eq!("a", trim_carriage_return("a"));
    assert_eq!("\ra", trim_carriage_return("\ra"));
    assert_eq!("é", trim_carriage_return("é\r"));
    assert_eq!("a\n", trim_carriage_return("a\n"));
}

#[test]
fn contains_finds_a_run_anywhere() {
    assert!(contains("haystack", "hay"));
    assert!(contains("haystack", "yst"));
    assert!(contains("haystack", "stack"));
    assert!(contains("haystack", "haystack"));
    assert!(!contains("haystack", "haystacks"));
    assert!(!contains("haystack", "hat"));
    assert!(!contains("haystack", "Hay"));
    assert!(!contains("", "a"));
}

#[test]
fn empty_text_is_in_every_text() {
    assert!(contains("", ""));
    assert!(contains("a", ""));
    assert!(contains("日本語", ""));
}

#[test]
fn contains_after_a_false_start() {
    assert!(contains("aaab", "aab"));
    assert!(contains("abababc", "ababc"));
    assert!(!contains("ababab", "abc"));
}

#[test]
fn contains_with_multi_byte_characters() {
    assert!(contains("naïve café", "ïve"));
    assert!(contains("naïve café", "é"));
    assert!(!contains("café", "e"));
    assert!(!contains("é", "e"));
    assert!(contains("日本語のテキスト", "のテ"));
    assert!(!contains("日本語", "語日"));
    assert!(contains("a𝄞b", "𝄞b"));
}

#[test]
fn contains_agrees_with_the_standard_library() {
    let texts = ["", "a", "ab", "aab", "abab", "é", "aé", "éa", "ʼn", "日本", "a\nb", "ΑΣΑ"];
    for hay in texts {
        for needle in texts {
            assert_eq!(hay.contains(needle), contains(hay, needle));
        }
    }
}
