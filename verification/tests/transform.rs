use justify::ascii;
use justify::transform;

#[test]
fn lib_simple() {
    let test_cases = [
        ("", 5, ""),
        ("test", 5, "test "),
        ("Lorem ipsum dolor sit amet consectetur adipiscing elit sed do eiusmod tempor incididunt ut labore et dolore magna aliqua", 12,
         "Lorem  ipsum\ndolor    sit\namet        \nconsectetur \nadipiscing  \nelit  sed do\neiusmod     \ntempor      \nincididunt  \nut labore et\ndolore magna\naliqua      "),
        ("Lorem     ipsum    dolor", 17, "Lorem ipsum dolor"),
        ("Lorem     ipsum    dolor", 18, "Lorem  ipsum dolor"),
    ];

    for &(input, line_width, expected) in &test_cases {
        println!("input: '{}'", input);
        assert_eq!(transform(input, line_width), expected);
    }
}

#[test]
fn ascii_simple() {
    let test_cases = [
        ("", 5, ""),
        ("test", 5, "test "),
        ("Lorem     ipsum    dolor", 17, "Lorem ipsum dolor"),
        ("Lorem     ipsum    dolor", 18, "Lorem  ipsum dolor"),
        ("Lorem ipsum dolor sit amet consectetur adipiscing elit sed do eiusmod tempor incididunt ut labore et dolore magna aliqua", 12,
         "Lorem  ipsum\ndolor    sit\namet        \nconsectetur \nadipiscing  \nelit  sed do\neiusmod     \ntempor      \nincididunt  \nut labore et\ndolore magna\naliqua      "),
        ("Lorem     ipsum    dolor", 17, "Lorem ipsum dolor"),
        ("Lorem     ipsum    dolor", 18, "Lorem  ipsum dolor"),
    ];

    for &(input, line_width, expected) in &test_cases {
        println!("input: '{}'", input);
        assert_eq!(ascii::transform(input, line_width), expected);
    }
}

#[test]
fn identity_on_trivial_input() {
    // Empty input, any width.
    assert_eq!(transform("", 0), "");
    assert_eq!(transform("", 9), "");
    assert_eq!(ascii::transform("", 3), "");

    // Zero width, any input.
    assert_eq!(transform("no work to do", 0), "no work to do");
    assert_eq!(ascii::transform("no work to do", 0), "no work to do");

    // Input that trims to empty.
    assert_eq!(transform("   \t \n ", 7), "   \t \n ");
    assert_eq!(ascii::transform("   \t \n ", 7), "   \t \n ");
    assert_eq!(transform("\u{a0}\u{2003}", 4), "\u{a0}\u{2003}");
}

#[test]
fn overlong_word_keeps_its_own_line() {
    // A word longer than the width is never broken: it overflows alone,
    // and the final line is padded to the width.
    assert_eq!(transform("aaaaaaaaaa bb", 5), "aaaaaaaaaa\nbb   ");
    assert_eq!(ascii::transform("aaaaaaaaaa bb", 5), "aaaaaaaaaa\nbb   ");
    assert_eq!(transform("aaaaaaaaaa", 5), "aaaaaaaaaa");
}

#[test]
fn every_broken_line_fills_the_width() {
    let out = transform("The quick brown fox", 10);
    assert_eq!(out, "The  quick\nbrown  fox");
    for line in out.split('\n') {
        assert_eq!(line.chars().count(), 10);
    }
}

#[test]
fn last_line_single_word_gets_trailing_spaces() {
    assert_eq!(transform("alpha beta gamma", 5), "alpha\nbeta \ngamma");
    assert_eq!(transform("ab cd ef", 5), "ab cd\nef   ");
}

#[test]
fn only_line_is_still_padded_to_width() {
    // A single line of two words takes the same distribution rule: the one
    // gap absorbs all slack plus the mandatory separator.
    assert_eq!(transform("dolor sit", 12), "dolor    sit");
}

#[test]
fn large_slack_line_follows_documented_formula() {
    // Breaking on a long word can leave a three-word line with slack at or
    // above its word count; the documented quotient/remainder formula then
    // yields no padding at all.
    assert_eq!(transform("ab cd ef ghi", 11), "abcdef\nghi        ");
}

#[test]
fn words_are_preserved_in_order() {
    let input = "one two three four five six seven";
    let out = transform(input, 9);
    let in_words: Vec<&str> = input.split_whitespace().collect();
    let out_words: Vec<&str> = out.split_whitespace().collect();
    assert_eq!(in_words, out_words);
}

#[test]
fn separator_sets_differ_between_variants() {
    // U+00A0 is Unicode whitespace but not ASCII whitespace.
    assert_eq!(transform("a\u{a0}b c", 6), "a  b c");
    assert_eq!(ascii::transform("one\u{2003}two x", 9), "one\u{2003}two x");
}
