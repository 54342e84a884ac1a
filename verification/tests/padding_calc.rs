#[test]
fn padding() {
    let cases = [
        (0, 0, 5, (0, 0)),
        (1, 4, 6, (2, 0)),
        (1, 5, 5, (0, 0)),
        (3, 17, 17, (1, 0)),
        (3, 17, 18, (1, 1)),
        (2, 9, 12, (4, 0)),
    ];

    for (words, width, line_width, expected) in cases.into_iter() {
        println!("test: w={words},\tl={width},\tm={line_width},\texpected: {expected:?}");
        assert_eq!(justify::padding(words, width, line_width), expected);
    }
}

#[test]
fn padding_one_per_gap_when_slack_is_small() {
    // diff below the word count: one space per gap, diff gaps get one more.
    assert_eq!(justify::padding(4, 10, 13), (1, 3));
    assert_eq!(justify::padding(5, 20, 21), (1, 1));
}

#[test]
fn padding_single_and_double_word_lines() {
    // One word: all slack becomes trailing padding.
    assert_eq!(justify::padding(1, 7, 12), (5, 0));
    // Two words: the one gap takes the slack plus the mandatory separator.
    assert_eq!(justify::padding(2, 5, 9), (5, 0));
}

#[test]
fn padding_large_slack_formula() {
    // Three or more words with slack at or above the word count follow the
    // quotient/remainder formula as documented.
    assert_eq!(justify::padding(3, 5, 10), (0, 3));
    assert_eq!(justify::padding(3, 5, 8), (0, 0));
    assert_eq!(justify::padding(4, 7, 12), (0, 4));
}
