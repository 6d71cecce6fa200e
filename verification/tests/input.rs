use game_tree::input::{parse_leaves, parse_word, space, split_words, InputParseError};

fn chars(text: &str) -> Vec<char> {
    text.chars().collect()
}

#[test]
fn a_line_of_scores_is_read_in_order() {
    assert_eq!(parse_leaves("3 5 6 9 1 2 0 -1\n"), Ok(vec![3, 5, 6, 9, 1, 2, 0, -1]));
}

#[test]
fn white_space_of_any_kind_and_amount_separates() {
    assert_eq!(parse_leaves("  1\t2 \r\n"), Ok(vec![1, 2]));
    assert_eq!(parse_leaves("1\u{a0}2\u{2003}3\u{3000}4"), Ok(vec![1, 2, 3, 4]));
    assert_eq!(parse_leaves("7"), Ok(vec![7]));
}

#[test]
fn an_empty_line_holds_no_scores() {
    assert_eq!(parse_leaves(""), Ok(vec![]));
    assert_eq!(parse_leaves("\n"), Ok(vec![]));
    assert_eq!(parse_leaves(" \t \n"), Ok(vec![]));
}

#[test]
fn signs_and_leading_zeros_are_accepted() {
    assert_eq!(parse_leaves("+5 -5 007 -0 +0"), Ok(vec![5, -5, 7, 0, 0]));
}

#[test]
fn the_whole_range_of_scores_is_accepted() {
    assert_eq!(parse_leaves("2147483647 -2147483648"), Ok(vec![i32::MAX, i32::MIN]));
    assert_eq!(parse_leaves("0000000000000000000002147483647"), Ok(vec![i32::MAX]));
}

#[test]
fn the_first_bad_word_is_reported() {
    assert_eq!(parse_leaves("1 2 x 4 y"), Err(InputParseError { word: 2 }));
    assert_eq!(parse_leaves("abc"), Err(InputParseError { word: 0 }));
    assert_eq!(parse_leaves(" 1  2.5"), Err(InputParseError { word: 1 }));
}

#[test]
fn scores_out_of_range_are_refused() {
    assert_eq!(parse_leaves("2147483648"), Err(InputParseError { word: 0 }));
    assert_eq!(parse_leaves("1 -2147483649"), Err(InputParseError { word: 1 }));
    assert_eq!(parse_leaves("99999999999999999999999999"), Err(InputParseError { word: 0 }));
}

#[test]
fn parse_word_agrees_with_the_standard_library() {
    let samples = [
        "", "0", "7", "-7", "+7", "-", "+", "--1", "+-1", "-+1", "1-", "1+", "12a", "a12", "1 2",
        "0x10", "1e3", "1_000", "١٢", "２", "2147483647", "2147483648", "-2147483648",
        "-2147483649", "21474836470", "4294967296", "-4294967296", "000", "-000", "+000",
        "00000000000000000000000000000000000000001", "18446744073709551616", "1.0", "٣",
    ];
    for sample in samples {
        let expected: Option<i32> = sample.parse::<i32>().ok();
        assert_eq!(parse_word(&chars(sample)), expected, "{:?}", sample);
    }
}

#[test]
fn split_words_agrees_with_the_standard_library() {
    let samples = [
        "", " ", "a", " a", "a ", "a b", "  a   b  ", "ab\tcd\nef", "a\u{b}b\u{c}c\rd",
        "a\u{85}b\u{a0}c\u{1680}d", "a\u{2000}b\u{200a}c\u{2028}d\u{2029}e",
        "a\u{202f}b\u{205f}c\u{3000}d", "a\u{200b}b", "a\u{1f}b", "a\u{180e}b", "a\u{feff}b",
        "3 5 6 9 1 2 0 -1\n",
    ];
    for sample in samples {
        let expected: Vec<Vec<char>> =
            sample.split_whitespace().map(|w| w.chars().collect()).collect();
        assert_eq!(split_words(&chars(sample)), expected, "{:?}", sample);
    }
}

#[test]
fn space_agrees_with_the_standard_library_on_every_character() {
    let mut code: u32 = 0;
    while code <= 0x10ffff {
        if let Some(c) = char::from_u32(code) {
            assert_eq!(space(c), c.is_whitespace(), "U+{:04X}", code);
        }
        code += 1;
    }
}
