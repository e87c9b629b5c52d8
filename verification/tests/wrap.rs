use mouse_testing::wrap::textwrap;

#[test]
fn words_fill_each_line_up_to_the_width() {
    assert_eq!(textwrap("the quick brown fox", 10), vec!["the quick", "brown fox"]);
    assert_eq!(textwrap("the quick brown fox", 9), vec!["the quick", "brown fox"]);
    assert_eq!(textwrap("the quick brown fox", 8), vec!["the", "quick", "brown", "fox"]);
}

#[test]
fn a_word_longer_than_the_width_stands_alone() {
    assert_eq!(textwrap("a verylongwordhere b", 5), vec!["a", "verylongwordhere", "b"]);
}

#[test]
fn any_white_space_separates_and_runs_of_it_collapse() {
    assert_eq!(textwrap("  one\ttwo\n\nthree  ", 76), vec!["one two three"]);
}

#[test]
fn nothing_but_white_space_gives_no_lines() {
    assert!(textwrap("   \n\t ", 10).is_empty());
    assert!(textwrap("", 10).is_empty());
}

#[test]
fn width_counts_bytes_not_characters() {
    // Each "é" is two bytes, so "é é" takes five.
    assert_eq!(textwrap("é é é", 4), vec!["é", "é", "é"]);
    assert_eq!(textwrap("é é é", 5), vec!["é é", "é"]);
}

#[test]
fn zero_width_puts_every_word_on_its_own_line() {
    assert_eq!(textwrap("a b c", 0), vec!["a", "b", "c"]);
}

#[test]
fn every_line_fits_or_is_one_long_word() {
    let text = "a bb ccc dddd eeeee ffffffffffffffff g hh";
    for width in 0..20 {
        for line in textwrap(text, width) {
            assert!(line.len() <= width || !line.contains(' '), "{line:?} at {width}");
        }
    }
}

#[test]
fn wrapping_keeps_every_word_in_order() {
    let text = " the  quick\tbrown fox jumps over\nthe lazy dog ";
    let words: Vec<&str> = text.split_whitespace().collect();
    for width in 0..30 {
        assert_eq!(textwrap(text, width).join(" "), words.join(" "));
    }
}
