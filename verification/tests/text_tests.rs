use icbm::text::{chars_of, pad_right, split_lines, string_from_chars, u64_to_decimal};

#[test]
fn decimals() {
    assert_eq!(u64_to_decimal(0), "0");
    assert_eq!(u64_to_decimal(7), "7");
    assert_eq!(u64_to_decimal(1200), "1200");
    assert_eq!(u64_to_decimal(u64::MAX), u64::MAX.to_string());
}

#[test]
fn padding_counts_characters() {
    assert_eq!(pad_right("ab", 4), "ab  ");
    assert_eq!(pad_right("abcdef", 3), "abcdef");
    assert_eq!(pad_right("é", 3), format!("{:3}", "é"));
    assert_eq!(pad_right("", 2), "  ");
}

#[test]
fn lines_like_str_lines() {
    for text in ["", "a", "a\n", "a\nb", "a\r\nb\r\n", "\n\nx", "x\n\n", "a\rb\nc"] {
        let ours: Vec<String> = split_lines(text).iter().map(|l| l.iter().collect()).collect();
        let std: Vec<String> = text.lines().map(|l| l.to_string()).collect();
        assert_eq!(ours, std, "lines of {text:?}");
    }
}

#[test]
fn chars_round_trip() {
    let s = "hé🙂";
    let chars = chars_of(s);
    assert_eq!(chars, vec!['h', 'é', '🙂']);
    assert_eq!(string_from_chars(&chars), s);
}
