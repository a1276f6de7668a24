use ziran_engine::text::{
    chars_of, parse_u32, parse_u64, push_decimal, split_ranges, string_of, trim_range, utf8_len_range,
    whitespace,
};

#[test]
fn whitespace_agrees_with_std_on_every_char() {
    for u in 0u32..=0x10FFFF {
        if let Some(c) = char::from_u32(u) {
            assert_eq!(whitespace(c), c.is_whitespace(), "U+{:04X}", u);
        }
    }
}

#[test]
fn decimal_digits_match_display() {
    for n in [0u64, 1, 9, 10, 99, 100, 12345, u32::MAX as u64, u64::MAX] {
        let mut s = String::from("x");
        push_decimal(&mut s, n);
        assert_eq!(s, format!("x{}", n));
    }
}

#[test]
fn numbers_parse_like_from_str() {
    let cases = ["0", "7", "+7", "007", "", "+", "-1", "1 ", "4294967295", "4294967296", "18446744073709551615", "18446744073709551616", "12a"];
    for c in cases {
        let v = chars_of(c);
        assert_eq!(parse_u64(&v, 0, v.len()), c.parse::<u64>().ok(), "{:?}", c);
        assert_eq!(parse_u32(&v, 0, v.len()), c.parse::<u32>().ok(), "{:?}", c);
    }
}

#[test]
fn split_and_trim_ranges() {
    let v = chars_of(" a\tb \t\tc ");
    let parts = split_ranges(&v, 0, v.len(), '\t');
    let pieces: Vec<String> = parts.iter().map(|&(a, b)| string_of(&v, a, b)).collect();
    assert_eq!(pieces, vec![" a", "b ", "", "c "]);
    let (a, b) = trim_range(&v, 0, v.len());
    assert_eq!(string_of(&v, a, b), "a\tb \t\tc");
}

#[test]
fn utf8_lengths() {
    let v = chars_of("a好😀é");
    assert_eq!(utf8_len_range(&v, 0, v.len()), "a好😀é".len());
    assert_eq!(utf8_len_range(&v, 1, 2), 3);
}
