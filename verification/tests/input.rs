use mini_arith::input::{is_whitespace_char, parse_multiplicand, ParseError};

fn refused(line: &str) -> bool {
    parse_multiplicand(line) == Err(ParseError::InvalidNumericInput)
}

#[test]
fn plain_number_is_read() {
    assert_eq!(parse_multiplicand("5"), Ok(5));
    assert_eq!(parse_multiplicand("0"), Ok(0));
    assert_eq!(parse_multiplicand("42"), Ok(42));
    assert_eq!(parse_multiplicand("1234567890"), Ok(1_234_567_890));
}

#[test]
fn padded_negative_number_is_read() {
    assert_eq!(parse_multiplicand("  -3  "), Ok(-3));
}

#[test]
fn line_as_it_comes_from_a_terminal_is_read() {
    assert_eq!(parse_multiplicand("5\n"), Ok(5));
    assert_eq!(parse_multiplicand("5\r\n"), Ok(5));
    assert_eq!(parse_multiplicand("\t 17 \r\n"), Ok(17));
    assert_eq!(parse_multiplicand("\u{b}\u{c}-8\u{85}"), Ok(-8));
    assert_eq!(parse_multiplicand("\u{3000}12\u{a0}\u{2003}\u{2028}"), Ok(12));
}

#[test]
fn letters_are_refused() {
    assert_eq!(parse_multiplicand("abc"), Err(ParseError::InvalidNumericInput));
}

#[test]
fn empty_and_blank_lines_are_refused() {
    assert_eq!(parse_multiplicand(""), Err(ParseError::InvalidNumericInput));
    assert!(refused("\n"));
    assert!(refused("   "));
    assert!(refused(" \t\r\n"));
}

#[test]
fn signs_are_read() {
    assert_eq!(parse_multiplicand("+7"), Ok(7));
    assert_eq!(parse_multiplicand("-7"), Ok(-7));
    assert_eq!(parse_multiplicand("-0"), Ok(0));
    assert_eq!(parse_multiplicand("+0"), Ok(0));
    assert!(refused("-"));
    assert!(refused("+"));
    assert!(refused("+-5"));
    assert!(refused("--5"));
    assert!(refused("-+5"));
    assert!(refused("5-"));
    assert!(refused("- 5"));
    assert!(refused("\u{2212}5"));
}

#[test]
fn leading_zeros_are_read() {
    assert_eq!(parse_multiplicand("007"), Ok(7));
    assert_eq!(parse_multiplicand("-000000000000000000000000000012"), Ok(-12));
    assert_eq!(parse_multiplicand("00000000000000000000002147483647"), Ok(i32::MAX));
    assert!(refused("00000000000000000000002147483648"));
}

#[test]
fn limits_of_the_type_are_read_and_no_more() {
    assert_eq!(parse_multiplicand("2147483647"), Ok(i32::MAX));
    assert_eq!(parse_multiplicand("+2147483647"), Ok(i32::MAX));
    assert_eq!(parse_multiplicand("-2147483648"), Ok(i32::MIN));
    assert!(refused("2147483648"));
    assert!(refused("-2147483649"));
    assert!(refused("21474836470"));
    assert!(refused("4294967296"));
    assert!(refused("4294967301"));
    assert!(refused("18446744073709551621"));
    assert!(refused("99999999999999999999999999999999999999999"));
    assert!(refused("-99999999999999999999999999999999999999999"));
}

#[test]
fn other_content_is_refused() {
    assert!(refused("5 5"));
    assert!(refused("5.0"));
    assert!(refused("1_000"));
    assert!(refused("1,000"));
    assert!(refused("0x10"));
    assert!(refused("1e3"));
    assert!(refused("12a"));
    assert!(refused("a12"));
    assert!(refused("\u{663}"));
    assert!(refused("\u{ff15}"));
    assert!(refused("5\u{200b}"));
    assert!(refused("\u{feff}5"));
    assert!(refused("5\0"));
    assert!(refused("/"));
    assert!(refused(":"));
}

#[test]
fn white_space_is_the_unicode_property() {
    let mut count = 0;
    for code in 0..=0x10_ffff_u32 {
        if let Some(c) = char::from_u32(code) {
            assert_eq!(is_whitespace_char(c), c.is_whitespace(), "U+{code:04X}");
            if is_whitespace_char(c) {
                count += 1;
            }
        }
    }
    assert_eq!(count, 25);
}

#[test]
fn reading_agrees_with_the_standard_parser() {
    let alphabet = [
        '0', '1', '9', '+', '-', ' ', '\n', '\t', 'a', '\u{a0}', '\u{3000}', '7', '/', ':',
    ];
    let n = alphabet.len();
    let mut tried = 0;
    for length in 0..=4 {
        let total = n.pow(length);
        for mut index in 0..total {
            let mut line = String::new();
            for _ in 0..length {
                line.push(alphabet[index % n]);
                index /= n;
            }
            let expected = line.trim().parse::<i32>().ok();
            assert_eq!(parse_multiplicand(&line).ok(), expected, "line {line:?}");
            tried += 1;
        }
    }
    assert_eq!(tried, 1 + 14 + 196 + 2744 + 38416);
}

#[test]
fn every_number_near_the_limits_is_read_back() {
    let mut values: Vec<i64> = Vec::new();
    for delta in -20..=20_i64 {
        values.push(i64::from(i32::MAX) + delta);
        values.push(i64::from(i32::MIN) + delta);
        values.push(delta);
        values.push(10_i64.pow(9) + delta);
        values.push(-(10_i64.pow(9)) + delta);
        values.push(i64::from(u32::MAX) + delta);
    }
    for v in values {
        let line = format!(" {v}\n");
        let expected = i32::try_from(v).ok();
        assert_eq!(parse_multiplicand(&line).ok(), expected, "value {v}");
        assert_eq!(line.trim().parse::<i32>().ok(), expected);
    }
}
