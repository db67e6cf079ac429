use ip_indexer::ip::ip_range_bounds::{BoundError, BoundErrorKind, IpRangeBounds};

fn parsed(text: &str) -> (u8, u8) {
    let bounds = IpRangeBounds::from_str(text).expect("the text denotes an interval");
    (bounds.lower(), bounds.upper())
}

fn refused(text: &str) -> BoundError {
    match IpRangeBounds::from_str(text) {
        Ok(bounds) => panic!("{:?} was read as {}-{}", text, bounds.lower(), bounds.upper()),
        Err(error) => error,
    }
}

#[test]
fn full_byte_range() {
    assert_eq!(parsed("0-255"), (0, 255));
}

#[test]
fn single_value_is_degenerate_range() {
    assert_eq!(parsed("7"), (7, 7));
    assert_eq!(parsed("0"), (0, 0));
    assert_eq!(parsed("255"), (255, 255));
}

#[test]
fn ordinary_ranges() {
    assert_eq!(parsed("10-20"), (10, 20));
    assert_eq!(parsed("3-3"), (3, 3));
    assert_eq!(parsed("0-0"), (0, 0));
    assert_eq!(parsed("255-255"), (255, 255));
    assert_eq!(parsed("99-100"), (99, 100));
}

#[test]
fn surrounding_whitespace_is_trimmed() {
    assert_eq!(parsed(" 1-2 "), (1, 2));
    assert_eq!(parsed("\t7\n"), (7, 7));
    assert_eq!(parsed("\u{a0}\u{2003} 12-13 \u{3000}\r\n"), (12, 13));
}

#[test]
fn inner_whitespace_is_invalid() {
    assert_eq!(refused("1 - 2").kind, BoundErrorKind::InvalidBound);
    assert_eq!(refused("1 -2").kind, BoundErrorKind::InvalidBound);
    assert_eq!(refused("1- 2").kind, BoundErrorKind::InvalidBound);
    assert_eq!(refused("1 2").kind, BoundErrorKind::InvalidBound);
}

#[test]
fn leading_zeros_and_plus_sign_are_read() {
    assert_eq!(parsed("007"), (7, 7));
    assert_eq!(parsed("000000000000000000000000255"), (255, 255));
    assert_eq!(parsed("+5"), (5, 5));
    assert_eq!(parsed("+1-+2"), (1, 2));
    assert_eq!(parsed("00-0010"), (0, 10));
}

#[test]
fn out_of_range_value_is_invalid() {
    assert_eq!(refused("256").kind, BoundErrorKind::InvalidBound);
}

#[test]
fn inverted_range_is_inverted() {
    assert_eq!(refused("5-3").kind, BoundErrorKind::InvertedBound);
}

#[test]
fn non_numeric_part_is_invalid() {
    assert_eq!(refused("a-10").kind, BoundErrorKind::InvalidBound);
}

#[test]
fn three_parts_are_invalid() {
    assert_eq!(refused("1-2-3").kind, BoundErrorKind::InvalidBound);
}

#[test]
fn more_invalid_texts() {
    for text in [
        "", " ", "-", "--", "-5", "5-", "+", "+-1", "1-+", "++1", "1--2", "-1-2", "1-2-", "256-1",
        "1-256", "300-200", "1000", "99999999999999999999999999", "0x10", "1.5", "1,2", "ten",
        "1\u{2013}2", "\u{661}", "1-\u{661}", "5 5", "1-2 3",
    ] {
        assert_eq!(refused(text).kind, BoundErrorKind::InvalidBound, "{:?}", text);
    }
}

#[test]
fn more_inverted_texts() {
    for text in ["1-0", "255-0", "255-254", "010-9", " 200-100 ", "+2-+1"] {
        assert_eq!(refused(text).kind, BoundErrorKind::InvertedBound, "{:?}", text);
    }
}

#[test]
fn error_carries_the_offending_input() {
    assert_eq!(refused(" 5-3 ").input, " 5-3 ");
    assert_eq!(refused("a-10").input, "a-10");
    match IpRangeBounds::validate_ip_range("1-2-3") {
        Ok(()) => panic!("accepted"),
        Err(error) => {
            assert_eq!(error.kind, BoundErrorKind::InvalidBound);
            assert_eq!(error.input, "1-2-3");
        }
    }
}

#[test]
fn validate_accepts_what_parse_accepts() {
    let mut texts: Vec<String> = Vec::new();
    for text in [
        "0-255", "7", "5-3", "256", "a-10", "1-2-3", "", " ", "-", " 1-2 ", "1 - 2", "+5", "007",
        "255-255", "0", "1-", "-1", "1--1", "12-12", "200-100", "\t3-4\t",
    ] {
        texts.push(text.to_string());
    }
    for lower in [0u32, 1, 9, 10, 99, 100, 254, 255, 256, 1000] {
        for upper in [0u32, 1, 9, 10, 99, 100, 254, 255, 256, 1000] {
            texts.push(format!("{}-{}", lower, upper));
        }
    }
    for text in texts {
        let parse = IpRangeBounds::from_str(&text);
        let validate = IpRangeBounds::validate_ip_range(&text);
        assert_eq!(validate.is_ok(), parse.is_ok(), "{:?}", text);
        if let (Err(a), Err(b)) = (parse, validate) {
            assert_eq!(a.kind, b.kind, "{:?}", text);
            assert_eq!(a.input, b.input);
        }
    }
}

#[test]
fn every_pair_of_octets_is_read_as_std_reads_it() {
    for lower in 0u32..=260 {
        for upper in [0u32, 1, 2, 9, 10, 11, 99, 100, 101, 127, 128, 199, 200, 254, 255, 256, 260] {
            let text = format!("{}-{}", lower, upper);
            let result = IpRangeBounds::from_str(&text);
            if lower > 255 || upper > 255 {
                assert_eq!(result.unwrap_err().kind, BoundErrorKind::InvalidBound, "{}", text);
            } else if upper < lower {
                assert_eq!(result.unwrap_err().kind, BoundErrorKind::InvertedBound, "{}", text);
            } else {
                let bounds = result.unwrap();
                assert_eq!((bounds.lower() as u32, bounds.upper() as u32), (lower, upper));
            }
        }
    }
}

#[test]
fn single_numbers_are_read_as_std_reads_them() {
    for text in [
        "0", "1", "9", "10", "99", "100", "199", "200", "249", "250", "255", "256", "260", "999",
        "1000", "00", "0255", "+0", "+255", "+256", "-0", "", "+", "2 ", " 2", "２",
    ] {
        let expected = text.trim().parse::<u8>().ok();
        let got = IpRangeBounds::from_str(text).ok().map(|bounds| {
            assert_eq!(bounds.lower(), bounds.upper());
            bounds.lower()
        });
        assert_eq!(got, expected, "{:?}", text);
    }
}

#[test]
fn trimming_follows_unicode_white_space() {
    let mut code = 0u32;
    while code <= 0x10ffff {
        if let Some(c) = char::from_u32(code) {
            let before = IpRangeBounds::from_str(&format!("{}7", c));
            let after = IpRangeBounds::from_str(&format!("7{}", c));
            let plain = c.is_ascii_digit();
            assert_eq!(before.is_ok(), c.is_whitespace() || plain || c == '+', "{:?} before", c);
            assert_eq!(after.is_ok(), c.is_whitespace() || plain, "{:?} after", c);
        }
        code += 1;
    }
}

#[test]
fn bounds_are_copied_by_value() {
    let bounds = IpRangeBounds::from_str("3-9").unwrap();
    let copy = bounds;
    assert_eq!((bounds.lower(), bounds.upper()), (copy.lower(), copy.upper()));
}
