use lowest_terms::fraction::{Fraction, FractionError};
use lowest_terms::lines::reduce_line;
use lowest_terms::text::find_space;

#[test]
fn reducible_fractions_are_reduced() {
    let fraction = Fraction::new(12, 16);

    assert_eq!(Fraction::new(3, 4), fraction.reduce());
}

#[test]
fn irreducible_fractions_are_unchanged() {
    let fraction = Fraction::new(13, 16);

    assert_eq!(Fraction::new(13, 16), fraction.reduce());
}

#[test]
fn new_fractions_are_raw() {
    assert!(matches!(Fraction::new(12, 16), Fraction::Raw(12, 16)));
    assert!(matches!(Fraction::new(0, 0), Fraction::Raw(0, 0)));
    assert!(matches!(Fraction::new(-1, i32::MIN), Fraction::Raw(-1, i32::MIN)));
}

#[test]
fn reduction_tags_as_reduced() {
    assert!(matches!(Fraction::new(12, 16).reduce(), Fraction::Reduced(3, 4)));
    assert!(matches!(Fraction::new(13, 16).reduce(), Fraction::Reduced(13, 16)));
    assert!(matches!(Fraction::new(1, 1).reduce(), Fraction::Reduced(1, 1)));
}

#[test]
fn reduction_divides_by_the_greatest_common_divisor() {
    assert!(matches!(Fraction::new(360, 84).reduce(), Fraction::Reduced(30, 7)));
    assert!(matches!(Fraction::new(17, 17).reduce(), Fraction::Reduced(1, 1)));
    assert!(matches!(Fraction::new(1000, 10).reduce(), Fraction::Reduced(100, 1)));
    assert!(matches!(Fraction::new(10, 1000).reduce(), Fraction::Reduced(1, 100)));
    assert!(matches!(Fraction::new(4096, 6144).reduce(), Fraction::Reduced(2, 3)));
}

#[test]
fn reduction_leaves_the_receiver_alone() {
    let fraction = Fraction::new(12, 16);
    let _ = fraction.reduce();
    assert!(matches!(fraction, Fraction::Raw(12, 16)));
}

#[test]
fn reduction_is_idempotent() {
    for (a, b) in [(12, 16), (13, 16), (-12, 16), (0, 5), (7, 0), (i32::MIN, 6), (360, 84)] {
        let once = Fraction::new(a, b).reduce();
        let twice = once.reduce();
        assert_eq!(once, twice);
        assert!(matches!(twice, Fraction::Reduced(_, _)));
        assert_eq!(once.numerator(), twice.numerator());
        assert_eq!(once.denominator(), twice.denominator());
    }
}

#[test]
fn reduced_fractions_come_back_as_they_are() {
    assert!(matches!(Fraction::Reduced(3, 4).reduce(), Fraction::Reduced(3, 4)));
    assert!(matches!(Fraction::Reduced(12, 16).reduce(), Fraction::Reduced(12, 16)));
}

#[test]
fn reduction_keeps_the_signs() {
    assert!(matches!(Fraction::new(-12, 16).reduce(), Fraction::Reduced(-3, 4)));
    assert!(matches!(Fraction::new(12, -16).reduce(), Fraction::Reduced(3, -4)));
    assert!(matches!(Fraction::new(-12, -16).reduce(), Fraction::Reduced(-3, -4)));
    assert!(matches!(Fraction::new(-13, 16).reduce(), Fraction::Reduced(-13, 16)));
}

#[test]
fn fractions_without_divisors_stay_as_they_are() {
    assert!(matches!(Fraction::new(0, 16).reduce(), Fraction::Reduced(0, 16)));
    assert!(matches!(Fraction::new(12, 0).reduce(), Fraction::Reduced(12, 0)));
    assert!(matches!(Fraction::new(0, 0).reduce(), Fraction::Reduced(0, 0)));
    assert!(matches!(Fraction::new(i32::MIN, 16).reduce(), Fraction::Reduced(i32::MIN, 16)));
    assert!(matches!(Fraction::new(16, i32::MIN).reduce(), Fraction::Reduced(16, i32::MIN)));
}

#[test]
fn accessors_give_the_parts_in_either_tag() {
    assert_eq!(3, Fraction::Raw(3, 4).numerator());
    assert_eq!(4, Fraction::Raw(3, 4).denominator());
    assert_eq!(3, Fraction::Reduced(3, 4).numerator());
    assert_eq!(4, Fraction::Reduced(3, 4).denominator());
}

#[test]
fn equality_ignores_the_tag() {
    assert_eq!(Fraction::Raw(3, 4), Fraction::Reduced(3, 4));
    assert_eq!(Fraction::Reduced(3, 4), Fraction::Raw(3, 4));
    assert_eq!(Fraction::new(3, 4), Fraction::new(6, 8).reduce());
}

#[test]
fn equality_compares_the_parts() {
    assert_ne!(Fraction::new(3, 4), Fraction::new(6, 8));
    assert_ne!(Fraction::new(3, 4), Fraction::new(3, 5));
    assert_ne!(Fraction::new(3, 4), Fraction::new(4, 4));
    assert_ne!(Fraction::Reduced(3, 4), Fraction::Reduced(4, 3));
}

#[test]
fn fractions_render_as_numerator_slash_denominator() {
    assert_eq!("3/4", Fraction::Raw(3, 4).to_string());
    assert_eq!("3/4", Fraction::Reduced(3, 4).to_string());
}

#[test]
fn rendering_writes_decimal_numerals() {
    assert_eq!("0/0", Fraction::new(0, 0).to_string());
    assert_eq!("-13/16", Fraction::new(-13, 16).to_string());
    assert_eq!("1000/-7", Fraction::new(1000, -7).to_string());
    assert_eq!("2147483647/-2147483648", Fraction::new(i32::MAX, i32::MIN).to_string());
}

#[test]
fn two_fields_parse_to_a_raw_fraction() {
    assert!(matches!(Fraction::parse("12 16"), Ok(Fraction::Raw(12, 16))));
    assert!(matches!("12 16".parse::<Fraction>(), Ok(Fraction::Raw(12, 16))));
}

#[test]
fn one_field_is_too_few() {
    assert!(matches!(Fraction::parse("12"), Err(FractionError::TooFewParts)));
    assert!(matches!("12".parse::<Fraction>(), Err(FractionError::TooFewParts)));
}

#[test]
fn three_fields_are_too_many() {
    assert!(matches!(Fraction::parse("12 16 20"), Err(FractionError::TooManyParts)));
    assert!(matches!("12 16 20".parse::<Fraction>(), Err(FractionError::TooManyParts)));
    assert!(matches!(Fraction::parse("12 16 20 24"), Err(FractionError::TooManyParts)));
    assert!(matches!(Fraction::parse("12 16 x"), Err(FractionError::TooManyParts)));
}

#[test]
fn a_field_that_is_no_integer_is_malformed() {
    assert!(matches!(Fraction::parse("x 16"), Err(FractionError::IntParse(_))));
    assert!(matches!("x 16".parse::<Fraction>(), Err(FractionError::IntParse(_))));
    assert!(matches!(Fraction::parse("12 x"), Err(FractionError::IntParse(_))));
    assert!(matches!(Fraction::parse("1.5 2"), Err(FractionError::IntParse(_))));
    assert!(matches!(Fraction::parse("12 16/2"), Err(FractionError::IntParse(_))));
}

#[test]
fn faults_are_met_in_the_order_of_the_fields() {
    assert!(matches!(Fraction::parse("x"), Err(FractionError::IntParse(_))));
    assert!(matches!(Fraction::parse(""), Err(FractionError::IntParse(_))));
    assert!(matches!(Fraction::parse("x 16 20"), Err(FractionError::IntParse(_))));
    assert!(matches!(Fraction::parse("12 x 20"), Err(FractionError::IntParse(_))));
    assert!(matches!(Fraction::parse("bad input"), Err(FractionError::IntParse(_))));
}

#[test]
fn every_space_separates_two_fields() {
    assert!(matches!(Fraction::parse("12  16"), Err(FractionError::IntParse(_))));
    assert!(matches!(Fraction::parse(" 12 16"), Err(FractionError::IntParse(_))));
    assert!(matches!(Fraction::parse("12 16 "), Err(FractionError::TooManyParts)));
    assert!(matches!(Fraction::parse("12 "), Err(FractionError::IntParse(_))));
    assert!(matches!(Fraction::parse(" "), Err(FractionError::IntParse(_))));
    assert!(matches!(Fraction::parse("12\t16"), Err(FractionError::IntParse(_))));
}

#[test]
fn fields_are_signed_decimal_numerals() {
    assert!(matches!(Fraction::parse("-12 +16"), Ok(Fraction::Raw(-12, 16))));
    assert!(matches!(Fraction::parse("007 0"), Ok(Fraction::Raw(7, 0))));
    assert!(matches!(Fraction::parse("-0 +0"), Ok(Fraction::Raw(0, 0))));
    assert!(matches!(
        Fraction::parse("2147483647 -2147483648"),
        Ok(Fraction::Raw(i32::MAX, i32::MIN))
    ));
    assert!(matches!(Fraction::parse("2147483648 1"), Err(FractionError::IntParse(_))));
    assert!(matches!(Fraction::parse("1 -2147483649"), Err(FractionError::IntParse(_))));
    assert!(matches!(Fraction::parse("- 1"), Err(FractionError::IntParse(_))));
    assert!(matches!(Fraction::parse("+ 1"), Err(FractionError::IntParse(_))));
    assert!(matches!(Fraction::parse("--1 1"), Err(FractionError::IntParse(_))));
    assert!(matches!(Fraction::parse("1 1-"), Err(FractionError::IntParse(_))));
    assert!(matches!(Fraction::parse("\u{661} 1"), Err(FractionError::IntParse(_))));
    assert!(matches!(Fraction::parse("\u{ff11} 1"), Err(FractionError::IntParse(_))));
}

#[test]
fn positions_count_characters() {
    assert!(matches!(Fraction::parse("\u{e9}\u{e9} 16"), Err(FractionError::IntParse(_))));
    assert!(matches!(Fraction::parse("12\u{a0}16"), Err(FractionError::IntParse(_))));
    assert!(matches!(Fraction::parse("12 16\u{2003}"), Err(FractionError::IntParse(_))));
    assert!(matches!(Fraction::parse("12 16 \u{1f600}"), Err(FractionError::TooManyParts)));
}

#[test]
fn first_space_is_found() {
    assert_eq!(2, find_space("12 16"));
    assert_eq!(0, find_space(" 12"));
    assert_eq!(2, find_space("12"));
    assert_eq!(0, find_space(""));
    assert_eq!(2, find_space("12  16 20"));
    assert_eq!(2, find_space("\u{e9}\u{1f600} 16"));
    assert_eq!(3, find_space("1\t2"));
}

#[test]
fn error_messages() {
    assert_eq!("Too few parts", FractionError::TooFewParts.to_string());
    assert_eq!("Too many parts", FractionError::TooManyParts.to_string());
    let expected = "x".parse::<i32>().unwrap_err().to_string();
    match Fraction::parse("x 16") {
        Err(error) => assert_eq!(expected, error.to_string()),
        Ok(_) => panic!("a field that is no integer was read"),
    }
}

#[test]
fn lines_are_read_reduced_and_written() {
    let lines = ["12 16", "bad input", "13 16"];
    let mut output = Vec::new();
    for line in lines {
        if let Some(text) = reduce_line(line) {
            output.push(text);
        }
    }
    assert_eq!(vec!["3/4", "13/16"], output);
}

#[test]
fn line_breaks_and_outer_white_space_are_ignored() {
    assert_eq!(Some("3/4".to_string()), reduce_line("12 16\n"));
    assert_eq!(Some("3/4".to_string()), reduce_line("12 16\r\n"));
    assert_eq!(Some("3/4".to_string()), reduce_line("  \t12 16 \n"));
    assert_eq!(Some("3/4".to_string()), reduce_line("\u{a0}12 16\u{3000}\u{2028}"));
    assert_eq!(Some("-3/4".to_string()), reduce_line("-12 16"));
    assert_eq!(Some("0/5".to_string()), reduce_line("0 5"));
}

#[test]
fn lines_that_denote_no_fraction_give_nothing() {
    assert_eq!(None, reduce_line(""));
    assert_eq!(None, reduce_line("\n"));
    assert_eq!(None, reduce_line("12"));
    assert_eq!(None, reduce_line("12 16 20"));
    assert_eq!(None, reduce_line("x 16"));
    assert_eq!(None, reduce_line("12  16"));
    assert_eq!(None, reduce_line("12 \u{200b}16"));
}

#[test]
fn white_space_at_the_ends_of_a_line_is_what_unicode_calls_so() {
    let white = [
        0x9, 0xa, 0xb, 0xc, 0xd, 0x20, 0x85, 0xa0, 0x1680, 0x2000, 0x2001, 0x2002, 0x2003,
        0x2004, 0x2005, 0x2006, 0x2007, 0x2008, 0x2009, 0x200a, 0x2028, 0x2029, 0x202f, 0x205f,
        0x3000,
    ];
    for code in 0..=0x10ffff_u32 {
        let c = match char::from_u32(code) {
            Some(c) => c,
            None => continue,
        };
        let stripped = white.contains(&code);
        let before = reduce_line(&format!("{}2 4", c));
        let after = reduce_line(&format!("2 \u{e9}{}", c));
        let around = reduce_line(&format!("{}2 4{}", c, c));
        if stripped {
            assert_eq!(Some("1/2".to_string()), before);
            assert_eq!(Some("1/2".to_string()), around);
        } else if c == '+' {
            assert_eq!(Some("1/2".to_string()), before);
            assert_eq!(None, around);
        } else if c == '-' {
            assert_eq!(Some("-1/2".to_string()), before);
            assert_eq!(None, around);
        } else if c.is_ascii_digit() {
            assert!(before.is_some());
            assert!(around.is_some());
        } else {
            assert_eq!(None, before);
            assert_eq!(None, around);
        }
        assert_eq!(None, after);
    }
}

#[test]
fn numerals_are_read_as_they_are_written() {
    let mut values = vec![i32::MIN, i32::MIN + 1, -1, 0, 1, 9, 10, 11, 99, 100, i32::MAX - 1, i32::MAX];
    let mut v: i32 = 7;
    for _ in 0..2000 {
        v = v.wrapping_mul(1103515245).wrapping_add(12345);
        values.push(v);
    }
    for n in values {
        let written = Fraction::new(n, 1).to_string();
        assert_eq!(format!("{}/1", n), written);
        let numeral = &written[..written.len() - 2];
        match Fraction::parse(&format!("{} {}", numeral, numeral)) {
            Ok(read) => {
                assert_eq!(n, read.numerator());
                assert_eq!(n, read.denominator());
            },
            Err(_) => panic!("a numeral that was written was not read"),
        }
    }
}

#[test]
fn a_numeral_is_an_optional_sign_and_digits() {
    let accepted = [
        ("0", 0),
        ("+0", 0),
        ("-0", 0),
        ("00", 0),
        ("1", 1),
        ("+1", 1),
        ("-1", -1),
        ("0000000000000000000012", 12),
        ("-0000000000000000000012", -12),
        ("2147483647", i32::MAX),
        ("+2147483647", i32::MAX),
        ("-2147483648", i32::MIN),
        ("-02147483648", i32::MIN),
    ];
    for (numeral, value) in accepted {
        match Fraction::parse(&format!("{} 1", numeral)) {
            Ok(read) => assert_eq!(value, read.numerator()),
            Err(_) => panic!("a numeral was not read"),
        }
    }
    let refused = [
        "", "+", "-", "++1", "+-1", "-+1", "--1", "1+", "1-", "1_000", "1,000", "1.0", "1e3",
        "0x10", "ten", "2147483648", "+2147483648", "-2147483649", "99999999999999999999",
        "-99999999999999999999", "\u{b2}", "\u{660}", "\u{ff10}", "1\u{0}", "\u{2212}1",
    ];
    for numeral in refused {
        assert!(matches!(
            Fraction::parse(&format!("{} 1", numeral)),
            Err(FractionError::IntParse(_))
        ));
        assert!(matches!(
            Fraction::parse(&format!("1 {}", numeral)),
            Err(FractionError::IntParse(_))
        ));
    }
}
