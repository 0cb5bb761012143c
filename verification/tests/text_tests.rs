use booru_index::field::{ApproverId, AspectRatio, MPixel, ParentId, PixivId};
use booru_index::num::{decimal_text, read_decimal, read_int, Decimal, NANO_CAP};
use booru_index::range_index::RangeQuery;
use booru_index::tag_db::abbreviate;
use booru_index::text::{
    chars_of, contains, ends_with, find_char, is_whitespace, same_text, split_words, starts_with,
    string_of, TextQuery,
};
use booru_index::value::{read_range, ValueKind};

fn chars(s: &str) -> Vec<char> {
    s.chars().collect()
}

#[test]
fn texts_and_characters() {
    assert_eq!(chars_of("añ✓"), vec!['a', 'ñ', '✓']);
    assert_eq!(string_of(&vec!['h', 'é', '!']), "hé!");
    assert_eq!(string_of(&vec![]), "");
    assert!(same_text("cat", "cat"));
    assert!(!same_text("cat", "cats"));
    assert!(!same_text("cat", "car"));
    assert_eq!(find_char(&chars("a,b,c"), 0, 5, ','), 1);
    assert_eq!(find_char(&chars("a,b,c"), 2, 5, ','), 3);
    assert_eq!(find_char(&chars("a,b,c"), 4, 5, ','), 5);
}

#[test]
fn words_are_split_at_white_space() {
    assert_eq!(split_words("  cat\tlong_hair \n dog  "), vec!["cat", "long_hair", "dog"]);
    assert_eq!(split_words("one"), vec!["one"]);
    assert_eq!(split_words("a\u{3000}b"), vec!["a", "b"]);
    assert_eq!(split_words(" \t "), Vec::<String>::new());
    assert_eq!(split_words(""), Vec::<String>::new());
}

#[test]
fn parts_of_texts() {
    let s = chars("long_hair");
    assert!(starts_with(&s, &chars("long")));
    assert!(starts_with(&s, &chars("")));
    assert!(!starts_with(&s, &chars("ong")));
    assert!(!starts_with(&chars("lo"), &chars("long")));
    assert!(ends_with(&s, &chars("hair")));
    assert!(!ends_with(&s, &chars("hai")));
    assert!(!ends_with(&chars("r"), &chars("air")));
    assert!(contains(&s, &chars("g_h")));
    assert!(contains(&s, &chars("long_hair")));
    assert!(contains(&s, &chars("r")));
    assert!(!contains(&s, &chars("gh")));
    assert!(!contains(&s, &chars("long_hairs")));
}

#[test]
fn patterns_with_stars() {
    assert!(matches!(TextQuery::parse("*at"), TextQuery::EndsWith(t) if t == chars("at")));
    assert!(matches!(TextQuery::parse("ca*"), TextQuery::StartsWith(t) if t == chars("ca")));
    assert!(matches!(TextQuery::parse("*a*"), TextQuery::Contains(t) if t == chars("a")));
    assert!(matches!(TextQuery::parse("cat"), TextQuery::Contains(t) if t == chars("cat")));
    assert!(matches!(TextQuery::parse("*"), TextQuery::EndsWith(t) if t.is_empty()));
    assert!(matches!(TextQuery::parse("**"), TextQuery::Contains(t) if t.is_empty()));
    assert!(matches!(TextQuery::parse(""), TextQuery::Contains(t) if t.is_empty()));
    assert!(TextQuery::parse("*at").accepts(&chars("cat")));
    assert!(!TextQuery::parse("*at").accepts(&chars("cats")));
    assert!(TextQuery::parse("ca*").accepts(&chars("cats")));
    assert!(!TextQuery::parse("ca*").accepts(&chars("scat")));
    assert!(TextQuery::parse("*a*").accepts(&chars("scats")));
}

#[test]
fn abbreviations_take_the_first_character_of_each_part() {
    assert_eq!(abbreviate("long_hair"), "lh");
    assert_eq!(abbreviate("blue_eyes"), "be");
    assert_eq!(abbreviate("fate_(series)"), "fs");
    assert_eq!(abbreviate("__a__b_"), "ab");
    assert_eq!(abbreviate("(("), "");
    assert_eq!(abbreviate("solo"), "s");
    assert_eq!(abbreviate("Kantai_Collection"), "KC");
    assert_eq!(abbreviate("a(b)_)c"), "ac");
}

#[test]
fn whole_numbers() {
    let int = |s: &str, lo: i64, hi: i64| read_int(&chars(s), 0, s.chars().count(), lo, hi);
    assert_eq!(int("0", 0, 10), Some(0));
    assert_eq!(int("007", 0, 10), Some(7));
    assert_eq!(int("+7", 0, 10), Some(7));
    assert_eq!(int("11", 0, 10), None);
    assert_eq!(int("-1", 0, 10), None);
    assert_eq!(int("-0", 0, 10), None);
    assert_eq!(int("-0", -5, 10), Some(0));
    assert_eq!(int("-5", -5, 10), Some(-5));
    assert_eq!(int("-6", -5, 10), None);
    assert_eq!(int("", 0, 10), None);
    assert_eq!(int("-", -5, 10), None);
    assert_eq!(int("1a", 0, 10), None);
    assert_eq!(int(" 1", 0, 10), None);
    assert_eq!(int("4294967295", 0, u32::MAX as i64), Some(4294967295));
    assert_eq!(int("4294967296", 0, u32::MAX as i64), None);
    assert_eq!(int("9223372036854775807", i64::MIN, i64::MAX), Some(i64::MAX));
    assert_eq!(int("9223372036854775808", i64::MIN, i64::MAX), None);
    assert_eq!(int("-9223372036854775808", i64::MIN, i64::MAX), Some(i64::MIN));
    assert_eq!(int("-9223372036854775809", i64::MIN, i64::MAX), None);
    assert_eq!(int("99999999999999999999999999999", i64::MIN, i64::MAX), None);
    assert_eq!(read_int(&chars("ab12cd"), 2, 4, 0, 100), Some(12));
}

#[test]
fn decimals_and_their_digits() {
    let dec = |s: &str| read_decimal(&chars(s), 0, s.chars().count());
    let plus = |nano: u128| Some(Decimal { negative: false, nano });
    let minus = |nano: u128| Some(Decimal { negative: true, nano });
    assert_eq!(dec("1.5"), plus(1_500_000_000));
    assert_eq!(dec("16"), plus(16_000_000_000));
    assert_eq!(dec(".25"), plus(250_000_000));
    assert_eq!(dec("3."), plus(3_000_000_000));
    assert_eq!(dec("0.000000001"), plus(1));
    assert_eq!(dec("0.0000000019"), plus(1));
    assert_eq!(dec("0.0000000001"), plus(0));
    assert_eq!(dec("1234567890"), plus(1_234_567_890_000_000_000));
    assert_eq!(dec("0001.50"), plus(1_500_000_000));
    assert_eq!(dec("+2"), plus(2_000_000_000));
    assert_eq!(dec("-1"), minus(1_000_000_000));
    assert_eq!(dec("-.5"), minus(500_000_000));
    assert_eq!(dec("-0"), minus(0));
    assert_eq!(dec("999999999999999999.999999999999"), plus(NANO_CAP - 1));
    assert_eq!(dec("1000000000000000000"), plus(NANO_CAP));
    assert_eq!(dec("123456789012345678901234567890.5"), plus(NANO_CAP));
    assert_eq!(dec("-123456789012345678901234567890"), minus(NANO_CAP));
    assert_eq!(NANO_CAP, 1_000_000_000_000_000_000_000_000_000);
    assert_eq!(dec("."), None);
    assert_eq!(dec(""), None);
    assert_eq!(dec("-"), None);
    assert_eq!(dec("+."), None);
    assert_eq!(dec("--1"), None);
    assert_eq!(dec("1-"), None);
    assert_eq!(dec("1.2.3"), None);
    assert_eq!(dec("1.-2"), None);
    assert_eq!(dec("1e3"), None);
    assert_eq!(dec("inf"), None);
    assert_eq!(dec("12345678901234567890x"), None);
    assert_eq!(dec("0.1234567890x"), None);
    assert_eq!(read_decimal(&chars("ab-1.5cd"), 2, 6), minus(1_500_000_000));
    assert_eq!(decimal_text(0), vec!['0']);
    assert_eq!(decimal_text(7), vec!['7']);
    assert_eq!(decimal_text(1203), vec!['1', '2', '0', '3']);
    assert_eq!(string_of(&decimal_text(u32::MAX)), "4294967295");
}

#[test]
fn ranges_in_query_texts() {
    let r = |s: &str| read_range(ValueKind::I32, s);
    assert_eq!(r("5"), Some(RangeQuery::Exactly(5)));
    assert_eq!(r("=5"), Some(RangeQuery::Exactly(5)));
    assert_eq!(r("-5"), Some(RangeQuery::Exactly(-5)));
    assert_eq!(r("<5"), Some(RangeQuery::Below(5)));
    assert_eq!(r(">-5"), Some(RangeQuery::Above(-5)));
    assert_eq!(r("1..3"), Some(RangeQuery::Between(1, 3)));
    assert_eq!(r("-3..-1"), Some(RangeQuery::Between(-3, -1)));
    assert_eq!(r("1..=3"), Some(RangeQuery::Between(1, 3)));
    assert_eq!(r("0.."), Some(RangeQuery::AtLeast(0)));
    assert_eq!(r("..7"), Some(RangeQuery::AtMost(7)));
    assert_eq!(r("..=7"), Some(RangeQuery::AtMost(7)));
    assert_eq!(r(".."), None);
    assert_eq!(r(""), None);
    assert_eq!(r("<"), None);
    assert_eq!(r("1..x"), None);
    assert_eq!(r("x..1"), None);
    assert_eq!(r("abc"), None);
    assert_eq!(r("3000000000"), None);
    assert_eq!(read_range(ValueKind::U16, "65535"), Some(RangeQuery::Exactly(65535)));
    assert_eq!(read_range(ValueKind::U16, "65536"), None);
    assert_eq!(read_range(ValueKind::U32, "-1"), None);
    assert_eq!(read_range(ValueKind::I64, "-9000000000..").unwrap(), RangeQuery::AtLeast(-9_000_000_000));
    assert_eq!(read_range(ValueKind::OptionU32, "none"), Some(RangeQuery::Exactly(-1)));
    assert_eq!(read_range(ValueKind::OptionU32, "none..5"), Some(RangeQuery::Between(-1, 5)));
    assert_eq!(read_range(ValueKind::OptionU32, ">none"), Some(RangeQuery::Above(-1)));
    assert_eq!(read_range(ValueKind::Status, "Banned"), Some(RangeQuery::Exactly(1)));
    assert_eq!(read_range(ValueKind::Rating, "e"), Some(RangeQuery::Exactly(3)));
    assert_eq!(read_range(ValueKind::FileExt, "WEBM"), Some(RangeQuery::Exactly(7)));
    assert_eq!(read_range(ValueKind::FileExt, "exe"), None);
}

#[test]
fn ratios_and_megapixels() {
    assert_eq!(read_range(ValueKind::Ratio, "16/9"), Some(RangeQuery::Exactly(1777)));
    assert_eq!(read_range(ValueKind::Ratio, "1.5"), Some(RangeQuery::Exactly(1500)));
    assert_eq!(read_range(ValueKind::Ratio, "1..16/9"), Some(RangeQuery::Between(1000, 1777)));
    assert_eq!(read_range(ValueKind::Ratio, "0.5/0.25"), Some(RangeQuery::Exactly(2000)));
    assert_eq!(read_range(ValueKind::Ratio, "1/0"), Some(RangeQuery::Exactly(u32::MAX as i64)));
    assert_eq!(read_range(ValueKind::Ratio, "0/0"), Some(RangeQuery::Exactly(0)));
    assert_eq!(read_range(ValueKind::Ratio, "1/"), None);
    assert_eq!(read_range(ValueKind::MPixel, "2.5"), Some(RangeQuery::Exactly(2_500_000)));
    assert_eq!(read_range(ValueKind::MPixel, ">1"), Some(RangeQuery::Above(1_000_000)));
    assert_eq!(read_range(ValueKind::MPixel, "5000"), Some(RangeQuery::Exactly(1_000_000_000)));
    assert_eq!(read_range(ValueKind::MPixel, "0.0000001"), Some(RangeQuery::Exactly(0)));
    assert_eq!(AspectRatio::from_str("4/3"), Ok(AspectRatio(1333)));
    assert_eq!(AspectRatio::from_str("0.75"), Ok(AspectRatio(750)));
    assert_eq!(AspectRatio::from_str("wide"), Err(()));
    assert_eq!(MPixel::from_str("0.3"), Ok(MPixel(300_000)));
    assert_eq!(MPixel::from_str("1001"), Ok(MPixel(1_000_000_000)));
    assert_eq!(MPixel::from_str(""), Err(()));
}

#[test]
fn signs_and_long_digit_runs() {
    assert_eq!(MPixel::from_str("5000"), Ok(MPixel(1_000_000_000)));
    assert_eq!(MPixel::from_str("-1"), Ok(MPixel(0)));
    assert_eq!(MPixel::from_str("2"), Ok(MPixel(2_000_000)));
    assert_eq!(MPixel::from_str("abc"), Err(()));
    assert_eq!(MPixel::from_str("+0.5"), Ok(MPixel(500_000)));
    assert_eq!(MPixel::from_str("-0"), Ok(MPixel(0)));
    assert_eq!(MPixel::from_str("-0.000001"), Ok(MPixel(0)));
    assert_eq!(MPixel::from_str("1000"), Ok(MPixel(1_000_000_000)));
    assert_eq!(MPixel::from_str("999.9999999"), Ok(MPixel(999_999_999)));
    assert_eq!(MPixel::from_str("1.23456789012345"), Ok(MPixel(1_234_567)));
    assert_eq!(MPixel::from_str("99999999999999999999999999"), Ok(MPixel(1_000_000_000)));
    assert_eq!(MPixel::from_str("-99999999999999999999999999"), Ok(MPixel(0)));
    assert_eq!(MPixel::from_str("-"), Err(()));
    assert_eq!(MPixel::from_str("1e3"), Err(()));
    assert_eq!("-1".parse::<MPixel>(), Ok(MPixel(0)));
    assert_eq!(AspectRatio::from_str("-1.5"), Ok(AspectRatio(0)));
    assert_eq!(AspectRatio::from_str("+1.5"), Ok(AspectRatio(1500)));
    assert_eq!(AspectRatio::from_str("-3/-2"), Ok(AspectRatio(1500)));
    assert_eq!(AspectRatio::from_str("-3/2"), Ok(AspectRatio(0)));
    assert_eq!(AspectRatio::from_str("3/-2"), Ok(AspectRatio(0)));
    assert_eq!(AspectRatio::from_str("+16/+9"), Ok(AspectRatio(1777)));
    assert_eq!(AspectRatio::from_str("-1/0"), Ok(AspectRatio(0)));
    assert_eq!(AspectRatio::from_str("1/-0"), Ok(AspectRatio(0)));
    assert_eq!(AspectRatio::from_str("-1/-0"), Ok(AspectRatio(u32::MAX)));
    assert_eq!(AspectRatio::from_str("5000000"), Ok(AspectRatio(u32::MAX)));
    assert_eq!(AspectRatio::from_str("4294967.295"), Ok(AspectRatio(u32::MAX)));
    assert_eq!(AspectRatio::from_str("4294967.2949"), Ok(AspectRatio(u32::MAX - 1)));
    assert_eq!(AspectRatio::from_str("20000000000/10000000000"), Ok(AspectRatio(2000)));
    assert_eq!(AspectRatio::from_str("1.0000000009/1"), Ok(AspectRatio(1000)));
    assert_eq!(AspectRatio::from_str("999999999999999999/1"), Ok(AspectRatio(u32::MAX)));
    assert_eq!(AspectRatio::from_str("1000000000000000000/1"), Err(()));
    assert_eq!(AspectRatio::from_str("1/1000000000000000000"), Err(()));
    assert_eq!(AspectRatio::from_str("1000000000000000000"), Ok(AspectRatio(u32::MAX)));
    assert_eq!(AspectRatio::from_str("1/2/3"), Err(()));
    assert_eq!(AspectRatio::from_str("/"), Err(()));
    assert_eq!("-4/3".parse::<AspectRatio>(), Ok(AspectRatio(0)));
    assert_eq!(read_range(ValueKind::MPixel, "<-1"), Some(RangeQuery::Below(0)));
}

#[test]
fn white_space() {
    for c in ['\t', '\n', '\u{b}', '\u{c}', '\r', ' ', '\u{85}', '\u{a0}', '\u{1680}'] {
        assert!(is_whitespace(c));
    }
    for c in ['\u{2000}', '\u{2005}', '\u{200a}', '\u{2028}', '\u{2029}', '\u{202f}'] {
        assert!(is_whitespace(c));
    }
    assert!(is_whitespace('\u{205f}') && is_whitespace('\u{3000}'));
    for c in ['a', '0', '_', '-', '\u{8}', '\u{e}', '\u{1f}', '!', '\u{84}', '\u{86}'] {
        assert!(!is_whitespace(c));
    }
    for c in ['\u{9f}', '\u{a1}', '\u{180e}', '\u{1fff}', '\u{200b}', '\u{2027}'] {
        assert!(!is_whitespace(c));
    }
    for c in ['\u{202a}', '\u{2060}', '\u{2fff}', '\u{3001}', '\u{feff}', '\u{10ffff}'] {
        assert!(!is_whitespace(c));
    }
    let mut n: u32 = 0;
    for code in 0..0x11_0000u32 {
        if let Some(c) = char::from_u32(code) {
            assert_eq!(is_whitespace(c), c.is_whitespace());
            if is_whitespace(c) {
                n += 1;
            }
        }
    }
    assert_eq!(n, 25);
    assert_eq!(split_words("a\u{3000}b\u{a0}c\u{200b}d"), vec!["a", "b", "c\u{200b}d"]);
}

#[test]
fn optional_ids() {
    assert_eq!(ParentId::from_str("none"), Ok(ParentId(None)));
    assert_eq!(ParentId::from_str("12"), Ok(ParentId(Some(12))));
    assert_eq!(ParentId::from_str("0"), Ok(ParentId(Some(0))));
    assert_eq!(ParentId::from_str("None"), Err(()));
    assert_eq!(ParentId::from_str("-1"), Err(()));
    assert_eq!(PixivId::from_str("none"), Ok(PixivId(None)));
    assert_eq!(PixivId::from_str("4294967295"), Ok(PixivId(Some(u32::MAX))));
    assert_eq!(PixivId::from_str("4294967296"), Err(()));
    assert!(PixivId(None) < PixivId(Some(0)));
    assert_eq!(ApproverId::from_str("7"), Ok(ApproverId(Some(7))));
    assert_eq!(ApproverId::from_str(""), Err(()));
    assert_eq!("none".parse::<ParentId>(), Ok(ParentId(None)));
    assert_eq!("5".parse::<PixivId>(), Ok(PixivId(Some(5))));
    assert_eq!("x".parse::<ApproverId>(), Err(()));
    assert_eq!("3/2".parse::<AspectRatio>(), Ok(AspectRatio(1500)));
    assert_eq!("12".parse::<MPixel>(), Ok(MPixel(12_000_000)));
}
