use kserde::from_str::{from_str, Parser};
use kserde::text::{
    chars_of, digit_of_char, hex_of_char, is_digit_char, is_whitespace_char, str_eq,
};
use kserde::number::Number;
use kserde::value::Value;
use std::borrow::Cow;

fn as_f64(n: &Number) -> f64 {
    n.to_text().parse::<f64>().unwrap()
}

fn number_of(text: &str) -> f64 {
    let value = from_str(text).unwrap();
    as_f64(value.as_number().unwrap())
}

#[test]
fn scalars_are_read() {
    assert_eq!(from_str("true").unwrap().as_boolean(), Some(true));
    assert_eq!(from_str("false").unwrap().as_boolean(), Some(false));
    assert!(matches!(from_str("null").unwrap(), Value::Null));
    assert_eq!(from_str("\"hello\"").unwrap().as_string(), Some("hello"));
    assert_eq!(from_str("  \t\n 12").unwrap().as_number().unwrap().to_text(), "12");
}

#[test]
fn zero_is_zero() {
    assert_eq!(number_of("0"), 0.0);
}

#[test]
fn negative_fraction_is_read() {
    assert_eq!(number_of("-0.5"), -0.5);
}

#[test]
fn exponent_multiplies_by_a_power_of_ten() {
    assert!(from_str("1e2").is_some());
    assert_eq!(number_of("1e2"), 100.0);
    assert_eq!(number_of("25E-1"), 2.5);
    assert_eq!(number_of("-3.25e+2"), -325.0);
}

#[test]
fn number_parts_are_kept_as_written() {
    let value = from_str("-12.034e-5").unwrap();
    let n = value.as_number().unwrap();
    assert!(n.negative);
    assert_eq!(n.integer, vec![1, 2]);
    assert_eq!(n.fraction, vec![0, 3, 4]);
    assert!(n.exponent_negative);
    assert_eq!(n.exponent, vec![5]);
    assert_eq!(n.to_text(), "-12.034e-5");
}

#[test]
fn a_leading_zero_stands_alone() {
    let mut parser = Parser::new("0123");
    let n = parser.parse_number().unwrap();
    assert_eq!(n.integer, vec![0]);
    assert_eq!(parser.offset(), 1);
    let items = from_str("[0123]").unwrap();
    assert_eq!(items.as_array().unwrap().len(), 2);
}

#[test]
fn numbers_need_a_leading_digit() {
    assert!(from_str(".5").is_none());
    assert!(from_str("-").is_none());
    assert!(from_str("-.5").is_none());
    assert!(from_str("1e").is_none());
    assert!(from_str("1e+").is_none());
    assert!(from_str("+1").is_none());
}

#[test]
fn a_point_may_stand_without_digits() {
    let value = from_str("7.").unwrap();
    let n = value.as_number().unwrap();
    assert_eq!(n.integer, vec![7]);
    assert!(n.fraction.is_empty());
}

#[test]
fn newline_escape_is_one_character() {
    assert_eq!(from_str("\"\\n\"").unwrap().as_string(), Some("\n"));
}

#[test]
fn simple_escapes_are_decoded() {
    let value = from_str("\"\\\" \\/ \\\\ \\b \\f \\r \\t\"").unwrap();
    assert_eq!(value.as_string(), Some("\" / \\ \u{8} \u{c} \r \t"));
}

#[test]
fn unicode_escape_is_decoded() {
    assert_eq!(from_str("\"\\u0041\"").unwrap().as_string(), Some("A"));
    assert_eq!(from_str("\"\\u00e9\\u00E9\"").unwrap().as_string(), Some("\u{e9}\u{e9}"));
}

#[test]
fn surrogate_pair_is_one_scalar() {
    let value = from_str("\"\\uD83D\\uDE00\"").unwrap();
    assert_eq!(value.as_string(), Some("\u{1F600}"));
    assert_eq!(value.as_string().unwrap().chars().count(), 1);
}

#[test]
fn unpaired_surrogates_fail() {
    assert!(from_str("\"\\uD83D\"").is_none());
    assert!(from_str("\"\\uD83Dx\"").is_none());
    assert!(from_str("\"\\uD83D\\u0041\"").is_none());
    assert!(from_str("\"\\uD83D\\n\"").is_none());
    assert!(from_str("\"\\uDE00\"").is_none());
}

#[test]
fn broken_escapes_fail() {
    assert!(from_str("\"\\u12\"").is_none());
    assert!(from_str("\"\\u12G4\"").is_none());
    assert!(from_str("\"\\u+123\"").is_none());
    assert!(from_str("\"\\x\"").is_none());
    assert!(from_str("\"\\").is_none());
}

#[test]
fn unterminated_string_fails() {
    assert!(from_str("\"abc").is_none());
    assert!(from_str("\"").is_none());
}

#[test]
fn plain_string_is_a_slice_of_the_source() {
    let source = String::from("  \"plain text\" ");
    let value = from_str(&source).unwrap();
    match value {
        Value::String(Cow::Borrowed(text)) => {
            assert_eq!(text, "plain text");
            let start = source.as_ptr() as usize;
            let at = text.as_ptr() as usize;
            assert!(start <= at && at + text.len() <= start + source.len());
            assert_eq!(at - start, 3);
        },
        _ => panic!("a string without escapes is borrowed"),
    }
}

#[test]
fn escaped_string_is_owned() {
    let value = from_str("\"a\\tb\"").unwrap();
    match value {
        Value::String(Cow::Owned(text)) => assert_eq!(text, "a\tb"),
        _ => panic!("a string with an escape is built anew"),
    }
}

#[test]
fn keys_are_slices_too() {
    let source = String::from("{\"key\": 1}");
    let value = from_str(&source).unwrap();
    let members = value.as_object().unwrap();
    assert!(matches!(members[0].0, Cow::Borrowed("key")));
}

#[test]
fn non_ascii_text_is_sliced_by_characters() {
    let value = from_str("[\"h\u{e9}llo \u{1F600}\", \"\u{4e16}\u{754c}\"]").unwrap();
    let items = value.as_array().unwrap();
    assert_eq!(items[0].as_string(), Some("h\u{e9}llo \u{1F600}"));
    assert_eq!(items[1].as_string(), Some("\u{4e16}\u{754c}"));
}

#[test]
fn parse_string_moves_behind_the_quote() {
    let mut parser = Parser::new("\"ab\"rest");
    let text = parser.parse_string().unwrap();
    assert_eq!(text, "ab");
    assert_eq!(parser.offset(), 4);
    let mut parser = Parser::new("ab\"");
    assert!(parser.parse_string().is_none());
}

#[test]
fn skip_whitespace_stops_at_the_first_other_character() {
    let mut parser = Parser::new(" \t\r\n\u{a0}\u{2003}\u{3000}x ");
    parser.skip_whitespace();
    assert_eq!(parser.offset(), 7);
    assert_eq!(parser.peek(), Some('x'));
    parser.skip_whitespace();
    assert_eq!(parser.offset(), 7);
    let mut parser = Parser::new("   ");
    parser.skip_whitespace();
    assert_eq!(parser.offset(), 3);
    assert_eq!(parser.peek(), None);
}

#[test]
fn objects_and_arrays_nest() {
    let value = from_str("{\"a\": [1, {\"b\": null}], \"c\": {}}").unwrap();
    let a = value.get("a").unwrap().as_array().unwrap();
    assert_eq!(a.len(), 2);
    assert!(matches!(a[1].get("b"), Some(Value::Null)));
    assert_eq!(value.get("c").unwrap().as_object().unwrap().len(), 0);
    assert!(value.get("d").is_none());
}

#[test]
fn duplicate_key_keeps_the_last_value() {
    let value = from_str("{\"a\":1,\"a\":2}").unwrap();
    let members = value.as_object().unwrap();
    assert_eq!(members.len(), 1);
    assert_eq!(as_f64(value.get("a").unwrap().as_number().unwrap()), 2.0);
}

#[test]
fn a_comma_may_lead() {
    assert_eq!(from_str("[,1,2]").unwrap().as_array().unwrap().len(), 2);
    assert_eq!(from_str("{,\"a\":1}").unwrap().as_object().unwrap().len(), 1);
    assert_eq!(from_str("[1 2]").unwrap().as_array().unwrap().len(), 2);
}

#[test]
fn a_trailing_comma_fails_in_an_object_only() {
    assert!(from_str("{\"a\":1,}").is_none());
    assert!(from_str("[1,]").is_none());
    assert!(from_str("[1,,2]").is_none());
}

#[test]
fn what_follows_the_first_value_is_left_unread() {
    assert_eq!(from_str("true false").unwrap().as_boolean(), Some(true));
    assert_eq!(from_str("[1] garbage").unwrap().as_array().unwrap().len(), 1);
    let mut parser = Parser::new("12 rest");
    assert!(parser.parse_value().is_some());
    assert_eq!(parser.offset(), 2);
}

#[test]
fn keywords_go_by_their_first_letter() {
    assert_eq!(from_str("txyz").unwrap().as_boolean(), Some(true));
    assert_eq!(from_str("fxyzw").unwrap().as_boolean(), Some(false));
    assert!(matches!(from_str("nxyz").unwrap(), Value::Null));
    assert!(from_str("tru").is_none());
    assert!(from_str("fals").is_none());
    assert!(from_str("nul").is_none());
}

#[test]
fn malformed_texts_fail() {
    assert!(from_str("").is_none());
    assert!(from_str("   ").is_none());
    assert!(from_str("{").is_none());
    assert!(from_str("[1").is_none());
    assert!(from_str("{\"a\" 1}").is_none());
    assert!(from_str("{\"a\":}").is_none());
    assert!(from_str("{a:1}").is_none());
    assert!(from_str("@").is_none());
    assert!(from_str("[1, @]").is_none());
}

#[test]
fn deep_nesting_fails() {
    let source = "[".repeat(2000);
    assert!(from_str(&source).is_none());
}

#[test]
fn the_limit_counts_every_value() {
    let mut nested = "[".repeat(1024);
    nested.push_str(&"]".repeat(1024));
    assert!(from_str(&nested).is_some());
    let mut deeper = "[".repeat(1025);
    deeper.push_str(&"]".repeat(1025));
    assert!(from_str(&deeper).is_none());
    let mut flat = String::from("[");
    for _ in 0..1022 {
        flat.push_str("0,");
    }
    flat.push_str("0]");
    assert_eq!(from_str(&flat).unwrap().as_array().unwrap().len(), 1023);
    let mut longer = String::from("[");
    for _ in 0..1023 {
        longer.push_str("0,");
    }
    longer.push_str("0]");
    assert!(from_str(&longer).is_none());
}

#[test]
fn whitespace_is_what_the_standard_library_calls_whitespace() {
    for u in 0..=0x10FFFFu32 {
        if let Some(c) = char::from_u32(u) {
            assert_eq!(is_whitespace_char(c), c.is_whitespace(), "at {:x}", u);
        }
    }
}

#[test]
fn digits_are_the_ascii_digits() {
    for u in 0..=0x10FFFFu32 {
        if let Some(c) = char::from_u32(u) {
            assert_eq!(is_digit_char(c), c.is_ascii_digit());
            assert_eq!(hex_of_char(c), c.to_digit(16));
            if is_digit_char(c) {
                assert_eq!(Some(digit_of_char(c) as u32), c.to_digit(10));
            }
        }
    }
}

#[test]
fn texts_are_compared_by_their_characters() {
    assert!(str_eq("", ""));
    assert!(str_eq("h\u{e9}", "h\u{e9}"));
    assert!(!str_eq("a", "b"));
    assert!(!str_eq("a", "ab"));
    assert_eq!(chars_of("a\u{1F600}b"), vec!['a', '\u{1F600}', 'b']);
}

#[test]
fn many_strings_are_sliced() {
    let mut source = String::from("[");
    for i in 0..1000 {
        if i > 0 {
            source.push(',');
        }
        source.push_str("\"\u{e9}t\u{e9} \u{1F600}\"");
    }
    source.push(']');
    let value = from_str(&source).unwrap();
    let items = value.as_array().unwrap();
    assert_eq!(items.len(), 1000);
    for item in items {
        assert_eq!(item.as_string(), Some("\u{e9}t\u{e9} \u{1F600}"));
    }
}

#[test]
fn slices_lie_where_the_text_lies() {
    let source = String::from("{\"\u{4e16}\": [\"\u{754c}a\", \"b\u{e9}\"], \"z\": \"\"}");
    let value = from_str(&source).unwrap();
    let start = source.as_ptr() as usize;
    let members = value.as_object().unwrap();
    let first = members[0].1.as_array().unwrap();
    let texts = [&*members[0].0, first[0].as_string().unwrap(), first[1].as_string().unwrap()];
    let found = [source.find("\u{4e16}"), source.find("\u{754c}a"), source.find("b\u{e9}")];
    for (text, at) in texts.iter().zip(found.iter()) {
        assert_eq!(text.as_ptr() as usize - start, at.unwrap());
    }
    assert_eq!(members[1].1.as_string(), Some(""));
}

fn borrows(value: &Value) -> bool {
    match value {
        Value::String(text) => matches!(text, Cow::Borrowed(_)),
        Value::Object(members) => {
            members.iter().all(|m| matches!(m.0, Cow::Borrowed(_)) && borrows(&m.1))
        },
        Value::Array(items) => items.iter().all(borrows),
        _ => true,
    }
}

#[test]
fn a_text_without_a_backslash_is_read_without_a_copy() {
    let source = String::from("{\"a\": [\"b\", {\"c\": \"d \u{e9}\"}], \"e\": \"\"}");
    assert!(borrows(&from_str(&source).unwrap()));
    let source = String::from("{\"a\": [\"b\", {\"c\": \"d\\n\"}]}");
    assert!(!borrows(&from_str(&source).unwrap()));
}
