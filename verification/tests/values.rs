use http_client_core::bignat::BigNat;
use http_client_core::decimal::decimal_of;
use http_client_core::decimal::padded_decimal_of;
use http_client_core::decimal::read_i64;
use http_client_core::decimal::read_usize;
use http_client_core::decimal::signed_decimal_of;
use http_client_core::json::parse_json;
use http_client_core::json::parse_json_bytes;
use http_client_core::json::parse_number;
use http_client_core::json::print_json;
use http_client_core::json::print_json_pretty;
use http_client_core::json::JsonValue;
use http_client_core::json::Number;
use http_client_core::map::TextMap;
use http_client_core::text::eq_ignore_ascii_case;
use http_client_core::text::lines_of;
use http_client_core::text::lossy_text_of;
use http_client_core::text::split_text_of;
use http_client_core::text::to_lowercase;
use http_client_core::text::trim_of;

#[test]
fn json_is_read_and_printed() {
    let text = "{\"b\":[null,true,-3,18446744073709551615,0.1,1e300],\"a\":\"\\u00e4\\n\"}";
    let value = parse_json(text).unwrap();
    assert_eq!(
        print_json(&value),
        "{\"a\":\"ä\\n\",\"b\":[null,true,-3,18446744073709551615,0.1,1e+300]}"
    );
    assert_eq!(parse_json_bytes(text.as_bytes()), Some(value.clone()));
    assert_eq!(parse_json(&print_json(&value)), Some(value.clone()));
    assert_eq!(
        print_json_pretty(&parse_json("[1]").unwrap()).as_deref(),
        Some("[\n  1\n]")
    );
    assert_eq!(parse_json("{"), None);
    assert_eq!(parse_json_bytes(b"\xff"), None);
}

#[test]
fn json_numbers_are_read() {
    assert_eq!(parse_number("0"), Some(Number::PosInt(0)));
    assert_eq!(parse_number("-5"), Some(Number::NegInt(-5)));
    assert_eq!(parse_number("01"), None);
    assert_eq!(parse_number("-"), None);
    let half = JsonValue::Number(parse_number("0.50").unwrap());
    assert_eq!(print_json(&half), "0.5");
    assert_eq!(half.clone(), half);
    assert_ne!(half, JsonValue::Number(Number::PosInt(0)));
    assert_eq!(parse_number("-0.0"), parse_number("0.0"));
}

#[test]
fn maps_keep_their_keys_in_order() {
    let mut map: TextMap<String> = TextMap::new();
    for key in ["b", "a", "ä", "B", ""] {
        map.insert(key.to_string(), key.to_uppercase());
    }
    map.insert("a".to_string(), "again".to_string());
    let keys: Vec<&str> = (0..map.len()).map(|i| map.key_at(i)).collect();
    assert_eq!(keys, vec!["", "B", "a", "b", "ä"]);
    assert_eq!(map.get("a").map(|s| s.as_str()), Some("again"));
    map.remove("a");
    map.remove("none");
    assert!(!map.contains_key("a"));
    assert!(map.contains_key("b"));
    let mut more: TextMap<String> = TextMap::new();
    more.insert("b".to_string(), "new".to_string());
    map.extend_from(&more);
    assert_eq!(map.get("b").map(|s| s.as_str()), Some("new"));
    assert_eq!(map.len(), 4);
    let copy = map.clone();
    assert_eq!(copy, map);
    map.clear();
    assert!(map.is_empty());
}

#[test]
fn decimals_are_written_and_read() {
    assert_eq!(decimal_of(u64::MAX), "18446744073709551615");
    assert_eq!(signed_decimal_of(i64::MIN), "-9223372036854775808");
    assert_eq!(padded_decimal_of(-7, 4), "-007");
    assert_eq!(padded_decimal_of(12345, 2), "12345");
    assert_eq!(read_usize("+007"), Some(7));
    assert_eq!(read_usize("-1"), None);
    assert_eq!(read_usize(""), None);
    assert_eq!(read_usize("99999999999999999999"), None);
    assert_eq!(read_i64("-9223372036854775808"), Some(i64::MIN));
    assert_eq!(read_i64("9223372036854775808"), None);
    assert_eq!(read_i64("+"), None);
    for n in [0u64, 9, 10, 12345678901234567890] {
        assert_eq!(decimal_of(n).parse::<u64>(), Ok(n));
    }
}

#[test]
fn big_numbers_are_computed() {
    let a = BigNat::of(u64::MAX);
    let square = a.times(&a);
    assert_eq!(square.to_decimal(), "340282366920938463426481119284349108225");
    assert_eq!(square.plus(&a).to_decimal(), "340282366920938463444927863358058659840");
    assert_eq!(square.minus(&a).to_decimal(), "340282366920938463408034375210639556610");
    let (q, r) = square.divided_by(1_000_000_007);
    assert_eq!(q.to_decimal(), "340282364538961911653747737708");
    assert_eq!(r, 114_944_269);
    assert_eq!(BigNat::zero().to_decimal(), "0");
}

#[test]
fn texts_follow_unicode() {
    assert_eq!(to_lowercase("ÄB"), "äb");
    assert_eq!(to_lowercase("AZ[`"), "az[`");
    assert!(eq_ignore_ascii_case("Ab-1", "aB-1"));
    assert!(!eq_ignore_ascii_case("Ä", "ä"));
    assert_eq!(trim_of("\u{2003}a b\u{a0}\n"), "a b");
    assert_eq!(lines_of("a\r\nb\n\nc\r"), vec!["a", "b", "", "c\r"]);
    assert_eq!(split_text_of("a--b--", "--"), vec!["a", "b", ""]);
    assert_eq!(lossy_text_of("é".as_bytes()), "é");
    assert_eq!(lossy_text_of(b"\xc3("), "\u{fffd}(");
}
