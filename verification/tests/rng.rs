use http_client_core::calendar::iso8601;
use http_client_core::rng::civil_from_days;
use http_client_core::rng::iso8601_timestamp;
use http_client_core::rng::unix_timestamp;
use http_client_core::rng::whole_seconds;
use http_client_core::rng::Rng;

#[test]
fn draws_known_numbers() {
    let mut rng = Rng::from_nanos(1);
    let mut copy = rng.clone();
    assert_eq!(rng.next_u64(), 517667748583981668);
    assert_eq!(rng.next_u64(), 6663539711132227212);
    assert_eq!(copy.next_u64(), 517667748583981668);
}

#[test]
fn a_zero_seed_is_replaced() {
    let mut a = Rng::from_nanos(0xD1B54A32D192ED03);
    let first = a.next_u64();
    assert_ne!(first, 0);
    assert_ne!(a.next_u64(), first);
}

#[test]
fn integers_stay_in_their_range() {
    let mut rng = Rng::from_nanos(1);
    assert_eq!(rng.int_range(10, 20), 18);
    for _ in 0..1000 {
        let n = rng.int_range(-3, 4);
        assert!((-3..4).contains(&n));
    }
    assert_eq!(rng.int_range(5, 6), 5);
    for _ in 0..100 {
        assert!(rng.int_range(i64::MIN, i64::MAX) < i64::MAX);
    }
}

#[test]
fn uuids_have_their_form() {
    let mut rng = Rng::from_nanos(1);
    assert_eq!(rng.uuid_v4(), "6442061a-1320-4f07-8cd6-bef40fa6795c");
    for _ in 0..100 {
        let uuid = rng.uuid_v4();
        let parts: Vec<&str> = uuid.split('-').collect();
        let lengths: Vec<usize> = parts.iter().map(|p| p.len()).collect();
        assert_eq!(lengths, vec![8, 4, 4, 4, 12]);
        assert!(parts[2].starts_with('4'));
        assert!("89ab".contains(&parts[3][..1]));
        assert!(uuid.chars().all(|c| c == '-' || "0123456789abcdef".contains(c)));
    }
}

#[test]
fn texts_are_of_their_alphabet() {
    let mut rng = Rng::from_nanos(1);
    assert_eq!(rng.clone().alphabetic(8), "KqMTsjnF");
    assert_eq!(rng.clone().alphanumeric(8), "pZ7OKbQQ");
    assert_eq!(rng.clone().hexadecimal(8), "4c2da957");
    assert_eq!(rng.clone().email(), "pz7okbqq@example.org");
    let letters = rng.alphabetic(500);
    assert_eq!(letters.len(), 500);
    assert!(letters.chars().all(|c| c.is_ascii_alphabetic()));
    assert!(rng
        .alphanumeric(500)
        .chars()
        .all(|c| c.is_ascii_alphanumeric() || c == '_'));
    assert_eq!(rng.hexadecimal(0), "");
    assert!(rng.email().contains('@'));
}

#[test]
fn the_clock_is_read() {
    assert!(unix_timestamp() > 1_500_000_000);
    let text = iso8601_timestamp();
    assert_eq!(text.len(), 20);
    assert!(text.starts_with("20"));
    assert!(text.ends_with('Z'));
    assert_eq!(whole_seconds(Some(1_999_999_999)), 1);
    assert_eq!(whole_seconds(None), 0);
    let mut rng = Rng::default();
    assert_ne!(rng.next_u64(), rng.next_u64());
}

#[test]
fn dates_are_those_of_the_calendar() {
    assert_eq!(civil_from_days(0), (1970, 1, 1));
    assert_eq!(civil_from_days(-1), (1969, 12, 31));
    assert_eq!(civil_from_days(11016), (2000, 2, 29));
    assert_eq!(civil_from_days(11017), (2000, 3, 1));
    assert_eq!(civil_from_days(-719468), (0, 3, 1));
    assert_eq!(civil_from_days(-719529), (-1, 12, 31));
    assert_eq!(civil_from_days(-25509), (1900, 2, 28));
    assert_eq!(civil_from_days(-25508), (1900, 3, 1));
}

#[test]
fn formats_moments() {
    assert_eq!(iso8601(0), "1970-01-01T00:00:00Z");
    assert_eq!(iso8601(951782400), "2000-02-29T00:00:00Z");
    assert_eq!(iso8601(1787574896), "2026-08-24T12:34:56Z");
    assert_eq!(iso8601(4102444799), "2099-12-31T23:59:59Z");
    assert_eq!(iso8601(-1), "1969-12-31T23:59:59Z");
    assert_eq!(iso8601(-62167219201), "-001-12-31T23:59:59Z");
}
