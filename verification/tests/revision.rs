use themelios::state::Revision;
use themelios::utils::{parse_u64, str_eq, str_lt, u64_to_string};

#[test]
fn revision_string_round_trip() {
    for n in [0usize, 1, 9, 10, 41, 100, 12345, usize::MAX] {
        let r = Revision(n);
        let s = r.to_string();
        assert_eq!(Revision::from_str(s.as_str()), Ok(r));
    }
}

#[test]
fn revision_to_string_is_decimal() {
    assert_eq!(Revision(0).to_string(), "0");
    assert_eq!(Revision(7).to_string(), "7");
    assert_eq!(Revision(430).to_string(), "430");
}

#[test]
fn revision_from_str_rejects_junk() {
    assert_eq!(Revision::from_str(""), Err(()));
    assert_eq!(Revision::from_str("x12"), Err(()));
    assert_eq!(Revision::from_str("12 "), Err(()));
    assert_eq!(Revision::from_str("-3"), Err(()));
    assert_eq!(Revision::from_str("99999999999999999999999999"), Err(()));
}

#[test]
fn revision_increment_is_successor() {
    assert_eq!(Revision(4).increment(), Revision(5));
    assert_eq!(Revision::zero(), Revision(0));
}

#[test]
fn parse_u64_matches_value() {
    assert_eq!(parse_u64("0"), Some(0));
    assert_eq!(parse_u64("0012"), Some(12));
    assert_eq!(parse_u64("18446744073709551615"), Some(u64::MAX));
    assert_eq!(parse_u64("18446744073709551616"), None);
    assert_eq!(u64_to_string(905), "905");
}

#[test]
fn string_order_helpers() {
    assert!(str_lt("abc", "abd"));
    assert!(str_lt("ab", "abc"));
    assert!(!str_lt("b", "ab"));
    assert!(str_eq("same", "same"));
    assert!(!str_eq("same", "samee"));
}
