use glass::GlassError;
use glass::ident::Id;

#[test]
fn test_simple_rendering() {
    let id = Id { value: 0x426497c2_1f94_4a75_889f_ecc04629da1d };
    assert_eq!(id.to_simple(), "426497c21f944a75889fecc04629da1d");
}

#[test]
fn test_hyphenated_rendering() {
    let id = Id { value: 0x426497c2_1f94_4a75_889f_ecc04629da1d };
    assert_eq!(id.to_hyphenated(), "426497c2-1f94-4a75-889f-ecc04629da1d");
}

#[test]
fn test_parse_simple_round_trip() {
    let id = Id { value: 0x2b770fa6_749f_4aee_b49d_7bc4a0fe5dbe };
    let rendered = id.to_simple();
    assert_eq!(Id::parse(&rendered), Ok(id));
}

#[test]
fn test_parse_hyphenated_round_trip() {
    let id = Id { value: 0x2b770fa6_749f_4aee_b49d_7bc4a0fe5dbe };
    let rendered = id.to_hyphenated();
    assert_eq!(Id::parse(&rendered), Ok(id));
}

#[test]
fn test_parse_uppercase() {
    let lower = Id::parse("426497c21f944a75889fecc04629da1d").unwrap();
    let upper = Id::parse("426497C21F944A75889FECC04629DA1D").unwrap();
    assert_eq!(lower, upper);
}

#[test]
fn test_parse_zero() {
    let id = Id::parse("00000000000000000000000000000000").unwrap();
    assert_eq!(id, Id::nil());
}

#[test]
fn test_parse_malformed() {
    assert_eq!(Id::parse("not-an-id"), Err(GlassError::MalformedIdentifier));
    assert_eq!(Id::parse(""), Err(GlassError::MalformedIdentifier));
    // right length, wrong digit
    assert_eq!(
        Id::parse("g26497c21f944a75889fecc04629da1d"),
        Err(GlassError::MalformedIdentifier)
    );
    // hyphens in the wrong places
    assert_eq!(
        Id::parse("426497c2-1f944a75-889f-ecc04629da1d-"),
        Err(GlassError::MalformedIdentifier)
    );
}

#[test]
fn test_nil_sentinel() {
    assert_eq!(Id::nil().value, 0);
    assert_eq!(Id::nil().to_simple(), "00000000000000000000000000000000");
}

#[test]
fn test_fresh_is_not_nil() {
    let a = Id::fresh();
    let b = Id::fresh();
    assert_ne!(a, Id::nil());
    assert_ne!(b, Id::nil());
    assert_ne!(a, b);
}
