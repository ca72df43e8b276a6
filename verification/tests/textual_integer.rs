use rankforum::textual_integer::TextualInteger;

#[test]
fn test_new_and_to_string_round_trip() {
    for s in ["0", "1", "42", "-42", "123456789012345678901234567890"] {
        let v = TextualInteger::new(s);
        assert_eq!(v.to_string(), s);
    }
}

#[test]
fn test_is_positive() {
    assert!(TextualInteger::new("0").is_positive());
    assert!(TextualInteger::new("7").is_positive());
    assert!(!TextualInteger::new("-7").is_positive());
}

#[test]
fn test_method_arithmetic() {
    let a = TextualInteger::new("999");
    let b = TextualInteger::new("-1000");
    assert_eq!(a.add(&b), TextualInteger::new("-1"));
    assert_eq!(a.sub(&b), TextualInteger::new("1999"));
    assert_eq!(a.mul(&b), TextualInteger::new("-999000"));
    assert_eq!(a.add(&TextualInteger::new("1")), TextualInteger::new("1000"));
}

#[test]
fn test_method_pow() {
    assert_eq!(TextualInteger::new("2").pow(10), TextualInteger::new("1024"));
    assert_eq!(TextualInteger::new("0").pow(0), TextualInteger::new("1"));
    assert_eq!(TextualInteger::new("0").pow(4), TextualInteger::new("0"));
    assert_eq!(TextualInteger::new("100").pow(3), TextualInteger::new("1000000"));
}

#[test]
fn test_method_is_smaller() {
    assert!(TextualInteger::new("99").is_smaller(&TextualInteger::new("100")));
    assert!(!TextualInteger::new("100").is_smaller(&TextualInteger::new("99")));
    assert!(!TextualInteger::new("55").is_smaller(&TextualInteger::new("55")));
}

#[test]
fn test_clone_and_eq() {
    let a = TextualInteger::new("-123456789");
    let b = a.clone();
    assert_eq!(a, b);
    assert_ne!(a, TextualInteger::new("123456789"));
}

#[test]
fn test_method_is_less() {
    // Signed order: negatives below non-negatives, magnitudes within one
    // sign, reversed between two negatives.
    assert!(TextualInteger::new("-5").is_less(&TextualInteger::new("3")));
    assert!(!TextualInteger::new("3").is_less(&TextualInteger::new("-5")));
    assert!(TextualInteger::new("-100").is_less(&TextualInteger::new("-99")));
    assert!(!TextualInteger::new("-99").is_less(&TextualInteger::new("-100")));
    assert!(TextualInteger::new("99").is_less(&TextualInteger::new("100")));
    assert!(!TextualInteger::new("0").is_less(&TextualInteger::new("0")));
    assert!(TextualInteger::new("-1").is_less(&TextualInteger::new("0")));
}
