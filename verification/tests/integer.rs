use openmath::Int;

#[test]
fn test_small_integers() {
    let int = Int::from(42);
    assert_eq!(int.is_i128(), Some(42));
    assert_eq!(int.is_big(), None);
    assert!(!int.is_zero());
    assert!(int.is_positive());
    assert!(!int.is_negative());
}

#[test]
fn test_negative_integers() {
    let int = Int::from(-42);
    assert_eq!(int.is_i128(), Some(-42));
    assert_eq!(int.is_big(), None);
    assert!(!int.is_zero());
    assert!(!int.is_positive());
    assert!(int.is_negative());
}

#[test]
fn test_zero() {
    let int = Int::from(0);
    assert_eq!(int.is_i128(), Some(0));
    assert_eq!(int.is_big(), None);
    assert!(int.is_zero());
    assert!(!int.is_positive());
    assert!(!int.is_negative());
}

#[test]
fn test_max_i128() {
    let int = Int::from(i128::MAX);
    assert_eq!(int.is_i128(), Some(i128::MAX));
    assert_eq!(int.is_big(), None);
    assert!(int.is_positive());
}

#[test]
fn test_min_i128() {
    let int = Int::from(i128::MIN);
    assert_eq!(int.is_i128(), Some(i128::MIN));
    assert_eq!(int.is_big(), None);
    assert!(int.is_negative());
}

#[test]
fn test_big_integer_from_string() {
    let big_str =
        "12345678901234567890123456789012345678901234567890123456789012345678901234567890";
    let int = Int::new(big_str).expect("works");
    assert_eq!(int.is_i128(), None);
    assert_eq!(int.is_big(), Some(big_str));
    assert!(int.is_positive());
    assert!(!int.is_zero());
    assert!(!int.is_negative());
}

#[test]
fn test_big_negative_integer() {
    let big_str =
        "-12345678901234567890123456789012345678901234567890123456789012345678901234567890";
    let int = Int::new(big_str).expect("should be defined");
    assert_eq!(int.is_i128(), None);
    assert_eq!(int.is_big(), Some(big_str));
    assert!(!int.is_positive());
    assert!(!int.is_zero());
    assert!(int.is_negative());
}

#[test]
fn test_zero_variants() {
    for zero_str in ["0", "+0", "-0"] {
        let int = Int::new(zero_str).expect("should be defined");
        assert!(int.is_zero(), "Failed for '{zero_str}'");
        assert!(!int.is_positive(), "Failed for '{zero_str}'");
        assert!(!int.is_negative(), "Failed for '{zero_str}'");
    }
}

#[test]
fn test_invalid_strings() {
    let invalid = ["", "abc", "12.34", "12e5", "12.0", "+-123", "12-34"];
    for s in invalid {
        assert!(Int::new(s).is_none(), "Should reject '{s}'");
    }
}

#[test]
fn test_valid_string_formats() {
    let valid = ["123", "+123", "-123", "0", "+0", "-0"];
    for s in valid {
        assert!(Int::new(s).is_some(), "Should accept '{s}'");
    }
}

#[test]
fn test_from_different_types() {
    assert_eq!(Int::from(42u8).is_i128(), Some(42));
    assert_eq!(Int::from(42i8).is_i128(), Some(42));
    assert_eq!(Int::from(42u16).is_i128(), Some(42));
    assert_eq!(Int::from(42i16).is_i128(), Some(42));
    assert_eq!(Int::from(42u32).is_i128(), Some(42));
    assert_eq!(Int::from(42i32).is_i128(), Some(42));
    assert_eq!(Int::from(42u64).is_i128(), Some(42));
    assert_eq!(Int::from(42i64).is_i128(), Some(42));
    assert_eq!(Int::from(42usize).is_i128(), Some(42));
    assert_eq!(Int::from(42isize).is_i128(), Some(42));
    assert_eq!(Int::from(42i128).is_i128(), Some(42));
}

#[test]
fn test_ordering() {
    let small = Int::from(42);
    let big = Int::new("123456789012345678901234567890").expect("should be defined");
    let bigger = Int::new("999999999999999999999999999999").expect("should be defined");

    assert!(small < big);
    assert!(big < bigger);
    assert!(small < bigger);
}

#[test]
fn test_equality() {
    let a = Int::from(42);
    let b = Int::from(42);
    let c = Int::from(43);

    assert_eq!(a, b);
    assert_ne!(a, c);

    let big1 = Int::new("12345678901234567890123456789012345678901234567890")
        .expect("should be defined");
    let big2 = Int::new("12345678901234567890123456789012345678901234567890")
        .expect("should be defined");
    let big3 = Int::new("12345678901234567890123456789012345678901234567891")
        .expect("should be defined");

    assert_eq!(big1, big2);
    assert_ne!(big1, big3);
}

#[test]
fn test_clone() {
    let original = Int::new("12345678901234567890123456789012345678901234567890")
        .expect("should be defined");
    let cloned = original.clone();
    assert_eq!(original, cloned);
}

#[test]
fn test_from_string_owned() {
    let s = "12345678901234567890123456789012345678901234567890".to_string();
    let int = Int::from_string(s).expect("should be defined");
    assert!(int.is_big().is_some());
}

#[test]
fn test_boundary_conditions() {
    // Test the boundary where we switch from i128 to string
    let max_plus_one = "170141183460469231731687303715884105728"; // i128::MAX + 1
    let int = Int::new(max_plus_one).expect("should be defined");
    assert!(int.is_big().is_some());
    assert_eq!(int.is_big().expect("should be defined"), max_plus_one);
}

#[test]
fn min_i128_text_stays_inline() {
    let int = Int::new("-170141183460469231731687303715884105728").expect("should be defined");
    assert_eq!(int.is_i128(), Some(i128::MIN));
    let below = Int::new("-170141183460469231731687303715884105729").expect("should be defined");
    assert_eq!(below.is_i128(), None);
    assert_eq!(below.is_big(), Some("-170141183460469231731687303715884105729"));
}

#[test]
fn plus_sign_dropped_from_big_text() {
    let int = Int::new("+170141183460469231731687303715884105728").expect("should be defined");
    assert_eq!(int.is_big(), Some("170141183460469231731687303715884105728"));
    let owned = Int::from_string("+999999999999999999999999999999999999999".to_string())
        .expect("should be defined");
    assert_eq!(owned.is_big(), Some("999999999999999999999999999999999999999"));
}

#[test]
fn leading_zeros_parse_inline() {
    let int = Int::new("000000000000000000000000000000000000000000042").expect("should be defined");
    assert_eq!(int.is_i128(), Some(42));
}

#[test]
fn sign_alone_is_refused() {
    assert!(Int::new("+").is_none());
    assert!(Int::new("-").is_none());
    assert!(Int::from_string(String::from("+")).is_none());
    let big = Int::new("+123456789012345678901234567890123456789012").expect("digits");
    assert_eq!(big.is_big(), Some("123456789012345678901234567890123456789012"));
    assert!(big.is_positive());
    assert!(!big.is_negative());
}

#[test]
fn decimal_text_roundtrip() {
    for v in [0i128, 7, -7, 10, -10, 1234567890, i128::MAX, i128::MIN] {
        let text = Int::from(v).to_string();
        assert_eq!(text, v.to_string());
        assert_eq!(Int::new(&text).expect("valid").is_i128(), Some(v));
    }
    let big = Int::new("-99999999999999999999999999999999999999999").expect("valid");
    assert_eq!(big.to_string(), "-99999999999999999999999999999999999999999");
}

#[test]
fn into_owned_keeps_value() {
    let s = String::from("123456789012345678901234567890123456789012");
    let int = Int::new(&s).expect("valid");
    let owned = int.clone().into_owned();
    assert_eq!(int, owned);
    assert_eq!(Int::from(5u8).into_owned().is_i128(), Some(5));
}

#[test]
fn try_from_strings() {
    assert_eq!(Int::try_from("42").expect("an integer").is_i128(), Some(42));
    assert!(Int::try_from("4x2").is_err());
    assert!(Int::try_from("-").is_err());
    let big = Int::try_from(String::from("+999999999999999999999999999999999999999999")).expect("digits");
    assert_eq!(big.is_big(), Some("999999999999999999999999999999999999999999"));
    let c = Int::try_from(std::borrow::Cow::Borrowed("-17")).expect("an integer");
    assert_eq!(c, Int::from(-17i64));
    assert!(Int::from(5u8) < Int::new("123456789012345678901234567890123456789012").expect("big"));
}

#[test]
fn order_is_numeric() {
    let neg_big = Int::from_string(format!("-1{}", "0".repeat(40))).expect("big");
    let pos_big = Int::from_string(format!("1{}", "0".repeat(40))).expect("big");
    let nines = Int::from_string("9".repeat(40)).expect("big");
    let small = Int::from(42);
    assert!(neg_big < small);
    assert!(small < pos_big);
    assert!(nines < pos_big);
    let m2 = Int::from_string(format!("-2{}", "0".repeat(40))).expect("big");
    let m1 = Int::from_string(format!("-1{}", "0".repeat(40))).expect("big");
    assert!(m2 < m1);
    assert!(Int::from(-5i64) < Int::from(3i64));
    let zeros = Int::from_string(format!("000{}", "9".repeat(40))).expect("big");
    assert_eq!(zeros.partial_cmp(&nines), Some(std::cmp::Ordering::Less));
    assert!(zeros != nines);
}
