use memory_scanner_lib::Pattern;
use memory_scanner_lib::PatternByte;
use memory_scanner_lib::PatternError;

#[test]
fn test_pattern_from_string() {
    let pattern = Pattern::from_string("22 55 xx 60").unwrap();
    assert_eq!(pattern.len(), 4);
}

#[test]
fn test_pattern_matching() {
    let pattern = Pattern::from_string("22 55 xx 60").unwrap();
    let data = vec![0x22, 0x55, 0xFF, 0x60, 0x00];
    assert!(pattern.matches(&data, 0));
}

#[test]
fn test_pattern_no_match() {
    let pattern = Pattern::from_string("22 55 xx 60").unwrap();
    let data = vec![0x22, 0x54, 0xFF, 0x60, 0x00];
    assert!(!pattern.matches(&data, 0));
}

#[test]
fn test_wildcard_variants() {
    let p1 = Pattern::from_string("22 xx 60").unwrap();
    let p2 = Pattern::from_string("22 ? 60").unwrap();
    assert_eq!(p1.len(), p2.len());
}

#[test]
fn test_token_count_matches_fields() {
    let p = Pattern::from_string("de AD be EF").unwrap();
    assert_eq!(p.len(), 4);
    assert!(!p.is_empty());
    let q = Pattern::from_string("  01\t02  \n03 ").unwrap();
    assert_eq!(q.len(), 3);
}

#[test]
fn test_wildcard_capitalisations() {
    for spelling in ["xx", "xX", "Xx", "XX", "?"] {
        let p = Pattern::from_string(spelling).unwrap();
        assert_eq!(p.len(), 1);
        // a wildcard-only pattern accepts any byte
        assert!(p.matches(&[0x00], 0));
        assert!(p.matches(&[0xFF], 0));
    }
}

#[test]
fn test_empty_pattern_rejected() {
    assert!(matches!(Pattern::from_string(""), Err(PatternError::EmptyPattern)));
    assert!(matches!(Pattern::from_string("   \t \n  "), Err(PatternError::EmptyPattern)));
}

#[test]
fn test_invalid_token_reported() {
    match Pattern::from_string("22 zz 60") {
        Err(PatternError::InvalidHex(t)) => assert_eq!(t, "zz"),
        _ => panic!("expected the invalid token to be reported"),
    }
    match Pattern::from_string("5 22") {
        Err(PatternError::InvalidHex(t)) => assert_eq!(t, "5"),
        _ => panic!("expected the invalid token to be reported"),
    }
    match Pattern::from_string("22 123") {
        Err(PatternError::InvalidHex(t)) => assert_eq!(t, "123"),
        _ => panic!("expected the invalid token to be reported"),
    }
}

#[test]
fn test_from_bytes() {
    assert!(matches!(Pattern::from_bytes(vec![]), Err(PatternError::EmptyPattern)));
    let p = Pattern::from_bytes(vec![
        PatternByte::Exact(0x22),
        PatternByte::Wildcard,
        PatternByte::Exact(0x60),
    ])
    .unwrap();
    assert_eq!(p.len(), 3);
    assert!(p.matches(&[0x22, 0x11, 0x60], 0));
    assert!(!p.matches(&[0x23, 0x11, 0x60], 0));
}

#[test]
fn test_matches_out_of_bounds() {
    let p = Pattern::from_string("22 55").unwrap();
    let data = vec![0x22, 0x55];
    assert!(p.matches(&data, 0));
    assert!(!p.matches(&data, 1));
    assert!(!p.matches(&data, 2));
    assert!(!p.matches(&data, usize::MAX - 1));
    assert!(!p.matches(&[], 0));
}

#[test]
fn test_matches_interior_offset() {
    let p = Pattern::from_string("55 xx 60").unwrap();
    let data = vec![0x00, 0x55, 0xAA, 0x60, 0x01];
    assert!(p.matches(&data, 1));
    assert!(!p.matches(&data, 0));
    assert!(!p.matches(&data, 2));
}

#[test]
fn test_exact_byte_values() {
    let p = Pattern::from_string("0a fF 00").unwrap();
    assert!(p.matches(&[0x0A, 0xFF, 0x00], 0));
    assert!(!p.matches(&[0x0A, 0xFE, 0x00], 0));
}
