use vchord_algorithm::typmod::{typmod_in_65535, typmod_out, Typmod};

#[test]
fn parse_from_i32_decodes() {
    assert_eq!(Typmod::parse_from_i32(-1), Some(Typmod::Any));
    assert_eq!(Typmod::parse_from_i32(3), Some(Typmod::Dims(3)));
    assert_eq!(Typmod::parse_from_i32(0), None);
    assert_eq!(Typmod::parse_from_i32(-2), None);
}

#[test]
fn into_option_string_writes_decimal() {
    assert_eq!(Typmod::Any.into_option_string(), None);
    assert_eq!(Typmod::Dims(1536).into_option_string(), Some("1536".to_string()));
    assert_eq!(Typmod::Dims(7).into_option_string(), Some("7".to_string()));
    assert_eq!(Typmod::Dims(10).into_option_string(), Some("10".to_string()));
    assert_eq!(Typmod::Dims(4294967295).into_option_string(), Some("4294967295".to_string()));
}

#[test]
fn into_i32_encodes() {
    assert_eq!(Typmod::Any.into_i32(), -1);
    assert_eq!(Typmod::Dims(65535).into_i32(), 65535);
}

#[test]
fn dims_reports_fixed_dimension() {
    assert_eq!(Typmod::Any.dims(), None);
    assert_eq!(Typmod::Dims(12).dims(), Some(12));
}

#[test]
fn typmod_in_accepts_valid_lists() {
    assert_eq!(typmod_in_65535(&vec![]), Some(-1));
    assert_eq!(typmod_in_65535(&vec!["128".to_string()]), Some(128));
    assert_eq!(typmod_in_65535(&vec!["+0065535".to_string()]), Some(65535));
    assert_eq!(typmod_in_65535(&vec!["1".to_string()]), Some(1));
    assert_eq!(typmod_in_65535(&vec!["4294967295".to_string()]), None);
    assert_eq!(typmod_in_65535(&vec!["+".to_string()]), None);
    assert_eq!(typmod_in_65535(&vec!["12a".to_string()]), None);
    assert_eq!(typmod_in_65535(&vec![" 12".to_string()]), None);
}

#[test]
fn typmod_in_rejects_invalid_lists() {
    assert_eq!(typmod_in_65535(&vec!["0".to_string()]), None);
    assert_eq!(typmod_in_65535(&vec!["65536".to_string()]), None);
    assert_eq!(typmod_in_65535(&vec!["-3".to_string()]), None);
    assert_eq!(typmod_in_65535(&vec!["abc".to_string()]), None);
    assert_eq!(typmod_in_65535(&vec!["".to_string()]), None);
    assert_eq!(typmod_in_65535(&vec!["99999999999".to_string()]), None);
    assert_eq!(typmod_in_65535(&vec!["1".to_string(), "2".to_string()]), None);
}

#[test]
fn typmod_out_writes_text() {
    assert_eq!(typmod_out(-1), "()".to_string());
    assert_eq!(typmod_out(768), "(768)".to_string());
    assert_eq!(typmod_out(1), "(1)".to_string());
    assert_eq!(typmod_out(2147483647), "(2147483647)".to_string());
}
