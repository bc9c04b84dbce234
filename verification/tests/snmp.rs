use docsis::asn1::{build_int, build_string, build_var_op, ASN_INTEGER, ASN_OCTET_STR};
use docsis::mib::Mib;
use docsis::snmp::{build_vbind, decode_snmp_oid, decode_vbind, hexadecimal, hinted_integer, is_printable, VarValue, VbindError};

#[test]
fn hex_text_is_prefixed_and_lowercase() {
    assert_eq!(hexadecimal(&[0xAB, 0x01]), "0xab01");
    assert_eq!(hexadecimal(&[]), "0x");
    assert!(is_printable(b"hello ~"));
    assert!(!is_printable(b"a\x7f"));
}

#[test]
fn display_hints_place_the_decimal_point() {
    assert_eq!(hinted_integer(1234, b'd', b"d-2"), b"12.34".to_vec());
    assert_eq!(hinted_integer(5, b'd', b"d-3"), b".005".to_vec());
    assert_eq!(hinted_integer(-1234, b'd', b"d-2"), b"-12.34".to_vec());
    assert_eq!(hinted_integer(255, b'd', b"x"), b"ff".to_vec());
    assert_eq!(hinted_integer(8, b'd', b"o"), b"10".to_vec());
    assert_eq!(hinted_integer(7, b'd', b"q"), b"7".to_vec());
    assert_eq!(hinted_integer(5, b'd', b"b").len(), 32);
}

#[test]
fn a_binding_prints_name_type_and_value() {
    let mut val = Vec::new();
    build_int(&mut val, ASN_INTEGER, 5);
    let vb = build_var_op(&[1, 3, 6, 1], &val, true);
    let mib = Mib::new();
    assert_eq!(decode_vbind(&mib, &vb, false), b".1.3.6.1 Integer 5;".to_vec());

    let mut s = Vec::new();
    build_string(&mut s, ASN_OCTET_STR, &[1, 2]);
    let vb = build_var_op(&[1, 3, 6, 1], &s, true);
    assert_eq!(decode_vbind(&mib, &vb, true), b".1.3.6.1 HexString 0x0102;".to_vec());
    assert!(decode_vbind(&mib, &[0x30, 0x00], false).is_empty());
}

#[test]
fn a_binding_is_built_from_its_parts() {
    let v = build_vbind(&[1, 3, 6, 1], &VarValue::Int(5), None, &Vec::new()).ok().unwrap();
    let mut val = Vec::new();
    build_int(&mut val, ASN_INTEGER, 5);
    assert_eq!(v, build_var_op(&[1, 3, 6, 1], &val, true));
    assert_eq!(
        build_vbind(&[1, 3, 6, 1], &VarValue::Str(b"toolong".to_vec()), None, &vec![(1, 3)]).err(),
        Some(VbindError::ValueTooLong)
    );
    assert_eq!(
        build_vbind(&[1, 3, 6, 1], &VarValue::Oid("x".to_string()), None, &Vec::new()).err(),
        Some(VbindError::UnknownValueOid)
    );
    let g = build_vbind(&[1, 3], &VarValue::Gauge(0xFFFF_FFFF), None, &Vec::new()).ok().unwrap();
    // A negative literal sign-extends before encoding.
    assert_eq!(&g[g.len() - 11..], &[0x42, 9, 0, 0xff, 0xff, 0xff, 0xff, 0xff, 0xff, 0xff, 0xff]);
}

#[test]
fn a_numeric_oid_renders_with_leading_dots() {
    let mib = Mib::new();
    assert_eq!(decode_snmp_oid(&mib, &[0x06, 0x03, 0x2b, 6, 1]), ".1.3.6.1");
    assert_eq!(decode_snmp_oid(&mib, &[0x04, 0x01, 0x2b]), "");
}
