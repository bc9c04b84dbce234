use docsis::asn1::{
    build_int, build_length, build_objid, build_string, build_unsigned_int, build_var_op,
    parse_int, parse_objid, parse_tlv, parse_unsigned, parse_var_op, ASN_GAUGE, ASN_INTEGER,
    ASN_OBJECT_ID, ASN_OCTET_STR, ASN_SEQUENCE,
};

#[test]
fn integers_use_the_shortest_encoding() {
    let mut out = Vec::new();
    build_int(&mut out, ASN_INTEGER, 1);
    assert_eq!(out, vec![0x02, 0x01, 0x01]);

    out.clear();
    build_int(&mut out, ASN_INTEGER, 0);
    assert_eq!(out, vec![0x02, 0x01, 0x00]);

    out.clear();
    build_int(&mut out, ASN_INTEGER, -1);
    assert_eq!(out, vec![0x02, 0x01, 0xFF]);

    out.clear();
    build_int(&mut out, ASN_INTEGER, 128);
    assert_eq!(out, vec![0x02, 0x02, 0x00, 0x80]);

    out.clear();
    build_int(&mut out, ASN_INTEGER, 65535);
    assert_eq!(out, vec![0x02, 0x03, 0x00, 0xFF, 0xFF]);
}

#[test]
fn unsigned_values_keep_a_leading_zero_when_signed_would_flip() {
    let mut out = Vec::new();
    build_unsigned_int(&mut out, ASN_GAUGE, 5060);
    assert_eq!(out, vec![0x42, 0x02, 0x13, 0xC4]);

    out.clear();
    build_unsigned_int(&mut out, ASN_GAUGE, 0x8000_0000);
    assert_eq!(out, vec![0x42, 0x05, 0x00, 0x80, 0x00, 0x00, 0x00]);
}

#[test]
fn lengths_switch_to_the_long_form_past_127() {
    let mut out = Vec::new();
    build_length(&mut out, 0x7f);
    assert_eq!(out, vec![0x7f]);

    out.clear();
    build_length(&mut out, 0x80);
    assert_eq!(out, vec![0x81, 0x80]);

    out.clear();
    build_length(&mut out, 0x1234);
    assert_eq!(out, vec![0x82, 0x12, 0x34]);
}

#[test]
fn object_identifiers_pack_the_first_two_arcs() {
    let mut out = Vec::new();
    // sysContact.0
    assert!(build_objid(&mut out, ASN_OBJECT_ID, &[1, 3, 6, 1, 2, 1, 1, 4, 0]));
    assert_eq!(out, vec![0x06, 0x08, 0x2b, 6, 1, 2, 1, 1, 4, 0]);
    assert_eq!(parse_objid(&out).unwrap(), vec![1, 3, 6, 1, 2, 1, 1, 4, 0]);
}

#[test]
fn large_subidentifiers_use_continuation_octets() {
    let mut out = Vec::new();
    assert!(build_objid(&mut out, ASN_OBJECT_ID, &[1, 3, 6, 1, 4, 1, 4491]));
    assert_eq!(out, vec![0x06, 0x07, 0x2b, 6, 1, 4, 1, 0xa3, 0x0b]);
    assert_eq!(parse_objid(&out).unwrap(), vec![1, 3, 6, 1, 4, 1, 4491]);
}

#[test]
fn a_varbind_round_trips() {
    let mut val = Vec::new();
    build_int(&mut val, ASN_INTEGER, 3);
    let vb = build_var_op(&[1, 3, 6, 1, 2, 1, 69, 1, 1, 1, 0], &val, true);
    assert_eq!(vb[0], ASN_SEQUENCE);
    assert_eq!(vb[1] as usize, vb.len() - 2);

    let parsed = parse_var_op(&vb).unwrap();
    assert_eq!(parsed.name, vec![1, 3, 6, 1, 2, 1, 69, 1, 1, 1, 0]);
    assert_eq!(parsed.val_type, ASN_INTEGER);
    assert_eq!(parse_int(parsed.val), 3);
}

#[test]
fn the_long_sequence_header_is_four_octets() {
    let mut val = Vec::new();
    build_string(&mut val, ASN_OCTET_STR, &[b'x'; 300]);
    let vb = build_var_op(&[1, 3, 6, 1], &val, false);
    assert_eq!(&vb[..2], &[ASN_SEQUENCE, 0x82]);
    assert_eq!(u16::from_be_bytes([vb[2], vb[3]]) as usize, vb.len() - 4);
}

#[test]
fn negative_integers_round_trip_through_their_content_octets() {
    for v in [-129i64, -128, -1, 0, 127, 255, 256, i64::MIN, i64::MAX] {
        let mut out = Vec::new();
        build_int(&mut out, ASN_INTEGER, v);
        let tlv = parse_tlv(&out).unwrap();
        assert_eq!(tlv.tag, ASN_INTEGER);
        assert_eq!(parse_int(tlv.value), v);
    }
    let mut out = Vec::new();
    build_int(&mut out, ASN_INTEGER, -129);
    assert_eq!(out, vec![0x02, 0x02, 0xFF, 0x7F]);
}

#[test]
fn unsigned_values_round_trip() {
    for v in [0u64, 1, 0x7f, 0x80, 0xFFFF_FFFF, u64::MAX] {
        let mut out = Vec::new();
        build_unsigned_int(&mut out, ASN_GAUGE, v);
        let tlv = parse_tlv(&out).unwrap();
        assert_eq!(parse_unsigned(tlv.value), v);
    }
}

#[test]
fn a_truncated_element_is_refused() {
    assert!(parse_tlv(&[0x04, 0x05, 1, 2]).is_none());
    assert!(parse_tlv(&[]).is_none());
    assert!(parse_tlv(&[0x04, 0x82, 0x01]).is_none());
    assert!(parse_objid(&[0x04, 0x01, 0x2b]).is_none());
}

#[test]
fn the_first_two_arcs_must_fit_one_octet() {
    let mut out = Vec::new();
    assert!(!build_objid(&mut out, ASN_OBJECT_ID, &[3, 1]));
}
