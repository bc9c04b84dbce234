use docsis::decode::{DecodeError, Decoder, Mismatch};
use docsis::mib::Mib;
use docsis::snmp::DecodeNote;
use docsis::symbol::{Dec, Enc, Symbol};

const TABLE: &[Symbol] = &[
    Symbol { id: 1, ident: "NetworkAccess", code: 3, parent_id: 0, enc: Enc::Uchar, dec: Dec::Uchar, low: 0, high: 1 },
    Symbol { id: 2, ident: "ClassOfService", code: 4, parent_id: 0, enc: Enc::Nothing, dec: Dec::Aggregate, low: 0, high: 0 },
    Symbol { id: 3, ident: "ClassID", code: 1, parent_id: 2, enc: Enc::Uchar, dec: Dec::Uchar, low: 1, high: 16 },
    Symbol { id: 4, ident: "CmMic", code: 6, parent_id: 0, enc: Enc::Nothing, dec: Dec::Md5, low: 0, high: 0 },
    Symbol { id: 5, ident: "MaxRate", code: 8, parent_id: 0, enc: Enc::Uint, dec: Dec::Uint, low: 0, high: 0 },
    Symbol { id: 6, ident: "TftpServer", code: 21, parent_id: 0, enc: Enc::Ip, dec: Dec::Ip, low: 0, high: 0 },
    Symbol { id: 7, ident: "CpeMac", code: 14, parent_id: 0, enc: Enc::Ether, dec: Dec::Ether, low: 0, high: 0 },
    Symbol { id: 8, ident: "Name", code: 30, parent_id: 0, enc: Enc::String, dec: Dec::String, low: 0, high: 0 },
    Symbol { id: 9, ident: "Vendor", code: 43, parent_id: 0, enc: Enc::Hexstr, dec: Dec::Hexstr, low: 0, high: 0 },
    Symbol { id: 10, ident: "Servers6", code: 59, parent_id: 0, enc: Enc::Ip6List, dec: Dec::Ip6List, low: 0, high: 0 },
];

fn decode(buf: &[u8]) -> Result<String, DecodeError> {
    let mib = Mib::new();
    let mut dec = Decoder::new(&mib, TABLE, false);
    dec.decode_main_aggregate(buf)?;
    Ok(String::from_utf8(dec.into_output()).unwrap())
}

#[test]
fn settings_decode_one_per_line() {
    let text = decode(&[3, 1, 1, 4, 3, 1, 1, 5, 99, 2, b'a', b'b']).unwrap();
    assert_eq!(
        text,
        "Main \n{\n\tNetworkAccess 1;\n\tClassOfService\n\t{\n\t\tClassID 5;\n\t}\n\
         \tGenericTLV TlvCode 99 TlvString \"ab\"; /* tlv length = 2 */\n}\n"
    );
}

#[test]
fn typed_values_print_in_config_syntax() {
    let text = decode(&[
        8, 4, 0, 1, 0, 0, 21, 4, 10, 0, 0, 1, 14, 6, 0xb4, 0xee, 0, 1, 2, 3, 30, 4, b'a', b'b',
        0, b'c', 43, 2, 0xff, 0x01,
    ])
    .unwrap();
    assert_eq!(
        text,
        "Main \n{\n\tMaxRate 65536;\n\tTftpServer 10.0.0.1;\n\tCpeMac b4:ee:00:01:02:03;\n\
         \tName \"ab\";\n\tVendor 0xff01;\n}\n"
    );
}

#[test]
fn ipv6_lists_use_the_compressed_form() {
    let mut v = vec![59u8, 32];
    let mut a = [0u8; 16];
    a[0] = 0x20;
    a[1] = 0x01;
    a[15] = 1;
    v.extend_from_slice(&a);
    v.extend_from_slice(&[0u8; 16]);
    assert_eq!(decode(&v).unwrap(), "Main \n{\n\tServers6 2001::1,::;\n}\n");
}

#[test]
fn unknown_binary_tlvs_print_as_hex() {
    let text = decode(&[99, 2, 0, 1]).unwrap();
    assert_eq!(text, "Main \n{\n\tGenericTLV TlvCode 99 TlvLength 2 TlvValue 0x0001;\n}\n");
}

#[test]
fn a_wrong_length_stops_decoding() {
    assert_eq!(decode(&[8, 2, 0, 1]), Err(DecodeError::LengthMismatch(Mismatch::Uint)));
    assert_eq!(decode(&[6, 1, 0]), Err(DecodeError::LengthMismatch(Mismatch::Md5)));
    assert_eq!(DecodeError::LengthMismatch(Mismatch::Uint).message(), "u_int length mismatch");
}

#[test]
fn the_md5_digest_prints_as_a_comment() {
    let mut v = vec![6u8, 16];
    v.extend(0u8..16);
    assert_eq!(
        decode(&v).unwrap(),
        "Main \n{\n\t/* CmMic 000102030405060708090a0b0c0d0e0f; */\n}\n"
    );
}

#[test]
fn what_the_decoder_cannot_show_is_noted_beside_the_text() {
    use_notes();
}

const SNMP_TABLE: &[Symbol] = &[
    Symbol { id: 1, ident: "SnmpMibObject", code: 11, parent_id: 0, enc: Enc::Nothing, dec: Dec::SnmpObject, low: 1, high: 255 },
    Symbol { id: 2, ident: "SwUpgradeOid", code: 12, parent_id: 0, enc: Enc::Oid, dec: Dec::Oid, low: 0, high: 0 },
];

fn use_notes() {
    let mib = Mib::new();
    let mut dec = Decoder::new(&mib, SNMP_TABLE, false);
    let buf = [
        11u8, 14, 0x30, 0x0c, 0x06, 0x08, 0x2b, 0x06, 0x01, 0x02, 0x01, 0x01, 0x05, 0x00, 0x99, 0x00,
        12, 2, 0x05, 0x00,
    ];
    dec.decode_main_aggregate(&buf).ok().unwrap();
    let notes = dec.notes();
    // A numeric path reads back even through an empty tree, so only the
    // value's type and the malformed identifier are noted.
    assert_eq!(notes.len(), 2);
    assert!(matches!(notes[0], DecodeNote::BadType(0x99)));
    assert!(matches!(notes[1], DecodeNote::OidParseError));
}
