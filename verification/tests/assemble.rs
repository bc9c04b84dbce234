use docsis::assemble::{
    add_cm_mic, add_cmts_mic, add_dialplan, add_eod_and_pad, add_mta_hash, assemble_file,
    cmts_mic_tlvs, flatten, replace_extension,
};
use docsis::parser::Tlv;
use md5::{Digest, Md5};
use sha1::Sha1;

#[test]
fn settings_serialise_as_code_length_value() {
    let tree = vec![
        Tlv::leaf(3, vec![1]),
        Tlv { code: 24, value: Vec::new(), children: Some(vec![Tlv::leaf(1, vec![0, 1])]) },
    ];
    let mut out = Vec::new();
    flatten(&tree, &mut out);
    assert_eq!(out, vec![3, 1, 1, 24, 4, 1, 2, 0, 1]);
}

#[test]
fn an_oversized_snmp_object_becomes_tlv_64() {
    let tree = vec![Tlv::leaf(11, vec![7u8; 300]), Tlv::leaf(12, vec![7u8; 300])];
    let mut out = Vec::new();
    flatten(&tree, &mut out);
    assert_eq!(&out[..3], &[64, 0x01, 0x2c]);
    assert_eq!(out.len(), 303);
}

#[test]
fn an_oversized_aggregate_is_left_out() {
    let big = Tlv::leaf(1, vec![0u8; 255]);
    let tree = vec![Tlv { code: 22, value: Vec::new(), children: Some(vec![big]) }];
    let mut out = Vec::new();
    flatten(&tree, &mut out);
    assert!(out.is_empty());
}

#[test]
fn the_cm_mic_is_the_md5_of_the_file() {
    let mut buf = vec![3u8, 1, 1];
    add_cm_mic(&mut buf);
    let digest = Md5::digest([3u8, 1, 1]);
    assert_eq!(&buf[..5], &[3, 1, 1, 6, 16]);
    assert_eq!(&buf[5..], &digest[..]);

    let mut empty: Vec<u8> = Vec::new();
    add_cm_mic(&mut empty);
    assert!(empty.is_empty());
}

#[test]
fn the_cmts_mic_takes_settings_in_its_own_order() {
    // TLV 3 comes before TLV 1 in the file but after it in the MIC order;
    // TLV 5 takes no part.
    let buf = vec![3u8, 1, 1, 5, 1, 9, 1, 4, 0, 0, 0, 1];
    let selected = cmts_mic_tlvs(&buf);
    assert_eq!(selected, vec![1, 4, 0, 0, 0, 1, 3, 1, 1]);

    let mut with_mic = buf.clone();
    let sel = add_cmts_mic(&mut with_mic, b"secret");
    assert_eq!(sel, selected);
    assert_eq!(&with_mic[12..14], &[7, 16]);
    assert_eq!(with_mic.len(), 12 + 18);
}

#[test]
fn the_end_marker_pads_to_four_octets() {
    let mut buf = vec![3u8, 1, 1];
    add_eod_and_pad(&mut buf);
    assert_eq!(buf, vec![3, 1, 1, 255]);

    let mut buf = vec![3u8, 1, 1, 0];
    add_eod_and_pad(&mut buf);
    assert_eq!(buf, vec![3, 1, 1, 0, 255, 0, 0, 0]);
    assert_eq!(buf.len() % 4, 0);
}

#[test]
fn the_mta_hash_replaces_the_terminator() {
    let buf0 = vec![254u8, 1, 1, 254, 1, 255];
    let mut buf = buf0.clone();
    add_mta_hash(&mut buf, 1);
    let digest = Sha1::digest(&buf0);
    assert_eq!(&buf[..3], &[254, 1, 1]);
    assert_eq!(&buf[3..5], &[0x0b, 0x28]);
    assert_eq!(&buf[3 + 22..3 + 22 + 20], &digest[..]);
    assert_eq!(&buf[buf.len() - 3..], &[0xfe, 0x01, 0xff]);
    assert_eq!(buf.len(), 3 + 22 + 20 + 3);

    let mut eu = buf0.clone();
    add_mta_hash(&mut eu, 2);
    assert_eq!(&eu[3..5], &[0x0b, 0x26]);
    assert_eq!(eu.len(), 3 + 20 + 20 + 3);
}

#[test]
fn a_short_dial_plan_uses_short_headers() {
    let mut buf = vec![254u8, 1, 1, 254, 1, 255];
    add_dialplan(&mut buf, b"x");
    // TLV 64, outer length 1+1+20+1+1+1 = 25
    assert_eq!(&buf[3..6], &[0x40, 0x00, 25]);
    assert_eq!(&buf[6..8], &[0x30, 0x17]);
    assert_eq!(&buf[8..10], &[0x06, 0x12]);
    assert_eq!(&buf[28..31], &[0x04, 1, b'x']);
    assert_eq!(&buf[buf.len() - 3..], &[0xfe, 0x01, 0xff]);
}

#[test]
fn a_long_dial_plan_uses_long_headers() {
    let body = vec![b'a'; 200];
    let mut buf = vec![254u8, 1, 255];
    add_dialplan(&mut buf, &body);
    assert_eq!(&buf[..3], &[0x40, 0x00, 228]);
    assert_eq!(&buf[3..7], &[0x30, 0x82, 0x00, 224]);
    assert_eq!(&buf[27..31], &[0x04, 0x82, 0x00, 200]);
    assert_eq!(buf.len(), 3 + 4 + 20 + 4 + 200 + 3);
}

#[test]
fn extensions_are_swapped_only_when_the_new_one_fits() {
    assert_eq!(replace_extension(b"dir/conf.txt", b".cm").unwrap(), b"dir/conf.cm".to_vec());
    assert!(replace_extension(b"dir/conf.c", b".cm").is_none());
    assert!(replace_extension(b"a.b/conf", b".cm").is_none());
}

#[test]
fn a_modem_file_is_built_in_mic_order() {
    let tree = vec![Tlv::leaf(3, vec![1])];
    let (out, selected, digest) = assemble_file(&tree, b"key", true, None, 0);
    let mut expected = vec![3u8, 1, 1];
    add_cm_mic(&mut expected);
    let sel = add_cmts_mic(&mut expected, b"key");
    let cmts_digest = expected[expected.len() - 16..].to_vec();
    add_eod_and_pad(&mut expected);
    assert_eq!(out, expected);
    assert_eq!(selected, sel);
    assert_eq!(digest, cmts_digest);
    assert_eq!(out.len() % 4, 0);
    assert_eq!(&out[3..5], &[6, 16]);
    assert_eq!(&out[5..21], &Md5::digest([3u8, 1, 1])[..]);
}

#[test]
fn an_mta_file_gets_no_mic_but_its_hash() {
    let tree = vec![Tlv::leaf(254, vec![1]), Tlv::leaf(3, vec![1]), Tlv::leaf(254, vec![0xff])];
    let (out, selected, digest) = assemble_file(&tree, b"key", true, None, 1);
    let mut expected = vec![254u8, 1, 1, 3, 1, 1, 254, 1, 0xff];
    add_mta_hash(&mut expected, 1);
    assert_eq!(out, expected);
    assert!(selected.is_empty() && digest.is_empty());
}
