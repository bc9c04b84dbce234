use docsis::encode::{encode, parse_hexstr, Ctx, EncodeError};
use docsis::mib::Mib;
use docsis::symbol::{Dec, Enc, Symbol};
use docsis::value::Value;

fn sym(enc: Enc, low: u32, high: u32) -> Symbol {
    Symbol { id: 1, ident: "Test", code: 1, parent_id: 0, enc, dec: Dec::Uint, low, high }
}

fn text(s: &str) -> Value {
    Value::Text(s.to_string())
}

fn run(enc: Enc, low: u32, high: u32, v: &Value) -> Result<Vec<u8>, EncodeError> {
    let mib = Mib::new();
    let ctx = Ctx { mib: &mib, line: 1 };
    encode(&ctx, &sym(enc, low, high), v)
}

#[test]
fn numbers_are_big_endian_after_the_range_check() {
    assert_eq!(run(Enc::Uint, 0, 0, &Value::Num(0x01020304)).unwrap(), vec![1, 2, 3, 4]);
    assert_eq!(run(Enc::Ushort, 0, 0, &Value::Num(0x0102)).unwrap(), vec![1, 2]);
    assert_eq!(run(Enc::Uchar, 0, 0, &Value::Num(7)).unwrap(), vec![7]);
    assert_eq!(run(Enc::Uint24, 0, 0, &Value::Num(0x010203)).unwrap(), vec![1, 2, 3]);
    assert_eq!(
        run(Enc::Uchar, 1, 3, &Value::Num(4)),
        Err(EncodeError::OutOfRange { value: 4, low: 1, high: 3 })
    );
    assert_eq!(run(Enc::Uint, 0, 0, &Value::Num(-1)).unwrap(), vec![255, 255, 255, 255]);
}

#[test]
fn addresses_encode_to_their_octets() {
    assert_eq!(run(Enc::Ip, 0, 0, &text("10.0.0.1")).unwrap(), vec![10, 0, 0, 1]);
    assert_eq!(run(Enc::Ip, 0, 0, &text("10.0.0.256")), Err(EncodeError::BadIp));
    assert_eq!(
        run(Enc::IpList, 0, 0, &text("1.2.3.4,5.6.7.8")).unwrap(),
        vec![1, 2, 3, 4, 5, 6, 7, 8]
    );
    assert_eq!(run(Enc::Ether, 0, 0, &text("00:01:02:03:04:05")).unwrap(), vec![0, 1, 2, 3, 4, 5]);
    assert_eq!(run(Enc::Ether, 0, 0, &text("00:01")), Err(EncodeError::BadMac));
    assert_eq!(
        run(Enc::Ethermask, 0, 0, &text("00:01:02:03:04:05/ff:ff:ff:00:00:00")).unwrap(),
        vec![0, 1, 2, 3, 4, 5, 255, 255, 255, 0, 0, 0]
    );
    assert_eq!(run(Enc::Ethermask, 0, 0, &text("00:01:02:03:04:05")), Err(EncodeError::EthermaskFormat));
    assert_eq!(
        run(Enc::Ethermask, 0, 0, &text("00:01:02:03:04:05/zz")),
        Err(EncodeError::BadEthermaskPart { mask: true })
    );
}

#[test]
fn ipv6_addresses_encode_as_the_standard_library_reads_them() {
    let mut want = vec![0u8; 16];
    want[0] = 0x20;
    want[1] = 0x01;
    want[2] = 0x0d;
    want[3] = 0xb8;
    want[15] = 1;
    assert_eq!(run(Enc::Ip6, 0, 0, &text("2001:db8::1")).unwrap(), want);
    let mut mapped = vec![0u8; 16];
    mapped[10] = 0xff;
    mapped[11] = 0xff;
    mapped[12] = 192;
    mapped[13] = 168;
    mapped[15] = 1;
    assert_eq!(run(Enc::Ip6, 0, 0, &text("::ffff:192.168.0.1")).unwrap(), mapped);
    assert_eq!(run(Enc::Ip6, 0, 0, &text("1::2::3")), Err(EncodeError::BadIp));
    let mut with_family = vec![2u8];
    with_family.extend_from_slice(&want);
    assert_eq!(run(Enc::CharIpIp6, 0, 0, &text("2001:db8::1")).unwrap(), with_family);
    assert_eq!(run(Enc::CharIpIp6, 0, 0, &text("1.2.3.4")).unwrap(), vec![1, 1, 2, 3, 4]);
    assert_eq!(run(Enc::IpIp6Port, 0, 0, &text("1.2.3.4/80")).unwrap(), vec![1, 2, 3, 4, 0, 80]);
    let mut prefixed = want.clone();
    prefixed.push(64);
    assert_eq!(run(Enc::Ip6PrefixList, 0, 0, &text("2001:db8::1/64")).unwrap(), prefixed);
}

#[test]
fn lists_of_small_numbers() {
    assert_eq!(run(Enc::DualQtag, 0, 0, &text("1, 2")).unwrap(), vec![0, 1, 0, 2]);
    assert_eq!(run(Enc::DualQtag, 0, 0, &text("x")).unwrap(), vec![0, 0, 0, 0]);
    assert_eq!(run(Enc::CharList, 0, 0, &text("1,,2, 300")).unwrap(), vec![1, 2, 44]);
    assert_eq!(run(Enc::UshortList, 0, 0, &text("1 2,3")).unwrap(), vec![0, 1, 0, 2, 0, 3]);
    assert_eq!(run(Enc::UshortList, 0, 0, &text("1,x")), Err(EncodeError::NotDigits));
    assert_eq!(run(Enc::UshortList, 0, 0, &text("70000")), Err(EncodeError::TooBig));
    assert_eq!(run(Enc::UshortList, 2, 4, &text("1")), Err(EncodeError::TooFewNumbers { low: 2 }));
    assert_eq!(
        run(Enc::UshortList, 1, 1, &text("1,2")),
        Err(EncodeError::TooManyNumbers { high: 1 })
    );
}

#[test]
fn strings_are_length_checked() {
    let v = Value::Bytes(b"abc".to_vec());
    assert_eq!(run(Enc::String, 0, 0, &v).unwrap(), b"abc".to_vec());
    assert_eq!(run(Enc::Strzero, 0, 0, &v).unwrap(), b"abc\0".to_vec());
    assert_eq!(run(Enc::String, 4, 10, &v), Err(EncodeError::StringTooShort { low: 4 }));
    assert_eq!(run(Enc::String, 1, 2, &v), Err(EncodeError::StringTooLong { len: 3, high: 2 }));
    assert_eq!(run(Enc::Lenzero, 0, 0, &v).unwrap(), Vec::<u8>::new());
}

#[test]
fn hex_strings_need_the_prefix_and_pairs() {
    assert_eq!(parse_hexstr(b"0x0aFF").unwrap(), vec![0x0a, 0xff]);
    assert!(parse_hexstr(b"0aFF").is_none());
    assert!(parse_hexstr(b"0x0aF").is_none());
    assert!(parse_hexstr(b"0xzz").is_none());
    assert_eq!(run(Enc::Hexstr, 0, 0, &text("0x0102")).unwrap(), vec![1, 2]);
    assert_eq!(run(Enc::Hexstr, 0, 0, &text("0102")), Err(EncodeError::BadHex));
    assert_eq!(run(Enc::Hexstr, 3, 4, &text("0x0102")), Err(EncodeError::HexTooShort { low: 3 }));
    assert_eq!(run(Enc::Hexstr, 1, 1, &text("0x0102")), Err(EncodeError::HexTooLong { high: 1 }));
}

#[test]
fn error_statuses_follow_the_kind() {
    assert_eq!(EncodeError::OutOfRange { value: 1, low: 2, high: 3 }.exit_code(), 241);
    assert_eq!(EncodeError::NotDigits.exit_code(), 245);
    assert_eq!(EncodeError::BadIp.exit_code(), 255);
}
