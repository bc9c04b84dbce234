use docsis::assemble::flatten;
use docsis::decode::Decoder;
use docsis::lexer::{LexError, Lexer, Tok};
use docsis::mib::Mib;
use docsis::parser::{is_mta_config, named_files, ParseErrorKind, Parser, Tlv};
use docsis::symbol::{Dec, Enc, Symbol};

const TABLE: &[Symbol] = &[
    Symbol { id: 1, ident: "NetworkAccess", code: 3, parent_id: 0, enc: Enc::Uchar, dec: Dec::Uchar, low: 0, high: 1 },
    Symbol { id: 2, ident: "ClassOfService", code: 4, parent_id: 0, enc: Enc::Nothing, dec: Dec::Aggregate, low: 0, high: 0 },
    Symbol { id: 3, ident: "ClassID", code: 1, parent_id: 2, enc: Enc::Uchar, dec: Dec::Uchar, low: 1, high: 16 },
    Symbol { id: 4, ident: "TftpServer", code: 21, parent_id: 0, enc: Enc::Ip, dec: Dec::Ip, low: 0, high: 0 },
    Symbol { id: 5, ident: "CpeMac", code: 14, parent_id: 0, enc: Enc::Ether, dec: Dec::Ether, low: 0, high: 0 },
    Symbol { id: 6, ident: "GenericTLV", code: 0, parent_id: 0, enc: Enc::Ip, dec: Dec::Special, low: 0, high: 0 },
];

fn encode_text(src: &str) -> Vec<u8> {
    let mib = Mib::new();
    let toks = Lexer::new(src.as_bytes(), TABLE).tokenize().ok().unwrap();
    let files = Vec::new();
    let tree = Parser::new(toks, &mib, TABLE, &files).parse().ok().unwrap();
    let mut out = Vec::new();
    flatten(&tree, &mut out);
    out
}

#[test]
fn a_configuration_encodes_to_its_settings() {
    let bin = encode_text(
        "Main { NetworkAccess 1; /* comment */\n ClassOfService { ClassID 5; }\n \
         TftpServer 10.0.0.1; CpeMac 00:01:02:03:04:05; }",
    );
    assert_eq!(bin, vec![3, 1, 1, 4, 3, 1, 1, 5, 21, 4, 10, 0, 0, 1, 14, 6, 0, 1, 2, 3, 4, 5]);
}

#[test]
fn decoded_text_encodes_back_to_the_same_bytes() {
    let bin = vec![3u8, 1, 1, 4, 3, 1, 1, 5, 21, 4, 10, 0, 0, 1, 14, 6, 0, 1, 2, 3, 4, 5];
    let mib = Mib::new();
    let mut dec = Decoder::new(&mib, TABLE, false);
    dec.decode_main_aggregate(&bin).ok().unwrap();
    let text = String::from_utf8(dec.into_output()).unwrap();
    assert_eq!(encode_text(&text), bin);
}

#[test]
fn generic_tlvs_take_every_shape() {
    let bin = encode_text(
        "Main { GenericTLV TlvCode 99 TlvString \"ab\"; \
         GenericTLV TlvCode 98 TlvStringZero \"c\"; \
         GenericTLV TlvCode 97 TlvLength 2 TlvValue 0x0102; \
         GenericTLV TlvCode 96 TlvType Char TlvValue 7; \
         GenericTLV TlvCode 95 { NetworkAccess 0; } }",
    );
    assert_eq!(
        bin,
        vec![99, 2, b'a', b'b', 98, 2, b'c', 0, 97, 2, 1, 2, 96, 1, 7, 95, 3, 3, 1, 0]
    );
}

#[test]
fn scanning_problems_name_their_line() {
    match Lexer::new(b"Main {\n NoSuchThing 1; }", TABLE).tokenize() {
        Err(LexError::UnknownSymbol { text, line }) => {
            assert_eq!(text, b"NoSuchThing".to_vec());
            assert_eq!(line, 2);
        }
        _ => panic!("expected an unknown symbol"),
    }
    assert!(matches!(
        Lexer::new(b"\"abc", TABLE).tokenize(),
        Err(LexError::UnterminatedString { line: 1 })
    ));
    assert!(matches!(Lexer::new(b"#", TABLE).tokenize(), Err(LexError::Unrecognized { c: b'#', line: 1 })));
}

#[test]
fn the_longest_pattern_wins() {
    let toks = Lexer::new(b"1.2.3.4 .1.3.6.1 0x0a 1,2 00:01:02:03:04:05 -5", TABLE).tokenize().ok().unwrap();
    assert!(matches!(toks[0].tok, Tok::Ip(_)));
    assert!(matches!(toks[1].tok, Tok::LabelOid(_)));
    assert!(matches!(toks[2].tok, Tok::HexString(_)));
    assert!(matches!(toks[3].tok, Tok::SubmgtFilters(_)));
    assert!(matches!(toks[4].tok, Tok::Mac(_)));
    assert!(matches!(toks[5].tok, Tok::Integer(-5)));
}

#[test]
fn an_out_of_range_value_is_an_error_on_its_line() {
    let mib = Mib::new();
    let toks = Lexer::new(b"Main {\nClassOfService { ClassID 17; } }", TABLE).tokenize().ok().unwrap();
    let files = Vec::new();
    let err = Parser::new(toks, &mib, TABLE, &files).parse().err().unwrap();
    assert_eq!(err.line, 2);
    assert_eq!(err.exit_code(), 241);
    assert!(matches!(err.kind, ParseErrorKind::Encode { sym: Some(2), .. }));
}

#[test]
fn a_missing_semicolon_is_a_syntax_error() {
    let mib = Mib::new();
    let toks = Lexer::new(b"Main { NetworkAccess 1 }", TABLE).tokenize().ok().unwrap();
    let files = Vec::new();
    let err = Parser::new(toks, &mib, TABLE, &files).parse().err().unwrap();
    assert!(matches!(err.kind, ParseErrorKind::Syntax("expected ';'")));
    assert_eq!(err.exit_code(), 255);
}

#[test]
fn a_file_must_open_with_main() {
    let mib = Mib::new();
    let toks = Lexer::new(b"\n{ NetworkAccess 1; }", TABLE).tokenize().ok().unwrap();
    let files = Vec::new();
    let err = Parser::new(toks, &mib, TABLE, &files).parse().err().unwrap();
    assert!(matches!(err.kind, ParseErrorKind::Syntax("expected 'Main'")));
    assert_eq!(err.line, 2);
}

#[test]
fn a_closing_brace_is_owed() {
    let mib = Mib::new();
    let toks = Lexer::new(b"Main { ClassOfService { ClassID 5;\n", TABLE).tokenize().ok().unwrap();
    let files = Vec::new();
    let err = Parser::new(toks, &mib, TABLE, &files).parse().err().unwrap();
    assert!(matches!(err.kind, ParseErrorKind::Syntax("expected '}'")));
    assert_eq!(err.line, 1);
}

#[test]
fn a_generic_tlv_length_must_match_its_value() {
    let mib = Mib::new();
    let toks = Lexer::new(b"Main {\nGenericTLV TlvCode 97 TlvLength 3 TlvValue 0x0102; }", TABLE)
        .tokenize()
        .ok()
        .unwrap();
    let files = Vec::new();
    let err = Parser::new(toks, &mib, TABLE, &files).parse().err().unwrap();
    assert!(matches!(err.kind, ParseErrorKind::LengthMismatch { declared: 3, actual: 2 }));
    assert_eq!(err.line, 2);
}

#[test]
fn files_named_by_settings_are_listed_once() {
    const CVC: &[Symbol] = &[
        Symbol { id: 1, ident: "ManufacturerCVC", code: 32, parent_id: 0, enc: Enc::Hexstr, dec: Dec::Hexstr, low: 0, high: 0 },
        Symbol { id: 2, ident: "CoSignerCVC", code: 33, parent_id: 0, enc: Enc::Hexstr, dec: Dec::Hexstr, low: 0, high: 0 },
    ];
    let toks = Lexer::new(
        b"Main { ManufacturerCVC \"a.der\"; CoSignerCVC \"b.der\"; CoSignerCVC \"a.der\"; }",
        CVC,
    )
    .tokenize()
    .ok()
    .unwrap();
    assert_eq!(named_files(&toks), vec![b"a.der".to_vec(), b"b.der".to_vec()]);
    let mib = Mib::new();
    let files = vec![(b"a.der".to_vec(), None), (b"b.der".to_vec(), Some(vec![1u8, 2]))];
    let err = Parser::new(toks, &mib, CVC, &files).parse().err().unwrap();
    assert!(matches!(err.kind, ParseErrorKind::CantOpenFile { .. }));
    assert_eq!(err.exit_code(), 251);
}

#[test]
fn an_mta_file_opens_with_its_delimiter() {
    let delim = Tlv::leaf(254, vec![1]);
    let other = Tlv::leaf(3, vec![1]);
    assert!(is_mta_config(&[delim]));
    assert!(!is_mta_config(&[other]));
    assert!(!is_mta_config(&[]));
}

fn shaped(t: &Tlv) -> bool {
    match &t.children {
        Some(ch) => t.value.is_empty() && ch.iter().all(shaped),
        None => true,
    }
}

#[test]
fn a_parsed_setting_holds_a_value_or_settings_never_both() {
    let mib = Mib::new();
    let src = "Main { NetworkAccess 1; ClassOfService { ClassID 5; } \
               GenericTLV TlvCode 95 { ClassOfService { ClassID 2; } } }";
    let toks = Lexer::new(src.as_bytes(), TABLE).tokenize().ok().unwrap();
    let files = Vec::new();
    let tree = Parser::new(toks, &mib, TABLE, &files).parse().ok().unwrap();
    assert_eq!(tree.len(), 3);
    assert!(tree[1].children.is_some() && tree[2].children.is_some());
    assert!(tree.iter().all(shaped));
}
