use docsis::mib::lexer::{tokenize, Tok};
use docsis::mib::parse::{parse_module, TypeTable};
use docsis::mib::render::OidFormat;
use docsis::mib::order::{module_order, name_before};
use docsis::mib::{is_ignored_file, BaseType, Mib};

/// Build a MIB from module text, as if the modules had been read from disk.
fn load(sources: &[&str]) -> Mib {
    let mut mib = Mib::new();
    mib.seed_roots();
    let mut defs = Vec::new();
    let mut types = TypeTable::new();
    for src in sources {
        let toks = tokenize(src.as_bytes());
        parse_module(&toks, &mut defs, &mut types);
    }
    mib.install(defs, &types);
    mib
}

const SMI: &str = r#"
    SNMPv2-SMI DEFINITIONS ::= BEGIN
    org OBJECT IDENTIFIER ::= { iso 3 }
    dod OBJECT IDENTIFIER ::= { org 6 }
    internet OBJECT IDENTIFIER ::= { dod 1 }
    mgmt OBJECT IDENTIFIER ::= { internet 2 }
    mib-2 OBJECT IDENTIFIER ::= { mgmt 1 }
    private OBJECT IDENTIFIER ::= { internet 4 }
    enterprises OBJECT IDENTIFIER ::= { private 1 }
    END
"#;

const TC: &str = r#"
    SNMPv2-TC DEFINITIONS ::= BEGIN
    DisplayString ::= TEXTUAL-CONVENTION
        DISPLAY-HINT "255a"
        STATUS current
        DESCRIPTION "text"
        SYNTAX OCTET STRING (SIZE (0..255))
    RowStatus ::= TEXTUAL-CONVENTION
        STATUS current
        DESCRIPTION "text"
        SYNTAX INTEGER { active(1), notInService(2), createAndGo(4), destroy(6) }
    END
"#;

const TABLE: &str = r#"
    EXAMPLE-MIB DEFINITIONS ::= BEGIN
    IMPORTS DisplayString, RowStatus FROM SNMPv2-TC;
    exMib OBJECT IDENTIFIER ::= { mib-2 9999 }

    exName OBJECT-TYPE
        SYNTAX DisplayString
        MAX-ACCESS read-only
        STATUS current
        DESCRIPTION "-- not a comment --"
        ::= { exMib 1 }

    exTable OBJECT-TYPE
        SYNTAX SEQUENCE OF ExEntry
        MAX-ACCESS not-accessible
        STATUS current
        DESCRIPTION "t"
        ::= { exMib 2 }

    exEntry OBJECT-TYPE
        SYNTAX ExEntry
        MAX-ACCESS not-accessible
        STATUS current
        DESCRIPTION "e"
        INDEX { exIndex, IMPLIED exLabel }
        ::= { exTable 1 }

    ExEntry ::= SEQUENCE { exIndex INTEGER, exLabel DisplayString, exStatus RowStatus }

    exIndex OBJECT-TYPE
        SYNTAX INTEGER (1..64)
        MAX-ACCESS not-accessible
        STATUS current
        DESCRIPTION "i"
        ::= { exEntry 1 }

    exLabel OBJECT-TYPE
        SYNTAX DisplayString (SIZE (1..32))
        MAX-ACCESS not-accessible
        STATUS current
        DESCRIPTION "l"
        ::= { exEntry 2 }

    exStatus OBJECT-TYPE
        SYNTAX RowStatus
        MAX-ACCESS read-create
        STATUS current
        DESCRIPTION "s"
        ::= { exEntry 3 }
    END
"#;

#[test]
fn resolves_names_to_numeric_oids() {
    let mib = load(&[SMI, TC, TABLE]);
    assert_eq!(mib.get_node("exName.0").unwrap(), vec![1, 3, 6, 1, 2, 1, 9999, 1, 0]);
    assert_eq!(
        mib.read_objid(".1.3.6.1.2.1.9999.1.0").unwrap(),
        vec![1, 3, 6, 1, 2, 1, 9999, 1, 0]
    );
}

#[test]
fn a_textual_convention_carries_its_hint_and_enums() {
    let mib = load(&[SMI, TC, TABLE]);
    let name = mib.find_by_label(b"exName").unwrap();
    assert_eq!(mib.node(name).syntax.base, BaseType::OctetStr);
    assert_eq!(mib.node(name).syntax.hint.as_deref(), Some(&b"255a"[..]));

    let status = mib.find_by_label(b"exStatus").unwrap();
    assert_eq!(mib.node(status).syntax.base, BaseType::Integer);
    assert!(mib
        .node(status)
        .syntax
        .enums
        .iter()
        .any(|(l, v)| l.as_slice() == b"createAndGo" && *v == 4));
}

#[test]
fn an_outer_constraint_narrows_the_conventions_range() {
    let mib = load(&[SMI, TC, TABLE]);
    let label = mib.find_by_label(b"exLabel").unwrap();
    assert_eq!(mib.node(label).syntax.ranges, vec![(1, 32)]);
}

#[test]
fn table_indexes_round_trip_through_text() {
    let mib = load(&[SMI, TC, TABLE]);
    // exIndex is a plain integer; exLabel is an IMPLIED string.
    let oid = mib.get_node("exStatus.7.'abc'").unwrap();
    let mut want = vec![1, 3, 6, 1, 2, 1, 9999, 2, 1, 3, 7];
    want.extend(b"abc".iter().map(|b| *b as u32));
    assert_eq!(oid, want);
    assert_eq!(mib.sprint_objid(&oid, OidFormat::Suffix), "exStatus.7.'abc'");
}

#[test]
fn an_unresolved_tail_prints_as_numbers() {
    let mib = load(&[SMI, TC, TABLE]);
    let oid = vec![1, 3, 6, 1, 4, 1, 4115, 11, 1, 2, 1];
    assert_eq!(mib.sprint_objid(&oid, OidFormat::Suffix), "enterprises.4115.11.1.2.1");
    assert_eq!(mib.sprint_objid(&oid, OidFormat::Numeric), ".1.3.6.1.4.1.4115.11.1.2.1");
}

#[test]
fn the_first_module_to_define_a_node_wins() {
    let other = r#"
        OTHER-MIB DEFINITIONS ::= BEGIN
        exName OBJECT-TYPE
            SYNTAX INTEGER (0..7)
            MAX-ACCESS read-only
            STATUS current
            DESCRIPTION "conflicting definition at the same OID"
            ::= { exMib 1 }
        END
    "#;
    let mib = load(&[SMI, TC, TABLE, other]);
    let name = mib.find_by_label(b"exName").unwrap();
    assert_eq!(mib.node(name).syntax.base, BaseType::OctetStr);
}

#[test]
fn comment_syntax_does_not_swallow_definitions() {
    let mib = load(&[SMI, TC, TABLE]);
    // The description above exName contains "--" inside a string literal.
    assert!(mib.find_by_label(b"exTable").is_some());
    assert!(mib.find_by_label(b"exStatus").is_some());
}

#[test]
fn full_format_names_every_arc() {
    let mib = load(&[SMI, TC, TABLE]);
    let oid = mib.get_node("exName.0").unwrap();
    assert_eq!(
        mib.sprint_objid(&oid, OidFormat::Full),
        ".iso.org.dod.internet.mgmt.mib-2.exMib.exName.0"
    );
    assert_eq!(mib.sprint_objid(&oid, OidFormat::Suffix), "exName.0");
    assert_eq!(mib.sprint_objid(&[], OidFormat::Numeric), "");
}

#[test]
fn a_numeric_path_resolves_whichever_order_is_tried_first() {
    let mib = load(&[SMI, TC, TABLE]);
    let a = mib.resolve_oid("exName.0").unwrap();
    let b = mib.resolve_oid_numeric_first(".1.3.6.1.2.1.9999.1.0").unwrap();
    assert_eq!(a, b);
    assert!(mib.resolve_oid("noSuchObject.0").is_none());
    assert_eq!(mib.get_node("EXAMPLE-MIB::exName.0").unwrap(), a);
}

#[test]
fn an_out_of_range_enum_index_is_refused() {
    let mib = load(&[SMI, TC, TABLE]);
    assert!(mib.get_node("exStatus.65.'abc'").is_none());
}

#[test]
fn build_scaffolding_is_skipped() {
    assert!(is_ignored_file(b".hidden"));
    assert!(is_ignored_file(b"Makefile.am"));
    assert!(is_ignored_file(b"x.gz"));
    assert!(!is_ignored_file(b"DOCS-IF-MIB"));
}

#[test]
fn a_type_defined_again_reads_as_its_last_definition() {
    let mut types = TypeTable::new();
    let first = parse_type_text("INTEGER");
    let second = parse_type_text("OCTET STRING");
    let other = parse_type_text("Counter32");
    types.insert(b"T".to_vec(), docsis::mib::parse::TypeDef { syntax: first });
    types.insert(b"U".to_vec(), docsis::mib::parse::TypeDef { syntax: other });
    types.insert(b"T".to_vec(), docsis::mib::parse::TypeDef { syntax: second });
    assert_eq!(types.get(b"T").unwrap().syntax.base, Some(BaseType::OctetStr));
    assert_eq!(types.get(b"U").unwrap().syntax.base, Some(BaseType::Counter));
    assert!(types.get(b"V").is_none());
    assert_eq!(types.entries.len(), 2);
}

fn parse_type_text(src: &str) -> docsis::mib::parse::SyntaxRef {
    let toks = tokenize(src.as_bytes());
    docsis::mib::parse::parse_type(&toks, 0).0
}

#[test]
fn modules_are_read_in_name_order_whatever_the_listing() {
    let listed = |names: &[&str]| -> Vec<Vec<u8>> {
        names.iter().map(|n| n.as_bytes().to_vec()).collect()
    };
    let expected = listed(&["B-MIB", "a", "ab", "b.txt"]);
    assert_eq!(module_order(listed(&["b.txt", "a", "ab", "B-MIB"])), expected);
    assert_eq!(module_order(listed(&["ab", "B-MIB", "b.txt", "a"])), expected);
    assert_eq!(module_order(Vec::new()), Vec::<Vec<u8>>::new());
}

#[test]
fn a_name_comes_before_the_longer_names_it_begins() {
    assert!(name_before(b"IF-MIB", b"IF-MIB.txt"));
    assert!(!name_before(b"IF-MIB.txt", b"IF-MIB"));
    assert!(name_before(b"IF-MIB", b"IF-MIB"));
    assert!(name_before(b"Z", b"a"));
}

#[test]
fn a_module_text_has_one_reading_as_tokens() {
    let src = b"ifIndex OBJECT-TYPE -- a comment\n ::= { ifEntry 1 } 'ff'H \"x\"";
    for toks in [tokenize(src), tokenize(src)] {
        assert_eq!(toks.len(), 9);
        assert!(matches!(&toks[0], Tok::Word(w) if w.as_slice() == b"ifIndex"));
        assert!(matches!(&toks[1], Tok::Word(w) if w.as_slice() == b"OBJECT-TYPE"));
        assert!(matches!(toks[2], Tok::Assign));
        assert!(matches!(toks[3], Tok::LBrace));
        assert!(matches!(&toks[4], Tok::Word(w) if w.as_slice() == b"ifEntry"));
        assert!(matches!(toks[5], Tok::Num(1)));
        assert!(matches!(toks[6], Tok::RBrace));
        assert!(matches!(toks[7], Tok::Bits(255)));
        assert!(matches!(&toks[8], Tok::Str(s) if s.as_slice() == b"x"));
    }
}

#[test]
fn a_type_reference_ends_just_past_its_constraint() {
    let toks = tokenize(b"DisplayString (SIZE (1..32)) x");
    let (syntax, next) = docsis::mib::parse::parse_type(&toks, 0);
    assert_eq!(next, 9);
    assert_eq!(syntax.named.as_deref(), Some(&b"DisplayString"[..]));
    assert_eq!(syntax.ranges, vec![(1, 32)]);
    let (syntax, next) = docsis::mib::parse::parse_type(&toks, 20);
    assert_eq!(next, 21);
    assert!(syntax.named.is_none() && syntax.base.is_none());
}

#[test]
fn every_node_is_found_again_by_its_path() {
    let sources: Vec<Vec<u8>> = [SMI, TC, TABLE].iter().map(|s| s.as_bytes().to_vec()).collect();
    let mib = Mib::load_sources(&sources);
    assert!(mib.node_count() > 3);
    for id in 0..mib.node_count() {
        let oid = mib.oid_of(id);
        assert_eq!(mib.get_tree(&oid), Some(id));
        assert_eq!(oid.last(), Some(&mib.node(id).subid));
    }
}

#[test]
fn a_named_node_prints_as_its_label_and_reads_back() {
    let sources: Vec<Vec<u8>> = [SMI, TC, TABLE].iter().map(|s| s.as_bytes().to_vec()).collect();
    let mib = Mib::load_sources(&sources);
    let mut checked = 0;
    for id in 0..mib.node_count() {
        let node = mib.node(id);
        if node.anonymous || mib.find_by_label(&node.label) != Some(id) {
            continue;
        }
        let oid = mib.oid_of(id);
        let text = mib.sprint_objid(&oid, OidFormat::Suffix);
        assert_eq!(text.as_bytes(), node.label.as_slice());
        assert_eq!(mib.get_node(&text), Some(oid));
        checked += 1;
    }
    assert!(checked > 5);
}

#[test]
fn white_space_of_every_kind_is_dropped_from_a_bits_literal() {
    let toks = tokenize("'F\u{a0}F'H '1\u{3000}0'B 'F\u{e9}F'H".as_bytes());
    assert_eq!(toks.len(), 3);
    assert!(matches!(toks[0], Tok::Bits(255)));
    assert!(matches!(toks[1], Tok::Bits(2)));
    assert!(matches!(toks[2], Tok::Bits(0)));
}

#[test]
fn a_string_literal_is_read_as_text() {
    let toks = tokenize(b"\"a\xffb\" \"ok\"");
    assert_eq!(toks.len(), 2);
    assert!(matches!(&toks[0], Tok::Str(s) if s.as_slice() == "a\u{fffd}b".as_bytes()));
    assert!(matches!(&toks[1], Tok::Str(s) if s.as_slice() == b"ok"));
}
