//! Recursive-descent parser for DOCSIS text configuration files.
//!
//! It follows the grammar of the configuration language and encodes values
//! as it reduces, so range errors are reported against the line they appear
//! on.
use vstd::prelude::*;
use crate::encode::{self, Ctx, EncodeError};
use crate::lexer::{AsnType, Tok, Token};
use crate::mib::Mib;
use crate::snmp::{
    self, snmp_oid_encoding, utf8_or_empty, var_spec, vbind_encoding, VarSpec, VarValue, VbindError,
};
use crate::symbol::{first_named, lemma_named_row, named_row, Symbol};
use crate::text::{bytes_eq, copy_bytes, utf8_string};
use vstd::utf8::valid_utf8;
use crate::value::{value_num, value_octets, value_text, Value};
use vstd::string::StringSliceAdditionalSpecFns;

verus! {

/// A configuration setting in its binary form. A node either carries a value
/// or a list of sub-settings, never both.
pub struct Tlv {
    pub code: u8,
    pub value: Vec<u8>,
    pub children: Option<Vec<Tlv>>,
}

impl Tlv {
    /// A setting that carries a value.
    pub fn leaf(code: u8, value: Vec<u8>) -> (r: Tlv)
        ensures
            r.code == code,
            r.value == value,
            r.children is None,
    {
        Tlv { code, value, children: None }
    }
}

/// The largest dial plan file accepted, from CL-PKTC-EUE-RST-MIB.
pub const MAX_DIALPLAN_SIZE: usize = 8192;

/// What went wrong, and what the message about it needs.
pub enum ParseErrorKind {
    /// The token stream does not fit the grammar; the text says what was
    /// expected.
    Syntax(&'static str),
    /// A value the setting's encoder refused: the setting's row in the
    /// symbol table (none for a `GenericTLV` value) and the value's octets.
    Encode { sym: Option<usize>, text: Vec<u8>, err: EncodeError },
    /// An SNMP setting whose value came out empty: the setting's row in the
    /// symbol table, the object named, and why (no reason when the object
    /// did not resolve).
    ZeroLength { sym: usize, oid: Vec<u8>, cause: Option<VbindError> },
    /// An external file that could not be read.
    CantOpenFile { path: Vec<u8> },
    /// An external certificate file with nothing in it.
    EmptyFile { path: Vec<u8> },
    /// A dial plan file above the size limit.
    DialplanTooBig { path: Vec<u8> },
    /// A dial plan file that could not be read.
    CantOpenDialplan { path: Vec<u8> },
    /// The value of a `GenericTLV ... TlvValue` that is not hex.
    InvalidHexString { hex: Vec<u8> },
    /// A `GenericTLV` whose declared length differs from its value's.
    LengthMismatch { declared: i64, actual: usize },
    /// A `HexString` SNMP value that is not hex.
    InvalidHexadecimal,
    /// The symbol table has no `GenericTLV` row.
    NoGenericTlv,
}

pub struct ParseError {
    pub kind: ParseErrorKind,
    pub line: u32,
}

impl ParseError {
    /// The status the program exits with on this error.
    pub fn exit_code(&self) -> (r: i32)
        ensures
            match self.kind {
                ParseErrorKind::Encode { err, .. } => (err matches EncodeError::OutOfRange { .. }
                    ==> r == 241) && (err is NotDigits || err is TooBig ==> r == 245) && (!(err matches EncodeError::OutOfRange { .. } || err is NotDigits
                    || err is TooBig) ==> r == 255),
                ParseErrorKind::CantOpenFile { .. } | ParseErrorKind::EmptyFile { .. }
                | ParseErrorKind::DialplanTooBig { .. } | ParseErrorKind::CantOpenDialplan {
                    ..
                } => r == 251,
                _ => r == 255,
            },
    {
        match &self.kind {
            ParseErrorKind::Encode { err, .. } => err.exit_code(),
            ParseErrorKind::CantOpenFile { .. } | ParseErrorKind::EmptyFile { .. }
            | ParseErrorKind::DialplanTooBig { .. } | ParseErrorKind::CantOpenDialplan { .. } => 251,
            _ => 255,
        }
    }
}


pub struct Parser<'a> {
    toks: Vec<Token>,
    pos: usize,
    mib: &'a Mib,
    table: &'a [Symbol],
    /// The external files the configuration names, read beforehand: each
    /// path with its contents, or nothing when it could not be read.
    files: &'a [(Vec<u8>, Option<Vec<u8>>)],
}

/// The octets a token that carries text holds.
pub open spec fn tok_text(t: Tok) -> Option<Seq<u8>> {
    match t {
        Tok::HexString(s) => Some(s@),
        Tok::SubmgtFilters(s) => Some(s@),
        Tok::Ip(s) => Some(s@),
        Tok::IpList(s) => Some(s@),
        Tok::Ip6(s) => Some(s@),
        Tok::Ip6List(s) => Some(s@),
        Tok::Ip6PrefixList(s) => Some(s@),
        Tok::IpIp6Port(s) => Some(s@),
        Tok::Mac(s) => Some(s@),
        Tok::Ethermask(s) => Some(s@),
        Tok::LabelOid(s) => Some(s@),
        Tok::TimeTicks(s) => Some(s@),
        _ => None,
    }
}

/// The number, text and octets of the value a token gives a plain setting:
/// a number, a string's octets, or the text of any other value token (none
/// when that text is not UTF-8).
pub open spec fn tok_parts(t: Tok) -> Option<(i64, Seq<u8>, Seq<u8>)> {
    match t {
        Tok::Integer(v) => Some((v, Seq::empty(), Seq::empty())),
        Tok::Str(s) => Some((0, Seq::empty(), s@)),
        _ => match tok_text(t) {
            Some(b) => if valid_utf8(b) {
                Some((0, b, b))
            } else {
                Some((0, Seq::empty(), Seq::empty()))
            },
            None => None,
        },
    }
}

/// A configuration setting as plain values.
pub struct TlvSpec {
    pub code: u8,
    pub value: Seq<u8>,
    pub children: Option<Seq<TlvSpec>>,
}

/// A setting that carries a value.
pub open spec fn leaf_spec(code: u8, value: Seq<u8>) -> TlvSpec {
    TlvSpec { code, value, children: None }
}

/// A setting that holds other settings.
pub open spec fn block_spec(code: u8, children: Seq<TlvSpec>) -> TlvSpec {
    TlvSpec { code, value: Seq::empty(), children: Some(children) }
}

/// The plain values of a setting.
pub open spec fn tlv_view(t: Tlv) -> TlvSpec
    decreases t,
{
    TlvSpec {
        code: t.code,
        value: t.value@,
        children: match t.children {
            Some(ch) => Some(tlvs_view(ch@)),
            None => None,
        },
    }
}

/// The plain values of a list of settings.
pub open spec fn tlvs_view(ts: Seq<Tlv>) -> Seq<TlvSpec>
    decreases ts,
{
    if ts.len() == 0 {
        Seq::empty()
    } else {
        tlvs_view(ts.drop_last()).push(tlv_view(ts.last()))
    }
}

/// The token at `p`, if there is one.
pub open spec fn tok_at(toks: Seq<Token>, p: int) -> Option<Tok> {
    if 0 <= p < toks.len() {
        Some(toks[p].tok)
    } else {
        None
    }
}

/// The text of a token that names an object: an OID, or a dotted quad
/// (which also reads as one).
pub open spec fn oid_tok(t: Option<Tok>) -> Option<Seq<u8>> {
    match t {
        Some(Tok::LabelOid(s)) => Some(s@),
        Some(Tok::Ip(s)) => Some(s@),
        _ => None,
    }
}

/// What the pre-read file list holds for `path`: the contents of the first
/// entry for it, nothing when it could not be read or is not listed.
pub open spec fn file_data(files: Seq<(Vec<u8>, Option<Vec<u8>>)>, path: Seq<u8>) -> Option<
    Seq<u8>,
>
    decreases files.len(),
{
    if files.len() == 0 {
        None
    } else if files[0].0@ == path {
        match files[0].1 {
            Some(d) => Some(d@),
            None => None,
        }
    } else {
        file_data(files.drop_first(), path)
    }
}

/// A file's contents as settings of `code`, 254 octets each.
pub open spec fn chunks(code: u8, data: Seq<u8>) -> Seq<TlvSpec>
    decreases data.len(),
{
    if data.len() <= 254 {
        seq![leaf_spec(code, data)]
    } else {
        seq![leaf_spec(code, data.take(254))] + chunks(code, data.skip(254))
    }
}

/// The OID of the PacketCable 2.0 dial plan object.
pub open spec fn dialplan_oid_text() -> Seq<u8> {
    "1.3.6.1.4.1.4491.2.2.8.2.1.1.3.1.1.2.1".spec_bytes()
}

/// What went wrong, as plain values.
pub enum KindSpec {
    Syntax(&'static str),
    Encode { sym: Option<usize>, text: Seq<u8>, err: EncodeError },
    ZeroLength { sym: usize, oid: Seq<u8>, cause: Option<VbindError> },
    CantOpenFile { path: Seq<u8> },
    EmptyFile { path: Seq<u8> },
    DialplanTooBig { path: Seq<u8> },
    CantOpenDialplan { path: Seq<u8> },
    InvalidHexString { hex: Seq<u8> },
    LengthMismatch { declared: i64, actual: usize },
    InvalidHexadecimal,
    NoGenericTlv,
}

/// An error as plain values: what went wrong, and on which line.
pub type ErrSpec = (KindSpec, u32);

/// The plain values of an error.
pub open spec fn err_spec(e: ParseError) -> ErrSpec {
    (
        match e.kind {
            ParseErrorKind::Syntax(w) => KindSpec::Syntax(w),
            ParseErrorKind::Encode { sym, text, err } => KindSpec::Encode { sym, text: text@, err },
            ParseErrorKind::ZeroLength { sym, oid, cause } => KindSpec::ZeroLength {
                sym,
                oid: oid@,
                cause,
            },
            ParseErrorKind::CantOpenFile { path } => KindSpec::CantOpenFile { path: path@ },
            ParseErrorKind::EmptyFile { path } => KindSpec::EmptyFile { path: path@ },
            ParseErrorKind::DialplanTooBig { path } => KindSpec::DialplanTooBig { path: path@ },
            ParseErrorKind::CantOpenDialplan { path } => KindSpec::CantOpenDialplan { path: path@ },
            ParseErrorKind::InvalidHexString { hex } => KindSpec::InvalidHexString { hex: hex@ },
            ParseErrorKind::LengthMismatch { declared, actual } => KindSpec::LengthMismatch {
                declared,
                actual,
            },
            ParseErrorKind::InvalidHexadecimal => KindSpec::InvalidHexadecimal,
            ParseErrorKind::NoGenericTlv => KindSpec::NoGenericTlv,
        },
        e.line,
    )
}

/// The line of the token at `p`, or of the last token past the end.
pub open spec fn line_at(toks: Seq<Token>, p: int) -> u32 {
    if 0 <= p < toks.len() {
        toks[p].line
    } else if toks.len() > 0 {
        toks[toks.len() - 1].line
    } else {
        0
    }
}

/// The position after stepping past the token at `p`.
pub open spec fn step(toks: Seq<Token>, p: int) -> int {
    if p < toks.len() {
        p + 1
    } else {
        p
    }
}

/// The syntax error `what` on the line of the token at `p`.
pub open spec fn syn(toks: Seq<Token>, p: int, what: &'static str) -> ErrSpec {
    (KindSpec::Syntax(what), line_at(toks, p))
}

/// What parsing from `pos` gives: settings and where they end, or an error.
pub type Parsed = Result<(Seq<TlvSpec>, int), ErrSpec>;

/// A one-setting result ending at `p`.
pub open spec fn one(t: TlvSpec, p: int) -> Parsed {
    Ok((seq![t], p))
}

/// The punctuation `want` (0 `;`, 1 `{`, 2 `}`) at `p`: where parsing goes
/// on, or the error `what` on the line after it.
pub open spec fn expect_at(toks: Seq<Token>, p: int, want: u8, what: &'static str) -> Result<
    int,
    ErrSpec,
> {
    if tok_is(toks, p, want) {
        Ok(p + 1)
    } else {
        Err(syn(toks, step(toks, p), what))
    }
}

/// A `;` at `p`.
pub open spec fn semi_at(toks: Seq<Token>, p: int) -> Result<int, ErrSpec> {
    expect_at(toks, p, 0, "expected ';'")
}

/// An integer at `p`.
pub open spec fn integer_at(toks: Seq<Token>, p: int) -> Result<i64, ErrSpec> {
    match tok_at(toks, p) {
        Some(Tok::Integer(v)) => Ok(v),
        _ => Err(syn(toks, step(toks, p), "expected an integer")),
    }
}

/// A quoted string at `p`.
pub open spec fn string_at(toks: Seq<Token>, p: int) -> Result<Seq<u8>, ErrSpec> {
    match tok_at(toks, p) {
        Some(Tok::Str(s)) => Ok(s@),
        _ => Err(syn(toks, step(toks, p), "expected a quoted string")),
    }
}

/// An object identifier at `p`.
pub open spec fn label_oid_at(toks: Seq<Token>, p: int) -> Result<Seq<u8>, ErrSpec> {
    match oid_tok(tok_at(toks, p)) {
        Some(o) => Ok(o),
        None => Err(syn(toks, step(toks, p), "expected an object identifier")),
    }
}

/// The value of a plain setting at `p`.
pub open spec fn value_at(toks: Seq<Token>, p: int) -> Result<(i64, Seq<u8>, Seq<u8>), ErrSpec> {
    match tok_at(toks, p) {
        Some(t) => match tok_parts(t) {
            Some(parts) => Ok(parts),
            None => Err(syn(toks, p, "expected a value")),
        },
        None => Err(syn(toks, p, "expected a value")),
    }
}

/// The `<type> <value>` pair of a `SnmpMibObject` at `p`, as the value the
/// binding carries.
pub open spec fn var_at(toks: Seq<Token>, p: int) -> Result<VarSpec, ErrSpec> {
    let q = step(toks, p);
    match tok_at(toks, p) {
        Some(Tok::AsnType(a)) => match a {
            AsnType::Int => match integer_at(toks, q) {
                Ok(x) => Ok(VarSpec::Int(x as i32)),
                Err(e) => Err(e),
            },
            AsnType::Gauge | AsnType::Uint => match integer_at(toks, q) {
                Ok(x) => Ok(VarSpec::Gauge(x as u32)),
                Err(e) => Err(e),
            },
            AsnType::Counter => match integer_at(toks, q) {
                Ok(x) => Ok(VarSpec::Counter(x as u32)),
                Err(e) => Err(e),
            },
            AsnType::TimeTicks => match integer_at(toks, q) {
                Ok(x) => Ok(VarSpec::TimeTicks(x as u32)),
                Err(e) => Err(e),
            },
            AsnType::Ip => match tok_at(toks, q) {
                Some(Tok::Ip(s)) => Ok(VarSpec::Ip(lenient_quad(s@))),
                _ => Err(syn(toks, step(toks, q), "expected an IP address")),
            },
            AsnType::Str => match string_at(toks, q) {
                Ok(s) => Ok(VarSpec::Str(s)),
                Err(e) => Err(e),
            },
            AsnType::HexStr => match tok_at(toks, q) {
                Some(Tok::HexString(h)) => match lenient_hex(h@) {
                    Some(b) => Ok(VarSpec::Str(b)),
                    None => Err((KindSpec::InvalidHexadecimal, line_at(toks, step(toks, q)))),
                },
                _ => Err(syn(toks, step(toks, q), "expected a hex string")),
            },
            AsnType::ObjId => match label_oid_at(toks, q) {
                Ok(o) => Ok(VarSpec::Oid(utf8_or_empty(o))),
                Err(e) => Err(e),
            },
            _ => Err(syn(toks, q, "unsupported SnmpMibObject type")),
        },
        _ => Err(syn(toks, q, "expected a type name for SnmpMibObject")),
    }
}

/// The setting an SNMP object gives: the binding of the object `oid`
/// holding `var`, as a setting of `code`.
pub open spec fn snmp_set(mib: Mib, code: u8, oid: Seq<u8>, var: VarSpec) -> Result<
    Seq<TlvSpec>,
    VbindError,
> {
    match vbind_encoding(mib, utf8_or_empty(oid), var) {
        Ok(b) => Ok(seq![leaf_spec(code, b)]),
        Err(e) => Err(e),
    }
}

/// The value bytes of `GenericTLV ... TlvType <a> TlvValue <v>`: a number
/// as four, two or one big-endian octets, or an address as the `GenericTLV`
/// row encodes it; what goes wrong otherwise, without its line.
pub open spec fn generic_value(
    table: Seq<Symbol>,
    mib: Mib,
    a: AsnType,
    parts: (i64, Seq<u8>, Seq<u8>),
) -> Result<Seq<u8>, Option<KindSpec>> {
    match a {
        AsnType::Int => Ok(encode::be32(parts.0 as u32)),
        AsnType::Short => Ok(encode::be16((parts.0 as u16) as nat)),
        AsnType::Char => Ok(seq![parts.0 as u8]),
        AsnType::Ip => match named_row(table, "GenericTLV".spec_bytes()) {
            Some(i) => match encode::encoded(mib, table[i], parts.0, parts.1, parts.2) {
                Ok(b) => Ok(b),
                Err(e) => Err(Some(KindSpec::Encode { sym: None, text: parts.2, err: e })),
            },
            None => Err(Some(KindSpec::NoGenericTlv)),
        },
        _ => Err(None),
    }
}

/// `<keyword> <value> ;` at `pos`, the keyword being row `idx`: the value
/// encoded as the row says.
pub open spec fn p_value_setting(
    table: Seq<Symbol>,
    mib: Mib,
    toks: Seq<Token>,
    pos: int,
    idx: usize,
) -> Parsed {
    let sym = table[idx as int];
    match value_at(toks, pos + 1) {
        Err(e) => Err(e),
        Ok(parts) => match semi_at(toks, pos + 2) {
            Err(e) => Err(e),
            Ok(p) => match encode::encoded(mib, sym, parts.0, parts.1, parts.2) {
                Ok(b) => one(leaf_spec(sym.code, b), p),
                Err(e) => Err(
                    (
                        KindSpec::Encode { sym: Some(idx), text: parts.2, err: e },
                        line_at(toks, pos + 2),
                    ),
                ),
            },
        },
    }
}

/// `<certificate keyword> "<file>" ;` at `pos`: the file's contents in
/// pieces; an error for a file that cannot be read or is empty.
pub open spec fn p_file_setting(
    files: Seq<(Vec<u8>, Option<Vec<u8>>)>,
    toks: Seq<Token>,
    pos: int,
    code: u8,
) -> Parsed {
    match string_at(toks, pos + 1) {
        Err(e) => Err(e),
        Ok(path) => {
            let line = line_at(toks, pos + 2);
            match semi_at(toks, pos + 2) {
                Err(e) => Err(e),
                Ok(p) => match file_data(files, path) {
                    Some(d) => if d.len() == 0 {
                        Err((KindSpec::EmptyFile { path }, line))
                    } else {
                        Ok((chunks(code, d), p))
                    },
                    None => Err((KindSpec::CantOpenFile { path }, line)),
                },
            }
        },
    }
}

/// `SnmpWriteControl <oid> <n> ;` at `pos`: the OID's encoding followed by
/// the control octet.
pub open spec fn p_write_control(mib: Mib, toks: Seq<Token>, pos: int, idx: usize, code: u8) -> Parsed {
    match label_oid_at(toks, pos + 1) {
        Err(e) => Err(e),
        Ok(oid) => match integer_at(toks, pos + 2) {
            Err(e) => Err(e),
            Ok(c) => {
                let line = line_at(toks, pos + 3);
                match semi_at(toks, pos + 3) {
                    Err(e) => Err(e),
                    Ok(p) => match snmp_oid_encoding(mib, utf8_or_empty(oid)) {
                        Some(b) => one(leaf_spec(code, b.push(c as u8)), p),
                        None => Err((KindSpec::ZeroLength { sym: idx, oid, cause: None }, line)),
                    },
                }
            },
        },
    }
}

/// `SnmpMibObject <oid> <type> <value> ;` at `pos`: the variable binding.
pub open spec fn p_mib_object(mib: Mib, toks: Seq<Token>, pos: int, idx: usize, code: u8) -> Parsed {
    match label_oid_at(toks, pos + 1) {
        Err(e) => Err(e),
        Ok(oid) => match var_at(toks, pos + 2) {
            Err(e) => Err(e),
            Ok(v) => {
                let line = line_at(toks, pos + 4);
                match semi_at(toks, pos + 4) {
                    Err(e) => Err(e),
                    Ok(p) => match snmp_set(mib, code, oid, v) {
                        Ok(ts) => Ok((ts, p)),
                        Err(e) => Err(
                            (KindSpec::ZeroLength { sym: idx, oid, cause: Some(e) }, line),
                        ),
                    },
                }
            },
        },
    }
}

/// `DigitMap "<file>" ;` at `pos`: the dial plan file's text, up to its
/// first NUL, as the value of the dial plan object; an error for a file
/// that cannot be read or is too big.
pub open spec fn p_dialplan(
    mib: Mib,
    files: Seq<(Vec<u8>, Option<Vec<u8>>)>,
    toks: Seq<Token>,
    pos: int,
    idx: usize,
    code: u8,
) -> Parsed {
    match string_at(toks, pos + 1) {
        Err(e) => Err(e),
        Ok(path) => {
            let line = line_at(toks, pos + 2);
            match semi_at(toks, pos + 2) {
                Err(e) => Err(e),
                Ok(p) => match file_data(files, path) {
                    Some(d) => if d.len() > MAX_DIALPLAN_SIZE {
                        Err((KindSpec::DialplanTooBig { path }, line))
                    } else {
                        match snmp_set(
                            mib,
                            code,
                            dialplan_oid_text(),
                            VarSpec::Str(d.take(crate::text::sep_index(d, 0))),
                        ) {
                            Ok(ts) => Ok((ts, p)),
                            Err(e) => Err(
                                (
                                    KindSpec::ZeroLength {
                                        sym: idx,
                                        oid: dialplan_oid_text(),
                                        cause: Some(e),
                                    },
                                    line,
                                ),
                            ),
                        }
                    },
                    None => Err((KindSpec::CantOpenDialplan { path }, line)),
                },
            }
        },
    }
}

/// The shapes of `GenericTLV TlvCode <n> ...` that hold no block, after the
/// code at `pos + 2`.
pub open spec fn p_generic_leaf(
    table: Seq<Symbol>,
    mib: Mib,
    toks: Seq<Token>,
    pos: int,
    code: u8,
) -> Parsed {
    let q = pos + 3;
    match tok_at(toks, q) {
        Some(Tok::TlvString) => match string_at(toks, q + 1) {
            Err(e) => Err(e),
            Ok(s) => match semi_at(toks, q + 2) {
                Err(e) => Err(e),
                Ok(p) => one(leaf_spec(code, s), p),
            },
        },
        Some(Tok::TlvStringZero) => match string_at(toks, q + 1) {
            Err(e) => Err(e),
            Ok(s) => match semi_at(toks, q + 2) {
                Err(e) => Err(e),
                Ok(p) => one(
                    leaf_spec(
                        code,
                        if s.len() <= 254 {
                            s.push(0)
                        } else {
                            s
                        },
                    ),
                    p,
                ),
            },
        },
        Some(Tok::TlvLength) => match integer_at(toks, q + 1) {
            Err(e) => Err(e),
            Ok(d) => if !(tok_at(toks, q + 2) matches Some(Tok::TlvValue)) {
                Err(syn(toks, step(toks, q + 2), "expected TlvValue"))
            } else {
                match tok_at(toks, q + 3) {
                    Some(Tok::HexString(h)) => {
                        let line = line_at(toks, q + 4);
                        match semi_at(toks, q + 4) {
                            Err(e) => Err(e),
                            Ok(p) => match encode::hexstr_value(h@) {
                                Some(b) => if b.len() == d {
                                    one(leaf_spec(code, b), p)
                                } else {
                                    Err(
                                        (
                                            KindSpec::LengthMismatch {
                                                declared: d,
                                                actual: b.len() as usize,
                                            },
                                            line,
                                        ),
                                    )
                                },
                                None => Err((KindSpec::InvalidHexString { hex: h@ }, line)),
                            },
                        }
                    },
                    _ => Err(syn(toks, step(toks, q + 3), "expected a hex string")),
                }
            },
        },
        Some(Tok::TlvType) => match tok_at(toks, q + 1) {
            Some(Tok::AsnType(a)) => if !(tok_at(toks, q + 2) matches Some(Tok::TlvValue)) {
                Err(syn(toks, step(toks, q + 2), "expected TlvValue"))
            } else {
                match value_at(toks, q + 3) {
                    Err(e) => Err(e),
                    Ok(parts) => {
                        let line = line_at(toks, q + 4);
                        match semi_at(toks, q + 4) {
                            Err(e) => Err(e),
                            Ok(p) => match generic_value(table, mib, a, parts) {
                                Ok(b) => one(leaf_spec(code, b), p),
                                Err(Some(k)) => Err((k, line)),
                                Err(None) => Err(syn(toks, p, "unsupported TlvType")),
                            },
                        }
                    },
                }
            },
            _ => Err(syn(toks, step(toks, q + 1), "expected a type name")),
        },
        _ => Err(syn(toks, q, "unexpected token after TlvCode")),
    }
}

/// `GenericTLV TlvCode <n> ...` at `pos`, in each of its five shapes.
pub open spec fn p_generic(
    table: Seq<Symbol>,
    mib: Mib,
    files: Seq<(Vec<u8>, Option<Vec<u8>>)>,
    toks: Seq<Token>,
    pos: int,
) -> Parsed
    decreases toks.len() - pos, 0int,
{
    if !(tok_at(toks, pos + 1) matches Some(Tok::TlvCode)) {
        Err(syn(toks, step(toks, pos + 1), "expected TlvCode"))
    } else {
        match integer_at(toks, pos + 2) {
            Err(e) => Err(e),
            Ok(c) => if tok_at(toks, pos + 3) matches Some(Tok::LBrace) {
                match p_list(table, mib, files, toks, pos + 4) {
                    Ok((kids, p)) => match expect_at(toks, p, 2, "expected '}'") {
                        Ok(q) => one(block_spec(c as u8, kids), q),
                        Err(e) => Err(e),
                    },
                    Err(e) => Err(e),
                }
            } else {
                p_generic_leaf(table, mib, toks, pos, c as u8)
            },
        }
    }
}

/// One statement at `pos`: the settings it gives and where it ends, or
/// what goes wrong first.
pub open spec fn p_stmt(
    table: Seq<Symbol>,
    mib: Mib,
    files: Seq<(Vec<u8>, Option<Vec<u8>>)>,
    toks: Seq<Token>,
    pos: int,
) -> Parsed
    decreases toks.len() - pos, 1int,
{
    if pos < 0 || pos >= toks.len() {
        Err(syn(toks, pos, "unexpected token"))
    } else {
        match toks[pos].tok {
            Tok::IdentGeneric(_) => p_generic(table, mib, files, toks, pos),
            Tok::Identifier(i) => if i >= table.len() {
                Err(syn(toks, pos, "unexpected token"))
            } else if tok_at(toks, pos + 1) matches Some(Tok::LBrace) {
                match p_list(table, mib, files, toks, pos + 2) {
                    Ok((kids, p)) => match expect_at(toks, p, 2, "expected '}'") {
                        Ok(q) => one(block_spec(table[i as int].code, kids), q),
                        Err(e) => Err(e),
                    },
                    Err(e) => Err(e),
                }
            } else {
                p_value_setting(table, mib, toks, pos, i)
            },
            Tok::IdentCvc(i) => if i >= table.len() {
                Err(syn(toks, pos, "unexpected token"))
            } else {
                p_file_setting(files, toks, pos, table[i as int].code)
            },
            Tok::IdentSnmpW(i) => if i >= table.len() {
                Err(syn(toks, pos, "unexpected token"))
            } else {
                p_write_control(mib, toks, pos, i, table[i as int].code)
            },
            Tok::IdentSnmpSet(i) => if i >= table.len() {
                Err(syn(toks, pos, "unexpected token"))
            } else {
                p_mib_object(mib, toks, pos, i, table[i as int].code)
            },
            Tok::DigitMap(i) => if i >= table.len() {
                Err(syn(toks, pos, "unexpected token"))
            } else {
                p_dialplan(mib, files, toks, pos, i, table[i as int].code)
            },
            _ => Err(syn(toks, pos, "unexpected token")),
        }
    }
}

/// The statements from `pos` up to a `}` or the end of the tokens.
pub open spec fn p_list(
    table: Seq<Symbol>,
    mib: Mib,
    files: Seq<(Vec<u8>, Option<Vec<u8>>)>,
    toks: Seq<Token>,
    pos: int,
) -> Parsed
    decreases toks.len() - pos, 2int,
{
    if pos < 0 || pos > toks.len() {
        Err(syn(toks, pos, "unexpected token"))
    } else if pos == toks.len() || toks[pos].tok is RBrace {
        Ok((Seq::empty(), pos))
    } else {
        match p_stmt(table, mib, files, toks, pos) {
            Err(e) => Err(e),
            Ok((items, p)) => if pos < p <= toks.len() {
                match p_list(table, mib, files, toks, p) {
                    Err(e) => Err(e),
                    Ok((rest, q)) => Ok((items + rest, q)),
                }
            } else {
                Ok((items, p))
            },
        }
    }
}

/// `Main { ... }` at `pos`: the settings the file gives, or what goes wrong
/// first.
pub open spec fn p_file(
    table: Seq<Symbol>,
    mib: Mib,
    files: Seq<(Vec<u8>, Option<Vec<u8>>)>,
    toks: Seq<Token>,
    pos: int,
) -> Result<Seq<TlvSpec>, ErrSpec> {
    let p1 = step(toks, pos);
    if !(tok_at(toks, pos) matches Some(Tok::Main)) {
        Err(syn(toks, p1, "expected 'Main'"))
    } else {
        match expect_at(toks, p1, 1, "expected '{'") {
            Err(e) => Err(e),
            Ok(p2) => match p_list(table, mib, files, toks, p2) {
                Err(e) => Err(e),
                Ok((l, p)) => match expect_at(toks, p, 2, "expected '}'") {
                    Ok(_) => Ok(l),
                    Err(e) => Err(e),
                },
            },
        }
    }
}

/// Whether the token at `p` is the punctuation `want` names: 0 for `;`, 1
/// for `{`, 2 for `}`.
pub open spec fn tok_is(toks: Seq<Token>, p: int, want: u8) -> bool {
    match tok_at(toks, p) {
        Some(Tok::Semi) => want == 0,
        Some(Tok::LBrace) => want == 1,
        Some(Tok::RBrace) => want == 2,
        _ => false,
    }
}

/// The path a certificate or dial plan keyword at `k` names, when a quoted
/// string follows it.
pub open spec fn path_named_at(toks: Seq<Token>, k: int) -> Option<Seq<u8>> {
    if 0 <= k && k + 1 < toks.len() && (toks[k].tok is IdentCvc || toks[k].tok is DigitMap)
        && toks[k + 1].tok is Str {
        Some(toks[k + 1].tok->Str_0@)
    } else {
        None
    }
}

/// The paths named from token `k` on, each added to `acc` the first time
/// it is met.
pub open spec fn paths_from(toks: Seq<Token>, k: int, acc: Seq<Seq<u8>>) -> Seq<Seq<u8>>
    decreases toks.len() - k,
{
    if k < 0 || k + 1 >= toks.len() {
        acc
    } else {
        match path_named_at(toks, k) {
            Some(p) => paths_from(
                toks,
                k + 1,
                if acc.contains(p) {
                    acc
                } else {
                    acc.push(p)
                },
            ),
            None => paths_from(toks, k + 1, acc),
        }
    }
}

/// The octets of each path.
pub open spec fn paths_view(v: Seq<Vec<u8>>) -> Seq<Seq<u8>> {
    v.map_values(|p: Vec<u8>| p@)
}

/// The files a configuration names (certificate chains and dial plans), in
/// the order first named, so that they can be read before parsing.
pub fn named_files(toks: &[Token]) -> (r: Vec<Vec<u8>>)
    ensures
        paths_view(r@) == paths_from(toks@, 0, Seq::empty()),
{
    let mut out: Vec<Vec<u8>> = Vec::new();
    let ghost goal = paths_from(toks@, 0, Seq::empty());
    assert(paths_view(out@) =~= Seq::<Seq<u8>>::empty());
    let mut k: usize = 0;
    while k < toks.len() && toks.len() - k > 1
        invariant
            k <= toks@.len(),
            goal == paths_from(toks@, 0, Seq::empty()),
            goal == paths_from(toks@, k as int, paths_view(out@)),
        decreases toks@.len() - k,
    {
        let names_file = match toks[k].tok {
            Tok::IdentCvc(_) | Tok::DigitMap(_) => true,
            _ => false,
        };
        if names_file {
            if let Tok::Str(path) = &toks[k + 1].tok {
                let ghost acc = paths_view(out@);
                let mut seen = false;
                let mut j: usize = 0;
                while j < out.len()
                    invariant
                        j <= out@.len(),
                        acc == paths_view(out@),
                        seen == exists|m: int| 0 <= m < j && acc[m] == path@,
                    decreases out@.len() - j,
                {
                    assert(acc[j as int] == out@[j as int]@);
                    if bytes_eq(out[j].as_slice(), path.as_slice()) {
                        seen = true;
                    }
                    j += 1;
                }
                assert(seen == acc.contains(path@));
                if !seen {
                    out.push(copy_bytes(path.as_slice()));
                    assert(paths_view(out@) =~= acc.push(path@));
                }
            }
        }
        k += 1;
    }
    out
}

/// Whether a configuration is a PacketCable MTA file: its first setting
/// is the MTA configuration delimiter, TLV 254.
pub fn is_mta_config(tree: &[Tlv]) -> (r: bool)
    ensures
        r == (tree@.len() > 0 && tree@[0].code == 254),
{
    tree.len() > 0 && tree[0].code == 254
}

/// Appending lists of settings appends their plain values.
proof fn lemma_tlvs_view_append(a: Seq<Tlv>, b: Seq<Tlv>)
    ensures
        tlvs_view(a + b) == tlvs_view(a) + tlvs_view(b),
    decreases b.len(),
{
    if b.len() == 0 {
        assert(a + b =~= a);
        assert(tlvs_view(a) + tlvs_view(b) =~= tlvs_view(a));
    } else {
        lemma_tlvs_view_append(a, b.drop_last());
        assert((a + b).drop_last() =~= a + b.drop_last());
        assert((a + b).last() == b.last());
        assert(tlvs_view(a + b) =~= tlvs_view(a) + tlvs_view(b));
    }
}

/// The plain values of a list with one more setting.
proof fn lemma_tlvs_view_push(a: Seq<Tlv>, t: Tlv)
    ensures
        tlvs_view(a.push(t)) == tlvs_view(a).push(tlv_view(t)),
{
    assert(a.push(t).drop_last() =~= a);
}

/// The plain values of a one-setting list.
proof fn lemma_tlvs_view_one(t: Tlv)
    ensures
        tlvs_view(seq![t]) == seq![tlv_view(t)],
{
    lemma_tlvs_view_push(Seq::empty(), t);
    assert(Seq::<Tlv>::empty().push(t) =~= seq![t]);
    assert(tlvs_view(Seq::<Tlv>::empty()) =~= Seq::<TlvSpec>::empty());
    assert(Seq::<TlvSpec>::empty().push(tlv_view(t)) =~= seq![tlv_view(t)]);
}

impl<'a> Parser<'a> {
    /// Whether the parser can run: its MIB is well formed.
    pub closed spec fn ready(&self) -> bool {
        self.mib.wf() && self.pos <= self.toks@.len()
    }

    /// The tokens being parsed.
    pub closed spec fn tokens(&self) -> Seq<Token> {
        self.toks@
    }

    /// Where the parser stands in the tokens.
    pub closed spec fn position(&self) -> int {
        self.pos as int
    }

    /// The symbol table the tokens refer to.
    pub closed spec fn table_view(&self) -> Seq<Symbol> {
        self.table@
    }

    /// The MIB OIDs resolve through.
    pub closed spec fn mib_view(&self) -> Mib {
        *self.mib
    }

    /// The external files, read beforehand.
    pub closed spec fn files_view(&self) -> Seq<(Vec<u8>, Option<Vec<u8>>)> {
        self.files@
    }

    pub fn new(
        toks: Vec<Token>,
        mib: &'a Mib,
        table: &'a [Symbol],
        files: &'a [(Vec<u8>, Option<Vec<u8>>)],
    ) -> (r: Parser<'a>)
        requires
            mib.wf(),
        ensures
            r.ready(),
            r.tokens() == toks@,
            r.position() == 0,
            r.table_view() == table@,
            r.mib_view() == *mib,
            r.files_view() == files@,
    {
        Parser { toks, pos: 0, mib, table, files }
    }

    /// Whether `other` parses the same tokens against the same table, MIB
    /// and files.
    spec fn same_env(&self, other: Self) -> bool {
        &&& self.toks == other.toks
        &&& self.mib == other.mib
        &&& self.table == other.table
        &&& self.files == other.files
    }

    spec fn stmt_spec(&self, pos: int) -> Parsed {
        p_stmt(self.table@, *self.mib, self.files@, self.toks@, pos)
    }

    spec fn list_spec(&self, pos: int) -> Parsed {
        p_list(self.table@, *self.mib, self.files@, self.toks@, pos)
    }

    spec fn generic_spec(&self, pos: int) -> Parsed {
        p_generic(self.table@, *self.mib, self.files@, self.toks@, pos)
    }

    fn peek(&self) -> (r: Option<&Tok>)
        ensures
            self.pos < self.toks@.len() ==> r == Some(&self.toks@[self.pos as int].tok),
            self.pos >= self.toks@.len() ==> r is None,
    {
        if self.pos < self.toks.len() {
            Some(&self.toks[self.pos].tok)
        } else {
            None
        }
    }

    fn peek_at(&self, n: usize) -> (r: Option<&Tok>)
        ensures
            self.pos + n < self.toks@.len() ==> r == Some(&self.toks@[self.pos + n].tok),
            self.pos + n >= self.toks@.len() ==> r is None,
    {
        if self.pos < self.toks.len() && n < self.toks.len() - self.pos {
            Some(&self.toks[self.pos + n].tok)
        } else {
            None
        }
    }

    /// The line of the current token, or of the last one past the end.
    fn line(&self) -> (r: u32)
        ensures
            r == line_at(self.toks@, self.pos as int),
    {
        if self.pos < self.toks.len() {
            self.toks[self.pos].line
        } else if self.toks.len() > 0 {
            self.toks[self.toks.len() - 1].line
        } else {
            0
        }
    }

    fn ctx(&self) -> (r: Ctx<'a>)
        ensures
            r.mib == self.mib,
            r.line == line_at(self.toks@, self.pos as int),
    {
        Ctx { mib: self.mib, line: self.line() }
    }

    /// Step past the current token.
    fn advance(&mut self)
        ensures
            final(self).same_env(*old(self)),
            old(self).pos < old(self).toks@.len() ==> final(self).pos == old(self).pos + 1,
            old(self).pos >= old(self).toks@.len() ==> final(self).pos == old(self).pos,
    {
        if self.pos < self.toks.len() {
            self.pos += 1;
        }
    }

    fn syntax(&self, what: &'static str) -> (r: ParseError)
        ensures
            err_spec(r) == syn(self.toks@, self.pos as int, what),
    {
        ParseError { kind: ParseErrorKind::Syntax(what), line: self.line() }
    }

    /// Step past a token that must be `want`.
    fn expect_simple(&mut self, want: u8, what: &'static str) -> (r: Result<(), ParseError>)
        ensures
            final(self).same_env(*old(self)),
            final(self).pos >= old(self).pos,
            final(self).pos <= final(self).toks@.len() || final(self).pos == old(self).pos,
            r is Ok <==> tok_is(old(self).toks@, old(self).pos as int, want),
            r is Ok ==> final(self).pos == old(self).pos + 1,
            match expect_at(old(self).toks@, old(self).pos as int, want, what) {
                Ok(p) => r is Ok && final(self).pos == p,
                Err(e) => r matches Err(x) && err_spec(x) == e,
            },
    {
        let ok = match self.peek() {
            Some(Tok::Semi) => want == 0,
            Some(Tok::LBrace) => want == 1,
            Some(Tok::RBrace) => want == 2,
            _ => false,
        };
        self.advance();
        if ok {
            Ok(())
        } else {
            Err(self.syntax(what))
        }
    }

    fn expect_semi(&mut self) -> (r: Result<(), ParseError>)
        ensures
            final(self).same_env(*old(self)),
            final(self).pos >= old(self).pos,
            final(self).pos <= final(self).toks@.len() || final(self).pos == old(self).pos,
            r is Ok <==> tok_is(old(self).toks@, old(self).pos as int, 0),
            r is Ok ==> final(self).pos == old(self).pos + 1,
            match expect_at(old(self).toks@, old(self).pos as int, 0, "expected ';'") {
                Ok(p) => r is Ok && final(self).pos == p,
                Err(e) => r matches Err(x) && err_spec(x) == e,
            },
    {
        self.expect_simple(0, "expected ';'")
    }

    fn expect_lbrace(&mut self) -> (r: Result<(), ParseError>)
        ensures
            final(self).same_env(*old(self)),
            final(self).pos >= old(self).pos,
            final(self).pos <= final(self).toks@.len() || final(self).pos == old(self).pos,
            r is Ok <==> tok_is(old(self).toks@, old(self).pos as int, 1),
            r is Ok ==> final(self).pos == old(self).pos + 1,
            match expect_at(old(self).toks@, old(self).pos as int, 1, "expected '{'") {
                Ok(p) => r is Ok && final(self).pos == p,
                Err(e) => r matches Err(x) && err_spec(x) == e,
            },
    {
        self.expect_simple(1, "expected '{'")
    }

    fn expect_rbrace(&mut self) -> (r: Result<(), ParseError>)
        ensures
            final(self).same_env(*old(self)),
            final(self).pos >= old(self).pos,
            final(self).pos <= final(self).toks@.len() || final(self).pos == old(self).pos,
            r is Ok <==> tok_is(old(self).toks@, old(self).pos as int, 2),
            r is Ok ==> final(self).pos == old(self).pos + 1,
            match expect_at(old(self).toks@, old(self).pos as int, 2, "expected '}'") {
                Ok(p) => r is Ok && final(self).pos == p,
                Err(e) => r matches Err(x) && err_spec(x) == e,
            },
    {
        self.expect_simple(2, "expected '}'")
    }

    fn expect_integer(&mut self) -> (r: Result<i64, ParseError>)
        ensures
            final(self).same_env(*old(self)),
            final(self).pos >= old(self).pos,
            final(self).pos <= final(self).toks@.len() || final(self).pos == old(self).pos,
            match integer_at(old(self).toks@, old(self).pos as int) {
                Ok(v) => r == Ok::<i64, ParseError>(v),
                Err(e) => r matches Err(x) && err_spec(x) == e,
            },
            r is Ok ==> final(self).pos == old(self).pos + 1,
    {
        let v = match self.peek() {
            Some(Tok::Integer(v)) => Some(*v),
            _ => None,
        };
        self.advance();
        match v {
            Some(v) => Ok(v),
            None => Err(self.syntax("expected an integer")),
        }
    }

    fn expect_string(&mut self) -> (r: Result<Vec<u8>, ParseError>)
        ensures
            final(self).same_env(*old(self)),
            final(self).pos >= old(self).pos,
            final(self).pos <= final(self).toks@.len() || final(self).pos == old(self).pos,
            match string_at(old(self).toks@, old(self).pos as int) {
                Ok(s) => r matches Ok(v) && v@ == s,
                Err(e) => r matches Err(x) && err_spec(x) == e,
            },
            r is Ok ==> final(self).pos == old(self).pos + 1,
    {
        let v = match self.peek() {
            Some(Tok::Str(s)) => Some(copy_bytes(s.as_slice())),
            _ => None,
        };
        self.advance();
        match v {
            Some(v) => Ok(v),
            None => Err(self.syntax("expected a quoted string")),
        }
    }

    fn expect_label_oid(&mut self) -> (r: Result<Vec<u8>, ParseError>)
        ensures
            final(self).same_env(*old(self)),
            final(self).pos >= old(self).pos,
            final(self).pos <= final(self).toks@.len() || final(self).pos == old(self).pos,
            match label_oid_at(old(self).toks@, old(self).pos as int) {
                Ok(o) => r matches Ok(v) && v@ == o,
                Err(e) => r matches Err(x) && err_spec(x) == e,
            },
            r is Ok ==> final(self).pos == old(self).pos + 1,
    {
        let v = match self.peek() {
            Some(Tok::LabelOid(s)) => Some(copy_bytes(s.as_slice())),
            // A bare dotted quad also reads as an OID, e.g. "83.1.2.1.2.1".
            Some(Tok::Ip(s)) => Some(copy_bytes(s.as_slice())),
            _ => None,
        };
        self.advance();
        match v {
            Some(v) => Ok(v),
            None => Err(self.syntax("expected an object identifier")),
        }
    }

    /// `Main { ... }`
    pub fn parse(&mut self) -> (r: Result<Vec<Tlv>, ParseError>)
        requires
            old(self).ready(),
        ensures
            match p_file(
                old(self).table_view(),
                old(self).mib_view(),
                old(self).files_view(),
                old(self).tokens(),
                old(self).position(),
            ) {
                Ok(v) => r matches Ok(ts) && tlvs_view(ts@) == v,
                Err(e) => r matches Err(x) && err_spec(x) == e,
            },
    {
        let is_main = match self.peek() {
            Some(Tok::Main) => true,
            _ => false,
        };
        self.advance();
        if !is_main {
            return Err(self.syntax("expected 'Main'"));
        }
        self.expect_lbrace()?;
        let list = self.assignment_list()?;
        self.expect_rbrace()?;
        Ok(list)
    }

    fn assignment_list(&mut self) -> (r: Result<Vec<Tlv>, ParseError>)
        requires
            old(self).mib.wf(),
            old(self).pos <= old(self).toks@.len(),
        ensures
            final(self).same_env(*old(self)),
            old(self).pos <= final(self).pos <= final(self).toks@.len(),
            match old(self).list_spec(old(self).pos as int) {
                Ok((v, p)) => r matches Ok(ts) && tlvs_view(ts@) == v && final(self).pos == p,
                Err(e) => r matches Err(x) && err_spec(x) == e,
            },
        decreases old(self).toks@.len() - old(self).pos, 2int,
    {
        let ghost whole = self.list_spec(self.pos as int);
        let mut out: Vec<Tlv> = Vec::new();
        assert(tlvs_view(out@) =~= Seq::<TlvSpec>::empty());
        loop
            invariant
                self.same_env(*old(self)),
                self.mib.wf(),
                old(self).pos <= self.pos <= self.toks@.len(),
                whole == old(self).list_spec(old(self).pos as int),
                whole == match self.list_spec(self.pos as int) {
                    Ok((rest, q)) => Ok((tlvs_view(out@) + rest, q)),
                    Err(e) => Err(e),
                },
            decreases self.toks@.len() - self.pos,
        {
            let stop = match self.peek() {
                Some(Tok::RBrace) => true,
                None => true,
                _ => false,
            };
            if stop {
                assert(tlvs_view(out@) + Seq::<TlvSpec>::empty() =~= tlvs_view(out@));
                return Ok(out);
            }
            let ghost before = out@;
            let mut items = self.statement()?;
            let ghost got = items@;
            out.append(&mut items);
            proof {
                lemma_tlvs_view_append(before, got);
                match self.list_spec(self.pos as int) {
                    Ok((rest, q)) => {
                        assert(tlvs_view(before) + (tlvs_view(got) + rest) =~= tlvs_view(out@)
                            + rest);
                    },
                    Err(_) => {},
                }
            }
        }
    }

    fn statement(&mut self) -> (r: Result<Vec<Tlv>, ParseError>)
        requires
            old(self).mib.wf(),
            old(self).pos < old(self).toks@.len(),
        ensures
            final(self).same_env(*old(self)),
            old(self).pos <= final(self).pos <= final(self).toks@.len(),
            r is Ok ==> final(self).pos > old(self).pos,
            match old(self).stmt_spec(old(self).pos as int) {
                Ok((v, p)) => r matches Ok(ts) && tlvs_view(ts@) == v && final(self).pos == p,
                Err(e) => r matches Err(x) && err_spec(x) == e,
            },
        decreases old(self).toks@.len() - old(self).pos, 1int,
    {
        let kind: u8;
        let idx: usize;
        match &self.toks[self.pos].tok {
            Tok::Identifier(i) => {
                kind = 0;
                idx = *i;
            },
            Tok::IdentGeneric(i) => {
                kind = 1;
                idx = *i;
            },
            Tok::IdentCvc(i) => {
                kind = 2;
                idx = *i;
            },
            Tok::IdentSnmpW(i) => {
                kind = 3;
                idx = *i;
            },
            Tok::IdentSnmpSet(i) => {
                kind = 4;
                idx = *i;
            },
            Tok::DigitMap(i) => {
                kind = 5;
                idx = *i;
            },
            _ => return Err(self.syntax("unexpected token")),
        }
        if kind == 1 {
            return self.generic_statement();
        }
        if idx >= self.table.len() {
            return Err(self.syntax("unexpected token"));
        }
        let sym = self.table[idx];
        if kind == 0 {
            let brace = match self.peek_at(1) {
                Some(Tok::LBrace) => true,
                _ => false,
            };
            if brace {
                self.advance();
                self.expect_lbrace()?;
                let children = self.assignment_list()?;
                self.expect_rbrace()?;
                let t = Tlv { code: sym.code, value: Vec::new(), children: Some(children) };
                let out = vec![t];
                proof {
                    assert(out@ =~= seq![t]);
                    lemma_tlvs_view_one(t);
                    assert(t.value@ =~= Seq::<u8>::empty());
                }
                return Ok(out);
            }
            return self.value_setting(idx, sym);
        }
        if kind == 2 {
            return self.file_setting(sym);
        }
        if kind == 3 {
            return self.write_control(idx, sym);
        }
        if kind == 4 {
            return self.mib_object(idx, sym);
        }
        self.dial_plan(idx, sym)
    }

    /// `<keyword> <value> ;` with the keyword at the current token.
    fn value_setting(&mut self, idx: usize, sym: Symbol) -> (r: Result<Vec<Tlv>, ParseError>)
        requires
            old(self).mib.wf(),
            old(self).pos < old(self).toks@.len(),
            idx < old(self).table@.len(),
            sym == old(self).table@[idx as int],
        ensures
            final(self).same_env(*old(self)),
            old(self).pos <= final(self).pos <= final(self).toks@.len(),
            match p_value_setting(
                old(self).table@,
                *old(self).mib,
                old(self).toks@,
                old(self).pos as int,
                idx,
            ) {
                Ok((v, p)) => r matches Ok(ts) && tlvs_view(ts@) == v && final(self).pos == p,
                Err(e) => r matches Err(x) && err_spec(x) == e,
            },
    {
        self.advance();
        let value = self.take_value()?;
        let ctx = self.ctx();
        self.expect_semi()?;
        match encode::encode(&ctx, &sym, &value) {
            Ok(bytes) => {
                let t = Tlv::leaf(sym.code, bytes);
                let out = vec![t];
                proof {
                    assert(out@ =~= seq![t]);
                    lemma_tlvs_view_one(t);
                }
                Ok(out)
            },
            Err(e) => Err(
                ParseError {
                    kind: ParseErrorKind::Encode {
                        sym: Some(idx),
                        text: copy_bytes(value.as_bytes()),
                        err: e,
                    },
                    line: ctx.line,
                },
            ),
        }
    }

    /// `<certificate keyword> "<file>" ;` with the keyword at the current
    /// token.
    fn file_setting(&mut self, sym: Symbol) -> (r: Result<Vec<Tlv>, ParseError>)
        requires
            old(self).pos < old(self).toks@.len(),
        ensures
            final(self).same_env(*old(self)),
            old(self).pos <= final(self).pos <= final(self).toks@.len(),
            match p_file_setting(old(self).files@, old(self).toks@, old(self).pos as int, sym.code) {
                Ok((v, p)) => r matches Ok(ts) && tlvs_view(ts@) == v && final(self).pos == p,
                Err(e) => r matches Err(x) && err_spec(x) == e,
            },
    {
        self.advance();
        let path = self.expect_string()?;
        let line = self.line();
        self.expect_semi()?;
        self.external_file_tlvs(&sym, path, line)
    }

    /// `SnmpWriteControl <oid> <n> ;` with the keyword at the current token.
    fn write_control(&mut self, idx: usize, sym: Symbol) -> (r: Result<Vec<Tlv>, ParseError>)
        requires
            old(self).mib.wf(),
            old(self).pos < old(self).toks@.len(),
        ensures
            final(self).same_env(*old(self)),
            old(self).pos <= final(self).pos <= final(self).toks@.len(),
            match p_write_control(*old(self).mib, old(self).toks@, old(self).pos as int, idx, sym.code) {
                Ok((v, p)) => r matches Ok(ts) && tlvs_view(ts@) == v && final(self).pos == p,
                Err(e) => r matches Err(x) && err_spec(x) == e,
            },
    {
        self.advance();
        let oid = self.expect_label_oid()?;
        let control = self.expect_integer()?;
        let line = self.line();
        self.expect_semi()?;
        let oid_text = utf8_string(copy_bytes(oid.as_slice()));
        proof {
            crate::snmp::lemma_string_octets_shown(oid_text, oid@);
        }
        let mut value = match snmp::encode_snmp_oid(self.mib, oid_text.as_str()) {
            Some(v) => v,
            None => {
                return Err(
                    ParseError { kind: ParseErrorKind::ZeroLength { sym: idx, oid, cause: None }, line },
                );
            },
        };
        value.push(control as u8);
        let t = Tlv::leaf(sym.code, value);
        let out = vec![t];
        proof {
            assert(out@ =~= seq![t]);
            lemma_tlvs_view_one(t);
        }
        Ok(out)
    }

    /// `SnmpMibObject <oid> <type> <value> ;` with the keyword at the
    /// current token.
    fn mib_object(&mut self, idx: usize, sym: Symbol) -> (r: Result<Vec<Tlv>, ParseError>)
        requires
            old(self).mib.wf(),
            old(self).pos < old(self).toks@.len(),
        ensures
            final(self).same_env(*old(self)),
            old(self).pos <= final(self).pos <= final(self).toks@.len(),
            match p_mib_object(*old(self).mib, old(self).toks@, old(self).pos as int, idx, sym.code) {
                Ok((v, p)) => r matches Ok(ts) && tlvs_view(ts@) == v && final(self).pos == p,
                Err(e) => r matches Err(x) && err_spec(x) == e,
            },
    {
        self.advance();
        let oid = self.expect_label_oid()?;
        let var = self.take_var_value()?;
        let line = self.line();
        self.expect_semi()?;
        self.snmpset_tlv(idx, &sym, oid, var, line)
    }

    /// `DigitMap "<file>" ;` with the keyword at the current token.
    fn dial_plan(&mut self, idx: usize, sym: Symbol) -> (r: Result<Vec<Tlv>, ParseError>)
        requires
            old(self).mib.wf(),
            old(self).pos < old(self).toks@.len(),
        ensures
            final(self).same_env(*old(self)),
            old(self).pos <= final(self).pos <= final(self).toks@.len(),
            match p_dialplan(
                *old(self).mib,
                old(self).files@,
                old(self).toks@,
                old(self).pos as int,
                idx,
                sym.code,
            ) {
                Ok((v, p)) => r matches Ok(ts) && tlvs_view(ts@) == v && final(self).pos == p,
                Err(e) => r matches Err(x) && err_spec(x) == e,
            },
    {
        self.advance();
        let path = self.expect_string()?;
        let line = self.line();
        self.expect_semi()?;
        let body = self.read_dialplan(path, line)?;
        let oid = "1.3.6.1.4.1.4491.2.2.8.2.1.1.3.1.1.2.1".as_bytes();
        self.snmpset_tlv(idx, &sym, copy_bytes(oid), VarValue::Str(body), line)
    }

    fn snmpset_tlv(&self, idx: usize, sym: &Symbol, oid: Vec<u8>, var: VarValue, line: u32) -> (r:
        Result<Vec<Tlv>, ParseError>)
        requires
            self.mib.wf(),
        ensures
            match snmp_set(*self.mib, sym.code, oid@, var_spec(var)) {
                Ok(v) => r matches Ok(ts) && tlvs_view(ts@) == v,
                Err(e) => r matches Err(x) && err_spec(x) == (
                    KindSpec::ZeroLength { sym: idx, oid: oid@, cause: Some(e) },
                    line,
                ),
            },
    {
        let oid_text = utf8_string(copy_bytes(oid.as_slice()));
        proof {
            crate::snmp::lemma_string_octets_shown(oid_text, oid@);
        }
        match snmp::encode_vbind(self.mib, oid_text.as_str(), &var) {
            Ok(v) => {
                let t = Tlv::leaf(sym.code, v);
                let out = vec![t];
                proof {
                    assert(out@ =~= seq![t]);
                    lemma_tlvs_view_one(t);
                }
                Ok(out)
            },
            Err(e) => Err(
                ParseError { kind: ParseErrorKind::ZeroLength { sym: idx, oid, cause: Some(e) }, line },
            ),
        }
    }

    /// `GenericTLV TlvCode <n> ...` in each of its five shapes.
    fn generic_statement(&mut self) -> (r: Result<Vec<Tlv>, ParseError>)
        requires
            old(self).mib.wf(),
            old(self).pos < old(self).toks@.len(),
        ensures
            final(self).same_env(*old(self)),
            old(self).pos <= final(self).pos <= final(self).toks@.len(),
            r is Ok ==> final(self).pos > old(self).pos,
            match old(self).generic_spec(old(self).pos as int) {
                Ok((v, p)) => r matches Ok(ts) && tlvs_view(ts@) == v && final(self).pos == p,
                Err(e) => r matches Err(x) && err_spec(x) == e,
            },
        decreases old(self).toks@.len() - old(self).pos, 0int,
    {
        let start = self.pos;
        self.advance();
        let is_code = match self.peek() {
            Some(Tok::TlvCode) => true,
            _ => false,
        };
        self.advance();
        if !is_code {
            return Err(self.syntax("expected TlvCode"));
        }
        let code = self.expect_integer()? as u8;
        let brace = match self.peek() {
            Some(Tok::LBrace) => true,
            _ => false,
        };
        if brace {
            self.expect_lbrace()?;
            let children = self.assignment_list()?;
            self.expect_rbrace()?;
            let t = Tlv { code, value: Vec::new(), children: Some(children) };
            let out = vec![t];
            proof {
                assert(out@ =~= seq![t]);
                lemma_tlvs_view_one(t);
                assert(t.value@ =~= Seq::<u8>::empty());
            }
            return Ok(out);
        }
        self.generic_leaf(start, code)
    }

    /// The shapes of `GenericTLV` that hold no block, from the token after
    /// the code; `start` is where the statement began.
    fn generic_leaf(&mut self, start: usize, code: u8) -> (r: Result<Vec<Tlv>, ParseError>)
        requires
            old(self).mib.wf(),
            old(self).pos == start + 3,
            start + 3 <= old(self).toks@.len(),
        ensures
            final(self).same_env(*old(self)),
            old(self).pos <= final(self).pos <= final(self).toks@.len(),
            match p_generic_leaf(old(self).table@, *old(self).mib, old(self).toks@, start as int, code) {
                Ok((v, p)) => r matches Ok(ts) && tlvs_view(ts@) == v && final(self).pos == p,
                Err(e) => r matches Err(x) && err_spec(x) == e,
            },
    {
        let shape: u8 = match self.peek() {
            Some(Tok::TlvString) => 1,
            Some(Tok::TlvStringZero) => 2,
            Some(Tok::TlvLength) => 3,
            Some(Tok::TlvType) => 4,
            _ => 5,
        };
        let bytes: Vec<u8>;
        if shape == 1 || shape == 2 {
            self.advance();
            let mut s = self.expect_string()?;
            self.expect_semi()?;
            if shape == 2 && s.len() <= 254 {
                s.push(0);
            }
            bytes = s;
        } else if shape == 3 {
            self.advance();
            let declared = self.expect_integer()?;
            let is_value = match self.peek() {
                Some(Tok::TlvValue) => true,
                _ => false,
            };
            self.advance();
            if !is_value {
                return Err(self.syntax("expected TlvValue"));
            }
            let hex = match self.peek() {
                Some(Tok::HexString(s)) => Some(copy_bytes(s.as_slice())),
                _ => None,
            };
            self.advance();
            let hex = match hex {
                Some(h) => h,
                None => return Err(self.syntax("expected a hex string")),
            };
            let line = self.line();
            self.expect_semi()?;
            let b = match encode::parse_hexstr(hex.as_slice()) {
                Some(b) => b,
                None => {
                    return Err(ParseError { kind: ParseErrorKind::InvalidHexString { hex }, line });
                },
            };
            if b.len() as u64 > 0x7FFF_FFFF_FFFF_FFFFu64 || b.len() as i64 != declared {
                return Err(
                    ParseError {
                        kind: ParseErrorKind::LengthMismatch { declared, actual: b.len() },
                        line,
                    },
                );
            }
            bytes = b;
        } else if shape == 4 {
            self.advance();
            let asn = match self.peek() {
                Some(Tok::AsnType(a)) => Some(*a),
                _ => None,
            };
            self.advance();
            let asn = match asn {
                Some(a) => a,
                None => return Err(self.syntax("expected a type name")),
            };
            let is_value = match self.peek() {
                Some(Tok::TlvValue) => true,
                _ => false,
            };
            self.advance();
            if !is_value {
                return Err(self.syntax("expected TlvValue"));
            }
            let value = self.take_value()?;
            let ctx = self.ctx();
            self.expect_semi()?;
            bytes = self.generic_typed_value(asn, &value, &ctx)?;
        } else {
            return Err(self.syntax("unexpected token after TlvCode"));
        }
        let t = Tlv::leaf(code, bytes);
        let out = vec![t];
        proof {
            assert(out@ =~= seq![t]);
            lemma_tlvs_view_one(t);
        }
        Ok(out)
    }

    /// The value bytes of `GenericTLV ... TlvType <asn> TlvValue <value>`.
    fn generic_typed_value(&self, asn: AsnType, value: &Value, ctx: &Ctx) -> (r: Result<
        Vec<u8>,
        ParseError,
    >)
        requires
            ctx.mib == self.mib,
            self.mib.wf(),
        ensures
            match generic_value(
                self.table@,
                *self.mib,
                asn,
                (value_num(*value), value_text(*value), value_octets(*value)),
            ) {
                Ok(b) => r matches Ok(v) && v@ == b,
                Err(Some(k)) => r matches Err(x) && err_spec(x) == (k, ctx.line),
                Err(None) => r matches Err(x) && err_spec(x) == syn(
                    self.toks@,
                    self.pos as int,
                    "unsupported TlvType",
                ),
            },
    {
        match asn {
            AsnType::Int => {
                let v = value.as_num() as u32;
                Ok(
                    vec![(v / 0x100_0000) as u8, ((v / 0x1_0000) % 256) as u8, ((v / 256) % 256) as u8, (v % 256) as u8],
                )
            },
            AsnType::Short => {
                let v = value.as_num() as u16;
                Ok(vec![(v / 256) as u8, (v % 256) as u8])
            },
            AsnType::Char => Ok(vec![value.as_num() as u8]),
            AsnType::Ip => {
                let sym = match crate::lexer::find_index_by_name(self.table, "GenericTLV".as_bytes()) {
                    Some(i) => {
                        proof {
                            lemma_named_row(self.table@, "GenericTLV".spec_bytes(), i as int);
                        }
                        self.table[i]
                    },
                    None => return Err(ParseError { kind: ParseErrorKind::NoGenericTlv, line: ctx.line }),
                };
                match encode::encode(ctx, &sym, value) {
                    Ok(b) => Ok(b),
                    Err(e) => Err(
                        ParseError {
                            kind: ParseErrorKind::Encode {
                                sym: None,
                                text: copy_bytes(value.as_bytes()),
                                err: e,
                            },
                            line: ctx.line,
                        },
                    ),
                }
            },
            _ => Err(self.syntax("unsupported TlvType")),
        }
    }

    /// What the pre-read file list holds for `path`.
    fn file(&self, path: &[u8]) -> (r: Option<&Vec<u8>>)
        ensures
            match file_data(self.files@, path@) {
                Some(d) => r matches Some(v) && v@ == d,
                None => r is None,
            },
    {
        let mut k: usize = 0;
        assert(self.files@.skip(0) =~= self.files@);
        while k < self.files.len()
            invariant
                k <= self.files@.len(),
                file_data(self.files@, path@) == file_data(self.files@.skip(k as int), path@),
            decreases self.files@.len() - k,
        {
            proof {
                assert(self.files@.skip(k as int)[0] == self.files@[k as int]);
                assert(self.files@.skip(k as int).drop_first() =~= self.files@.skip(k + 1));
            }
            if bytes_eq(self.files[k].0.as_slice(), path) {
                return match &self.files[k].1 {
                    Some(d) => Some(d),
                    None => None,
                };
            }
            k += 1;
        }
        None
    }

    /// A certificate chain file, split into TLV-sized pieces.
    fn external_file_tlvs(&self, sym: &Symbol, path: Vec<u8>, line: u32) -> (r: Result<
        Vec<Tlv>,
        ParseError,
    >)
        ensures
            match file_data(self.files@, path@) {
                Some(d) => if d.len() == 0 {
                    r matches Err(x) && err_spec(x) == (KindSpec::EmptyFile { path: path@ }, line)
                } else {
                    r matches Ok(ts) && tlvs_view(ts@) == chunks(sym.code, d)
                },
                None => r matches Err(x) && err_spec(x) == (
                    KindSpec::CantOpenFile { path: path@ },
                    line,
                ),
            },
    {
        let data = match self.file(path.as_slice()) {
            Some(d) => d,
            None => return Err(ParseError { kind: ParseErrorKind::CantOpenFile { path }, line }),
        };
        if data.len() == 0 {
            return Err(ParseError { kind: ParseErrorKind::EmptyFile { path }, line });
        }
        let ghost whole = chunks(sym.code, data@);
        let mut out: Vec<Tlv> = Vec::new();
        let mut i: usize = 0;
        assert(tlvs_view(out@) + chunks(sym.code, data@.skip(0)) =~= whole) by {
            assert(data@.skip(0) =~= data@);
            assert(tlvs_view(out@) =~= Seq::<TlvSpec>::empty());
        }
        while i < data.len()
            invariant
                i <= data@.len(),
                data@.len() > 0,
                whole == chunks(sym.code, data@),
                i < data@.len() ==> tlvs_view(out@) + chunks(sym.code, data@.skip(i as int)) == whole,
                i == data@.len() ==> tlvs_view(out@) == whole,
            decreases data@.len() - i,
        {
            let end = if data.len() - i > 254 {
                i + 254
            } else {
                data.len()
            };
            let ghost rest = data@.skip(i as int);
            let ghost before = out@;
            let t = Tlv::leaf(sym.code, copy_bytes(crate::asn1::slice_range(data.as_slice(), i, end)));
            out.push(t);
            proof {
                lemma_tlvs_view_push(before, t);
                if rest.len() <= 254 {
                    assert(rest =~= data@.subrange(i as int, end as int));
                    assert(chunks(sym.code, rest) == seq![leaf_spec(sym.code, rest)]);
                    assert(tlvs_view(before) + seq![leaf_spec(sym.code, rest)] =~= tlvs_view(
                        before,
                    ).push(leaf_spec(sym.code, rest)));
                } else {
                    assert(rest.take(254) =~= data@.subrange(i as int, end as int));
                    assert(rest.skip(254) =~= data@.skip(end as int));
                    assert(chunks(sym.code, rest) == seq![leaf_spec(sym.code, rest.take(254))]
                        + chunks(sym.code, rest.skip(254)));
                    assert(tlvs_view(out@) + chunks(sym.code, data@.skip(end as int)) =~= tlvs_view(
                        before,
                    ) + chunks(sym.code, rest));
                }
            }
            i = end;
        }
        Ok(out)
    }

    /// A dial plan file's text, up to its first NUL.
    fn read_dialplan(&self, path: Vec<u8>, line: u32) -> (r: Result<Vec<u8>, ParseError>)
        ensures
            match file_data(self.files@, path@) {
                Some(d) => if d.len() > MAX_DIALPLAN_SIZE {
                    r matches Err(x) && err_spec(x) == (
                        KindSpec::DialplanTooBig { path: path@ },
                        line,
                    )
                } else {
                    r matches Ok(v) && v@ == d.take(crate::text::sep_index(d, 0))
                },
                None => r matches Err(x) && err_spec(x) == (
                    KindSpec::CantOpenDialplan { path: path@ },
                    line,
                ),
            },
    {
        let data = match self.file(path.as_slice()) {
            Some(d) => d,
            None => return Err(ParseError { kind: ParseErrorKind::CantOpenDialplan { path }, line }),
        };
        if data.len() > MAX_DIALPLAN_SIZE {
            return Err(ParseError { kind: ParseErrorKind::DialplanTooBig { path }, line });
        }
        // The value is handled as a C string, so it stops at a NUL.
        let end = crate::text::find_byte(data.as_slice(), 0, 0);
        assert(data@.skip(0) =~= data@);
        let v = copy_bytes(crate::asn1::slice_range(data.as_slice(), 0, end));
        assert(v@ =~= data@.take(crate::text::sep_index(data@, 0)));
        Ok(v)
    }

    /// Consume a value token for a plain setting.
    fn take_value(&mut self) -> (r: Result<Value, ParseError>)
        ensures
            final(self).same_env(*old(self)),
            final(self).pos >= old(self).pos,
            final(self).pos <= final(self).toks@.len() || final(self).pos == old(self).pos,
            r is Ok ==> final(self).pos == old(self).pos + 1,
            match value_at(old(self).toks@, old(self).pos as int) {
                Ok(p) => r matches Ok(v) && p == (value_num(v), value_text(v), value_octets(v)),
                Err(e) => r matches Err(x) && err_spec(x) == e,
            },
    {
        let v = match self.peek() {
            Some(Tok::Integer(v)) => Some(Value::Num(*v)),
            Some(Tok::Str(s)) => Some(Value::Bytes(copy_bytes(s.as_slice()))),
            Some(Tok::HexString(s)) | Some(Tok::SubmgtFilters(s)) | Some(Tok::Ip(s)) | Some(
                Tok::IpList(s),
            ) | Some(Tok::Ip6(s)) | Some(Tok::Ip6List(s)) | Some(Tok::Ip6PrefixList(s)) | Some(
                Tok::IpIp6Port(s),
            ) | Some(Tok::Mac(s)) | Some(Tok::Ethermask(s)) | Some(Tok::LabelOid(s)) | Some(
                Tok::TimeTicks(s),
            ) => Some(Value::Text(utf8_string(copy_bytes(s.as_slice())))),
            _ => None,
        };
        match v {
            Some(v) => {
                self.advance();
                Ok(v)
            },
            None => Err(self.syntax("expected a value")),
        }
    }

    /// Consume the `<type> <value>` pair of a `SnmpMibObject` statement.
    fn take_var_value(&mut self) -> (r: Result<VarValue, ParseError>)
        ensures
            final(self).same_env(*old(self)),
            final(self).pos >= old(self).pos,
            final(self).pos <= final(self).toks@.len() || final(self).pos == old(self).pos,
            match var_at(old(self).toks@, old(self).pos as int) {
                Ok(vs) => r matches Ok(v) && var_spec(v) == vs && final(self).pos == old(
                    self,
                ).pos + 2,
                Err(e) => r matches Err(x) && err_spec(x) == e,
            },
    {
        let asn = match self.peek() {
            Some(Tok::AsnType(a)) => Some(*a),
            _ => None,
        };
        self.advance();
        let asn = match asn {
            Some(a) => a,
            None => return Err(self.syntax("expected a type name for SnmpMibObject")),
        };
        match asn {
            AsnType::Int => Ok(VarValue::Int(self.expect_integer()? as i32)),
            AsnType::Gauge | AsnType::Uint => Ok(VarValue::Gauge(self.expect_integer()? as u32)),
            AsnType::Counter => Ok(VarValue::Counter(self.expect_integer()? as u32)),
            AsnType::TimeTicks => Ok(VarValue::TimeTicks(self.expect_integer()? as u32)),
            AsnType::Ip => {
                let text = match self.peek() {
                    Some(Tok::Ip(s)) => Some(copy_bytes(s.as_slice())),
                    _ => None,
                };
                self.advance();
                let text = match text {
                    Some(t) => t,
                    None => return Err(self.syntax("expected an IP address")),
                };
                Ok(VarValue::Ip(ip_octets_lenient(text.as_slice())))
            },
            AsnType::Str => Ok(VarValue::Str(self.expect_string()?)),
            AsnType::HexStr => {
                let hex = match self.peek() {
                    Some(Tok::HexString(s)) => Some(copy_bytes(s.as_slice())),
                    _ => None,
                };
                self.advance();
                let hex = match hex {
                    Some(h) => h,
                    None => return Err(self.syntax("expected a hex string")),
                };
                match hexadecimal_to_binary(hex.as_slice()) {
                    Some(b) => Ok(VarValue::Str(b)),
                    None => Err(ParseError { kind: ParseErrorKind::InvalidHexadecimal, line: self.line() }),
                }
            },
            AsnType::ObjId => {
                let oid = self.expect_label_oid()?;
                let ghost o = oid@;
                let s = utf8_string(oid);
                proof {
                    crate::snmp::lemma_string_octets_shown(s, o);
                }
                Ok(VarValue::Oid(s))
            },
            _ => Err(self.syntax("unsupported SnmpMibObject type")),
        }
    }
}

/// How one part of a dotted quad reads leniently: a 32-bit decimal
/// truncated to eight bits, 0 when it is not one.
pub open spec fn lenient_octet(part: Seq<u8>) -> u8 {
    match crate::text::dec_value(part) {
        Some(v) => if v <= 0xFFFF_FFFF {
            (v % 256) as u8
        } else {
            0
        },
        None => 0,
    }
}

/// The four octets of a dotted quad read leniently: each of the first four
/// parts as `lenient_octet` reads it, 0 for a part that is missing.
pub open spec fn lenient_quad(text: Seq<u8>) -> Seq<u8> {
    let parts = crate::text::split_on(text, 46);
    Seq::new(4, |k: int| if k < parts.len() {
        lenient_octet(parts[k])
    } else {
        0u8
    })
}

/// The four octets of a dotted quad read leniently: each of the first four
/// parts as a 32-bit decimal truncated to eight bits, 0 when it is not one.
fn ip_octets_lenient(text: &[u8]) -> (r: [u8; 4])
    ensures
        r@ == lenient_quad(text@),
{
    let parts = crate::text::split_ranges(text, 46);
    let mut out = [0u8; 4];
    let mut k: usize = 0;
    while k < 4 && k < parts.len()
        invariant
            k <= 4,
            out@.len() == 4,
            parts@.len() == crate::text::split_on(text@, 46).len(),
            forall|i: int|
                0 <= i < parts@.len() ==> (#[trigger] parts@[i]).0 <= parts@[i].1 <= text@.len()
                    && crate::text::split_on(text@, 46)[i] == text@.subrange(
                    parts@[i].0 as int,
                    parts@[i].1 as int,
                ),
            forall|i: int| 0 <= i < k ==> out@[i] == #[trigger] lenient_quad(text@)[i],
            forall|i: int| k <= i < 4 ==> out@[i] == 0,
        decreases 4 - k,
    {
        let (lo, hi) = parts[k];
        let v: u64 = match crate::text::parse_dec(text, lo, hi) {
            Some(v) => if v <= 0xFFFF_FFFF {
                v
            } else {
                0
            },
            None => 0,
        };
        out[k] = (v % 256) as u8;
        k += 1;
    }
    assert(out@ =~= lenient_quad(text@));
    out
}

/// Whether `b` is ASCII white space as `u8::is_ascii_whitespace` sees it.
pub open spec fn ascii_space(b: u8) -> bool {
    b == 32 || b == 9 || b == 10 || b == 12 || b == 13
}

/// `s` without its white space.
pub open spec fn without_space(s: Seq<u8>) -> Seq<u8>
    decreases s.len(),
{
    if s.len() == 0 {
        Seq::empty()
    } else if ascii_space(s.last()) {
        without_space(s.drop_last())
    } else {
        without_space(s.drop_last()).push(s.last())
    }
}

/// Hex digit pairs read as octets, each as `u8::from_str_radix(.., 16)`
/// reads it; nothing when a pair does not read or a digit is left over.
pub open spec fn hex_octets(d: Seq<u8>) -> Option<Seq<u8>>
    decreases d.len(),
{
    if d.len() == 0 {
        Some(Seq::empty())
    } else if d.len() == 1 {
        None
    } else {
        match crate::text::hex_value(d.take(2)) {
            None => None,
            Some(v) => match hex_octets(d.skip(2)) {
                None => None,
                Some(rest) => Some(seq![v as u8] + rest),
            },
        }
    }
}

/// What `hexadecimal_to_binary` reads from `text`: past an optional `0x`,
/// its digits with white space dropped, in pairs.
pub open spec fn lenient_hex(text: Seq<u8>) -> Option<Seq<u8>> {
    let body = if text.len() >= 2 && text[0] == 48 && (text[1] == 120 || text[1] == 88) {
        text.skip(2)
    } else {
        text
    };
    hex_octets(without_space(body))
}

proof fn lemma_hex_octets_odd(d: Seq<u8>)
    requires
        d.len() % 2 == 1,
    ensures
        hex_octets(d) is None,
    decreases d.len(),
{
    if d.len() > 1 {
        lemma_hex_octets_odd(d.skip(2));
    }
}

/// Lenient hex conversion: an optional `0x` prefix and embedded white space
/// are allowed.
pub fn hexadecimal_to_binary(text: &[u8]) -> (r: Option<Vec<u8>>)
    ensures
        match lenient_hex(text@) {
            Some(b) => r matches Some(v) && v@ == b,
            None => r is None,
        },
{
    let start: usize = if text.len() >= 2 && text[0] == 48 && (text[1] == 120 || text[1] == 88) {
        2
    } else {
        0
    };
    let ghost body = text@.skip(start as int);
    assert(body =~= (if text@.len() >= 2 && text@[0] == 48 && (text@[1] == 120 || text@[1] == 88) {
        text@.skip(2)
    } else {
        text@
    }));
    let mut digits: Vec<u8> = Vec::new();
    let mut i = start;
    while i < text.len()
        invariant
            start <= i <= text@.len(),
            body == text@.skip(start as int),
            digits@ == without_space(body.take(i - start)),
        decreases text@.len() - i,
    {
        let b = text[i];
        proof {
            assert(body.take(i - start + 1).drop_last() =~= body.take(i - start));
            assert(body.take(i - start + 1).last() == b);
        }
        if !(b == 32 || b == 9 || b == 10 || b == 12 || b == 13) {
            digits.push(b);
        }
        i += 1;
    }
    assert(body.take(text@.len() - start) =~= body);
    assert(digits@ == without_space(body));
    assert(lenient_hex(text@) == hex_octets(digits@));
    if digits.len() % 2 != 0 {
        proof {
            lemma_hex_octets_odd(digits@);
        }
        return None;
    }
    let ghost whole = hex_octets(digits@);
    let mut out: Vec<u8> = Vec::new();
    let mut k: usize = 0;
    assert(digits@.skip(0) =~= digits@);
    assert(out@ + Seq::<u8>::empty() =~= out@);
    while k < digits.len()
        invariant
            k <= digits@.len(),
            digits@.len() % 2 == 0,
            k % 2 == 0,
            whole == hex_octets(digits@),
            whole == lenient_hex(text@),
            whole == match hex_octets(digits@.skip(k as int)) {
                None => None,
                Some(rest) => Some(out@ + rest),
            },
        decreases digits@.len() - k,
    {
        let ghost d = digits@.skip(k as int);
        proof {
            assert(d.take(2) =~= digits@.subrange(k as int, k + 2));
            assert(d.skip(2) =~= digits@.skip(k + 2));
        }
        match crate::text::parse_hex(digits.as_slice(), k, k + 2) {
            Some(v) => {
                proof {
                    crate::text::lemma_hex_two_digits(digits@.subrange(k as int, k + 2));
                }
                let ghost o = out@;
                out.push(v as u8);
                proof {
                    match hex_octets(digits@.skip(k + 2)) {
                        None => {},
                        Some(rest) => {
                            assert(o + (seq![v as u8] + rest) =~= out@ + rest);
                        },
                    }
                }
            },
            None => {
                proof {
                    crate::text::lemma_hex_two_digits(digits@.subrange(k as int, k + 2));
                    assert(hex_octets(d) is None);
                }
                return None;
            },
        }
        k += 2;
    }
    proof {
        assert(digits@.skip(k as int).len() == 0);
        assert(out@ + Seq::<u8>::empty() =~= out@);
    }
    Some(out)
}

/// Whether a setting carries either a value or a list of sub-settings,
/// never both, and so do all its sub-settings.
pub open spec fn well_shaped(t: TlvSpec) -> bool
    decreases t, 0nat,
{
    match t.children {
        Some(ch) => {
            proof {
                assert(decreases_to!(t => t.children));
                assert(decreases_to!(t.children => t.children->0));
            }
            t.value.len() == 0 && first_shaped(ch, ch.len())
        },
        None => true,
    }
}

/// Whether the first `n` settings of `ts` are well shaped.
pub open spec fn first_shaped(ts: Seq<TlvSpec>, n: nat) -> bool
    decreases ts, n,
{
    if n == 0 {
        true
    } else if n > ts.len() {
        false
    } else {
        proof {
            vstd::seq::axiom_seq_index_decreases(ts, n - 1);
        }
        first_shaped(ts, (n - 1) as nat) && well_shaped(ts[n - 1])
    }
}

/// Whether every setting of `ts` is well shaped.
pub open spec fn all_shaped(ts: Seq<TlvSpec>) -> bool {
    forall|k: int| 0 <= k < ts.len() ==> #[trigger] well_shaped(ts[k])
}

proof fn lemma_first_shaped(ts: Seq<TlvSpec>, n: nat)
    requires
        n <= ts.len(),
    ensures
        first_shaped(ts, n) <==> forall|k: int| 0 <= k < n ==> #[trigger] well_shaped(ts[k]),
    decreases n,
{
    if n > 0 {
        lemma_first_shaped(ts, (n - 1) as nat);
        vstd::seq::axiom_seq_index_decreases(ts, n - 1);
        assert(first_shaped(ts, n) == (first_shaped(ts, (n - 1) as nat) && well_shaped(ts[n - 1])));
    }
}

proof fn lemma_chunks_shaped(code: u8, data: Seq<u8>)
    ensures
        all_shaped(chunks(code, data)),
    decreases data.len(),
{
    if data.len() > 254 {
        lemma_chunks_shaped(code, data.skip(254));
        let c = chunks(code, data);
        let r = chunks(code, data.skip(254));
        assert forall|k: int| 0 <= k < c.len() implies #[trigger] well_shaped(c[k]) by {
            if k > 0 {
                assert(c[k] == r[k - 1]);
            }
        }
    }
}

proof fn lemma_leaves_shaped(ts: Seq<TlvSpec>)
    requires
        forall|k: int| 0 <= k < ts.len() ==> (#[trigger] ts[k]).children is None,
    ensures
        all_shaped(ts),
{
    assert forall|k: int| 0 <= k < ts.len() implies #[trigger] well_shaped(ts[k]) by {
        assert(ts[k].children is None);
    }
}

proof fn lemma_block_shaped(code: u8, kids: Seq<TlvSpec>)
    requires
        all_shaped(kids),
    ensures
        all_shaped(seq![block_spec(code, kids)]),
{
    let b = block_spec(code, kids);
    assert(seq![b][0] == b);
    lemma_first_shaped(kids, kids.len());
    assert(well_shaped(b));
}

proof fn lemma_generic_leaf_shaped(
    table: Seq<Symbol>,
    mib: Mib,
    toks: Seq<Token>,
    pos: int,
    code: u8,
)
    ensures
        p_generic_leaf(table, mib, toks, pos, code) matches Ok((ts, _)) ==> ts.len() == 1
            && ts[0].children is None,
{
}

proof fn lemma_generic_shaped(
    table: Seq<Symbol>,
    mib: Mib,
    files: Seq<(Vec<u8>, Option<Vec<u8>>)>,
    toks: Seq<Token>,
    pos: int,
)
    ensures
        p_generic(table, mib, files, toks, pos) matches Ok((ts, _)) ==> all_shaped(ts),
    decreases toks.len() - pos, 0int,
{
    if tok_at(toks, pos + 1) matches Some(Tok::TlvCode) {
        match integer_at(toks, pos + 2) {
            Ok(c) => if tok_at(toks, pos + 3) matches Some(Tok::LBrace) {
                lemma_list_shaped(table, mib, files, toks, pos + 4);
                match p_list(table, mib, files, toks, pos + 4) {
                    Ok((kids, p)) => lemma_block_shaped(c as u8, kids),
                    Err(_) => {},
                }
            } else {
                lemma_generic_leaf_shaped(table, mib, toks, pos, c as u8);
                match p_generic_leaf(table, mib, toks, pos, c as u8) {
                    Ok((ts, _)) => lemma_leaves_shaped(ts),
                    Err(_) => {},
                }
            },
            Err(_) => {},
        }
    }
}

proof fn lemma_stmt_shaped(
    table: Seq<Symbol>,
    mib: Mib,
    files: Seq<(Vec<u8>, Option<Vec<u8>>)>,
    toks: Seq<Token>,
    pos: int,
)
    ensures
        p_stmt(table, mib, files, toks, pos) matches Ok((ts, _)) ==> all_shaped(ts),
    decreases toks.len() - pos, 1int,
{
    if 0 <= pos < toks.len() {
        let r = p_stmt(table, mib, files, toks, pos);
        match toks[pos].tok {
            Tok::IdentGeneric(_) => lemma_generic_shaped(table, mib, files, toks, pos),
            Tok::Identifier(i) => {
                if i < table.len() {
                    if tok_at(toks, pos + 1) matches Some(Tok::LBrace) {
                        lemma_list_shaped(table, mib, files, toks, pos + 2);
                        match p_list(table, mib, files, toks, pos + 2) {
                            Ok((kids, p)) => lemma_block_shaped(table[i as int].code, kids),
                            Err(_) => {},
                        }
                    } else {
                        match r {
                            Ok((ts, _)) => lemma_leaves_shaped(ts),
                            Err(_) => {},
                        }
                    }
                }
            },
            Tok::IdentCvc(i) => {
                if i < table.len() {
                    match string_at(toks, pos + 1) {
                        Ok(path) => match file_data(files, path) {
                            Some(d) => lemma_chunks_shaped(table[i as int].code, d),
                            None => {},
                        },
                        Err(_) => {},
                    }
                }
            },
            _ => {
                match r {
                    Ok((ts, _)) => lemma_leaves_shaped(ts),
                    Err(_) => {},
                }
            },
        }
    }
}

proof fn lemma_list_shaped(
    table: Seq<Symbol>,
    mib: Mib,
    files: Seq<(Vec<u8>, Option<Vec<u8>>)>,
    toks: Seq<Token>,
    pos: int,
)
    ensures
        p_list(table, mib, files, toks, pos) matches Ok((ts, _)) ==> all_shaped(ts),
    decreases toks.len() - pos, 2int,
{
    if 0 <= pos < toks.len() && !(toks[pos].tok is RBrace) {
        lemma_stmt_shaped(table, mib, files, toks, pos);
        match p_stmt(table, mib, files, toks, pos) {
            Ok((items, p)) => if pos < p <= toks.len() {
                lemma_list_shaped(table, mib, files, toks, p);
                match p_list(table, mib, files, toks, p) {
                    Ok((rest, q)) => {
                        let all = items + rest;
                        assert forall|k: int| 0 <= k < all.len() implies #[trigger] well_shaped(
                            all[k],
                        ) by {
                            if k < items.len() {
                                assert(all[k] == items[k]);
                            } else {
                                assert(all[k] == rest[k - items.len()]);
                            }
                        }
                    },
                    Err(_) => {},
                }
            },
            Err(_) => {},
        }
    }
}

/// Every setting of a parsed file carries either a value or a list of
/// sub-settings, never both, and so does every sub-setting.
pub proof fn law_settings_shaped(
    table: Seq<Symbol>,
    mib: Mib,
    files: Seq<(Vec<u8>, Option<Vec<u8>>)>,
    toks: Seq<Token>,
    pos: int,
)
    ensures
        p_file(table, mib, files, toks, pos) matches Ok(ts) ==> all_shaped(ts),
{
    let p1 = step(toks, pos);
    if tok_at(toks, pos) matches Some(Tok::Main) {
        match expect_at(toks, p1, 1, "expected '{'") {
            Ok(p2) => lemma_list_shaped(table, mib, files, toks, p2),
            Err(_) => {},
        }
    }
}


/// An `SnmpWriteControl` statement gives one setting of its own code whose
/// value is the OBJECT IDENTIFIER encoding of its name followed by exactly
/// one octet more: the low octet of the control integer.
pub proof fn law_write_control_value(mib: Mib, toks: Seq<Token>, pos: int, idx: usize, code: u8)
    ensures
        p_write_control(mib, toks, pos, idx, code) matches Ok(r) ==> ({
            let ts = r.0;
            &&& ts.len() == 1
            &&& ts[0].code == code
            &&& ts[0].children is None
            &&& label_oid_at(toks, pos + 1) is Ok
            &&& integer_at(toks, pos + 2) is Ok
            &&& snmp_oid_encoding(mib, utf8_or_empty(label_oid_at(toks, pos + 1)->Ok_0)) is Some
            &&& ts[0].value.len() == snmp_oid_encoding(
                mib,
                utf8_or_empty(label_oid_at(toks, pos + 1)->Ok_0),
            )->Some_0.len() + 1
            &&& ts[0].value.take(ts[0].value.len() - 1) == snmp_oid_encoding(
                mib,
                utf8_or_empty(label_oid_at(toks, pos + 1)->Ok_0),
            )->Some_0
            &&& ts[0].value.last() == (integer_at(toks, pos + 2)->Ok_0 as u8)
        }),
{
    if let Ok(r) = p_write_control(mib, toks, pos, idx, code) {
        let oid = label_oid_at(toks, pos + 1)->Ok_0;
        let b = snmp_oid_encoding(mib, utf8_or_empty(oid))->Some_0;
        let c = integer_at(toks, pos + 2)->Ok_0;
        assert(b.push(c as u8).take(b.len() as int) =~= b);
    }
}

} // verus!
