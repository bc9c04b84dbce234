//! Rendering a binary DOCSIS configuration file back into text.
//!
//! The output format is the one the encoder accepts: each value is written
//! in a form its encoder reads back (the round-trip laws of the value forms
//! state this per form).  That a whole decoded file re-encodes to the same
//! bytes is not stated here.  Indentation and comment placement are part of
//! the format.
use vstd::prelude::*;
use vstd::string::StringSliceAdditionalSpecFns;
use crate::ethermac::{mac_text, mac_text_bytes};
use crate::inet::{ipv4_text, ipv6_spec, ipv6_text, push_ipv4_text};
use crate::mib::parse::opt_bytes;
use crate::mib::render::numeric_text;
use crate::mib::Mib;
use crate::snmp::{
    decode_snmp_oid, decode_snmp_oid_notes, decode_vbind, decode_vbind_notes, notes_view, oid_notes,
    note_view as note_view_of,
    vbind_notes, DecodeNote, NoteSpec, hex_pairs, hex_text, is_printable, oid_in, printable, push_hex_pairs,
    vbind_text,
};
use crate::symbol::{coded_row, find_by_code_and_pid, Dec, Symbol};
use crate::text::{dec_digits, push_all, push_dec, starts_with, string_octets};
use vstd::utf8::encode_utf8;

verus! {

/// Why a file could not be decoded.
#[derive(Clone, Copy, PartialEq, Eq, Debug, Structural)]
pub enum DecodeError {
    /// A value of the wrong length for its type.
    LengthMismatch(Mismatch),
    /// A value too short to hold what its type needs.
    Truncated,
}

/// Which kind of value had the wrong length.
#[derive(Clone, Copy, PartialEq, Eq, Debug, Structural)]
pub enum Mismatch {
    Uint,
    Ushort,
    Ip,
    Ether,
    DualQtag,
    Ethermask,
    Md5,
}

impl DecodeError {
    /// What the program prints before exiting.
    pub fn message(&self) -> (r: &'static str)
        ensures
            r == match self {
                DecodeError::LengthMismatch(Mismatch::Uint) => "u_int length mismatch",
                DecodeError::LengthMismatch(Mismatch::Ushort) => "u_short length mismatch",
                DecodeError::LengthMismatch(Mismatch::Ip) => "ip address length mismatch",
                DecodeError::LengthMismatch(Mismatch::Ether) => "ethermac length mismatch",
                DecodeError::LengthMismatch(Mismatch::DualQtag) => "dual qtag length mismatch",
                DecodeError::LengthMismatch(Mismatch::Ethermask) => "ethermac_and_mask length mismatch",
                DecodeError::LengthMismatch(Mismatch::Md5) => "md5digest length mismatch",
                DecodeError::Truncated => "value too short for its type",
            },
    {
        match self {
            DecodeError::LengthMismatch(Mismatch::Uint) => "u_int length mismatch",
            DecodeError::LengthMismatch(Mismatch::Ushort) => "u_short length mismatch",
            DecodeError::LengthMismatch(Mismatch::Ip) => "ip address length mismatch",
            DecodeError::LengthMismatch(Mismatch::Ether) => "ethermac length mismatch",
            DecodeError::LengthMismatch(Mismatch::DualQtag) => "dual qtag length mismatch",
            DecodeError::LengthMismatch(Mismatch::Ethermask) => "ethermac_and_mask length mismatch",
            DecodeError::LengthMismatch(Mismatch::Md5) => "md5digest length mismatch",
            DecodeError::Truncated => "value too short for its type",
        }
    }
}

/// The line `<ident> <text>;` and a newline.
pub open spec fn setting_line(ident: Seq<u8>, text: Seq<u8>) -> Seq<u8> {
    ident + seq![32u8] + text + seq![59u8, 10u8]
}

/// Two octets read big-endian.
pub open spec fn be16_at(v: Seq<u8>, i: int) -> nat {
    (v[i] * 256 + v[i + 1]) as nat
}

/// Four octets read big-endian.
pub open spec fn be32_at(v: Seq<u8>, i: int) -> nat {
    (v[i] * 0x100_0000 + v[i + 1] * 0x1_0000 + v[i + 2] * 256 + v[i + 3]) as nat
}

/// The part of `v` before its first NUL, as a C string reads it.
pub open spec fn c_string(v: Seq<u8>) -> Seq<u8>
    decreases v.len(),
{
    if v.len() == 0 || v[0] == 0 {
        Seq::empty()
    } else {
        seq![v[0]] + c_string(v.drop_first())
    }
}

/// Read a byte, treating anything past the end as zero, for a padded file
/// that leaves the final length byte off the end.
fn byte_at(buf: &[u8], i: usize) -> (r: u8)
    ensures
        i < buf@.len() ==> r == buf@[i as int],
        i >= buf@.len() ==> r == 0,
{
    if i < buf.len() {
        buf[i]
    } else {
        0
    }
}

/// The PC 2.0 dial plan OID as it appears in a varbind.
pub open spec fn dialplan_oid() -> Seq<u8> {
    seq![
        0x06u8, 0x12, 0x2b, 0x06, 0x01, 0x04, 0x01, 0xa3, 0x0b, 0x02, 0x02, 0x08, 0x02, 0x01,
        0x01, 0x03, 0x01, 0x01, 0x02,
    ]
}

fn dialplan_oid_at(v: &[u8], at: usize) -> (r: bool)
    ensures
        r == (at + 19 <= v@.len() && v@.subrange(at as int, at + 19) == dialplan_oid()),
{
    if v.len() < 19 || at > v.len() - 19 {
        return false;
    }
    let oid = [
        0x06u8, 0x12, 0x2b, 0x06, 0x01, 0x04, 0x01, 0xa3, 0x0b, 0x02, 0x02, 0x08, 0x02, 0x01,
        0x01, 0x03, 0x01, 0x01, 0x02,
    ];
    assert(oid@ =~= dialplan_oid());
    let r = crate::text::bytes_eq(crate::asn1::slice_range(v, at, at + 19), &oid);
    r
}

/// The part of a decoder that decoding does not change: the MIB, the
/// settings table, and the two output options.
pub struct DecEnv {
    pub mib: Mib,
    pub table: Seq<Symbol>,
    pub nohash: bool,
    pub numeric: bool,
}

/// What decoding has produced so far: the text, the indentation depth,
/// whether a vendor-specific block has stopped interpretation, the last
/// dial plan met, and the notes to report beside the text.
pub struct DecState {
    pub out: Seq<u8>,
    pub tabs: usize,
    pub vspecific: bool,
    pub dialplan: Option<Seq<u8>>,
    pub notes: Seq<NoteSpec>,
}

/// `st` with the notes `ns` added.
pub open spec fn noted(st: DecState, ns: Seq<NoteSpec>) -> DecState {
    DecState { notes: st.notes + ns, ..st }
}

/// `st` with `text` written.
pub open spec fn appended(st: DecState, text: Seq<u8>) -> DecState {
    DecState { out: st.out + text, ..st }
}

/// `st` with `text` written, and no error.
pub open spec fn wrote(st: DecState, text: Seq<u8>) -> (DecState, Result<(), DecodeError>) {
    (appended(st, text), Ok(()))
}

/// `st` unchanged, with the error `e`.
pub open spec fn failed(st: DecState, e: DecodeError) -> (DecState, Result<(), DecodeError>) {
    (st, Err(e))
}

/// `n` tab characters.
pub open spec fn tabs_text(n: usize) -> Seq<u8> {
    Seq::new(n as nat, |i: int| 9u8)
}

/// The octet at `i`, or zero past the end.
pub open spec fn byte_or_zero(v: Seq<u8>, i: int) -> u8 {
    if 0 <= i < v.len() {
        v[i]
    } else {
        0
    }
}

/// The line of setting `sym` with value text `text`.
pub open spec fn line(sym: Symbol, text: Seq<u8>) -> Seq<u8> {
    setting_line(sym.ident.spec_bytes(), text)
}

/// A comma before every item but the first.
pub open spec fn sep(i: int) -> Seq<u8> {
    if i > 0 {
        seq![44u8]
    } else {
        Seq::empty()
    }
}

/// The dotted quads of the whole groups of four octets from `i` on.
pub open spec fn ip_items(v: Seq<u8>, i: int) -> Seq<u8>
    decreases v.len() - i,
{
    if 0 <= i && v.len() - i >= 4 {
        sep(i) + ipv4_text(v[i], v[i + 1], v[i + 2], v[i + 3]) + ip_items(v, i + 4)
    } else {
        Seq::empty()
    }
}

/// The IPv6 addresses of the whole groups of 16 octets (17 when each is
/// `prefixed` by a length octet, written after a `/`) from `i` on.
pub open spec fn ip6_items(v: Seq<u8>, i: int, prefixed: bool) -> Seq<u8>
    decreases v.len() - i,
{
    let step = if prefixed {
        17int
    } else {
        16int
    };
    if 0 <= i && v.len() - i >= step {
        sep(i) + ipv6_spec(v.subrange(i, i + 16)) + (if prefixed {
            seq![47u8] + dec_digits(v[i + 16] as nat)
        } else {
            Seq::empty()
        }) + ip6_items(v, i + step, prefixed)
    } else {
        Seq::empty()
    }
}

/// The octets from `i` on in decimal.
pub open spec fn char_items(v: Seq<u8>, i: int) -> Seq<u8>
    decreases v.len() - i,
{
    if 0 <= i < v.len() {
        sep(i) + dec_digits(v[i] as nat) + char_items(v, i + 1)
    } else {
        Seq::empty()
    }
}

/// The whole big-endian pairs of octets from `i` on in decimal.
pub open spec fn ushort_items(v: Seq<u8>, i: int) -> Seq<u8>
    decreases v.len() - i,
{
    if 0 <= i && v.len() - i >= 2 {
        sep(i) + dec_digits(be16_at(v, i)) + ushort_items(v, i + 2)
    } else {
        Seq::empty()
    }
}

/// `/* -- warning: illegal length of buffer --*/`
pub open spec fn length_warning() -> Seq<u8> {
    seq![
        47u8, 42, 32, 45, 45, 32, 119, 97, 114, 110, 105, 110, 103, 58, 32, 105, 108, 108, 101,
        103, 97, 108, 32, 108, 101, 110, 103, 116, 104, 32, 111, 102, 32, 98, 117, 102, 102, 101,
        114, 32, 45, 45, 42, 47,
    ]
}

/// The warning a list of 16-bit values gets when its length is outside the
/// setting's bounds.
pub open spec fn ushort_warning(sym: Symbol, v: Seq<u8>) -> Seq<u8> {
    let len = v.len() % 0x1_0000_0000;
    if len < 2 * sym.low || len > 2 * sym.high {
        length_warning()
    } else {
        Seq::empty()
    }
}

/// The numeric text of the OID that `v` encodes, or nothing.
pub open spec fn oid_text(v: Seq<u8>) -> Seq<u8> {
    match oid_in(v) {
        Some(oid) => numeric_text(oid),
        None => Seq::empty(),
    }
}

/// `GenericTLV TlvCode `
#[verifier::opaque]
pub open spec fn generic_code() -> Seq<u8> {
    seq![71u8, 101, 110, 101, 114, 105, 99, 84, 76, 86, 32, 84, 108, 118, 67, 111, 100, 101, 32]
}

/// ` TlvString "`
#[verifier::opaque]
pub open spec fn tlv_string() -> Seq<u8> {
    seq![32u8, 84, 108, 118, 83, 116, 114, 105, 110, 103, 32, 34]
}

/// ` TlvStringZero "`
#[verifier::opaque]
pub open spec fn tlv_string_zero() -> Seq<u8> {
    seq![32u8, 84, 108, 118, 83, 116, 114, 105, 110, 103, 90, 101, 114, 111, 32, 34]
}

/// `"; /* tlv length = `
#[verifier::opaque]
pub open spec fn tlv_length_note() -> Seq<u8> {
    seq![34u8, 59, 32, 47, 42, 32, 116, 108, 118, 32, 108, 101, 110, 103, 116, 104, 32, 61, 32]
}

/// ` TlvLength `
#[verifier::opaque]
pub open spec fn tlv_length() -> Seq<u8> {
    seq![32u8, 84, 108, 118, 76, 101, 110, 103, 116, 104, 32]
}

/// ` TlvValue 0x`
#[verifier::opaque]
pub open spec fn tlv_value() -> Seq<u8> {
    seq![32u8, 84, 108, 118, 86, 97, 108, 117, 101, 32, 48, 120]
}

/// The length an unknown TLV is shown with: at most 256.
pub open spec fn shown_len(length: nat) -> nat {
    if length > 256 {
        256
    } else {
        length
    }
}

/// The value octets shown for an unknown TLV: up to `len` after the type and
/// length octets.
pub open spec fn unknown_body(tlv: Seq<u8>, len: nat) -> Seq<u8> {
    if tlv.len() > 2 {
        tlv.subrange(2, if tlv.len() - 2 > len { 2 + len as int } else { tlv.len() as int })
    } else {
        Seq::empty()
    }
}

/// How an unknown TLV's value is shown: as a string when it is printable,
/// as a NUL-terminated string when all but its last octet are, and in hex
/// otherwise.
pub open spec fn unknown_value(body: Seq<u8>, len: nat) -> Seq<u8> {
    if printable(body) && len > 1 {
        tlv_string() + body + tlv_length_note() + dec_digits(len) + seq![32u8, 42, 47]
    } else if len > 1 && body.len() > 0 && body.last() == 0 && printable(body.drop_last()) {
        tlv_string_zero() + body.drop_last() + tlv_length_note() + dec_digits(len) + seq![
            32u8,
            42,
            47,
        ]
    } else {
        tlv_length() + dec_digits(len) + tlv_value() + hex_pairs(body) + seq![59u8]
    }
}

/// The `GenericTLV` line of a TLV that has no setting.
pub open spec fn unknown_text(tlv: Seq<u8>, length: nat) -> Seq<u8> {
    let len = shown_len(length);
    let code: u8 = if tlv.len() > 0 {
        tlv[0]
    } else {
        0
    };
    generic_code() + dec_digits(code as nat) + unknown_value(unknown_body(tlv, len), len) + seq![
        10u8,
    ]
}

/// Append how an unknown TLV's value is shown.
fn push_unknown_value(out: &mut Vec<u8>, body: &[u8], len: usize)
    ensures
        final(out)@ == old(out)@ + unknown_value(body@, len as nat),
{
    let note = [34u8, 59, 32, 47, 42, 32, 116, 108, 118, 32, 108, 101, 110, 103, 116, 104, 32, 61, 32];
    proof {
        reveal(tlv_length_note);
    }
    assert(note@ =~= tlv_length_note());
    if is_printable(body) && len > 1 {
        // " TlvString \""
        let head = [32u8, 84, 108, 118, 83, 116, 114, 105, 110, 103, 32, 34];
        proof {
            reveal(tlv_string);
        }
        assert(head@ =~= tlv_string());
        push_all(out, &head);
        push_all(out, body);
        // "\"; /* tlv length = "
        push_all(out, &note);
        push_dec(out, len as u64);
        push_all(out, &[32u8, 42, 47]);
        assert(out@ =~= old(out)@ + (tlv_string() + body@ + tlv_length_note() + dec_digits(
            len as nat,
        ) + seq![32u8, 42, 47]));
    } else if len > 1 && body.len() > 0 && body[body.len() - 1] == 0 && is_printable(
        crate::asn1::slice_range(body, 0, body.len() - 1),
    ) {
        let front = crate::asn1::slice_range(body, 0, body.len() - 1);
        assert(front@ =~= body@.drop_last());
        // " TlvStringZero \""
        let head = [32u8, 84, 108, 118, 83, 116, 114, 105, 110, 103, 90, 101, 114, 111, 32, 34];
        proof {
            reveal(tlv_string_zero);
        }
        assert(head@ =~= tlv_string_zero());
        push_all(out, &head);
        push_all(out, front);
        push_all(out, &note);
        push_dec(out, len as u64);
        push_all(out, &[32u8, 42, 47]);
        assert(out@ =~= old(out)@ + (tlv_string_zero() + body@.drop_last() + tlv_length_note()
            + dec_digits(len as nat) + seq![32u8, 42, 47]));
    } else {
        // " TlvLength "
        let head = [32u8, 84, 108, 118, 76, 101, 110, 103, 116, 104, 32];
        let mid = [32u8, 84, 108, 118, 86, 97, 108, 117, 101, 32, 48, 120];
        proof {
            reveal(tlv_length);
            reveal(tlv_value);
        }
        assert(head@ =~= tlv_length());
        assert(mid@ =~= tlv_value());
        push_all(out, &head);
        push_dec(out, len as u64);
        // " TlvValue 0x"
        push_all(out, &mid);
        push_hex_pairs(out, body);
        out.push(59);
        assert(out@ =~= old(out)@ + (tlv_length() + dec_digits(len as nat) + tlv_value()
            + hex_pairs(body@) + seq![59u8]));
    }
}

/// `VendorIdentifier`
pub open spec fn vendor_ident() -> Seq<u8> {
    seq![86u8, 101, 110, 100, 111, 114, 73, 100, 101, 110, 116, 105, 102, 105, 101, 114]
}

/// Whether `v` begins with `p`.
pub open spec fn begins(v: Seq<u8>, p: Seq<u8>) -> bool {
    p.len() <= v.len() && v.take(p.len() as int) == p
}

/// Whether a hex value of `sym` names a vendor other than the generic one,
/// after which its siblings are no longer interpreted.
pub open spec fn names_vendor(sym: Symbol, v: Seq<u8>) -> bool {
    begins(sym.ident.spec_bytes(), vendor_ident()) && v.len() >= 3 && !(v[0] == 0xFF && v[1]
        == 0xFF && v[2] == 0xFF)
}

/// `DigitMap "dialplan_output.txt"; /* file created. */` and a newline.
pub open spec fn dialplan_line() -> Seq<u8> {
    seq![
        68u8, 105, 103, 105, 116, 77, 97, 112, 32, 34, 100, 105, 97, 108, 112, 108, 97, 110, 95,
        111, 117, 116, 112, 117, 116, 46, 116, 120, 116, 34, 59, 32, 47, 42, 32, 102, 105, 108,
        101, 32, 99, 114, 101, 97, 116, 101, 100, 46, 32, 42, 47, 10,
    ]
}

/// Where the dial plan text starts in an SNMP object that holds one.
pub open spec fn dialplan_from(v: Seq<u8>, short_form: bool) -> int {
    if short_form {
        24
    } else if v[24] == 0x04 && v[25] == 0x82 {
        if v.len() < 28 {
            v.len() as int
        } else {
            28
        }
    } else {
        26
    }
}

/// Whether an SNMP object holds the PacketCable hash, shown as a comment
/// when hashes are suppressed.
pub open spec fn hash_object(v: Seq<u8>) -> bool {
    begins(v, seq![0x30u8, 0x26, 0x06, 0x0e]) || begins(v, seq![0x30u8, 0x24, 0x06, 0x0c])
}

/// What decoding an SNMP object does: a suppressed hash becomes a comment, a
/// dial plan is kept aside and referenced, anything else is shown as a
/// binding.
pub open spec fn snmp_object_effect(env: DecEnv, st: DecState, sym: Symbol, v: Seq<u8>) -> (
    DecState,
    Result<(), DecodeError>,
) {
    let short_form = v.len() >= 24 && v.subrange(2, 21) == dialplan_oid();
    let long_form = v.len() >= 26 && v.subrange(4, 23) == dialplan_oid();
    if env.nohash && hash_object(v) {
        wrote(
            noted(st, vbind_notes(env.mib, v, env.numeric)),
            seq![47u8, 42, 32] + sym.ident.spec_bytes() + seq![32u8] + vbind_text(
                env.mib,
                v,
                env.numeric,
            ) + seq![32u8, 42, 47, 10],
        )
    } else if short_form || long_form {
        (
            DecState {
                out: st.out + dialplan_line(),
                dialplan: Some(v.subrange(dialplan_from(v, short_form), v.len() as int)),
                ..st
            },
            Ok(()),
        )
    } else {
        wrote(
            noted(st, vbind_notes(env.mib, v, env.numeric)),
            sym.ident.spec_bytes() + seq![32u8] + vbind_text(env.mib, v, env.numeric) + seq![10u8],
        )
    }
}

/// What decoding the value `v` of a setting `sym` that holds no other
/// settings does.
pub open spec fn leaf_effect(env: DecEnv, st: DecState, sym: Symbol, v: Seq<u8>) -> (
    DecState,
    Result<(), DecodeError>,
) {
    match sym.dec {
        Dec::Aggregate => (st, Ok(())),
        Dec::Special => wrote(st, sym.ident.spec_bytes() + seq![10u8]),
        Dec::Uint => if v.len() != 4 {
            failed(st, DecodeError::LengthMismatch(Mismatch::Uint))
        } else {
            wrote(st, line(sym, dec_digits(be32_at(v, 0))))
        },
        Dec::Uint24 => if v.len() < 3 {
            failed(st, DecodeError::Truncated)
        } else {
            wrote(st, line(sym, dec_digits((v[0] * 0x1_0000 + v[1] * 256 + v[2]) as nat)))
        },
        Dec::Ushort => if v.len() != 2 {
            failed(st, DecodeError::LengthMismatch(Mismatch::Ushort))
        } else {
            wrote(st, line(sym, dec_digits(be16_at(v, 0))))
        },
        Dec::Uchar => wrote(
            st,
            line(
                sym,
                dec_digits(
                    if v.len() > 0 {
                        v[0] as nat
                    } else {
                        0
                    },
                ),
            ),
        ),
        Dec::Ip => if v.len() != 4 {
            failed(st, DecodeError::LengthMismatch(Mismatch::Ip))
        } else {
            wrote(st, line(sym, ipv4_text(v[0], v[1], v[2], v[3])))
        },
        Dec::IpList => wrote(st, line(sym, ip_items(v, 0))),
        Dec::Ip6 => if v.len() != 16 {
            failed(st, DecodeError::LengthMismatch(Mismatch::Ip))
        } else {
            wrote(st, line(sym, ipv6_spec(v)))
        },
        Dec::Ip6List => wrote(st, line(sym, ip6_items(v, 0, false))),
        Dec::Ip6PrefixList => wrote(st, line(sym, ip6_items(v, 0, true))),
        Dec::IpIp6 => if v.len() == 4 {
            wrote(st, line(sym, ipv4_text(v[0], v[1], v[2], v[3])))
        } else if v.len() == 16 {
            wrote(st, line(sym, ipv6_spec(v)))
        } else {
            (st, Ok(()))
        },
        Dec::CharIpIp6 => if v.len() == 5 {
            wrote(st, line(sym, ipv4_text(v[1], v[2], v[3], v[4])))
        } else if v.len() == 17 {
            wrote(st, line(sym, ipv6_spec(v.subrange(1, 17))))
        } else {
            (st, Ok(()))
        },
        Dec::IpIp6Port => if v.len() == 6 {
            wrote(
                st,
                line(sym, ipv4_text(v[0], v[1], v[2], v[3]) + seq![47u8] + dec_digits(be16_at(v, 4))),
            )
        } else if v.len() == 18 {
            wrote(
                st,
                line(sym, ipv6_spec(v.subrange(0, 16)) + seq![47u8] + dec_digits(be16_at(v, 16))),
            )
        } else {
            (st, Ok(()))
        },
        Dec::Lenzero => wrote(st, sym.ident.spec_bytes() + seq![32u8, 48, 120, 48, 48, 59, 10]),
        Dec::Ether => if v.len() != 6 {
            failed(st, DecodeError::LengthMismatch(Mismatch::Ether))
        } else {
            wrote(st, line(sym, mac_text(v)))
        },
        Dec::DualQtag => if v.len() != 4 {
            failed(st, DecodeError::LengthMismatch(Mismatch::DualQtag))
        } else {
            wrote(st, line(sym, dec_digits(be16_at(v, 0)) + seq![44u8] + dec_digits(be16_at(v, 2))))
        },
        Dec::CharList => wrote(st, line(sym, char_items(v, 0))),
        Dec::Ethermask => if v.len() != 12 {
            failed(st, DecodeError::LengthMismatch(Mismatch::Ethermask))
        } else {
            wrote(st, line(sym, mac_text(v.take(6)) + seq![47u8] + mac_text(v.skip(6))))
        },
        Dec::Md5 => if v.len() != 16 {
            failed(st, DecodeError::LengthMismatch(Mismatch::Md5))
        } else {
            wrote(
                st,
                seq![47u8, 42, 32] + line(sym, hex_pairs(v)).drop_last() + seq![32u8, 42, 47, 10],
            )
        },
        Dec::Oid => wrote(noted(st, oid_notes(v)), line(sym, oid_text(v))),
        Dec::SnmpObject => snmp_object_effect(env, st, sym, v),
        Dec::SnmpWd => if v.len() == 0 {
            (st, Ok(()))
        } else {
            wrote(
                noted(st, oid_notes(v.drop_last())),
                line(sym, oid_text(v.drop_last()) + seq![32u8] + dec_digits(v.last() as nat)),
            )
        },
        Dec::String | Dec::Strzero => wrote(st, line(sym, seq![34u8] + c_string(v) + seq![34u8])),
        Dec::Hexstr => (
            DecState {
                out: st.out + line(sym, hex_text(v)),
                vspecific: if names_vendor(sym, v) {
                    true
                } else {
                    st.vspecific
                },
                ..st
            },
            Ok(()),
        ),
        Dec::UshortList => wrote(st, line(sym, ushort_warning(sym, v) + ushort_items(v, 0))),
    }
}

/// What decoding the value `v` of setting `sym` does.
pub open spec fn dispatch_effect(env: DecEnv, st: DecState, sym: Symbol, v: Seq<u8>) -> (
    DecState,
    Result<(), DecodeError>,
)
    decreases v.len(), 2int, 0int,
{
    if sym.dec == Dec::Aggregate {
        aggregate_effect(env, st, sym, v)
    } else {
        leaf_effect(env, st, sym, v)
    }
}

/// What decoding the aggregate setting `sym` with value `buf` does: its
/// name, its sub-settings one level deeper between braces.
pub open spec fn aggregate_effect(env: DecEnv, st: DecState, sym: Symbol, buf: Seq<u8>) -> (
    DecState,
    Result<(), DecodeError>,
)
    decreases buf.len(), 1int, 0int,
{
    let opened = DecState {
        out: st.out + sym.ident.spec_bytes() + seq![10u8] + tabs_text(st.tabs) + seq![123u8, 10],
        tabs: if st.tabs < usize::MAX {
            (st.tabs + 1) as usize
        } else {
            st.tabs
        },
        ..st
    };
    let (inner, r) = aggregate_items(env, opened, sym, buf, 0);
    match r {
        Err(e) => (DecState { tabs: st.tabs, ..inner }, Err(e)),
        Ok(()) => (
            DecState {
                out: inner.out + tabs_text(st.tabs) + seq![125u8, 10],
                tabs: st.tabs,
                vspecific: false,
                ..inner
            },
            Ok(()),
        ),
    }
}

/// What decoding the sub-settings of `sym` from `pos` on does.  Past a
/// vendor-specific identifier, sub-settings are shown as unknown TLVs.
pub open spec fn aggregate_items(
    env: DecEnv,
    st: DecState,
    sym: Symbol,
    buf: Seq<u8>,
    pos: int,
) -> (DecState, Result<(), DecodeError>)
    decreases buf.len(), 0int, buf.len() - pos,
{
    let n = buf.len() as int;
    if pos < 0 || pos >= n {
        (st, Ok(()))
    } else {
        let s1 = appended(st, tabs_text(st.tabs));
        let vlen = byte_or_zero(buf, pos + 1) as int;
        let child = if st.vspecific {
            None
        } else {
            coded_row(env.table, buf[pos], sym.id)
        };
        let vstart = if n - pos > 2 {
            pos + 2
        } else {
            n
        };
        let vend = if n - vstart > vlen {
            vstart + vlen
        } else {
            n
        };
        match child {
            Some(c) => {
                let (s2, r) = dispatch_effect(env, s1, c, buf.subrange(vstart, vend));
                if r is Err {
                    (s2, r)
                } else {
                    aggregate_items(env, s2, sym, buf, vend)
                }
            },
            None => aggregate_items(
                env,
                appended(s1, unknown_text(buf.subrange(pos, n), vlen as nat)),
                sym,
                buf,
                vend,
            ),
        }
    }
}

/// Where a top-level setting at `pos` stands: its row of the table, the
/// length its length octets give, where its value starts and ends, and
/// whether the file has shown itself to be an MTA file.  Once TLV 254 has
/// been seen, TLV 64 is the long form of an SNMP object, with a 16-bit
/// length.
pub struct MainHead {
    pub sym: Option<Symbol>,
    pub vlen: int,
    pub vstart: int,
    pub vend: int,
    pub mta: bool,
}

pub open spec fn main_head(table: Seq<Symbol>, buf: Seq<u8>, pos: int, mta: bool) -> MainHead {
    let n = buf.len() as int;
    let code = buf[pos];
    let is_mta = mta || code == 254;
    let long = is_mta && code == 64;
    let sym = if long {
        coded_row(table, 11, 0)
    } else {
        coded_row(table, code, 0)
    };
    let llen: int = if long {
        2
    } else {
        1
    };
    let hi = byte_or_zero(buf, pos + 1) as int;
    let vlen = if long {
        hi * 256 + (if n - pos > 2 {
            buf[pos + 2] as int
        } else {
            0
        })
    } else {
        hi
    };
    let vstart = if n - pos > 1 + llen {
        pos + 1 + llen
    } else {
        n
    };
    let vend = if n - vstart > vlen {
        vstart + vlen
    } else {
        n
    };
    MainHead { sym, vlen, vstart, vend, mta: is_mta }
}

/// What decoding the top-level settings of a file from `pos` on does.
pub open spec fn main_items(env: DecEnv, st: DecState, buf: Seq<u8>, pos: int, mta: bool) -> (
    DecState,
    Result<(), DecodeError>,
)
    decreases buf.len() - pos,
{
    let n = buf.len() as int;
    if pos < 0 || pos >= n {
        (st, Ok(()))
    } else {
        let s1 = appended(DecState { tabs: 1, ..st }, tabs_text(1));
        let h = main_head(env.table, buf, pos, mta);
        match h.sym {
            Some(s) => {
                let (s2, r) = dispatch_effect(env, s1, s, buf.subrange(h.vstart, h.vend));
                if r is Err {
                    (s2, r)
                } else {
                    main_items(env, s2, buf, h.vend, h.mta)
                }
            },
            None => main_items(
                env,
                appended(s1, unknown_text(buf.subrange(pos, n), h.vlen as nat)),
                buf,
                h.vend,
                h.mta,
            ),
        }
    }
}

/// What decoding a whole file does: `Main` and its settings between braces.
pub open spec fn main_effect(env: DecEnv, st: DecState, buf: Seq<u8>) -> (
    DecState,
    Result<(), DecodeError>,
) {
    let opened = DecState {
        out: st.out + seq![77u8, 97, 105, 110, 32, 10, 123, 10],
        tabs: 1,
        ..st
    };
    let (inner, r) = main_items(env, opened, buf, 0, false);
    match r {
        Err(e) => (inner, Err(e)),
        Ok(()) => (DecState { out: inner.out + seq![125u8, 10], tabs: 0, ..inner }, Ok(())),
    }
}

pub struct Decoder<'a> {
    pub mib: &'a Mib,
    /// The settings the file may hold.
    pub table: &'a [Symbol],
    /// Suppress the PacketCable hash by rendering it as a comment.
    pub nohash: bool,
    out: Vec<u8>,
    tabs: usize,
    /// Set once a VendorIdentifier shows a non-generic vendor, after which
    /// sibling settings inside that block are no longer interpreted.
    vspecific: bool,
    /// Print object identifiers as numbers instead of names.
    numeric_oids: bool,
    /// The text of the last PC 2.0 dial plan met, which goes to a file of
    /// its own.
    dialplan: Option<Vec<u8>>,
    /// What to report beside the text.
    notes: Vec<DecodeNote>,
}

impl<'a> Decoder<'a> {
    /// The text decoded so far.
    pub closed spec fn text(&self) -> Seq<u8> {
        self.out@
    }

    /// What decoding works with.
    pub closed spec fn env(&self) -> DecEnv {
        DecEnv { mib: *self.mib, table: self.table@, nohash: self.nohash, numeric: self.numeric_oids }
    }

    /// What decoding has produced so far.
    pub closed spec fn state(&self) -> DecState {
        DecState {
            out: self.out@,
            tabs: self.tabs,
            vspecific: self.vspecific,
            dialplan: opt_bytes(self.dialplan),
            notes: notes_view(self.notes@),
        }
    }

    /// Whether the decoder's MIB is well formed.
    pub closed spec fn ready(&self) -> bool {
        self.mib.wf()
    }

    pub fn new(mib: &'a Mib, table: &'a [Symbol], nohash: bool) -> (r: Decoder<'a>)
        requires
            mib.wf(),
        ensures
            r.ready(),
            r.env() == (DecEnv { mib: *mib, table: table@, nohash, numeric: false }),
            r.state() == (DecState {
                out: Seq::empty(),
                tabs: 0,
                vspecific: false,
                dialplan: None,
                notes: Seq::empty(),
            }),
            r.text() == r.state().out,
    {
        let r = Decoder {
            mib,
            table,
            nohash,
            out: Vec::new(),
            tabs: 0,
            vspecific: false,
            numeric_oids: false,
            dialplan: None,
            notes: Vec::new(),
        };
        assert(notes_view(r.notes@) =~= Seq::<NoteSpec>::empty());
        r
    }

    /// The notes decoding has to report beside its text, in the order met.
    pub fn notes(&self) -> (r: &Vec<DecodeNote>)
        ensures
            notes_view(r@) == self.state().notes,
    {
        &self.notes
    }

    /// Add the notes `ns`.
    fn add_notes(&mut self, ns: Vec<DecodeNote>)
        ensures
            final(self).env() == old(self).env(),
            final(self).state() == noted(old(self).state(), notes_view(ns@)),
    {
        let mut k: usize = 0;
        while k < ns.len()
            invariant
                k <= ns@.len(),
                self.env() == old(self).env(),
                self.state() == noted(old(self).state(), notes_view(ns@.take(k as int))),
            decreases ns@.len() - k,
        {
            let n = match &ns[k] {
                DecodeNote::UnknownOid(t) => DecodeNote::UnknownOid(crate::text::copy_bytes(t.as_slice())),
                DecodeNote::BadType(b) => DecodeNote::BadType(*b),
                DecodeNote::OidParseError => DecodeNote::OidParseError,
            };
            let ghost before = self.notes@;
            self.notes.push(n);
            proof {
                assert(notes_view(self.notes@) =~= notes_view(before).push(note_view_of(ns@[k as int])));
                assert(notes_view(ns@.take(k + 1)) =~= notes_view(ns@.take(k as int)).push(
                    note_view_of(ns@[k as int]),
                ));
            }
            k += 1;
        }
        assert(ns@.take(ns@.len() as int) =~= ns@);
    }

    /// Render object identifiers numerically, as the `-o` flag asks for.
    pub fn set_numeric_oids(&mut self, on: bool)
        ensures
            old(self).ready() ==> final(self).ready(),
            final(self).env() == (DecEnv { numeric: on, ..old(self).env() }),
            final(self).state() == old(self).state(),
            final(self).text() == old(self).text(),
    {
        self.numeric_oids = on;
    }

    /// The decoded text. Bytes rather than a `String` because TLV string
    /// values are printed verbatim and need not be valid UTF-8.
    pub fn into_output(self) -> (r: Vec<u8>)
        ensures
            r@ == self.text(),
            r@ == self.state().out,
    {
        self.out
    }

    /// The text of the last PC 2.0 dial plan decoded, for writing to
    /// `dialplan_output.txt`.
    pub fn dialplan(&self) -> (r: Option<&Vec<u8>>)
        ensures
            match r {
                Some(d) => self.state().dialplan == Some(d@),
                None => self.state().dialplan is None,
            },
    {
        match &self.dialplan {
            Some(d) => Some(d),
            None => None,
        }
    }

    fn indent(&mut self)
        ensures
            final(self).env() == old(self).env(),
            final(self).state() == appended(old(self).state(), tabs_text(old(self).tabs)),
    {
        let mut i: usize = 0;
        while i < self.tabs
            invariant
                i <= self.tabs,
                self.env() == old(self).env(),
                self.state() == appended(old(self).state(), Seq::new(i as nat, |k: int| 9u8)),
            decreases self.tabs - i,
        {
            self.out.push(9);
            i += 1;
            assert(self.out@ =~= old(self).out@ + Seq::new(i as nat, |k: int| 9u8));
        }
    }

    /// Where the top-level setting at `pos` stands.
    fn main_head_at(&self, buf: &[u8], pos: usize, mta: bool) -> (r: (Option<&'a Symbol>, usize, usize, usize, bool))
        requires
            pos < buf@.len(),
        ensures
            ({
                let h = main_head(self.table@, buf@, pos as int, mta);
                &&& match r.0 {
                    Some(s) => h.sym == Some(*s),
                    None => h.sym is None,
                }
                &&& r.1 == h.vlen
                &&& r.2 == h.vstart
                &&& r.3 == h.vend
                &&& r.4 == h.mta
            }),
            pos < r.3 <= buf@.len(),
            r.2 <= r.3,
    {
        let n = buf.len();
        let code = buf[pos];
        let mut sym = find_by_code_and_pid(self.table, code, 0);
        let mut llen: usize = 1;
        let mut vlen: usize = byte_at(buf, pos + 1) as usize;
        let mut is_mta = mta;
        if code == 254 {
            is_mta = true;
        }
        if is_mta && code == 64 {
            // TLV 64 is the long form of TLV 11 (SnmpMibObject).
            sym = find_by_code_and_pid(self.table, 11, 0);
            llen = 2;
            let lo: u8 = if n - pos > 2 {
                buf[pos + 2]
            } else {
                0
            };
            vlen = (byte_at(buf, pos + 1) as usize) * 256 + lo as usize;
        }
        let vstart = if n - pos > 1 + llen {
            pos + 1 + llen
        } else {
            n
        };
        let vend = if n - vstart > vlen {
            vstart + vlen
        } else {
            n
        };
        (sym, vlen, vstart, vend, is_mta)
    }

    /// Decode a whole configuration file.
    ///
    /// Unlike a nested aggregate this has no enclosing type or length, and it
    /// must cope with the MTA form where TLV 64 carries a 16-bit length.
    pub fn decode_main_aggregate(&mut self, buf: &[u8]) -> (r: Result<(), DecodeError>)
        requires
            old(self).ready(),
        ensures
            final(self).ready(),
            final(self).env() == old(self).env(),
            (final(self).state(), r) == main_effect(old(self).env(), old(self).state(), buf@),
            final(self).text() == final(self).state().out,
    {
        let ghost env = self.env();
        let ghost st0 = self.state();
        let ghost goal = main_effect(env, st0, buf@);
        self.tabs = 0;
        push_all(&mut self.out, &[77u8, 97, 105, 110, 32, 10, 123, 10]);
        self.tabs = 1;
        assert(self.out@ =~= st0.out + seq![77u8, 97, 105, 110, 32, 10, 123, 10]);
        let mut pos: usize = 0;
        let mut is_mta = false;
        let n = buf.len();
        let ghost outer = main_items(env, self.state(), buf@, 0, false);
        // The loop reads a length byte that may sit one past the end of a
        // padded file; a missing byte counts as zero.
        while pos < n
            invariant
                self.env() == env,
                env == old(self).env(),
                self.mib.wf(),
                n == buf@.len(),
                pos <= n,
                st0 == old(self).state(),
                goal == main_effect(env, st0, buf@),
                match outer.1 {
                    Ok(()) => goal == (DecState { out: outer.0.out + seq![125u8, 10], tabs: 0, ..outer.0 }, Ok::<(), DecodeError>(())),
                    Err(e) => goal == (outer.0, Err::<(), DecodeError>(e)),
                },
                outer == main_items(env, self.state(), buf@, pos as int, is_mta),
            decreases n - pos,
        {
            self.tabs = 1;
            self.indent();
            let (sym, vlen, vstart, vend, mta) = self.main_head_at(buf, pos, is_mta);
            is_mta = mta;
            let rest = crate::asn1::slice_range(buf, pos, n);
            match sym {
                Some(s) => {
                    let r = self.dispatch(s, crate::asn1::slice_range(buf, vstart, vend));
                    if r.is_err() {
                        return r;
                    }
                },
                None => self.decode_unknown(rest, vlen),
            }
            pos = vend;
        }
        self.tabs = 0;
        self.out.push(125);
        self.out.push(10);
        assert(self.out@ =~= outer.0.out + seq![125u8, 10]);
        Ok(())
    }

    fn dispatch(&mut self, sym: &Symbol, value: &[u8]) -> (r: Result<(), DecodeError>)
        requires
            old(self).mib.wf(),
        ensures
            final(self).env() == old(self).env(),
            (final(self).state(), r) == dispatch_effect(
                old(self).env(),
                old(self).state(),
                *sym,
                value@,
            ),
        decreases value@.len(), 1int,
    {
        if sym.dec == Dec::Aggregate {
            self.decode_aggregate(sym, value)
        } else {
            self.decode_leaf(sym, value)
        }
    }

    /// Decode the value of a setting that holds no other settings.
    fn decode_leaf(&mut self, sym: &Symbol, value: &[u8]) -> (r: Result<(), DecodeError>)
        requires
            old(self).mib.wf(),
            sym.dec != Dec::Aggregate,
        ensures
            final(self).env() == old(self).env(),
            (final(self).state(), r) == leaf_effect(old(self).env(), old(self).state(), *sym, value@),
    {
        match sym.dec {
            Dec::Aggregate => Ok(()),
            Dec::Special => {
                push_all(&mut self.out, sym.ident.as_bytes());
                self.out.push(10);
                assert(self.out@ =~= old(self).out@ + (sym.ident.spec_bytes() + seq![10u8]));
                Ok(())
            },
            Dec::Uint => self.decode_uint(sym, value),
            Dec::Uint24 => self.decode_uint24(sym, value),
            Dec::Ushort => self.decode_ushort(sym, value),
            Dec::Uchar => {
                self.decode_uchar(sym, value);
                Ok(())
            },
            Dec::Ip => self.decode_ip(sym, value),
            Dec::IpList => {
                self.decode_ip_list(sym, value);
                Ok(())
            },
            Dec::Ip6 => self.decode_ip6(sym, value),
            Dec::Ip6List => {
                self.ip6_items(sym, value, false);
                Ok(())
            },
            Dec::Ip6PrefixList => {
                self.ip6_items(sym, value, true);
                Ok(())
            },
            Dec::IpIp6 => {
                self.decode_ip_ip6(sym, value);
                Ok(())
            },
            Dec::CharIpIp6 => {
                self.decode_char_ip_ip6(sym, value);
                Ok(())
            },
            Dec::IpIp6Port => {
                self.decode_ip_ip6_port(sym, value);
                Ok(())
            },
            Dec::Lenzero => {
                push_all(&mut self.out, sym.ident.as_bytes());
                push_all(&mut self.out, &[32u8, 48, 120, 48, 48, 59, 10]);
                assert(self.out@ =~= old(self).out@ + (sym.ident.spec_bytes() + seq![
                    32u8,
                    48,
                    120,
                    48,
                    48,
                    59,
                    10,
                ]));
                Ok(())
            },
            Dec::Ether => self.decode_ether(sym, value),
            Dec::DualQtag => self.decode_dual_qtag(sym, value),
            Dec::CharList => {
                self.decode_char_list(sym, value);
                Ok(())
            },
            Dec::Ethermask => self.decode_ethermask(sym, value),
            Dec::Md5 => self.decode_md5(sym, value),
            Dec::Oid => {
                self.decode_oid(sym, value);
                Ok(())
            },
            Dec::SnmpObject => {
                self.decode_snmp_object(sym, value);
                Ok(())
            },
            Dec::SnmpWd => {
                self.decode_snmp_wd(sym, value);
                Ok(())
            },
            Dec::String => {
                self.write_quoted(sym, value);
                Ok(())
            },
            Dec::Strzero => {
                self.write_quoted(sym, value);
                Ok(())
            },
            Dec::Hexstr => {
                self.decode_hexstr(sym, value);
                Ok(())
            },
            Dec::UshortList => {
                self.decode_ushort_list(sym, value);
                Ok(())
            },
        }
    }

    #[verifier::rlimit(40)]
    fn decode_aggregate(&mut self, sym: &Symbol, buf: &[u8]) -> (r: Result<(), DecodeError>)
        requires
            old(self).mib.wf(),
            sym.dec == Dec::Aggregate,
        ensures
            final(self).env() == old(self).env(),
            (final(self).state(), r) == aggregate_effect(
                old(self).env(),
                old(self).state(),
                *sym,
                buf@,
            ),
        decreases buf@.len(), 0int,
    {
        let ghost env = self.env();
        let ghost goal = aggregate_effect(env, self.state(), *sym, buf@);
        let tabs = self.tabs;
        push_all(&mut self.out, sym.ident.as_bytes());
        self.out.push(10);
        self.indent();
        self.out.push(123);
        self.out.push(10);
        if self.tabs < usize::MAX {
            self.tabs += 1;
        }
        assert(self.out@ =~= old(self).out@ + sym.ident.spec_bytes() + seq![10u8] + tabs_text(tabs)
            + seq![123u8, 10]);
        let mut pos: usize = 0;
        let n = buf.len();
        let ghost inner = aggregate_items(env, self.state(), *sym, buf@, 0);
        while pos < n
            invariant
                self.env() == env,
                env == old(self).env(),
                self.mib.wf(),
                n == buf@.len(),
                pos <= n,
                tabs == old(self).tabs,
                goal == aggregate_effect(env, old(self).state(), *sym, buf@),
                match inner.1 {
                    Err(e) => goal == (DecState { tabs, ..inner.0 }, Err::<(), DecodeError>(e)),
                    Ok(()) => goal == (
                        DecState {
                            out: inner.0.out + tabs_text(tabs) + seq![125u8, 10],
                            tabs,
                            vspecific: false,
                            ..inner.0
                        },
                        Ok::<(), DecodeError>(()),
                    ),
                },
                inner == aggregate_items(env, self.state(), *sym, buf@, pos as int),
            decreases n - pos,
        {
            self.indent();
            let vlen: usize = byte_at(buf, pos + 1) as usize;
            let child = if self.vspecific {
                None
            } else {
                find_by_code_and_pid(self.table, buf[pos], sym.id)
            };
            let vstart = if n - pos > 2 {
                pos + 2
            } else {
                n
            };
            let vend = if n - vstart > vlen {
                vstart + vlen
            } else {
                n
            };
            let rest = crate::asn1::slice_range(buf, pos, n);
            match child {
                Some(c) => {
                    let v = crate::asn1::slice_range(buf, vstart, vend);
                    assert(v@.len() < buf@.len());
                    let r = self.dispatch(c, v);
                    if r.is_err() {
                        self.tabs = tabs;
                        return r;
                    }
                },
                None => self.decode_unknown(rest, vlen),
            }
            pos = vend;
        }
        self.tabs = tabs;
        self.indent();
        self.vspecific = false;
        self.out.push(125);
        self.out.push(10);
        assert(self.out@ =~= inner.0.out + tabs_text(tabs) + seq![125u8, 10]);
        Ok(())
    }

    /// Render a TLV with no symbol-table entry as a `GenericTLV` statement.
    fn decode_unknown(&mut self, tlv: &[u8], length: usize)
        ensures
            final(self).env() == old(self).env(),
            final(self).state() == appended(old(self).state(), unknown_text(tlv@, length as nat)),
    {
        let len: usize = if length > 256 {
            256
        } else {
            length
        };
        let code: u8 = if tlv.len() > 0 {
            tlv[0]
        } else {
            0
        };
        let body: &[u8] = if tlv.len() > 2 {
            let end = if tlv.len() - 2 > len {
                2 + len
            } else {
                tlv.len()
            };
            crate::asn1::slice_range(tlv, 2, end)
        } else {
            let e: &[u8] = &[];
            e
        };
        assert(body@ =~= unknown_body(tlv@, len as nat));
        // "GenericTLV TlvCode "
        let head = [71u8, 101, 110, 101, 114, 105, 99, 84, 76, 86, 32, 84, 108, 118, 67, 111, 100, 101, 32];
        proof {
            reveal(generic_code);
        }
        assert(head@ =~= generic_code());
        push_all(&mut self.out, &head);
        push_dec(&mut self.out, code as u64);
        push_unknown_value(&mut self.out, body, len);
        self.out.push(10);
        assert(self.out@ =~= old(self).out@ + unknown_text(tlv@, length as nat));
    }

    /// Append `<ident> ` to the output.
    fn start_line(&mut self, sym: &Symbol)
        ensures
            final(self).env() == old(self).env(),
            final(self).state() == appended(old(self).state(), sym.ident.spec_bytes() + seq![32u8]),
    {
        push_all(&mut self.out, sym.ident.as_bytes());
        self.out.push(32);
        assert(self.out@ =~= old(self).out@ + (sym.ident.spec_bytes() + seq![32u8]));
    }

    /// Append `;` and a newline.
    fn end_line(&mut self)
        ensures
            final(self).env() == old(self).env(),
            final(self).state() == appended(old(self).state(), seq![59u8, 10u8]),
    {
        self.out.push(59);
        self.out.push(10);
        assert(self.out@ =~= old(self).out@ + seq![59u8, 10u8]);
    }

    fn decode_uint(&mut self, sym: &Symbol, v: &[u8]) -> (r: Result<(), DecodeError>)
        requires
            sym.dec == Dec::Uint,
        ensures
            final(self).env() == old(self).env(),
            (final(self).state(), r) == leaf_effect(old(self).env(), old(self).state(), *sym, v@),
    {
        if v.len() != 4 {
            return Err(DecodeError::LengthMismatch(Mismatch::Uint));
        }
        let n: u64 = (v[0] as u64) * 0x100_0000 + (v[1] as u64) * 0x1_0000 + (v[2] as u64) * 256
            + v[3] as u64;
        self.start_line(sym);
        push_dec(&mut self.out, n);
        self.end_line();
        assert(self.out@ =~= old(self).out@ + line(*sym, dec_digits(be32_at(v@, 0))));
        Ok(())
    }

    fn decode_uint24(&mut self, sym: &Symbol, v: &[u8]) -> (r: Result<(), DecodeError>)
        requires
            sym.dec == Dec::Uint24,
        ensures
            final(self).env() == old(self).env(),
            (final(self).state(), r) == leaf_effect(old(self).env(), old(self).state(), *sym, v@),
    {
        if v.len() < 3 {
            return Err(DecodeError::Truncated);
        }
        let n: u64 = (v[0] as u64) * 0x1_0000 + (v[1] as u64) * 256 + v[2] as u64;
        self.start_line(sym);
        push_dec(&mut self.out, n);
        self.end_line();
        assert(self.out@ =~= old(self).out@ + line(
            *sym,
            dec_digits((v@[0] * 0x1_0000 + v@[1] * 256 + v@[2]) as nat),
        ));
        Ok(())
    }

    fn decode_ushort(&mut self, sym: &Symbol, v: &[u8]) -> (r: Result<(), DecodeError>)
        requires
            sym.dec == Dec::Ushort,
        ensures
            final(self).env() == old(self).env(),
            (final(self).state(), r) == leaf_effect(old(self).env(), old(self).state(), *sym, v@),
    {
        if v.len() != 2 {
            return Err(DecodeError::LengthMismatch(Mismatch::Ushort));
        }
        self.start_line(sym);
        push_dec(&mut self.out, (v[0] as u64) * 256 + v[1] as u64);
        self.end_line();
        assert(self.out@ =~= old(self).out@ + line(*sym, dec_digits(be16_at(v@, 0))));
        Ok(())
    }

    fn decode_uchar(&mut self, sym: &Symbol, v: &[u8])
        requires
            sym.dec == Dec::Uchar,
        ensures
            final(self).env() == old(self).env(),
            (final(self).state(), Ok::<(), DecodeError>(())) == leaf_effect(
                old(self).env(),
                old(self).state(),
                *sym,
                v@,
            ),
    {
        let b: u8 = if v.len() > 0 {
            v[0]
        } else {
            0
        };
        self.start_line(sym);
        push_dec(&mut self.out, b as u64);
        self.end_line();
        assert(self.out@ =~= old(self).out@ + line(
            *sym,
            dec_digits(if v@.len() > 0 { v@[0] as nat } else { 0 }),
        ));
    }

    fn decode_ip(&mut self, sym: &Symbol, v: &[u8]) -> (r: Result<(), DecodeError>)
        ensures
            final(self).env() == old(self).env(),
            v@.len() != 4 ==> r == Err::<(), DecodeError>(DecodeError::LengthMismatch(Mismatch::Ip))
                && final(self).state() == old(self).state(),
            v@.len() == 4 ==> r == Ok::<(), DecodeError>(()) && final(self).state() == appended(
                old(self).state(),
                line(*sym, ipv4_text(v@[0], v@[1], v@[2], v@[3])),
            ),
    {
        if v.len() != 4 {
            return Err(DecodeError::LengthMismatch(Mismatch::Ip));
        }
        self.start_line(sym);
        push_ipv4_text(&mut self.out, v[0], v[1], v[2], v[3]);
        self.end_line();
        assert(self.out@ =~= old(self).out@ + line(*sym, ipv4_text(v@[0], v@[1], v@[2], v@[3])));
        Ok(())
    }

    fn decode_ip_list(&mut self, sym: &Symbol, v: &[u8])
        ensures
            final(self).env() == old(self).env(),
            final(self).state() == appended(old(self).state(), line(*sym, ip_items(v@, 0))),
    {
        self.start_line(sym);
        let ghost target = old(self).out@ + line(*sym, ip_items(v@, 0));
        let mut i: usize = 0;
        assert(self.out@ + ip_items(v@, 0) + seq![59u8, 10u8] =~= target);
        while v.len() - i >= 4
            invariant
                i <= v@.len(),
                self.env() == old(self).env(),
                self.state() == (DecState { out: self.out@, ..old(self).state() }),
                self.out@ + ip_items(v@, i as int) + seq![59u8, 10u8] == target,
            decreases v@.len() - i,
        {
            let ghost b = self.out@;
            if i > 0 {
                self.out.push(44);
            }
            push_ipv4_text(&mut self.out, v[i], v[i + 1], v[i + 2], v[i + 3]);
            assert(self.out@ =~= b + sep(i as int) + ipv4_text(
                v@[i as int],
                v@[i + 1],
                v@[i + 2],
                v@[i + 3],
            ));
            i += 4;
            assert(self.out@ + ip_items(v@, i as int) + seq![59u8, 10u8] =~= target);
        }
        self.end_line();
        assert(self.out@ =~= target);
    }

    fn push_ipv6(&mut self, v: &[u8], at: usize)
        requires
            at + 16 <= v@.len(),
        ensures
            final(self).env() == old(self).env(),
            final(self).state() == appended(
                old(self).state(),
                ipv6_spec(v@.subrange(at as int, at + 16)),
            ),
    {
        let a: [u8; 16] = [
            v[at], v[at + 1], v[at + 2], v[at + 3], v[at + 4], v[at + 5], v[at + 6], v[at + 7],
            v[at + 8], v[at + 9], v[at + 10], v[at + 11], v[at + 12], v[at + 13], v[at + 14],
            v[at + 15],
        ];
        assert(a@ =~= v@.subrange(at as int, at + 16));
        let t = ipv6_text(&a);
        push_all(&mut self.out, t.as_slice());
    }

    fn decode_ip6(&mut self, sym: &Symbol, v: &[u8]) -> (r: Result<(), DecodeError>)
        ensures
            final(self).env() == old(self).env(),
            v@.len() != 16 ==> r == Err::<(), DecodeError>(DecodeError::LengthMismatch(Mismatch::Ip))
                && final(self).state() == old(self).state(),
            v@.len() == 16 ==> r == Ok::<(), DecodeError>(()) && final(self).state() == appended(
                old(self).state(),
                line(*sym, ipv6_spec(v@)),
            ),
    {
        if v.len() != 16 {
            return Err(DecodeError::LengthMismatch(Mismatch::Ip));
        }
        self.start_line(sym);
        self.push_ipv6(v, 0);
        self.end_line();
        assert(v@.subrange(0, 16) =~= v@);
        assert(self.out@ =~= old(self).out@ + line(*sym, ipv6_spec(v@)));
        Ok(())
    }

    /// Comma-separated IPv6 addresses, each followed by `/` and its prefix
    /// length when `prefixed`.
    fn ip6_items(&mut self, sym: &Symbol, v: &[u8], prefixed: bool)
        ensures
            final(self).env() == old(self).env(),
            final(self).state() == appended(
                old(self).state(),
                line(*sym, ip6_items(v@, 0, prefixed)),
            ),
    {
        let step: usize = if prefixed {
            17
        } else {
            16
        };
        self.start_line(sym);
        let ghost target = old(self).out@ + line(*sym, ip6_items(v@, 0, prefixed));
        assert(self.out@ + ip6_items(v@, 0, prefixed) + seq![59u8, 10u8] =~= target);
        let mut i: usize = 0;
        while v.len() - i >= step
            invariant
                i <= v@.len(),
                step == 16 || step == 17,
                prefixed <==> step == 17,
                self.env() == old(self).env(),
                self.state() == (DecState { out: self.out@, ..old(self).state() }),
                self.out@ + ip6_items(v@, i as int, prefixed) + seq![59u8, 10u8] == target,
            decreases v@.len() - i,
        {
            let ghost b = self.out@;
            if i > 0 {
                self.out.push(44);
            }
            self.push_ipv6(v, i);
            if prefixed {
                self.out.push(47);
                push_dec(&mut self.out, v[i + 16] as u64);
            }
            assert(self.out@ =~= b + sep(i as int) + ipv6_spec(v@.subrange(i as int, i + 16)) + (
            if prefixed {
                seq![47u8] + dec_digits(v@[i + 16] as nat)
            } else {
                Seq::empty()
            }));
            i += step;
            assert(self.out@ + ip6_items(v@, i as int, prefixed) + seq![59u8, 10u8] =~= target);
        }
        self.end_line();
        assert(self.out@ =~= target);
    }

    fn decode_ip_ip6(&mut self, sym: &Symbol, v: &[u8])
        requires
            sym.dec == Dec::IpIp6,
        ensures
            final(self).env() == old(self).env(),
            (final(self).state(), Ok::<(), DecodeError>(())) == leaf_effect(
                old(self).env(),
                old(self).state(),
                *sym,
                v@,
            ),
    {
        if v.len() == 4 {
            let _ = self.decode_ip(sym, v);
        } else if v.len() == 16 {
            let _ = self.decode_ip6(sym, v);
        }
    }

    fn decode_char_ip_ip6(&mut self, sym: &Symbol, v: &[u8])
        requires
            sym.dec == Dec::CharIpIp6,
        ensures
            final(self).env() == old(self).env(),
            (final(self).state(), Ok::<(), DecodeError>(())) == leaf_effect(
                old(self).env(),
                old(self).state(),
                *sym,
                v@,
            ),
    {
        if v.len() == 5 {
            let _ = self.decode_ip(sym, crate::asn1::slice_range(v, 1, 5));
        } else if v.len() == 17 {
            let _ = self.decode_ip6(sym, crate::asn1::slice_range(v, 1, 17));
        }
    }

    fn decode_ip_ip6_port(&mut self, sym: &Symbol, v: &[u8])
        requires
            sym.dec == Dec::IpIp6Port,
        ensures
            final(self).env() == old(self).env(),
            (final(self).state(), Ok::<(), DecodeError>(())) == leaf_effect(
                old(self).env(),
                old(self).state(),
                *sym,
                v@,
            ),
    {
        if v.len() == 6 {
            self.start_line(sym);
            push_ipv4_text(&mut self.out, v[0], v[1], v[2], v[3]);
            self.out.push(47);
            push_dec(&mut self.out, (v[4] as u64) * 256 + v[5] as u64);
            self.end_line();
            assert(self.out@ =~= old(self).out@ + line(
                *sym,
                ipv4_text(v@[0], v@[1], v@[2], v@[3]) + seq![47u8] + dec_digits(be16_at(v@, 4)),
            ));
        } else if v.len() == 18 {
            self.start_line(sym);
            self.push_ipv6(v, 0);
            self.out.push(47);
            push_dec(&mut self.out, (v[16] as u64) * 256 + v[17] as u64);
            self.end_line();
            assert(self.out@ =~= old(self).out@ + line(
                *sym,
                ipv6_spec(v@.subrange(0, 16)) + seq![47u8] + dec_digits(be16_at(v@, 16)),
            ));
        }
    }

    fn decode_ether(&mut self, sym: &Symbol, v: &[u8]) -> (r: Result<(), DecodeError>)
        requires
            sym.dec == Dec::Ether,
        ensures
            final(self).env() == old(self).env(),
            (final(self).state(), r) == leaf_effect(old(self).env(), old(self).state(), *sym, v@),
    {
        if v.len() != 6 {
            return Err(DecodeError::LengthMismatch(Mismatch::Ether));
        }
        self.start_line(sym);
        let t = mac_text_bytes(v);
        push_all(&mut self.out, t.as_slice());
        self.end_line();
        assert(v@.take(6) =~= v@);
        assert(self.out@ =~= old(self).out@ + line(*sym, mac_text(v@)));
        Ok(())
    }

    fn decode_dual_qtag(&mut self, sym: &Symbol, v: &[u8]) -> (r: Result<(), DecodeError>)
        requires
            sym.dec == Dec::DualQtag,
        ensures
            final(self).env() == old(self).env(),
            (final(self).state(), r) == leaf_effect(old(self).env(), old(self).state(), *sym, v@),
    {
        if v.len() != 4 {
            return Err(DecodeError::LengthMismatch(Mismatch::DualQtag));
        }
        self.start_line(sym);
        push_dec(&mut self.out, (v[0] as u64) * 256 + v[1] as u64);
        self.out.push(44);
        push_dec(&mut self.out, (v[2] as u64) * 256 + v[3] as u64);
        self.end_line();
        assert(self.out@ =~= old(self).out@ + line(
            *sym,
            dec_digits(be16_at(v@, 0)) + seq![44u8] + dec_digits(be16_at(v@, 2)),
        ));
        Ok(())
    }

    fn decode_char_list(&mut self, sym: &Symbol, v: &[u8])
        requires
            sym.dec == Dec::CharList,
        ensures
            final(self).env() == old(self).env(),
            (final(self).state(), Ok::<(), DecodeError>(())) == leaf_effect(
                old(self).env(),
                old(self).state(),
                *sym,
                v@,
            ),
    {
        self.start_line(sym);
        let ghost target = old(self).out@ + line(*sym, char_items(v@, 0));
        assert(self.out@ + char_items(v@, 0) + seq![59u8, 10u8] =~= target);
        let mut i: usize = 0;
        while i < v.len()
            invariant
                i <= v@.len(),
                self.env() == old(self).env(),
                self.state() == (DecState { out: self.out@, ..old(self).state() }),
                self.out@ + char_items(v@, i as int) + seq![59u8, 10u8] == target,
            decreases v@.len() - i,
        {
            let ghost b = self.out@;
            if i > 0 {
                self.out.push(44);
            }
            push_dec(&mut self.out, v[i] as u64);
            assert(self.out@ =~= b + sep(i as int) + dec_digits(v@[i as int] as nat));
            i += 1;
            assert(self.out@ + char_items(v@, i as int) + seq![59u8, 10u8] =~= target);
        }
        self.end_line();
        assert(self.out@ =~= target);
    }

    fn decode_ethermask(&mut self, sym: &Symbol, v: &[u8]) -> (r: Result<(), DecodeError>)
        requires
            sym.dec == Dec::Ethermask,
        ensures
            final(self).env() == old(self).env(),
            (final(self).state(), r) == leaf_effect(old(self).env(), old(self).state(), *sym, v@),
    {
        if v.len() != 12 {
            return Err(DecodeError::LengthMismatch(Mismatch::Ethermask));
        }
        self.start_line(sym);
        let a = crate::asn1::slice_range(v, 0, 6);
        let b = crate::asn1::slice_range(v, 6, 12);
        let ta = mac_text_bytes(a);
        let tb = mac_text_bytes(b);
        push_all(&mut self.out, ta.as_slice());
        self.out.push(47);
        push_all(&mut self.out, tb.as_slice());
        self.end_line();
        assert(a@.take(6) =~= v@.take(6));
        assert(b@.take(6) =~= v@.skip(6));
        assert(self.out@ =~= old(self).out@ + line(
            *sym,
            mac_text(v@.take(6)) + seq![47u8] + mac_text(v@.skip(6)),
        ));
        Ok(())
    }

    fn decode_md5(&mut self, sym: &Symbol, v: &[u8]) -> (r: Result<(), DecodeError>)
        requires
            sym.dec == Dec::Md5,
        ensures
            final(self).env() == old(self).env(),
            (final(self).state(), r) == leaf_effect(old(self).env(), old(self).state(), *sym, v@),
    {
        if v.len() != 16 {
            return Err(DecodeError::LengthMismatch(Mismatch::Md5));
        }
        self.out.push(47);
        self.out.push(42);
        self.out.push(32);
        self.start_line(sym);
        push_hex_pairs(&mut self.out, v);
        self.out.push(59);
        self.out.push(32);
        self.out.push(42);
        self.out.push(47);
        self.out.push(10);
        assert(self.out@ =~= old(self).out@ + (seq![47u8, 42, 32] + line(*sym, hex_pairs(v@)).drop_last()
            + seq![32u8, 42, 47, 10]));
        Ok(())
    }

    /// Emit `Name "value";` with the value bytes verbatim, stopping at the
    /// first NUL just as printing a C string would.
    fn write_quoted(&mut self, sym: &Symbol, v: &[u8])
        ensures
            final(self).env() == old(self).env(),
            final(self).state() == appended(
                old(self).state(),
                line(*sym, seq![34u8] + c_string(v@) + seq![34u8]),
            ),
    {
        let mut end: usize = 0;
        while end < v.len() && v[end] != 0
            invariant
                end <= v@.len(),
                forall|k: int| 0 <= k < end ==> v@[k] != 0,
            decreases v@.len() - end,
        {
            end += 1;
        }
        proof {
            lemma_c_string(v@, end as int);
        }
        self.start_line(sym);
        self.out.push(34);
        push_all(&mut self.out, crate::asn1::slice_range(v, 0, end));
        self.out.push(34);
        self.end_line();
        assert(self.out@ =~= old(self).out@ + line(*sym, seq![34u8] + c_string(v@) + seq![34u8]));
    }

    fn decode_hexstr(&mut self, sym: &Symbol, v: &[u8])
        requires
            sym.dec == Dec::Hexstr,
        ensures
            final(self).env() == old(self).env(),
            (final(self).state(), Ok::<(), DecodeError>(())) == leaf_effect(
                old(self).env(),
                old(self).state(),
                *sym,
                v@,
            ),
    {
        self.start_line(sym);
        self.out.push(48);
        self.out.push(120);
        push_hex_pairs(&mut self.out, v);
        self.end_line();
        assert(self.out@ =~= old(self).out@ + line(*sym, hex_text(v@)));
        // A vendor-specific block stops being interpretable past its identifier.
        let vendor = [86u8, 101, 110, 100, 111, 114, 73, 100, 101, 110, 116, 105, 102, 105, 101, 114];
        assert(vendor@ =~= vendor_ident());
        if starts_with(sym.ident.as_bytes(), &vendor) && v.len() >= 3 && !(v[0] == 0xFF && v[1]
            == 0xFF && v[2] == 0xFF) {
            self.vspecific = true;
        }
    }

    fn decode_ushort_list(&mut self, sym: &Symbol, v: &[u8])
        requires
            sym.dec == Dec::UshortList,
        ensures
            final(self).env() == old(self).env(),
            (final(self).state(), Ok::<(), DecodeError>(())) == leaf_effect(
                old(self).env(),
                old(self).state(),
                *sym,
                v@,
            ),
    {
        self.start_line(sym);
        let ghost target = old(self).out@ + line(*sym, ushort_warning(*sym, v@) + ushort_items(v@, 0));
        let len = (v.len() as u64) % 0x1_0000_0000;
        if len < 2 * (sym.low as u64) || len > 2 * (sym.high as u64) {
            // "/* -- warning: illegal length of buffer --*/"
            let warning = [
                47u8, 42, 32, 45, 45, 32, 119, 97, 114, 110, 105, 110, 103, 58, 32, 105, 108, 108,
                101, 103, 97, 108, 32, 108, 101, 110, 103, 116, 104, 32, 111, 102, 32, 98, 117, 102,
                102, 101, 114, 32, 45, 45, 42, 47,
            ];
            assert(warning@ =~= length_warning());
            push_all(&mut self.out, &warning);
        }
        assert(self.out@ + ushort_items(v@, 0) + seq![59u8, 10u8] =~= target);
        let mut i: usize = 0;
        while v.len() - i >= 2
            invariant
                i <= v@.len(),
                self.env() == old(self).env(),
                self.state() == (DecState { out: self.out@, ..old(self).state() }),
                self.out@ + ushort_items(v@, i as int) + seq![59u8, 10u8] == target,
            decreases v@.len() - i,
        {
            let ghost b = self.out@;
            if i > 0 {
                self.out.push(44);
            }
            push_dec(&mut self.out, (v[i] as u64) * 256 + v[i + 1] as u64);
            assert(self.out@ =~= b + sep(i as int) + dec_digits(be16_at(v@, i as int)));
            i += 2;
            assert(self.out@ + ushort_items(v@, i as int) + seq![59u8, 10u8] =~= target);
        }
        self.end_line();
        assert(self.out@ =~= target);
    }

    fn decode_oid(&mut self, sym: &Symbol, v: &[u8])
        requires
            old(self).mib.wf(),
            sym.dec == Dec::Oid,
        ensures
            final(self).env() == old(self).env(),
            (final(self).state(), Ok::<(), DecodeError>(())) == leaf_effect(
                old(self).env(),
                old(self).state(),
                *sym,
                v@,
            ),
    {
        let ns = decode_snmp_oid_notes(v);
        self.add_notes(ns);
        self.start_line(sym);
        let s = decode_snmp_oid(self.mib, v);
        push_all(&mut self.out, s.as_str().as_bytes());
        self.end_line();
        proof {
            lemma_string_octets_empty(s);
        }
        assert(self.out@ =~= old(self).out@ + line(*sym, oid_text(v@)));
    }

    fn decode_snmp_wd(&mut self, sym: &Symbol, v: &[u8])
        requires
            old(self).mib.wf(),
            sym.dec == Dec::SnmpWd,
        ensures
            final(self).env() == old(self).env(),
            (final(self).state(), Ok::<(), DecodeError>(())) == leaf_effect(
                old(self).env(),
                old(self).state(),
                *sym,
                v@,
            ),
    {
        if v.len() == 0 {
            return;
        }
        let head = crate::asn1::slice_range(v, 0, v.len() - 1);
        assert(head@ =~= v@.drop_last());
        let oid = decode_snmp_oid(self.mib, head);
        let ns = decode_snmp_oid_notes(head);
        self.add_notes(ns);
        self.start_line(sym);
        push_all(&mut self.out, oid.as_str().as_bytes());
        self.out.push(32);
        push_dec(&mut self.out, v[v.len() - 1] as u64);
        self.end_line();
        proof {
            lemma_string_octets_empty(oid);
        }
        assert(self.out@ =~= old(self).out@ + line(
            *sym,
            oid_text(v@.drop_last()) + seq![32u8] + dec_digits(v@.last() as nat),
        ));
    }

    #[verifier::spinoff_prover]
    #[verifier::rlimit(40)]
    fn decode_snmp_object(&mut self, sym: &Symbol, v: &[u8])
        requires
            old(self).mib.wf(),
            sym.dec == Dec::SnmpObject,
        ensures
            final(self).env() == old(self).env(),
            (final(self).state(), Ok::<(), DecodeError>(())) == leaf_effect(
                old(self).env(),
                old(self).state(),
                *sym,
                v@,
            ),
    {
        let na = [0x30u8, 0x26, 0x06, 0x0e];
        let eu = [0x30u8, 0x24, 0x06, 0x0c];
        assert(na@ =~= seq![0x30u8, 0x26, 0x06, 0x0e]);
        assert(eu@ =~= seq![0x30u8, 0x24, 0x06, 0x0c]);
        if self.nohash && (starts_with(v, &na) || starts_with(v, &eu)) {
            let t = decode_vbind(self.mib, v, self.numeric_oids);
            let ns = decode_vbind_notes(self.mib, v, self.numeric_oids);
            self.add_notes(ns);
            push_all(&mut self.out, &[47u8, 42, 32]);
            push_all(&mut self.out, sym.ident.as_bytes());
            self.out.push(32);
            push_all(&mut self.out, t.as_slice());
            push_all(&mut self.out, &[32u8, 42, 47, 10]);
            assert(self.out@ =~= old(self).out@ + (seq![47u8, 42, 32] + sym.ident.spec_bytes()
                + seq![32u8] + vbind_text(*self.mib, v@, self.numeric_oids) + seq![32u8, 42, 47, 10]));
            return;
        }
        // A PC2.0 dial plan is too large to show inline, so it goes to a file
        // of its own and is referenced by name.
        let short_form = v.len() >= 24 && dialplan_oid_at(v, 2);
        let long_form = v.len() >= 26 && dialplan_oid_at(v, 4);
        if short_form || long_form {
            let from: usize = if short_form {
                24
            } else if v[24] == 0x04 && v[25] == 0x82 {
                if v.len() < 28 {
                    v.len()
                } else {
                    28
                }
            } else {
                26
            };
            self.dialplan = Some(crate::text::copy_bytes(crate::asn1::slice_range(v, from, v.len())));
            // DigitMap "dialplan_output.txt"; /* file created. */
            let note = [
                68u8, 105, 103, 105, 116, 77, 97, 112, 32, 34, 100, 105, 97, 108, 112, 108, 97, 110,
                95, 111, 117, 116, 112, 117, 116, 46, 116, 120, 116, 34, 59, 32, 47, 42, 32, 102,
                105, 108, 101, 32, 99, 114, 101, 97, 116, 101, 100, 46, 32, 42, 47, 10,
            ];
            assert(note@ =~= dialplan_line());
            push_all(&mut self.out, &note);
            return;
        }
        let t = decode_vbind(self.mib, v, self.numeric_oids);
        let ns = decode_vbind_notes(self.mib, v, self.numeric_oids);
        self.add_notes(ns);
        self.start_line(sym);
        push_all(&mut self.out, t.as_slice());
        self.out.push(10);
        assert(self.out@ =~= old(self).out@ + (sym.ident.spec_bytes() + seq![32u8] + vbind_text(
            *self.mib,
            v@,
            self.numeric_oids,
        ) + seq![10u8]));
    }
}

/// The octets of an empty string are none.
proof fn lemma_string_octets_empty(s: String)
    ensures
        s@.len() == 0 ==> string_octets(s) == Seq::<u8>::empty(),
{
    if s@.len() == 0 {
        assert(s@ =~= Seq::<char>::empty());
        assert(encode_utf8(Seq::<char>::empty()) =~= Seq::<u8>::empty());
    }
}

proof fn lemma_c_string(v: Seq<u8>, end: int)
    requires
        0 <= end <= v.len(),
        forall|k: int| 0 <= k < end ==> v[k] != 0,
        end == v.len() || v[end] == 0,
    ensures
        c_string(v) == v.take(end),
    decreases end,
{
    if end > 0 {
        lemma_c_string(v.drop_first(), end - 1);
        assert(v.take(end) =~= seq![v[0]] + v.drop_first().take(end - 1));
    } else {
        assert(v.take(0) =~= Seq::<u8>::empty());
    }
}

/// A 16-bit setting decodes as the number its two octets spell big-endian:
/// the octets `encode_ushort` writes for any `n` below 65536 (high octet
/// first) print as the decimal digits of `n`, and any two octets `a`, `b`
/// print as `a * 256 + b`.
pub proof fn law_ushort_reads_big_endian(env: DecEnv, st: DecState, sym: Symbol, n: nat, a: u8, b: u8)
    requires
        sym.dec == Dec::Ushort,
        n < 65536,
    ensures
        leaf_effect(env, st, sym, seq![(n / 256) as u8, (n % 256) as u8]) == wrote(
            st,
            line(sym, dec_digits(n)),
        ),
        leaf_effect(env, st, sym, crate::encode::be16(n)) == wrote(st, line(sym, dec_digits(n))),
        leaf_effect(env, st, sym, seq![a, b]) == wrote(st, line(sym, dec_digits((a * 256 + b) as nat))),
{
    let v = seq![(n / 256) as u8, (n % 256) as u8];
    assert((n / 256) * 256 + n % 256 == n) by (nonlinear_arith);
    assert(n / 256 < 256) by (nonlinear_arith)
        requires
            n < 65536,
    ;
    assert(v[0] == n / 256);
    assert(v[1] == n % 256);
    assert(crate::encode::be16(n) =~= v) by {
        assert((n / 256) % 256 == n / 256);
    }
    let w = seq![a, b];
    assert(w[0] == a && w[1] == b);
}

/// A 32-bit setting decodes as the number its four octets spell big-endian:
/// the octets `encode_uint` writes for `n`, high octet first, print as the
/// decimal digits of `n`.
pub proof fn law_uint_reads_big_endian(env: DecEnv, st: DecState, sym: Symbol, n: u32)
    requires
        sym.dec == Dec::Uint,
    ensures
        leaf_effect(env, st, sym, crate::encode::be32(n)) == wrote(st, line(sym, dec_digits(n as nat))),
{
    let v = crate::encode::be32(n);
    assert((n / 0x100_0000) * 0x100_0000 + ((n / 0x1_0000) % 256) * 0x1_0000 + ((n / 256) % 256)
        * 256 + n % 256 == n) by (bit_vector);
    assert(n / 0x100_0000 < 256);
    assert(v[0] == n / 0x100_0000);
    assert(v[1] == (n / 0x1_0000) % 256);
    assert(v[2] == (n / 256) % 256);
    assert(v[3] == n % 256);
    assert(be32_at(v, 0) == n as nat);
}

/// An IPv4 setting prints a dotted quad that reads back through
/// `parse_ipv4` as its four octets, in order.
pub proof fn law_ip_setting_reads_back(env: DecEnv, st: DecState, sym: Symbol, v: Seq<u8>)
    requires
        sym.dec == Dec::Ip,
        v.len() == 4,
    ensures
        exists|t: Seq<u8>|
            crate::inet::ipv4_octets(t) == Some(v) && leaf_effect(env, st, sym, v) == wrote(
                st,
                #[trigger] line(sym, t),
            ),
{
    let t = ipv4_text(v[0], v[1], v[2], v[3]);
    crate::inet::law_ipv4_round_trip(v[0], v[1], v[2], v[3]);
    assert(seq![v[0], v[1], v[2], v[3]] =~= v);
    assert(leaf_effect(env, st, sym, v) == wrote(st, line(sym, t)));
}

/// An IPv6 setting prints text that reads back through `parse_ipv6` as its
/// sixteen octets.
pub proof fn law_ip6_setting_reads_back(env: DecEnv, st: DecState, sym: Symbol, v: Seq<u8>)
    requires
        sym.dec == Dec::Ip6,
        v.len() == 16,
    ensures
        exists|t: Seq<u8>|
            crate::inet::ipv6_value(t) == Some(v) && leaf_effect(env, st, sym, v) == wrote(
                st,
                #[trigger] line(sym, t),
            ),
{
    crate::inet::law_ipv6_round_trip(v);
    assert(leaf_effect(env, st, sym, v) == wrote(st, line(sym, ipv6_spec(v))));
}

/// A MAC address setting prints text that reads back through `ether_aton`
/// as its six octets.
pub proof fn law_ether_setting_reads_back(env: DecEnv, st: DecState, sym: Symbol, v: Seq<u8>)
    requires
        sym.dec == Dec::Ether,
        v.len() == 6,
    ensures
        exists|t: Seq<u8>|
            crate::ethermac::mac_octets(t) == Some(v) && leaf_effect(env, st, sym, v) == wrote(
                st,
                #[trigger] line(sym, t),
            ),
{
    crate::ethermac::law_mac_round_trip(v);
    assert(leaf_effect(env, st, sym, v) == wrote(st, line(sym, mac_text(v))));
}

/// A 24-bit setting decodes as the number its first three octets spell
/// big-endian: the three octets of any `n` below 2^24, high octet first,
/// print as the decimal digits of `n`.
pub proof fn law_uint24_reads_big_endian(env: DecEnv, st: DecState, sym: Symbol, n: nat)
    requires
        sym.dec == Dec::Uint24,
        n < 0x100_0000,
    ensures
        leaf_effect(env, st, sym, seq![(n / 0x1_0000) as u8, ((n / 256) % 256) as u8, (n % 256) as u8])
            == wrote(st, line(sym, dec_digits(n))),
{
    let v = seq![(n / 0x1_0000) as u8, ((n / 256) % 256) as u8, (n % 256) as u8];
    assert(n / 0x1_0000 < 256);
    assert((n / 0x1_0000) * 0x1_0000 + ((n / 256) % 256) * 256 + n % 256 == n) by (nonlinear_arith)
        requires
            n < 0x100_0000,
    ;
    assert(v[0] == n / 0x1_0000);
    assert(v[1] == (n / 256) % 256);
    assert(v[2] == n % 256);
}

} // verus!
