//! SNMP variable-binding encoding and decoding for TLV 11 (SnmpMibObject),
//! TLV 34.1 (SnmpWriteControl) and the SNMPv3 access-view subtree settings.
use vstd::prelude::*;
use crate::asn1::{
    self, build_int, build_objid, build_string, build_unsigned_int, build_var_op, header_octets,
    int_content, int_value, law_tlv_round_trip, objid_encodable, objid_tlv, objid_value,
    tlv_fields, tlv_value,
    unsigned_value,
    unsigned_content, varbind_fields, varbind_octets, first_arcs_fit, ASN_COUNTER, ASN_GAUGE,
    ASN_INTEGER, ASN_IPADDRESS, ASN_OBJECT_ID, ASN_OCTET_STR, ASN_TIMETICKS,
};
use crate::mib::Mib;
use crate::mib::render::{enum_label, numeric_text, OidFormat};
use vstd::utf8::valid_utf8;
use crate::text::{
    dec_digits, hex2, hex_digits, push_all, push_dec, push_hex2, push_signed, signed_digits,
    string_octets, utf8_string,
};
use vstd::string::StringSliceAdditionalSpecFns;

verus! {

/// The value types a `SnmpMibObject` line can carry.
pub enum VarValue {
    Int(i32),
    Gauge(u32),
    Counter(u32),
    TimeTicks(u32),
    Str(Vec<u8>),
    Ip([u8; 4]),
    Oid(String),
}

/// What a `VarValue` holds, as plain values: the octets of a string, an
/// address, or an OID's text.
pub enum VarSpec {
    Int(i32),
    Gauge(u32),
    Counter(u32),
    TimeTicks(u32),
    Str(Seq<u8>),
    Ip(Seq<u8>),
    Oid(Seq<u8>),
}

/// The plain values a `VarValue` holds.
pub open spec fn var_spec(v: VarValue) -> VarSpec {
    match v {
        VarValue::Int(x) => VarSpec::Int(x),
        VarValue::Gauge(x) => VarSpec::Gauge(x),
        VarValue::Counter(x) => VarSpec::Counter(x),
        VarValue::TimeTicks(x) => VarSpec::TimeTicks(x),
        VarValue::Str(b) => VarSpec::Str(b@),
        VarValue::Ip(a) => VarSpec::Ip(a@),
        VarValue::Oid(t) => VarSpec::Oid(string_octets(t)),
    }
}

/// Why a variable binding could not be encoded.
#[derive(Clone, Copy, PartialEq, Eq, Debug, Structural)]
pub enum VbindError {
    /// The object's name does not resolve.
    UnknownOid,
    /// An ObjectID value does not resolve.
    UnknownValueOid,
    /// An ObjectID value resolves to an OID that cannot be encoded.
    BadValueOid,
    /// A string value's length is outside the object's SIZE ranges.
    ValueTooLong,
}

/// A 32-bit value read as signed and widened to 64 bits, then read as
/// unsigned again: how a negative literal reaches an unsigned SNMP type.
pub open spec fn sign_extended(v: u32) -> u64 {
    if v < 0x8000_0000 {
        v as u64
    } else {
        (v as u64 + 0xFFFF_FFFF_0000_0000) as u64
    }
}

fn sign_extend(v: u32) -> (r: u64)
    ensures
        r == sign_extended(v),
{
    if v < 0x8000_0000 {
        v as u64
    } else {
        v as u64 + 0xFFFF_FFFF_0000_0000
    }
}

/// The unsigned TLV of `tag` for `v`.
pub open spec fn unsigned_tlv(tag: u8, v: u64) -> Seq<u8> {
    header_octets(tag, unsigned_content(v).len()) + unsigned_content(v)
}

/// The value TLV of a binding; `value_oid` is what an ObjectID value names.
pub open spec fn value_tlv(value: VarSpec, value_oid: Seq<u32>) -> Seq<u8> {
    match value {
        VarSpec::Int(v) => header_octets(ASN_INTEGER, int_content(v as i64).len()) + int_content(
            v as i64,
        ),
        VarSpec::Gauge(v) => unsigned_tlv(ASN_GAUGE, sign_extended(v)),
        VarSpec::Counter(v) => unsigned_tlv(ASN_COUNTER, sign_extended(v)),
        VarSpec::TimeTicks(v) => unsigned_tlv(ASN_TIMETICKS, sign_extended(v)),
        VarSpec::Ip(a) => header_octets(ASN_IPADDRESS, a.len()) + a,
        VarSpec::Oid(_) => objid_tlv(ASN_OBJECT_ID, value_oid),
        VarSpec::Str(b) => header_octets(ASN_OCTET_STR, b.len()) + b,
    }
}

/// Whether some range of `ranges` holds `x`.
pub open spec fn in_some_range(ranges: Seq<(i64, i64)>, x: int) -> bool {
    exists|k: int| 0 <= k < ranges.len() && (#[trigger] ranges[k]).0 <= x <= ranges[k].1
}

/// What `build_vbind` gives for the object `oid` holding `value`.
pub open spec fn vbind_result(
    oid: Seq<u32>,
    value: VarSpec,
    value_oid: Option<Seq<u32>>,
    ranges: Seq<(i64, i64)>,
) -> Result<Seq<u8>, VbindError> {
    match value {
        VarSpec::Oid(_) => match value_oid {
            None => Err(VbindError::UnknownValueOid),
            Some(vo) => if !objid_encodable(vo) {
                Err(VbindError::BadValueOid)
            } else {
                Ok(varbind_octets(oid, value_tlv(value, vo), true))
            },
        },
        VarSpec::Str(b) => if ranges.len() > 0 && !in_some_range(ranges, b.len() as int) {
            Err(VbindError::ValueTooLong)
        } else {
            Ok(varbind_octets(oid, value_tlv(value, Seq::empty()), b.len() + oid.len() + 8 < 0x7f))
        },
        _ => Ok(varbind_octets(oid, value_tlv(value, Seq::empty()), true)),
    }
}

/// Whether `oid` can be handed to the OID encoder.
fn arcs_fit(oid: &[u32]) -> (r: bool)
    ensures
        r == first_arcs_fit(oid@),
{
    if oid.len() >= 2 && oid[0] <= 2 {
        (oid[0] as u64) * 40 + oid[1] as u64 <= 0xFFFF_FFFF
    } else {
        true
    }
}

/// Whether some range of `ranges` holds `x`.
fn in_ranges(ranges: &Vec<(i64, i64)>, x: usize) -> (r: bool)
    ensures
        r == in_some_range(ranges@, x as int),
{
    if (x as u64) > 0x7FFF_FFFF_FFFF_FFFFu64 {
        proof {
            assert forall|k: int| 0 <= k < ranges@.len() implies !((#[trigger] ranges@[k]).0
                <= x <= ranges@[k].1) by {}
        }
        return false;
    }
    let xi = x as i64;
    let mut k: usize = 0;
    while k < ranges.len()
        invariant
            k <= ranges@.len(),
            xi == x,
            forall|m: int| 0 <= m < k ==> !((#[trigger] ranges@[m]).0 <= x <= ranges@[m].1),
        decreases ranges@.len() - k,
    {
        let (lo, hi) = ranges[k];
        if lo <= xi && xi <= hi {
            return true;
        }
        k += 1;
    }
    false
}

/// Build the variable binding for the object `oid` holding `value`, given
/// what an ObjectID value resolved to and the SIZE ranges of the object.
/// Strings that fit get the two-octet SEQUENCE header, longer ones the
/// four-octet form.
pub fn build_vbind(
    oid: &[u32],
    value: &VarValue,
    value_oid: Option<Vec<u32>>,
    ranges: &Vec<(i64, i64)>,
) -> (r: Result<Vec<u8>, VbindError>)
    requires
        first_arcs_fit(oid@),
        value_oid matches Some(vo) ==> first_arcs_fit(vo@),
    ensures
        match vbind_result(
            oid@,
            var_spec(*value),
            match value_oid {
                Some(vo) => Some(vo@),
                None => None,
            },
            ranges@,
        ) {
            Ok(b) => r matches Ok(v) && v@ == b,
            Err(e) => r == Err::<Vec<u8>, VbindError>(e),
        },
{
    let mut val: Vec<u8> = Vec::new();
    let mut short_header = true;
    match value {
        VarValue::Int(v) => build_int(&mut val, ASN_INTEGER, *v as i64),
        VarValue::Gauge(v) => build_unsigned_int(&mut val, ASN_GAUGE, sign_extend(*v)),
        VarValue::Counter(v) => build_unsigned_int(&mut val, ASN_COUNTER, sign_extend(*v)),
        VarValue::TimeTicks(v) => build_unsigned_int(&mut val, ASN_TIMETICKS, sign_extend(*v)),
        VarValue::Ip(addr) => build_string(&mut val, ASN_IPADDRESS, addr),
        VarValue::Oid(_) => {
            let vo = match value_oid {
                Some(vo) => vo,
                None => return Err(VbindError::UnknownValueOid),
            };
            if !build_objid(&mut val, ASN_OBJECT_ID, vo.as_slice()) {
                return Err(VbindError::BadValueOid);
            }
        },
        VarValue::Str(bytes) => {
            if ranges.len() > 0 && !in_ranges(ranges, bytes.len()) {
                return Err(VbindError::ValueTooLong);
            }
            // Long bindings need the four-octet SEQUENCE header.
            short_header = bytes.len() < 0x7f && oid.len() < 0x7f && bytes.len() + oid.len()
                + 8 < 0x7f;
            build_string(&mut val, ASN_OCTET_STR, bytes.as_slice());
        },
    }
    proof {
        if let VarValue::Ip(a) = *value {
            assert(a@.len() == 4);
        }
    }
    Ok(build_var_op(oid, val.as_slice(), short_header))
}

/// What `encode_vbind` gives for the object named `name` holding `value`:
/// the name resolves name-first, an ObjectID value numeric-first, and a
/// string is held to the SIZE ranges of the deepest node the object's OID
/// reaches.
#[verifier::opaque]
pub open spec fn vbind_encoding(mib: Mib, name: Seq<u8>, value: VarSpec) -> Result<
    Seq<u8>,
    VbindError,
> {
    match mib.resolved(name) {
        None => Err(VbindError::UnknownOid),
        Some(oid) => if !first_arcs_fit(oid) {
            Err(VbindError::UnknownOid)
        } else {
            let found = match value {
                VarSpec::Oid(text) => mib.resolved_numeric_first(text),
                _ => None,
            };
            if found matches Some(vo) && !first_arcs_fit(vo) {
                Err(VbindError::BadValueOid)
            } else {
                let ranges = match value {
                    VarSpec::Str(_) => match mib.walk(None, oid, None) {
                        Some(n) => mib.nodes@[n as int].syntax.ranges@,
                        None => Seq::empty(),
                    },
                    _ => Seq::empty(),
                };
                vbind_result(oid, value, found, ranges)
            }
        },
    }
}

/// Build the value TLV plus the varbind SEQUENCE for one MIB object setting:
/// the name resolves through `resolve_oid`, an ObjectID value through
/// `read_objid` and then `get_node`, and a string is checked against the
/// SIZE ranges of the node `get_tree` finds.
pub fn encode_vbind(mib: &Mib, oid_string: &str, value: &VarValue) -> (r: Result<
    Vec<u8>,
    VbindError,
>)
    requires
        mib.wf(),
    ensures
        match vbind_encoding(*mib, oid_string.spec_bytes(), var_spec(*value)) {
            Ok(b) => r matches Ok(v) && v@ == b,
            Err(e) => r == Err::<Vec<u8>, VbindError>(e),
        },
{
    reveal(vbind_encoding);
    let oid = match mib.resolve_oid(oid_string) {
        Some(o) => o,
        None => return Err(VbindError::UnknownOid),
    };
    if !arcs_fit(oid.as_slice()) {
        return Err(VbindError::UnknownOid);
    }
    let value_oid = match value {
        VarValue::Oid(text) => {
            let found = mib.resolve_oid_numeric_first(text.as_str());
            match found {
                Some(o) => if arcs_fit(o.as_slice()) {
                    Some(o)
                } else {
                    return Err(VbindError::BadValueOid);
                },
                None => None,
            }
        },
        _ => None,
    };
    let empty: Vec<(i64, i64)> = Vec::new();
    let ranges = match value {
        VarValue::Str(_) => match mib.get_tree(oid.as_slice()) {
            Some(node) => &mib.node(node).syntax.ranges,
            None => &empty,
        },
        _ => &empty,
    };
    build_vbind(oid.as_slice(), value, value_oid, ranges)
}

/// What `encode_snmp_oid` gives for `name`: the OBJECT IDENTIFIER TLV of
/// the OID it resolves to, numeric-first.
#[verifier::opaque]
pub open spec fn snmp_oid_encoding(mib: Mib, name: Seq<u8>) -> Option<Seq<u8>> {
    match mib.resolved_numeric_first(name) {
        Some(oid) => if first_arcs_fit(oid) && objid_encodable(oid) {
            Some(objid_tlv(ASN_OBJECT_ID, oid))
        } else {
            None
        },
        None => None,
    }
}

/// Encode a bare object identifier value, as TLV 34.1 and TLV 54.2 use: the
/// name resolves numeric-first.
pub fn encode_snmp_oid(mib: &Mib, oid_string: &str) -> (r: Option<Vec<u8>>)
    requires
        mib.wf(),
    ensures
        match snmp_oid_encoding(*mib, oid_string.spec_bytes()) {
            Some(b) => r matches Some(v) && v@ == b,
            None => r is None,
        },
{
    reveal(snmp_oid_encoding);
    let oid = match mib.resolve_oid_numeric_first(oid_string) {
        Some(o) => o,
        None => return None,
    };
    if !arcs_fit(oid.as_slice()) {
        return None;
    }
    let mut out: Vec<u8> = Vec::new();
    if !build_objid(&mut out, ASN_OBJECT_ID, oid.as_slice()) {
        return None;
    }
    assert(out@ == objid_tlv(ASN_OBJECT_ID, oid@));
    Some(out)
}

/// The OID an encoded OBJECT IDENTIFIER TLV holds, if it holds one.
pub open spec fn oid_in(data: Seq<u8>) -> Option<Seq<u32>> {
    match tlv_fields(data) {
        Some(f) => if f.0 == ASN_OBJECT_ID {
            objid_value(tlv_value(data))
        } else {
            None
        },
        None => None,
    }
}

/// Render an encoded object identifier in numeric form; nothing when the
/// octets are not one.
pub fn decode_snmp_oid(mib: &Mib, data: &[u8]) -> (r: String)
    requires
        mib.wf(),
    ensures
        match oid_in(data@) {
            Some(oid) => string_octets(r) == numeric_text(oid),
            None => r@.len() == 0,
        },
{
    match asn1::parse_objid(data) {
        Some(oid) => mib.sprint_objid(oid.as_slice(), OidFormat::Numeric),
        None => String::new(),
    }
}

/// Whether every octet is printable ASCII.
pub open spec fn printable(s: Seq<u8>) -> bool {
    forall|i: int| 0 <= i < s.len() ==> 0x20 <= #[trigger] s[i] <= 0x7e
}

pub fn is_printable(s: &[u8]) -> (r: bool)
    ensures
        r == printable(s@),
{
    let mut i: usize = 0;
    while i < s.len()
        invariant
            i <= s@.len(),
            forall|k: int| 0 <= k < i ==> 0x20 <= #[trigger] s@[k] <= 0x7e,
        decreases s@.len() - i,
    {
        if s[i] < 0x20 || s[i] > 0x7e {
            return false;
        }
        i += 1;
    }
    true
}

/// Two lowercase hex digits per octet.
pub open spec fn hex_pairs(s: Seq<u8>) -> Seq<u8>
    decreases s.len(),
{
    if s.len() == 0 {
        Seq::empty()
    } else {
        hex_pairs(s.drop_last()) + hex2(s.last())
    }
}

/// `0x` followed by two lowercase hex digits per octet.
pub open spec fn hex_text(s: Seq<u8>) -> Seq<u8> {
    seq![48u8, 120u8] + hex_pairs(s)
}

/// Append two lowercase hex digits per octet of `s`.
pub fn push_hex_pairs(out: &mut Vec<u8>, s: &[u8])
    ensures
        final(out)@ == old(out)@ + hex_pairs(s@),
{
    let mut i: usize = 0;
    while i < s.len()
        invariant
            i <= s@.len(),
            out@ == old(out)@ + hex_pairs(s@.take(i as int)),
        decreases s@.len() - i,
    {
        push_hex2(out, s[i]);
        proof {
            let t = s@.take(i as int + 1);
            assert(t.drop_last() =~= s@.take(i as int));
        }
        i += 1;
        assert(out@ =~= old(out)@ + hex_pairs(s@.take(i as int)));
    }
    assert(s@.take(s@.len() as int) =~= s@);
}

proof fn lemma_hex_pairs_ascii(s: Seq<u8>)
    ensures
        crate::text::all_ascii(hex_pairs(s)),
    decreases s.len(),
{
    if s.len() > 0 {
        lemma_hex_pairs_ascii(s.drop_last());
        let a = hex_pairs(s.drop_last());
        let b = hex2(s.last());
        assert(hex_pairs(s) == a + b);
        assert forall|i: int| 0 <= i < hex_pairs(s).len() implies #[trigger] hex_pairs(s)[i]
            < 128 by {
            if i < a.len() {
                assert(hex_pairs(s)[i] == a[i]);
            } else {
                assert(hex_pairs(s)[i] == b[i - a.len()]);
            }
        }
    }
}

/// `0x` followed by two lowercase hex digits per octet.
pub fn hexadecimal(s: &[u8]) -> (r: String)
    ensures
        string_octets(r) == hex_text(s@),
{
    let mut out: Vec<u8> = Vec::new();
    out.push(48);
    out.push(120);
    push_hex_pairs(&mut out, s);
    proof {
        lemma_hex_pairs_ascii(s@);
        assert(out@ =~= hex_text(s@));
        assert(crate::text::all_ascii(out@));
    }
    crate::text::ascii_string(out)
}

/// The type keyword a value of tag `t` is written with; nothing for a tag
/// without one.
pub open spec fn type_keyword(t: u8) -> Seq<u8> {
    if t == ASN_INTEGER {
        "Integer".spec_bytes()
    } else if t == ASN_COUNTER {
        "Counter32".spec_bytes()
    } else if t == ASN_GAUGE {
        "Gauge32".spec_bytes()
    } else if t == ASN_TIMETICKS {
        "TimeTicks".spec_bytes()
    } else if t == asn1::ASN_UINTEGER {
        "Unsigned32".spec_bytes()
    } else if t == asn1::ASN_COUNTER64 {
        "Counter64".spec_bytes()
    } else if t == ASN_OCTET_STR {
        "String".spec_bytes()
    } else if t == ASN_IPADDRESS {
        "IPAddress".spec_bytes()
    } else if t == asn1::ASN_OPAQUE {
        "Opaque".spec_bytes()
    } else if t == asn1::ASN_NSAP {
        "NSAP".spec_bytes()
    } else if t == ASN_OBJECT_ID {
        "ObjectID".spec_bytes()
    } else if t == asn1::ASN_BIT_STR {
        "BitString".spec_bytes()
    } else if t == asn1::ASN_BOOLEAN {
        "Boolean".spec_bytes()
    } else {
        "".spec_bytes()
    }
}

/// The type keyword a value of tag `t` is written with.
pub fn type_label(t: u8) -> (r: &'static str)
    ensures
        r.spec_bytes() == type_keyword(t),
{
    if t == ASN_INTEGER {
        "Integer"
    } else if t == ASN_COUNTER {
        "Counter32"
    } else if t == ASN_GAUGE {
        "Gauge32"
    } else if t == ASN_TIMETICKS {
        "TimeTicks"
    } else if t == asn1::ASN_UINTEGER {
        "Unsigned32"
    } else if t == asn1::ASN_COUNTER64 {
        "Counter64"
    } else if t == ASN_OCTET_STR {
        "String"
    } else if t == ASN_IPADDRESS {
        "IPAddress"
    } else if t == asn1::ASN_OPAQUE {
        "Opaque"
    } else if t == asn1::ASN_NSAP {
        "NSAP"
    } else if t == ASN_OBJECT_ID {
        "ObjectID"
    } else if t == asn1::ASN_BIT_STR {
        "BitString"
    } else if t == asn1::ASN_BOOLEAN {
        "Boolean"
    } else {
        ""
    }
}

/// The octal digits of `n`, with no leading zeros.
pub open spec fn oct_digits(n: nat) -> Seq<u8>
    decreases n,
{
    if n < 8 {
        seq![(n + 48) as u8]
    } else {
        oct_digits(n / 8) + seq![((n % 8) + 48) as u8]
    }
}

/// Append the octal digits of `n`.
fn push_oct(out: &mut Vec<u8>, n: u64)
    ensures
        final(out)@ == old(out)@ + oct_digits(n as nat),
    decreases n,
{
    if n < 8 {
        out.push((n + 48) as u8);
    } else {
        push_oct(out, n / 8);
        out.push(((n % 8) + 48) as u8);
    }
    assert(final(out)@ =~= old(out)@ + oct_digits(n as nat));
}

/// The `u64` with the same bits as `v`.
pub open spec fn bits_of(v: i64) -> u64 {
    if v >= 0 {
        v as u64
    } else {
        (v + 0x1_0000_0000_0000_0000) as u64
    }
}

/// An `i64` read as the `u64` with the same bits.
fn as_bits(v: i64) -> (r: u64)
    ensures
        r == bits_of(v),
{
    if v >= 0 {
        v as u64
    } else {
        let m: u64 = if v == i64::MIN {
            0x8000_0000_0000_0000
        } else {
            (-v) as u64
        };
        (0xFFFF_FFFF_FFFF_FFFFu64 - m) + 1
    }
}

/// The low 32 bits of `n` as binary digits, most significant first.
pub open spec fn binary32(n: u64) -> Seq<u8> {
    Seq::new(32, |k: int| if (n >> ((31 - k) as u64)) & 1u64 != 0 { 49u8 } else { 48u8 })
}

/// The `d-N` shift of a DISPLAY-HINT: `N` when the hint is `d-N` and `N`
/// reads as a number, else 0.
pub open spec fn hint_shift(hint: Seq<u8>) -> nat {
    if hint.len() > 1 && hint[0] == 100 && hint[1] == 45 {
        match crate::text::dec_value(hint.skip(2)) {
            Some(v) => if v <= u64::MAX {
                v
            } else {
                0
            },
            None => 0,
        }
    } else {
        0
    }
}

/// `n` zeros.
pub open spec fn zeros(n: nat) -> Seq<u8> {
    Seq::new(n, |i: int| 48u8)
}

/// `text` with a decimal point `shift` digits from its right end, padded
/// with zeros after the point when it is shorter than that.
pub open spec fn point_shifted(text: Seq<u8>, shift: nat) -> Seq<u8> {
    if shift == 0 {
        text
    } else if shift <= text.len() {
        text.take(text.len() - shift) + seq![46u8] + text.skip(text.len() - shift)
    } else {
        seq![46u8] + zeros((shift - text.len()) as nat) + text
    }
}

/// What a DISPLAY-HINT makes of an integer, as net-snmp prints it.  A `d`
/// hint prints the magnitude in the conversion `decimal_type` names (`u`
/// unsigned, `x` hex, `o` octal, anything else signed) with the decimal
/// point of `d-N` and the sign in front; `x`, `o` and `b` print the value's
/// bits in hex, octal, or as 32 binary digits; any other hint, and none,
/// print the plain number.  The most negative value is its own magnitude.
pub open spec fn hinted(val: i64, decimal_type: u8, hint: Seq<u8>) -> Seq<u8> {
    if hint.len() == 0 || !(hint[0] == 100 || hint[0] == 120 || hint[0] == 111 || hint[0] == 98) {
        signed_digits(val as int)
    } else {
        let mag: i64 = if val < 0 && val != i64::MIN {
            (-val) as i64
        } else {
            val
        };
        let text = if hint[0] == 100 {
            if decimal_type == 117 {
                dec_digits(bits_of(mag) as nat)
            } else if decimal_type == 120 {
                hex_digits(bits_of(mag) as nat)
            } else if decimal_type == 111 {
                oct_digits(bits_of(mag) as nat)
            } else {
                signed_digits(mag as int)
            }
        } else if hint[0] == 120 {
            hex_digits(bits_of(val) as nat)
        } else if hint[0] == 111 {
            oct_digits(bits_of(val) as nat)
        } else {
            binary32(bits_of(val))
        };
        let shifted = point_shifted(text, hint_shift(hint));
        if hint[0] == 100 && val < 0 {
            seq![45u8] + shifted
        } else {
            shifted
        }
    }
}

/// Apply a DISPLAY-HINT to an integer, following net-snmp: `d` prints in
/// decimal (with `d-N` placing a decimal point N digits from the right), `x`
/// in hex, `o` in octal and `b` as 32 binary digits; any other hint prints
/// the plain number.  `decimal_type` is the conversion `d` uses: `u` for
/// unsigned, `x`, `o`, or anything else for signed.
pub fn hinted_integer(val: i64, decimal_type: u8, hint: &[u8]) -> (r: Vec<u8>)
    ensures
        r@ == hinted(val, decimal_type, hint@),
{
    let mut text: Vec<u8> = Vec::new();
    if hint.len() == 0 {
        push_signed(&mut text, val);
        return text;
    }
    let mut shift: u64 = 0;
    let mut negative = false;
    if hint[0] == 100 {
        if hint.len() > 1 && hint[1] == 45 {
            shift = match crate::text::parse_dec(hint, 2, hint.len()) {
                Some(v) => v,
                None => 0,
            };
            assert(hint@.subrange(2, hint@.len() as int) =~= hint@.skip(2));
        }
        // The magnitude; the most negative value keeps its own bits.
        let mut v = val;
        if v < 0 {
            negative = true;
            if v != i64::MIN {
                v = -v;
            }
        }
        if decimal_type == 117 {
            push_dec(&mut text, as_bits(v));
        } else if decimal_type == 120 {
            crate::text::push_hex(&mut text, as_bits(v));
        } else if decimal_type == 111 {
            push_oct(&mut text, as_bits(v));
        } else {
            push_signed(&mut text, v);
        }
    } else if hint[0] == 120 {
        crate::text::push_hex(&mut text, as_bits(val));
    } else if hint[0] == 111 {
        push_oct(&mut text, as_bits(val));
    } else if hint[0] == 98 {
        let bits = as_bits(val);
        let mut i: u64 = 32;
        while i > 0
            invariant
                i <= 32,
                text@ == binary32(bits).take(32 - i),
            decreases i,
        {
            i -= 1;
            if (bits >> i) & 1 != 0 {
                text.push(49);
            } else {
                text.push(48);
            }
            assert(text@ =~= binary32(bits).take(32 - i));
        }
    } else {
        push_signed(&mut text, val);
        return text;
    }
    assert(shift == hint_shift(hint@));
    let ghost digits = text@;
    if shift != 0 {
        let len = text.len();
        if shift <= len as u64 {
            let at = len - shift as usize;
            let mut out: Vec<u8> = Vec::new();
            let mut i: usize = 0;
            while i < len
                invariant
                    i <= len == text@.len(),
                    at < len,
                    out@ == (if i <= at {
                        text@.take(i as int)
                    } else {
                        text@.take(at as int) + seq![46u8] + text@.subrange(at as int, i as int)
                    }),
                decreases len - i,
            {
                if i == at {
                    out.push(46);
                }
                out.push(text[i]);
                i += 1;
                assert(out@ =~= (if i <= at {
                    text@.take(i as int)
                } else {
                    text@.take(at as int) + seq![46u8] + text@.subrange(at as int, i as int)
                }));
            }
            assert(text@.subrange(at as int, len as int) =~= text@.skip(at as int));
            text = out;
        } else {
            let mut s: Vec<u8> = Vec::new();
            s.push(46);
            let mut z: u64 = shift - len as u64;
            let ghost total = z;
            while z > 0
                invariant
                    z <= total,
                    s@ == seq![46u8] + zeros((total - z) as nat),
                decreases z,
            {
                s.push(48);
                z -= 1;
                assert(s@ =~= seq![46u8] + zeros((total - z) as nat));
            }
            push_all(&mut s, text.as_slice());
            text = s;
        }
    }
    assert(text@ =~= point_shifted(digits, shift as nat));
    if negative {
        let mut s: Vec<u8> = Vec::new();
        s.push(45);
        push_all(&mut s, text.as_slice());
        assert(s@ =~= seq![45u8] + point_shifted(digits, shift as nat));
        text = s;
    }
    text
}

/// What a `String` built from `b` holds: `b` when it is UTF-8, else nothing.
pub open spec fn utf8_or_empty(b: Seq<u8>) -> Seq<u8> {
    if valid_utf8(b) {
        b
    } else {
        Seq::empty()
    }
}

/// A binding's value as the decoder prints it, given the DISPLAY-HINT of its
/// object, and whether it printed as hex in place of a string.
#[verifier::opaque]
pub open spec fn value_shown(t: u8, val: Seq<u8>, hint: Option<Seq<u8>>) -> (Seq<u8>, bool) {
    if t == ASN_INTEGER {
        (
            match hint {
                Some(h) => hinted(int_value(val), 100, h),
                None => signed_digits(int_value(val) as int),
            },
            false,
        )
    } else if t == ASN_COUNTER || t == ASN_GAUGE || t == asn1::ASN_UINTEGER {
        let v = (unsigned_value(val) % 0x1_0000_0000) as u32;
        (
            match hint {
                Some(h) => hinted(v as i64, 117, h),
                None => dec_digits(v as nat),
            },
            false,
        )
    } else if t == ASN_TIMETICKS {
        (dec_digits((unsigned_value(val) % 0x1_0000_0000) as nat), false)
    } else if t == asn1::ASN_COUNTER64 {
        (dec_digits(unsigned_value(val) as nat), false)
    } else if t == ASN_OCTET_STR || t == asn1::ASN_OPAQUE || t == asn1::ASN_NSAP {
        if printable(val) {
            (seq![34u8] + val + seq![34u8], false)
        } else {
            (hex_text(val), true)
        }
    } else if t == ASN_IPADDRESS {
        (
            if val.len() >= 4 {
                crate::inet::ipv4_text(val[0], val[1], val[2], val[3])
            } else {
                Seq::empty()
            },
            false,
        )
    } else if t == ASN_OBJECT_ID {
        (
            match objid_value(val) {
                Some(o) => numeric_text(o),
                None => Seq::empty(),
            },
            false,
        )
    } else if t == asn1::ASN_BIT_STR {
        (hex_text(val), false)
    } else {
        (Seq::empty(), false)
    }
}

/// The name the decoder prints for the OID `name` (its suffix form, or
/// numeric when asked; the full form when that does not read back through
/// `resolve_oid`), and what it read back to.
#[verifier::opaque]
pub open spec fn shown_name(mib: Mib, name: Seq<u32>, numeric: bool) -> (Seq<u8>, Option<Seq<u32>>) {
    let first = utf8_or_empty(
        mib.sprint(
            name,
            if numeric {
                OidFormat::Numeric
            } else {
                OidFormat::Suffix
            },
        ),
    );
    let resolved = mib.resolved(first);
    (
        if resolved is None {
            utf8_or_empty(mib.sprint(name, OidFormat::Full))
        } else {
            first
        },
        resolved,
    )
}

/// The line the decoder prints for the binding `data`: the object's name
/// (its suffix form, or numeric when asked; the full form when the name
/// does not read back), the type keyword, the value, a `;`, and the
/// enumeration label of an integer value as a comment; nothing when `data`
/// is no binding.
pub open spec fn vbind_text(mib: Mib, data: Seq<u8>, numeric: bool) -> Seq<u8> {
    match varbind_fields(data) {
        None => Seq::empty(),
        Some(f) => {
            let name = f.0;
            let t = f.1;
            let val = f.2;
            let shown = shown_name(mib, name, numeric);
            let oid_text = shown.0;
            let resolved = shown.1;
            let node = match resolved {
                Some(o) => mib.walk(None, o, None),
                None => None,
            };
            let hint = match node {
                Some(n) => match mib.nodes@[n as int].syntax.hint {
                    Some(h) => Some(h@),
                    None => None,
                },
                None => None,
            };
            let v = value_shown(t, val, hint);
            let label = if v.1 {
                "HexString".spec_bytes()
            } else {
                type_keyword(t)
            };
            let e = if t == ASN_INTEGER {
                match node {
                    Some(n) => enum_label(mib.nodes@[n as int].syntax.enums@, int_value(val)),
                    None => None,
                }
            } else {
                None
            };
            oid_text + seq![32u8] + label + seq![32u8] + v.0 + seq![59u8] + match e {
                Some(l) => seq![32u8, 47u8, 42u8, 32u8] + l + seq![32u8, 42u8, 47u8],
                None => Seq::empty(),
            }
        },
    }
}

/// The octets a `String` holds.
pub proof fn lemma_string_octets_shown(r: String, b: Seq<u8>)
    requires
        valid_utf8(b) ==> string_octets(r) == b,
        !valid_utf8(b) ==> r@.len() == 0,
    ensures
        string_octets(r) == utf8_or_empty(b),
{
    if !valid_utf8(b) {
        assert(r@ =~= Seq::<char>::empty());
        assert(vstd::utf8::encode_utf8(r@) =~= Seq::<u8>::empty());
    }
}

/// The optional DISPLAY-HINT as a sequence.
pub open spec fn hint_view(hint: Option<&Vec<u8>>) -> Option<Seq<u8>> {
    match hint {
        Some(h) => Some(h@),
        None => None,
    }
}

/// A binding's value as the decoder prints it, and whether it printed as
/// hex in place of a string.
fn show_value(mib: &Mib, t: u8, val: &[u8], hint: Option<&Vec<u8>>) -> (r: (Vec<u8>, bool))
    requires
        mib.wf(),
    ensures
        (r.0@, r.1) == value_shown(t, val@, hint_view(hint)),
{
    reveal(value_shown);
    let ghost hv = hint_view(hint);
    let mut value_text: Vec<u8> = Vec::new();
    let mut hexed = false;
    if t == ASN_INTEGER {
        let v = asn1::parse_int(val);
        match hint {
            Some(h) => value_text = hinted_integer(v, 100, h.as_slice()),
            None => push_signed(&mut value_text, v),
        }
    } else if t == ASN_COUNTER || t == ASN_GAUGE || t == asn1::ASN_UINTEGER {
        let v = (asn1::parse_unsigned(val) % 0x1_0000_0000) as u32;
        match hint {
            Some(h) => value_text = hinted_integer(v as i64, 117, h.as_slice()),
            None => push_dec(&mut value_text, v as u64),
        }
    } else if t == ASN_TIMETICKS {
        push_dec(&mut value_text, asn1::parse_unsigned(val) % 0x1_0000_0000);
    } else if t == asn1::ASN_COUNTER64 {
        push_dec(&mut value_text, asn1::parse_unsigned(val));
    } else if t == ASN_OCTET_STR || t == asn1::ASN_OPAQUE || t == asn1::ASN_NSAP {
        if is_printable(val) {
            value_text.push(34);
            push_all(&mut value_text, val);
            value_text.push(34);
            assert(value_text@ =~= seq![34u8] + val@ + seq![34u8]);
        } else {
            hexed = true;
            value_text.push(48);
            value_text.push(120);
            push_hex_pairs(&mut value_text, val);
            assert(value_text@ =~= hex_text(val@));
        }
    } else if t == ASN_IPADDRESS {
        if val.len() >= 4 {
            crate::inet::push_ipv4_text(&mut value_text, val[0], val[1], val[2], val[3]);
            assert(value_text@ =~= crate::inet::ipv4_text(val@[0], val@[1], val@[2], val@[3]));
        }
    } else if t == ASN_OBJECT_ID {
        if let Some(o) = asn1::parse_objid_body(val) {
            let s = mib.sprint_objid(o.as_slice(), OidFormat::Numeric);
            push_all(&mut value_text, s.as_str().as_bytes());
            assert(value_text@ =~= numeric_text(o@));
        }
    } else if t == asn1::ASN_BIT_STR {
        value_text.push(48);
        value_text.push(120);
        push_hex_pairs(&mut value_text, val);
        assert(value_text@ =~= hex_text(val@));
    }
    assert(value_text@ == value_shown(t, val@, hv).0);
    assert(hexed == value_shown(t, val@, hv).1);
    (value_text, hexed)
}

/// The name the decoder prints for `name`, and what it read back to.
fn oid_name(mib: &Mib, name: &[u32], numeric: bool) -> (r: (String, Option<Vec<u32>>))
    requires
        mib.wf(),
    ensures
        string_octets(r.0) == shown_name(*mib, name@, numeric).0,
        crate::mib::oidstr::opt_seq(r.1) == shown_name(*mib, name@, numeric).1,
{
    reveal(shown_name);
    let format = if numeric {
        OidFormat::Numeric
    } else {
        OidFormat::Suffix
    };
    let mut oid_text = mib.sprint_objid(name, format);
    proof {
        lemma_string_octets_shown(oid_text, mib.sprint(name@, format));
    }
    // The printed name is read back to find the MIB node; when that fails
    // the fully qualified form is printed instead.
    let resolved = mib.resolve_oid(oid_text.as_str());
    if resolved.is_none() {
        oid_text = mib.sprint_objid(name, OidFormat::Full);
        proof {
            lemma_string_octets_shown(oid_text, mib.sprint(name@, OidFormat::Full));
        }
    }
    (oid_text, resolved)
}

/// Render a variable binding as `<oid> <Type> <value>;`, with the enumeration
/// label appended as a comment when the MIB names the integer value; nothing
/// when the octets are not a binding.
pub fn decode_vbind(mib: &Mib, data: &[u8], numeric_oids: bool) -> (r: Vec<u8>)
    requires
        mib.wf(),
    ensures
        r@ == vbind_text(*mib, data@, numeric_oids),
{
    let vb = match asn1::parse_var_op(data) {
        Some(v) => v,
        None => return Vec::new(),
    };
    let (oid_text, resolved) = oid_name(mib, vb.name.as_slice(), numeric_oids);
    let node = match &resolved {
        Some(o) => mib.get_tree(o.as_slice()),
        None => None,
    };
    let hint: Option<&Vec<u8>> = match node {
        Some(n) => match &mib.node(n).syntax.hint {
            Some(h) => Some(h),
            None => None,
        },
        None => None,
    };
    let (value_text, hexed) = show_value(mib, vb.val_type, vb.val, hint);
    let t = vb.val_type;
    let label = if hexed {
        "HexString"
    } else {
        type_label(t)
    };
    let mut out: Vec<u8> = Vec::new();
    push_all(&mut out, oid_text.as_str().as_bytes());
    out.push(32);
    push_all(&mut out, label.as_bytes());
    out.push(32);
    push_all(&mut out, value_text.as_slice());
    out.push(59);
    let ghost line = out@;
    // Only integer values can match an enumeration in the MIB.
    if t == ASN_INTEGER {
        if let Some(n) = node {
            let v = asn1::parse_int(vb.val);
            let enums = &mib.node(n).syntax.enums;
            match crate::mib::render::find_enum_label(enums, v) {
                Some(k) => {
                    out.push(32);
                    out.push(47);
                    out.push(42);
                    out.push(32);
                    push_all(&mut out, enums[k].0.as_slice());
                    out.push(32);
                    out.push(42);
                    out.push(47);
                    assert(out@ =~= line + (seq![32u8, 47u8, 42u8, 32u8] + enums@[k as int].0@ + seq![
                        32u8,
                        42u8,
                        47u8,
                    ]));
                },
                None => {},
            }
        }
    }
    out
}

// ---------------------------------------------------------------------------
// What decoding a binding has to say on the side
// ---------------------------------------------------------------------------

/// A condition met while decoding that the decoder reports beside its text.
pub enum DecodeNote {
    /// The printed name of a binding's object does not read back through
    /// `resolve_oid` (the MIBs may not be installed).
    UnknownOid(Vec<u8>),
    /// A binding's value has a type the decoder does not show.
    BadType(u8),
    /// An object identifier could not be read.
    OidParseError,
}

/// A note as plain values.
pub enum NoteSpec {
    UnknownOid(Seq<u8>),
    BadType(u8),
    OidParseError,
}

pub open spec fn note_view(n: DecodeNote) -> NoteSpec {
    match n {
        DecodeNote::UnknownOid(t) => NoteSpec::UnknownOid(t@),
        DecodeNote::BadType(b) => NoteSpec::BadType(b),
        DecodeNote::OidParseError => NoteSpec::OidParseError,
    }
}

pub open spec fn notes_view(v: Seq<DecodeNote>) -> Seq<NoteSpec> {
    Seq::new(v.len(), |i: int| note_view(v[i]))
}

/// Whether the decoder has a way to show a value of type `t` (possibly as
/// nothing, for the null and exception types).
pub open spec fn shown_type(t: u8) -> bool {
    t == ASN_INTEGER || t == ASN_COUNTER || t == ASN_GAUGE || t == asn1::ASN_UINTEGER || t
        == ASN_TIMETICKS || t == asn1::ASN_COUNTER64 || t == ASN_OCTET_STR || t == asn1::ASN_OPAQUE
        || t == asn1::ASN_NSAP || t == ASN_IPADDRESS || t == ASN_OBJECT_ID || t == asn1::ASN_BIT_STR
        || t == asn1::ASN_NULL || t == asn1::SNMP_NOSUCHOBJECT || t == asn1::SNMP_NOSUCHINSTANCE
        || t == asn1::SNMP_ENDOFMIBVIEW
}

/// What decoding the binding `data` reports: that the object's printed name
/// (its suffix form, or numeric when asked) does not read back, then that
/// the value's type is not one it shows.
pub open spec fn vbind_notes(mib: Mib, data: Seq<u8>, numeric: bool) -> Seq<NoteSpec> {
    match varbind_fields(data) {
        None => Seq::empty(),
        Some(f) => {
            let first = utf8_or_empty(
                mib.sprint(
                    f.0,
                    if numeric {
                        OidFormat::Numeric
                    } else {
                        OidFormat::Suffix
                    },
                ),
            );
            (if mib.resolved(first) is None {
                seq![NoteSpec::UnknownOid(first)]
            } else {
                Seq::empty()
            }) + (if shown_type(f.1) {
                Seq::empty()
            } else {
                seq![NoteSpec::BadType(f.1)]
            })
        },
    }
}

/// What decoding the object identifier `data` reports: that it cannot be
/// read.
pub open spec fn oid_notes(data: Seq<u8>) -> Seq<NoteSpec> {
    if oid_in(data) is None {
        seq![NoteSpec::OidParseError]
    } else {
        Seq::empty()
    }
}

/// The notes decoding the binding `data` gives, in order.
pub fn decode_vbind_notes(mib: &Mib, data: &[u8], numeric_oids: bool) -> (r: Vec<DecodeNote>)
    requires
        mib.wf(),
    ensures
        notes_view(r@) == vbind_notes(*mib, data@, numeric_oids),
{
    let mut out: Vec<DecodeNote> = Vec::new();
    let vb = match asn1::parse_var_op(data) {
        Some(v) => v,
        None => {
            assert(notes_view(out@) =~= Seq::<NoteSpec>::empty());
            return out;
        },
    };
    let format = if numeric_oids {
        OidFormat::Numeric
    } else {
        OidFormat::Suffix
    };
    let oid_text = mib.sprint_objid(vb.name.as_slice(), format);
    proof {
        lemma_string_octets_shown(oid_text, mib.sprint(vb.name@, format));
    }
    let resolved = mib.resolve_oid(oid_text.as_str());
    let ghost first = utf8_or_empty(mib.sprint(vb.name@, format));
    if resolved.is_none() {
        let text = crate::text::copy_bytes(oid_text.as_str().as_bytes());
        out.push(DecodeNote::UnknownOid(text));
    }
    let ghost head = notes_view(out@);
    assert(head =~= (if mib.resolved(first) is None {
        seq![NoteSpec::UnknownOid(first)]
    } else {
        Seq::<NoteSpec>::empty()
    }));
    let t = vb.val_type;
    let known = t == ASN_INTEGER || t == ASN_COUNTER || t == ASN_GAUGE || t == asn1::ASN_UINTEGER
        || t == ASN_TIMETICKS || t == asn1::ASN_COUNTER64 || t == ASN_OCTET_STR || t
        == asn1::ASN_OPAQUE || t == asn1::ASN_NSAP || t == ASN_IPADDRESS || t == ASN_OBJECT_ID || t
        == asn1::ASN_BIT_STR || t == asn1::ASN_NULL || t == asn1::SNMP_NOSUCHOBJECT || t
        == asn1::SNMP_NOSUCHINSTANCE || t == asn1::SNMP_ENDOFMIBVIEW;
    if !known {
        out.push(DecodeNote::BadType(t));
    }
    assert(notes_view(out@) =~= vbind_notes(*mib, data@, numeric_oids));
    out
}

/// The notes decoding the object identifier `data` gives.
pub fn decode_snmp_oid_notes(data: &[u8]) -> (r: Vec<DecodeNote>)
    ensures
        notes_view(r@) == oid_notes(data@),
{
    let mut out: Vec<DecodeNote> = Vec::new();
    if asn1::parse_objid(data).is_none() {
        out.push(DecodeNote::OidParseError);
    }
    assert(notes_view(out@) =~= oid_notes(data@));
    out
}


/// The BER tag each SNMP value type travels under: INTEGER 0x02, OCTET
/// STRING 0x04, OBJECT IDENTIFIER 0x06, IpAddress 0x40, Counter32 0x41,
/// Gauge32 0x42 and TimeTicks 0x43.
pub open spec fn snmp_type_tag(value: VarSpec) -> u8 {
    match value {
        VarSpec::Int(_) => 0x02u8,
        VarSpec::Str(_) => 0x04u8,
        VarSpec::Oid(_) => 0x06u8,
        VarSpec::Ip(_) => 0x40u8,
        VarSpec::Counter(_) => 0x41u8,
        VarSpec::Gauge(_) => 0x42u8,
        VarSpec::TimeTicks(_) => 0x43u8,
    }
}

/// Whether the content octets `content` of a binding's value read back, with
/// the decoder's readers, as the value it was built from; `vo` is what an
/// ObjectID value names.
pub open spec fn value_reads_back(value: VarSpec, vo: Seq<u32>, content: Seq<u8>) -> bool {
    match value {
        VarSpec::Int(v) => int_value(content) == v as i64,
        VarSpec::Gauge(v) => unsigned_value(content) == sign_extended(v),
        VarSpec::Counter(v) => unsigned_value(content) == sign_extended(v),
        VarSpec::TimeTicks(v) => unsigned_value(content) == sign_extended(v),
        VarSpec::Ip(a) => content == a,
        VarSpec::Str(b) => content == b,
        VarSpec::Oid(_) => objid_value(content) == Some(vo),
    }
}

/// A binding that `build_vbind` builds parses back with `parse_var_op` to the
/// object's name, the BER tag of the value's SNMP type, and content octets
/// that read back as the value, for every binding that fits in a short-form
/// SEQUENCE and whose OIDs the encoder can tell apart again.
pub proof fn law_vbind_type_round_trip(
    oid: Seq<u32>,
    value: VarSpec,
    value_oid: Option<Seq<u32>>,
    ranges: Seq<(i64, i64)>,
)
    requires
        oid.len() >= 2,
        oid[0] <= 2,
        oid[0] < 2 ==> oid[1] < 40,
        first_arcs_fit(oid),
        value is Oid ==> (value_oid matches Some(vo) ==> (vo.len() >= 2 && (vo[0] < 2 ==> vo[1]
            < 40) && first_arcs_fit(vo))),
        objid_tlv(ASN_OBJECT_ID, oid).len() + value_tlv(
            value,
            match value_oid {
                Some(vo) => vo,
                None => Seq::empty(),
            },
        ).len() < 0x80,
    ensures
        vbind_result(oid, value, value_oid, ranges) matches Ok(b) ==> (varbind_fields(b) matches Some(
            f,
        ) && f.0 == oid && f.1 == snmp_type_tag(value) && value_reads_back(
            value,
            match value_oid {
                Some(vo) => vo,
                None => Seq::empty(),
            },
            f.2,
        )),
{
    let vo = match value_oid {
        Some(vo) => vo,
        None => Seq::<u32>::empty(),
    };
    let e = Seq::<u8>::empty();
    let t = value_tlv(value, vo);
    if vbind_result(oid, value, value_oid, ranges) is Ok {
        match value {
            VarSpec::Int(v) => {
                let c = int_content(v as i64);
                law_tlv_round_trip(ASN_INTEGER, c, e);
                assert(t + e =~= t);
                asn1::law_int_round_trip(v as i64);
            },
            VarSpec::Gauge(v) => {
                law_tlv_round_trip(ASN_GAUGE, unsigned_content(sign_extended(v)), e);
                assert(t + e =~= t);
                asn1::law_unsigned_round_trip(sign_extended(v));
            },
            VarSpec::Counter(v) => {
                law_tlv_round_trip(ASN_COUNTER, unsigned_content(sign_extended(v)), e);
                assert(t + e =~= t);
                asn1::law_unsigned_round_trip(sign_extended(v));
            },
            VarSpec::TimeTicks(v) => {
                law_tlv_round_trip(ASN_TIMETICKS, unsigned_content(sign_extended(v)), e);
                assert(t + e =~= t);
                asn1::law_unsigned_round_trip(sign_extended(v));
            },
            VarSpec::Ip(a) => {
                law_tlv_round_trip(ASN_IPADDRESS, a, e);
                assert(t + e =~= t);
            },
            VarSpec::Str(b) => {
                law_tlv_round_trip(ASN_OCTET_STR, b, e);
                assert(t + e =~= t);
            },
            VarSpec::Oid(_) => {
                asn1::law_objid_round_trip(vo, e);
                assert(objid_tlv(ASN_OBJECT_ID, vo) + e =~= objid_tlv(ASN_OBJECT_ID, vo));
            },
        }
        match value {
            VarSpec::Str(b) => {
                asn1::law_varbind_round_trip(oid, t, b.len() + oid.len() + 8 < 0x7f);
            },
            _ => {
                asn1::law_varbind_round_trip(oid, t, true);
            },
        }
    }
}

/// An IpAddress value prints as the dotted quad of its first four octets, in
/// order: the text reads back through `parse_ipv4` as those octets.  So does
/// the value of an IpAddress binding that `build_vbind` wrote.
pub proof fn law_ip_value_reads_back(val: Seq<u8>, hint: Option<Seq<u8>>, a: Seq<u8>)
    requires
        val.len() >= 4,
        a.len() == 4,
    ensures
        !value_shown(0x40u8, val, hint).1,
        crate::inet::ipv4_octets(value_shown(0x40u8, val, hint).0) == Some(val.subrange(0, 4)),
        ({
            let t = value_tlv(VarSpec::Ip(a), Seq::empty());
            &&& tlv_fields(t) matches Some(f) && f.0 == 0x40u8
            &&& crate::inet::ipv4_octets(value_shown(0x40u8, tlv_value(t), hint).0) == Some(a)
        }),
{
    reveal(value_shown);
    crate::inet::law_ipv4_round_trip(val[0], val[1], val[2], val[3]);
    assert(seq![val[0], val[1], val[2], val[3]] =~= val.subrange(0, 4));
    let t = value_tlv(VarSpec::Ip(a), Seq::empty());
    law_tlv_round_trip(ASN_IPADDRESS, a, Seq::empty());
    assert(t + Seq::<u8>::empty() =~= t);
    let v = tlv_value(t);
    assert(v == a);
    crate::inet::law_ipv4_round_trip(a[0], a[1], a[2], a[3]);
    assert(seq![a[0], a[1], a[2], a[3]] =~= a);
}

/// The text the decoder prints for a number or an address the encoder wrote
/// in a binding, with no DISPLAY-HINT: the signed decimal of an Integer, the
/// decimal of a Gauge32, Counter32 or TimeTicks, the dotted quad of an
/// IpAddress.
pub open spec fn value_text_of(value: VarSpec) -> Seq<u8> {
    match value {
        VarSpec::Int(v) => signed_digits(v as int),
        VarSpec::Gauge(v) => dec_digits(v as nat),
        VarSpec::Counter(v) => dec_digits(v as nat),
        VarSpec::TimeTicks(v) => dec_digits(v as nat),
        VarSpec::Ip(a) => crate::inet::ipv4_text(a[0], a[1], a[2], a[3]),
        _ => Seq::empty(),
    }
}

/// Decoding the value TLV that `build_vbind` writes for a number or an
/// address prints that number or address again.
pub proof fn law_value_tlv_shown(value: VarSpec)
    requires
        value is Int || value is Gauge || value is Counter || value is TimeTicks || value is Ip,
        value matches VarSpec::Ip(a) ==> a.len() == 4,
    ensures
        ({
            let t = value_tlv(value, Seq::empty());
            &&& tlv_fields(t) is Some
            &&& value_shown(tlv_fields(t)->Some_0.0, tlv_value(t), None) == (
                value_text_of(value),
                false,
            )
        }),
{
    reveal(value_shown);
    let e = Seq::<u8>::empty();
    let t = value_tlv(value, Seq::empty());
    assert(t + e =~= t);
    match value {
        VarSpec::Int(v) => {
            lemma_trims_shorten(asn1::be8(v as i64 as u64));
            law_tlv_round_trip(ASN_INTEGER, int_content(v as i64), e);
            asn1::law_int_round_trip(v as i64);
        },
        VarSpec::Gauge(v) => {
            lemma_trims_shorten(asn1::be8(sign_extended(v)));
            law_tlv_round_trip(ASN_GAUGE, unsigned_content(sign_extended(v)), e);
            asn1::law_unsigned_round_trip(sign_extended(v));
            lemma_sign_extended_low(v);
        },
        VarSpec::Counter(v) => {
            lemma_trims_shorten(asn1::be8(sign_extended(v)));
            law_tlv_round_trip(ASN_COUNTER, unsigned_content(sign_extended(v)), e);
            asn1::law_unsigned_round_trip(sign_extended(v));
            lemma_sign_extended_low(v);
        },
        VarSpec::TimeTicks(v) => {
            lemma_trims_shorten(asn1::be8(sign_extended(v)));
            law_tlv_round_trip(ASN_TIMETICKS, unsigned_content(sign_extended(v)), e);
            asn1::law_unsigned_round_trip(sign_extended(v));
            lemma_sign_extended_low(v);
        },
        VarSpec::Ip(a) => {
            law_tlv_round_trip(ASN_IPADDRESS, a, e);
        },
        _ => {},
    }
}

/// Trimming never lengthens.
proof fn lemma_trims_shorten(s: Seq<u8>)
    ensures
        asn1::trim_signed(s).len() <= s.len(),
        asn1::trim_zeros(s).len() <= s.len(),
    decreases s.len(),
{
    if s.len() > 1 {
        lemma_trims_shorten(s.drop_first());
    }
}

/// The low 32 bits of a sign-extended value are the value.
proof fn lemma_sign_extended_low(v: u32)
    ensures
        sign_extended(v) as nat % 0x1_0000_0000 == v as nat,
{
    if v >= 0x8000_0000 {
        let x: int = v as int + 0xFFFF_FFFF * 0x1_0000_0000;
        assert(x % 0x1_0000_0000 == v as int) by (nonlinear_arith)
            requires
                x == v as int + 0xFFFF_FFFF * 0x1_0000_0000,
                0 <= v < 0x1_0000_0000,
        ;
    }
}

} // verus!
