//! Minimal ASN.1 BER encoding and decoding for SNMP variable bindings.
//!
//! Covers the subset of BER a DOCSIS configuration file carries in its SNMP
//! settings, including the DOCSIS-specific quirk of forcing a short-form
//! length on the varbind SEQUENCE so that a binding fits in a single TLV.
use vstd::prelude::*;

verus! {

pub const ASN_BOOLEAN: u8 = 0x01;
pub const ASN_INTEGER: u8 = 0x02;
pub const ASN_BIT_STR: u8 = 0x03;
pub const ASN_OCTET_STR: u8 = 0x04;
pub const ASN_NULL: u8 = 0x05;
pub const ASN_OBJECT_ID: u8 = 0x06;
pub const ASN_SEQUENCE: u8 = 0x30;

pub const ASN_IPADDRESS: u8 = 0x40;
pub const ASN_COUNTER: u8 = 0x41;
pub const ASN_GAUGE: u8 = 0x42;
pub const ASN_TIMETICKS: u8 = 0x43;
pub const ASN_OPAQUE: u8 = 0x44;
pub const ASN_NSAP: u8 = 0x45;
pub const ASN_COUNTER64: u8 = 0x46;
pub const ASN_UINTEGER: u8 = 0x47;

pub const SNMP_NOSUCHOBJECT: u8 = 0x80;
pub const SNMP_NOSUCHINSTANCE: u8 = 0x81;
pub const SNMP_ENDOFMIBVIEW: u8 = 0x82;

// ---------------------------------------------------------------------------
// Specifications
// ---------------------------------------------------------------------------

/// The BER length octets for `len`: the short form below 128, then one or two
/// length octets.  Lengths above 0xFFFF keep only their low sixteen bits.
pub open spec fn length_octets(len: nat) -> Seq<u8> {
    if len < 0x80 {
        seq![len as u8]
    } else if len <= 0xFF {
        seq![0x81u8, len as u8]
    } else {
        seq![0x82u8, ((len / 256) % 256) as u8, (len % 256) as u8]
    }
}

/// A tag followed by its length octets.
pub open spec fn header_octets(tag: u8, len: nat) -> Seq<u8> {
    seq![tag] + length_octets(len)
}

/// The eight big-endian octets of a 64-bit pattern.
pub open spec fn be8(x: u64) -> Seq<u8> {
    Seq::new(8, |i: int| ((x >> ((56 - 8 * i) as u64)) & 0xFF) as u8)
}

/// Whether the octet at `j` only replicates the sign bit of the one after it.
pub open spec fn sign_octet_at(s: Seq<u8>, j: int) -> bool {
    (s[j] == 0 && s[j + 1] < 0x80) || (s[j] == 0xFF && s[j + 1] >= 0x80)
}

/// Drop leading octets that only replicate the sign bit of the next one.
pub open spec fn trim_signed(s: Seq<u8>) -> Seq<u8>
    decreases s.len(),
{
    if s.len() > 1 && ((s[0] == 0 && s[1] < 0x80) || (s[0] == 0xFF && s[1] >= 0x80)) {
        trim_signed(s.drop_first())
    } else {
        s
    }
}

/// Drop leading zero octets, keeping at least one.
pub open spec fn trim_zeros(s: Seq<u8>) -> Seq<u8>
    decreases s.len(),
{
    if s.len() > 1 && s[0] == 0 {
        trim_zeros(s.drop_first())
    } else {
        s
    }
}

/// The content octets of a signed INTEGER: two's complement, minimal length.
pub open spec fn int_content(v: i64) -> Seq<u8> {
    trim_signed(be8(v as u64))
}

/// The content octets of an unsigned value: minimal big-endian octets, with a
/// zero octet in front when the first one would otherwise read as negative.
pub open spec fn unsigned_content(v: u64) -> Seq<u8> {
    let t = trim_zeros(be8(v));
    if t[0] >= 0x80 {
        seq![0u8] + t
    } else {
        t
    }
}

/// The continuation octets (high bit set) that carry `x` in base 128.
pub open spec fn cont_octets(x: nat) -> Seq<u8>
    decreases x,
{
    if x < 128 {
        seq![(x + 128) as u8]
    } else {
        cont_octets(x / 128) + seq![((x % 128) + 128) as u8]
    }
}

/// One sub-identifier in base 128, high bit set on every octet but the last.
pub open spec fn subid_octets(x: nat) -> Seq<u8> {
    if x < 128 {
        seq![x as u8]
    } else {
        cont_octets(x / 128) + seq![(x % 128) as u8]
    }
}

/// The sub-identifiers of `s`, one after another.
pub open spec fn subids_octets(s: Seq<u32>) -> Seq<u8>
    decreases s.len(),
{
    if s.len() == 0 {
        Seq::empty()
    } else {
        subids_octets(s.drop_last()) + subid_octets(s.last() as nat)
    }
}

/// The sub-identifiers written for an OID: the first two arcs share one.
pub open spec fn packed_subids(oid: Seq<u32>) -> Seq<u32> {
    if oid.len() == 0 {
        seq![0u32]
    } else if oid.len() == 1 {
        seq![(oid[0] * 40) as u32]
    } else {
        seq![(oid[0] * 40 + oid[1]) as u32] + oid.subrange(2, oid.len() as int)
    }
}

/// Whether `build_objid` accepts `oid`.
pub open spec fn objid_encodable(oid: Seq<u32>) -> bool {
    oid.len() == 0 || oid[0] <= 2
}

/// The content octets of an OBJECT IDENTIFIER.
pub open spec fn objid_content(oid: Seq<u32>) -> Seq<u8> {
    subids_octets(packed_subids(oid))
}

/// A complete OBJECT IDENTIFIER TLV with the given tag.
pub open spec fn objid_tlv(tag: u8, oid: Seq<u32>) -> Seq<u8> {
    header_octets(tag, objid_content(oid).len()) + objid_content(oid)
}

/// Big-endian value of a short octet string.
pub open spec fn be_value(s: Seq<u8>) -> nat
    decreases s.len(),
{
    if s.len() == 0 {
        0
    } else {
        be_value(s.drop_last()) * 256 + s.last() as nat
    }
}

/// The tag, content length and header length of the TLV at the start of `d`,
/// when its header is well formed and the content is all there.
pub open spec fn tlv_fields(d: Seq<u8>) -> Option<(u8, nat, nat)> {
    if d.len() < 2 {
        None
    } else if d[1] < 0x80 {
        if d.len() < 2 + d[1] {
            None
        } else {
            Some((d[0], d[1] as nat, 2nat))
        }
    } else {
        let count = (d[1] - 0x80) as nat;
        if count == 0 || count > 4 || d.len() < 2 + count {
            None
        } else {
            let len = be_value(d.subrange(2, 2 + count as int));
            if d.len() < 2 + count + len {
                None
            } else {
                Some((d[0], len, 2 + count))
            }
        }
    }
}

proof fn lemma_tlv_fields_bounds(d: Seq<u8>)
    ensures
        tlv_fields(d) matches Some(f) ==> 2 <= f.2 <= 6 && f.2 + f.1 <= d.len(),
{
}

/// The content octets of the TLV at the start of `d`.
pub open spec fn tlv_value(d: Seq<u8>) -> Seq<u8>
    recommends
        tlv_fields(d) is Some,
{
    let f = tlv_fields(d).unwrap();
    d.subrange(f.2 as int, (f.2 + f.1) as int)
}

/// Shift in one octet, as a 64-bit register does.
pub open spec fn shift_in(acc: u64, b: u8) -> u64 {
    (acc << 8u64) | (b as u64)
}

/// A 64-bit register after shifting in every octet of `s`, oldest first.
pub open spec fn fold_octets(acc: u64, s: Seq<u8>) -> u64
    decreases s.len(),
{
    if s.len() == 0 {
        acc
    } else {
        shift_in(fold_octets(acc, s.drop_last()), s.last())
    }
}

/// The value `parse_int` reads: sign-extended big-endian, keeping the low
/// 64 bits of longer input.
pub open spec fn int_value(s: Seq<u8>) -> i64 {
    if s.len() == 0 {
        0
    } else {
        fold_octets(if s[0] >= 0x80 { 0xFFFF_FFFF_FFFF_FFFFu64 } else { 0u64 }, s) as i64
    }
}

/// The value `parse_unsigned` reads.
pub open spec fn unsigned_value(s: Seq<u8>) -> u64 {
    fold_octets(0u64, s)
}

/// Read one base-128 sub-identifier starting at `i`, with `acc` already read.
/// Gives the value and the position after it, or `None` when the input ends
/// inside it or it does not fit in 32 bits.
pub open spec fn read_subid(s: Seq<u8>, i: int, acc: nat) -> Option<(u32, int)>
    decreases s.len() - i,
{
    if i < 0 || i >= s.len() {
        None
    } else {
        let v = acc * 128 + (s[i] % 128) as nat;
        if v > u32::MAX {
            None
        } else if s[i] < 128 {
            Some((v as u32, i + 1))
        } else {
            read_subid(s, i + 1, v)
        }
    }
}

/// Every sub-identifier from position `i` on.
pub open spec fn read_subids(s: Seq<u8>, i: int) -> Option<Seq<u32>>
    decreases s.len() - i,
{
    if i < 0 || i >= s.len() {
        Some(Seq::empty())
    } else {
        match read_subid(s, i, 0) {
            None => None,
            Some((v, j)) => if j <= i || j > s.len() {
                None
            } else {
                match read_subids(s, j) {
                    None => None,
                    Some(rest) => Some(seq![v] + rest),
                }
            },
        }
    }
}

/// Split the first sub-identifier back into two arcs, as net-snmp does.
pub open spec fn unpack_first(raw: Seq<u32>) -> Seq<u32> {
    if raw.len() == 0 {
        raw
    } else {
        let v = raw[0];
        let head = if v < 40 {
            seq![0u32, v]
        } else if v < 80 {
            seq![1u32, (v - 40) as u32]
        } else {
            seq![2u32, (v - 80) as u32]
        };
        head + raw.drop_first()
    }
}

/// The arcs an OBJECT IDENTIFIER body decodes to.
pub open spec fn objid_value(s: Seq<u8>) -> Option<Seq<u32>> {
    match read_subids(s, 0) {
        None => None,
        Some(raw) => Some(unpack_first(raw)),
    }
}

/// The SEQUENCE header `build_var_op` writes for an inner part of `len` octets.
pub open spec fn varbind_header(len: nat, short_header: bool) -> Seq<u8> {
    if short_header {
        seq![ASN_SEQUENCE, (len % 256) as u8]
    } else {
        seq![ASN_SEQUENCE, 0x82u8, ((len / 256) % 256) as u8, (len % 256) as u8]
    }
}

/// The name part of a varbind: the OID TLV, or nothing when it cannot be built.
pub open spec fn varbind_name(oid: Seq<u32>) -> Seq<u8> {
    if objid_encodable(oid) {
        objid_tlv(ASN_OBJECT_ID, oid)
    } else {
        Seq::empty()
    }
}

/// The octets `build_var_op` produces.
pub open spec fn varbind_octets(oid: Seq<u32>, val_tlv: Seq<u8>, short_header: bool) -> Seq<u8> {
    let inner = varbind_name(oid) + val_tlv;
    varbind_header(inner.len(), short_header) + inner
}

/// Whether the first arcs of `oid` do not overflow a sub-identifier.
pub open spec fn first_arcs_fit(oid: Seq<u32>) -> bool {
    oid.len() >= 2 && oid[0] <= 2 ==> oid[0] * 40 + oid[1] <= u32::MAX
}

// ---------------------------------------------------------------------------
// Encoding
// ---------------------------------------------------------------------------

/// Append a BER length in the shortest form net-snmp would use.
pub fn build_length(out: &mut Vec<u8>, len: usize)
    ensures
        final(out)@ == old(out)@ + length_octets(len as nat),
{
    if len < 0x80 {
        out.push(len as u8);
    } else if len <= 0xFF {
        out.push(0x81);
        out.push(len as u8);
    } else {
        out.push(0x82);
        let hi = ((len / 256) % 256) as u8;
        let lo = (len % 256) as u8;
        out.push(hi);
        out.push(lo);
    }
    assert(final(out)@ =~= old(out)@ + length_octets(len as nat));
}

/// Append a tag and its length octets.
pub fn build_header(out: &mut Vec<u8>, tag: u8, len: usize)
    ensures
        final(out)@ == old(out)@ + header_octets(tag, len as nat),
{
    out.push(tag);
    build_length(out, len);
    assert(final(out)@ =~= old(out)@ + header_octets(tag, len as nat));
}

/// The eight big-endian octets of `x`.
fn be_bytes(x: u64) -> (r: Vec<u8>)
    ensures
        r@ == be8(x),
{
    let mut r: Vec<u8> = Vec::new();
    let mut i: u64 = 0;
    while i < 8
        invariant
            i <= 8,
            r@.len() == i,
            forall|k: int| 0 <= k < i ==> r@[k] == be8(x)[k],
        decreases 8 - i,
    {
        let shift: u64 = 56 - 8 * i;
        r.push(((x >> shift) & 0xFF) as u8);
        i = i + 1;
    }
    assert(r@ =~= be8(x));
    r
}

proof fn lemma_trim_signed_skip(s: Seq<u8>, k: int)
    requires
        0 <= k < s.len(),
        forall|j: int| 0 <= j < k ==> #[trigger] sign_octet_at(s, j),
    ensures
        trim_signed(s) == trim_signed(s.subrange(k, s.len() as int)),
    decreases k,
{
    if k > 0 {
        assert(sign_octet_at(s, 0));
        assert forall|j: int| 0 <= j < k - 1 implies #[trigger] sign_octet_at(s.drop_first(), j) by {
            assert(sign_octet_at(s, j + 1));
        }
        lemma_trim_signed_skip(s.drop_first(), k - 1);
        assert(s.drop_first().subrange(k - 1, s.drop_first().len() as int) =~= s.subrange(
            k,
            s.len() as int,
        ));
    } else {
        assert(s.subrange(0, s.len() as int) =~= s);
    }
}

proof fn lemma_trim_zeros_skip(s: Seq<u8>, k: int)
    requires
        0 <= k < s.len(),
        forall|j: int| 0 <= j < k ==> s[j] == 0,
    ensures
        trim_zeros(s) == trim_zeros(s.subrange(k, s.len() as int)),
    decreases k,
{
    if k > 0 {
        lemma_trim_zeros_skip(s.drop_first(), k - 1);
        assert(s.drop_first().subrange(k - 1, s.drop_first().len() as int) =~= s.subrange(
            k,
            s.len() as int,
        ));
    } else {
        assert(s.subrange(0, s.len() as int) =~= s);
    }
}

/// Copy `src[start..]` onto the end of `out`.
fn push_from(out: &mut Vec<u8>, src: &Vec<u8>, start: usize)
    requires
        start <= src@.len(),
    ensures
        final(out)@ == old(out)@ + src@.subrange(start as int, src@.len() as int),
{
    let mut i = start;
    while i < src.len()
        invariant
            start <= i <= src@.len(),
            out@ == old(out)@ + src@.subrange(start as int, i as int),
        decreases src@.len() - i,
    {
        out.push(src[i]);
        i = i + 1;
        assert(out@ =~= old(out)@ + src@.subrange(start as int, i as int));
    }
}

/// Encode a signed integer with the minimum number of content octets.
pub fn build_int(out: &mut Vec<u8>, tag: u8, value: i64)
    ensures
        final(out)@ == old(out)@ + header_octets(tag, int_content(value).len()) + int_content(
            value,
        ),
        1 <= int_content(value).len() <= 8,
{
    let bytes = be_bytes(value as u64);
    let mut start: usize = 0;
    while start < 7 && ((bytes[start] == 0x00 && bytes[start + 1] & 0x80 == 0) || (bytes[start]
        == 0xFF && bytes[start + 1] & 0x80 != 0))
        invariant
            start <= 7,
            bytes@ == be8(value as u64),
            forall|j: int| 0 <= j < start ==> #[trigger] sign_octet_at(bytes@, j),
        decreases 7 - start,
    {
        let b = bytes[start + 1];
        assert(b & 0x80 == 0 <==> b < 0x80) by (bit_vector);
        start = start + 1;
    }
    let ghost s = bytes@;
    proof {
        if start < 7 {
            let b = s[start as int + 1];
            assert(b & 0x80 == 0 <==> b < 0x80) by (bit_vector);
        }
        lemma_trim_signed_skip(s, start as int);
        let t = s.subrange(start as int, 8);
        assert(!(t.len() > 1 && ((t[0] == 0 && t[1] < 0x80) || (t[0] == 0xFF && t[1] >= 0x80))));
        assert(trim_signed(t) == t);
    }
    build_header(out, tag, 8 - start);
    push_from(out, &bytes, start);
}

/// Encode an unsigned integer, prefixing a zero octet when the high bit is set.
pub fn build_unsigned_int(out: &mut Vec<u8>, tag: u8, value: u64)
    ensures
        final(out)@ == old(out)@ + header_octets(tag, unsigned_content(value).len())
            + unsigned_content(value),
        1 <= unsigned_content(value).len() <= 9,
{
    let bytes = be_bytes(value);
    let mut start: usize = 0;
    while start < 7 && bytes[start] == 0
        invariant
            start <= 7,
            bytes@ == be8(value),
            forall|j: int| 0 <= j < start ==> bytes@[j] == 0,
        decreases 7 - start,
    {
        start = start + 1;
    }
    let ghost t = bytes@.subrange(start as int, 8);
    proof {
        lemma_trim_zeros_skip(bytes@, start as int);
        assert(trim_zeros(t) == t);
    }
    if bytes[start] & 0x80 != 0 {
        let b = bytes[start];
        assert(b & 0x80 != 0 <==> b >= 0x80) by (bit_vector);
        build_header(out, tag, 9 - start);
        out.push(0);
        push_from(out, &bytes, start);
        assert(final(out)@ =~= old(out)@ + header_octets(tag, unsigned_content(value).len())
            + unsigned_content(value));
    } else {
        let b = bytes[start];
        assert(b & 0x80 != 0 <==> b >= 0x80) by (bit_vector);
        build_header(out, tag, 8 - start);
        push_from(out, &bytes, start);
    }
}

/// Append a string value with its header.
pub fn build_string(out: &mut Vec<u8>, tag: u8, value: &[u8])
    ensures
        final(out)@ == old(out)@ + header_octets(tag, value@.len()) + value@,
{
    build_header(out, tag, value.len());
    let mut i: usize = 0;
    let ghost mid = out@;
    while i < value.len()
        invariant
            i <= value@.len(),
            out@ == mid + value@.subrange(0, i as int),
        decreases value@.len() - i,
    {
        out.push(value[i]);
        i = i + 1;
        assert(out@ =~= mid + value@.subrange(0, i as int));
    }
    assert(value@.subrange(0, value@.len() as int) =~= value@);
}

proof fn lemma_div_mod_128(x: u32)
    ensures
        x >> 7u32 == x / 128,
        x & 0x7Fu32 == x % 128,
        (x & 0x7Fu32) | 0x80u32 == x % 128 + 128,
{
    assert(x >> 7u32 == x / 128) by (bit_vector);
    assert(x & 0x7Fu32 == x % 128) by (bit_vector);
    assert((x & 0x7Fu32) | 0x80u32 == (x & 0x7Fu32) + 128) by (bit_vector);
}

/// Append the continuation octets that carry `x`.
fn encode_cont(out: &mut Vec<u8>, x: u32)
    ensures
        final(out)@ == old(out)@ + cont_octets(x as nat),
    decreases x,
{
    proof {
        lemma_div_mod_128(x);
    }
    if x < 128 {
        out.push((x | 0x80) as u8);
        assert((x | 0x80u32) == x + 128) by (bit_vector)
            requires
                x < 128,
        ;
    } else {
        encode_cont(out, x >> 7);
        out.push(((x & 0x7F) | 0x80) as u8);
    }
    assert(final(out)@ =~= old(out)@ + cont_octets(x as nat));
}

/// Append one sub-identifier in base 128.
fn encode_subid(out: &mut Vec<u8>, v: u32)
    ensures
        final(out)@ == old(out)@ + subid_octets(v as nat),
{
    proof {
        lemma_div_mod_128(v);
    }
    if v < 128 {
        out.push(v as u8);
    } else {
        encode_cont(out, v >> 7);
        out.push((v & 0x7F) as u8);
    }
    assert(final(out)@ =~= old(out)@ + subid_octets(v as nat));
}

/// The content octets of an OBJECT IDENTIFIER.
fn objid_body(oid: &[u32]) -> (r: Vec<u8>)
    requires
        first_arcs_fit(oid@),
        objid_encodable(oid@),
    ensures
        r@ == objid_content(oid@),
{
    let mut subids: Vec<u32> = Vec::new();
    if oid.len() == 0 {
        subids.push(0);
    } else if oid.len() == 1 {
        subids.push(oid[0] * 40);
    } else {
        subids.push(oid[0] * 40 + oid[1]);
        let mut k: usize = 2;
        while k < oid.len()
            invariant
                2 <= k <= oid@.len(),
                subids@ == seq![(oid@[0] * 40 + oid@[1]) as u32] + oid@.subrange(2, k as int),
            decreases oid@.len() - k,
        {
            subids.push(oid[k]);
            k = k + 1;
            assert(subids@ =~= seq![(oid@[0] * 40 + oid@[1]) as u32] + oid@.subrange(2, k as int));
        }
    }
    assert(subids@ =~= packed_subids(oid@));
    let mut body: Vec<u8> = Vec::new();
    let mut i: usize = 0;
    while i < subids.len()
        invariant
            i <= subids@.len(),
            body@ == subids_octets(subids@.subrange(0, i as int)),
        decreases subids@.len() - i,
    {
        encode_subid(&mut body, subids[i]);
        i = i + 1;
        assert(subids@.subrange(0, i as int).drop_last() =~= subids@.subrange(0, i - 1));
    }
    assert(subids@.subrange(0, subids@.len() as int) =~= subids@);
    body
}

/// Encode an object identifier, packing the first two arcs as net-snmp does.
///
/// Refuses, leaving `out` as it was, an OID whose first arc is above 2.
pub fn build_objid(out: &mut Vec<u8>, tag: u8, oid: &[u32]) -> (ok: bool)
    requires
        first_arcs_fit(oid@),
    ensures
        ok == objid_encodable(oid@),
        ok ==> final(out)@ == old(out)@ + objid_tlv(tag, oid@),
        !ok ==> final(out)@ == old(out)@,
{
    if oid.len() > 0 && oid[0] > 2 {
        return false;
    }
    let body = objid_body(oid);
    build_header(out, tag, body.len());
    push_from(out, &body, 0);
    assert(body@.subrange(0, body@.len() as int) =~= body@);
    true
}

// ---------------------------------------------------------------------------
// Decoding
// ---------------------------------------------------------------------------

/// One BER element: its tag, its content octets, and how long its header was.
pub struct Tlv<'a> {
    pub tag: u8,
    pub value: &'a [u8],
    /// Length of tag plus length octets.
    pub header_len: usize,
}

/// Read one BER tag/length pair and the value it delimits.
pub fn parse_tlv(data: &[u8]) -> (r: Option<Tlv<'_>>)
    ensures
        r is Some <==> tlv_fields(data@) is Some,
        r matches Some(t) ==> {
            let f = tlv_fields(data@).unwrap();
            &&& t.tag == f.0
            &&& t.value@.len() == f.1
            &&& t.header_len == f.2
            &&& t.value@ == tlv_value(data@)
        },
{
    if data.len() < 2 {
        return None;
    }
    let tag = data[0];
    let first = data[1];
    let len: usize;
    let header_len: usize;
    if first < 0x80 {
        len = first as usize;
        header_len = 2;
    } else {
        let count = (first - 0x80) as usize;
        if count == 0 || count > 4 || data.len() < 2 + count {
            return None;
        }
        let mut acc: u64 = 0;
        let mut i: usize = 0;
        while i < count
            invariant
                count <= 4,
                2 + count <= data@.len(),
                i <= count,
                acc == be_value(data@.subrange(2, 2 + i as int)),
                acc < pow256(i as nat),
            decreases count - i,
        {
            proof {
                lemma_pow256_step(i as nat);
                lemma_pow256_bound(i as nat);
            }
            let b = data[2 + i];
            assert(data@.subrange(2, 2 + i + 1).drop_last() =~= data@.subrange(2, 2 + i as int));
            acc = acc * 256 + b as u64;
            i = i + 1;
        }
        proof {
            lemma_pow256_bound(count as nat);
        }
        if (data.len() as u64) < 2 + count as u64 + acc {
            return None;
        }
        len = acc as usize;
        header_len = 2 + count;
    }
    if data.len() - header_len < len {
        return None;
    }
    Some(Tlv { tag, value: slice_range(data, header_len, header_len + len), header_len })
}

/// `pow256(n)` is 256 to the power `n`.
pub open spec fn pow256(n: nat) -> nat
    decreases n,
{
    if n == 0 {
        1
    } else {
        256 * pow256((n - 1) as nat)
    }
}

proof fn lemma_pow256_step(n: nat)
    ensures
        pow256(n + 1) == 256 * pow256(n),
{
}

proof fn lemma_pow256_bound(n: nat)
    requires
        n <= 4,
    ensures
        pow256(n) <= 0x1_0000_0000,
{
    reveal_with_fuel(pow256, 5);
}

/// The sub-slice `s[lo..hi]`.
pub fn slice_range(s: &[u8], lo: usize, hi: usize) -> (r: &[u8])
    requires
        lo <= hi <= s@.len(),
    ensures
        r@ == s@.subrange(lo as int, hi as int),
{
    let (_, tail) = s.split_at(lo);
    let (mid, _) = tail.split_at(hi - lo);
    assert(mid@ =~= s@.subrange(lo as int, hi as int));
    mid
}

/// The signed value of BER INTEGER content octets.
pub fn parse_int(value: &[u8]) -> (r: i64)
    ensures
        r == int_value(value@),
{
    if value.len() == 0 {
        return 0;
    }
    let first = value[0];
    let mut out: u64 = if first & 0x80 != 0 {
        0xFFFF_FFFF_FFFF_FFFF
    } else {
        0
    };
    assert(first & 0x80 != 0 <==> first >= 0x80) by (bit_vector);
    let ghost init = out;
    let mut i: usize = 0;
    while i < value.len()
        invariant
            i <= value@.len(),
            out == fold_octets(init, value@.subrange(0, i as int)),
        decreases value@.len() - i,
    {
        let b = value[i];
        assert(value@.subrange(0, i + 1).drop_last() =~= value@.subrange(0, i as int));
        out = (out << 8u64) | b as u64;
        i = i + 1;
    }
    assert(value@.subrange(0, value@.len() as int) =~= value@);
    out as i64
}

/// The unsigned value of big-endian content octets, keeping the low 64 bits.
pub fn parse_unsigned(value: &[u8]) -> (r: u64)
    ensures
        r == unsigned_value(value@),
{
    let mut out: u64 = 0;
    let mut i: usize = 0;
    while i < value.len()
        invariant
            i <= value@.len(),
            out == fold_octets(0u64, value@.subrange(0, i as int)),
        decreases value@.len() - i,
    {
        let b = value[i];
        assert(value@.subrange(0, i + 1).drop_last() =~= value@.subrange(0, i as int));
        out = (out << 8u64) | b as u64;
        i = i + 1;
    }
    assert(value@.subrange(0, value@.len() as int) =~= value@);
    out
}

/// Read the sub-identifier at `i`.
fn read_one_subid(value: &[u8], i: usize) -> (r: Option<(u32, usize)>)
    requires
        i < value@.len(),
    ensures
        match r {
            None => read_subid(value@, i as int, 0) is None,
            Some((v, j)) => read_subid(value@, i as int, 0) == Some((v, j as int)),
        },
{
    let mut v: u32 = 0;
    let mut k: usize = i;
    loop
        invariant
            i <= k <= value@.len(),
            read_subid(value@, i as int, 0) == read_subid(value@, k as int, v as nat),
        decreases value@.len() - k,
    {
        if k >= value.len() {
            return None;
        }
        let b = value[k];
        k = k + 1;
        let low = (b & 0x7F) as u32;
        assert(b & 0x7F == b % 128) by (bit_vector);
        assert(b & 0x80 == 0 <==> b < 128) by (bit_vector);
        let m = match v.checked_mul(128) {
            Some(m) => m,
            None => return None,
        };
        let n = match m.checked_add(low) {
            Some(n) => n,
            None => return None,
        };
        v = n;
        if b & 0x80 == 0 {
            return Some((v, k));
        }
    }
}

proof fn lemma_read_subid_advances(s: Seq<u8>, i: int, acc: nat)
    ensures
        read_subid(s, i, acc) matches Some((v, j)) ==> i < j <= s.len(),
    decreases s.len() - i,
{
    if 0 <= i < s.len() {
        let v = acc * 128 + (s[i] % 128) as nat;
        if v <= u32::MAX && s[i] >= 128 {
            lemma_read_subid_advances(s, i + 1, v);
        }
    }
}

/// Decode the contents of an OBJECT IDENTIFIER, unpacking the first two arcs.
pub fn parse_objid_body(value: &[u8]) -> (r: Option<Vec<u32>>)
    ensures
        match r {
            None => objid_value(value@) is None,
            Some(v) => objid_value(value@) == Some(v@),
        },
{
    let mut raw: Vec<u32> = Vec::new();
    let mut i: usize = 0;
    while i < value.len()
        invariant
            i <= value@.len(),
            read_subids(value@, 0) == match read_subids(value@, i as int) {
                None => None,
                Some(rest) => Some(raw@ + rest),
            },
        decreases value@.len() - i,
    {
        proof {
            lemma_read_subid_advances(value@, i as int, 0);
        }
        match read_one_subid(value, i) {
            None => {
                return None;
            },
            Some((v, j)) => {
                proof {
                    let rest = read_subids(value@, j as int);
                    if let Some(rr) = rest {
                        assert(raw@ + (seq![v] + rr) =~= raw@.push(v) + rr);
                    }
                }
                raw.push(v);
                i = j;
            },
        }
    }
    assert(raw@ + Seq::<u32>::empty() =~= raw@);
    let mut out: Vec<u32> = Vec::new();
    if raw.len() > 0 {
        let v = raw[0];
        if v < 40 {
            out.push(0);
            out.push(v);
        } else if v < 80 {
            out.push(1);
            out.push(v - 40);
        } else {
            out.push(2);
            out.push(v - 80);
        }
        let mut k: usize = 1;
        let ghost head = out@;
        while k < raw.len()
            invariant
                1 <= k <= raw@.len(),
                out@ == head + raw@.subrange(1, k as int),
            decreases raw@.len() - k,
        {
            out.push(raw[k]);
            k = k + 1;
            assert(out@ =~= head + raw@.subrange(1, k as int));
        }
        assert(raw@.subrange(1, raw@.len() as int) =~= raw@.drop_first());
        assert(out@ =~= unpack_first(raw@));
    } else {
        assert(out@ =~= unpack_first(raw@));
    }
    Some(out)
}

/// Parse a complete OBJECT IDENTIFIER TLV.
pub fn parse_objid(data: &[u8]) -> (r: Option<Vec<u32>>)
    ensures
        match r {
            None => !(tlv_fields(data@) matches Some(f) && f.0 == ASN_OBJECT_ID && objid_value(
                tlv_value(data@),
            ) is Some),
            Some(v) => tlv_fields(data@) matches Some(f) && f.0 == ASN_OBJECT_ID && objid_value(
                tlv_value(data@),
            ) == Some(v@),
        },
{
    let tlv = match parse_tlv(data) {
        Some(t) => t,
        None => return None,
    };
    if tlv.tag != ASN_OBJECT_ID {
        return None;
    }
    parse_objid_body(tlv.value)
}

/// One decoded SNMP variable binding.
pub struct VarBind<'a> {
    pub name: Vec<u32>,
    pub val_type: u8,
    pub val: &'a [u8],
}

/// What `parse_var_op` reads from `d`: the name, the value's tag and the
/// value's content octets.
pub open spec fn varbind_fields(d: Seq<u8>) -> Option<(Seq<u32>, u8, Seq<u8>)> {
    match tlv_fields(d) {
        None => None,
        Some(seq_f) => if seq_f.0 != ASN_SEQUENCE {
            None
        } else {
            let body = tlv_value(d);
            match tlv_fields(body) {
                None => None,
                Some(name_f) => if name_f.0 != ASN_OBJECT_ID {
                    None
                } else {
                    match objid_value(tlv_value(body)) {
                        None => None,
                        Some(name) => {
                            let rest = body.subrange((name_f.2 + name_f.1) as int, body.len() as int);
                            match tlv_fields(rest) {
                                None => None,
                                Some(val_f) => Some((name, val_f.0, tlv_value(rest))),
                            }
                        },
                    }
                },
            }
        },
    }
}

/// Parse `SEQUENCE { OBJECT IDENTIFIER, value }`, the shape of TLV 11's payload.
pub fn parse_var_op(data: &[u8]) -> (r: Option<VarBind<'_>>)
    ensures
        r is Some <==> varbind_fields(data@) is Some,
        r matches Some(vb) ==> varbind_fields(data@) == Some((vb.name@, vb.val_type, vb.val@)),
{
    let seq = match parse_tlv(data) {
        Some(t) => t,
        None => return None,
    };
    if seq.tag != ASN_SEQUENCE {
        return None;
    }
    let body = seq.value;
    let name_tlv = match parse_tlv(body) {
        Some(t) => t,
        None => return None,
    };
    if name_tlv.tag != ASN_OBJECT_ID {
        return None;
    }
    let name = match parse_objid_body(name_tlv.value) {
        Some(n) => n,
        None => return None,
    };
    proof {
        lemma_tlv_fields_bounds(body@);
        let f = tlv_fields(body@).unwrap();
        assert(name_tlv.header_len == f.2);
        assert(name_tlv.value@.len() == f.1);
        assert(f.2 + f.1 <= body@.len());
    }
    let hl = name_tlv.header_len;
    let vl = name_tlv.value.len();
    let bl = body.len();
    assert(hl + vl <= bl);
    let rest = slice_range(body, hl + vl, bl);
    let val_tlv = match parse_tlv(rest) {
        Some(t) => t,
        None => return None,
    };
    Some(VarBind { name, val_type: val_tlv.tag, val: val_tlv.value })
}

/// Build a variable binding TLV from an OID and an already-encoded value TLV.
///
/// `short_header` selects the DOCSIS-specific two-octet SEQUENCE header for
/// bindings that fit; otherwise the four-octet long form net-snmp always
/// writes is used.
pub fn build_var_op(oid: &[u32], val_tlv: &[u8], short_header: bool) -> (r: Vec<u8>)
    requires
        first_arcs_fit(oid@),
    ensures
        r@ == varbind_octets(oid@, val_tlv@, short_header),
{
    let mut inner: Vec<u8> = Vec::new();
    build_objid(&mut inner, ASN_OBJECT_ID, oid);
    build_string_body(&mut inner, val_tlv);
    let n = inner.len();
    let mut out: Vec<u8> = Vec::new();
    if short_header {
        out.push(ASN_SEQUENCE);
        out.push((n % 256) as u8);
    } else {
        out.push(ASN_SEQUENCE);
        out.push(0x82);
        out.push(((n / 256) % 256) as u8);
        out.push((n % 256) as u8);
    }
    push_from(&mut out, &inner, 0);
    assert(inner@.subrange(0, inner@.len() as int) =~= inner@);
    assert(out@ =~= varbind_octets(oid@, val_tlv@, short_header));
    out
}

/// Append the octets of `value` to `out`.
pub fn build_string_body(out: &mut Vec<u8>, value: &[u8])
    ensures
        final(out)@ == old(out)@ + value@,
{
    let mut i: usize = 0;
    while i < value.len()
        invariant
            i <= value@.len(),
            out@ == old(out)@ + value@.subrange(0, i as int),
        decreases value@.len() - i,
    {
        out.push(value[i]);
        i = i + 1;
        assert(out@ =~= old(out)@ + value@.subrange(0, i as int));
    }
    assert(value@.subrange(0, value@.len() as int) =~= value@);
}

} // verus!

verus! {

// ---------------------------------------------------------------------------
// Laws
// ---------------------------------------------------------------------------

proof fn lemma_cont_read(p: Seq<u8>, x: nat, t: Seq<u8>)
    requires
        x <= u32::MAX,
    ensures
        ({
            let s = p + cont_octets(x) + t;
            read_subid(s, p.len() as int, 0) == read_subid(
                s,
                (p.len() + cont_octets(x).len()) as int,
                x,
            )
        }),
        cont_octets(x).len() >= 1,
    decreases x,
{
    let s = p + cont_octets(x) + t;
    if x < 128 {
        assert(s[p.len() as int] == (x + 128) as u8);
    } else {
        let b = ((x % 128) + 128) as u8;
        assert(p + cont_octets(x) + t =~= p + cont_octets(x / 128) + (seq![b] + t));
        lemma_cont_read(p, x / 128, seq![b] + t);
        let i = (p.len() + cont_octets(x / 128).len()) as int;
        assert(s[i] == b);
        assert((x / 128) * 128 + (b % 128) as nat == x);
    }
}

proof fn lemma_subid_read(p: Seq<u8>, x: nat, t: Seq<u8>)
    requires
        x <= u32::MAX,
    ensures
        ({
            let s = p + subid_octets(x) + t;
            read_subid(s, p.len() as int, 0) == Some((x as u32, (p.len() + subid_octets(x).len()) as int))
        }),
        subid_octets(x).len() >= 1,
{
    let s = p + subid_octets(x) + t;
    if x < 128 {
        assert(s[p.len() as int] == x as u8);
    } else {
        let b = (x % 128) as u8;
        assert(p + subid_octets(x) + t =~= p + cont_octets(x / 128) + (seq![b] + t));
        lemma_cont_read(p, x / 128, seq![b] + t);
        let i = (p.len() + cont_octets(x / 128).len()) as int;
        assert(s[i] == b);
        assert((x / 128) * 128 + (b % 128) as nat == x);
    }
}

proof fn lemma_subids_octets_concat(a: Seq<u32>, b: Seq<u32>)
    ensures
        subids_octets(a + b) == subids_octets(a) + subids_octets(b),
    decreases b.len(),
{
    if b.len() == 0 {
        assert(a + b =~= a);
        assert(subids_octets(a) + subids_octets(b) =~= subids_octets(a));
    } else {
        assert((a + b).drop_last() =~= a + b.drop_last());
        lemma_subids_octets_concat(a, b.drop_last());
        assert(subids_octets(a) + subids_octets(b) =~= subids_octets(a) + subids_octets(
            b.drop_last(),
        ) + subid_octets(b.last() as nat));
    }
}

proof fn lemma_subids_read(vs: Seq<u32>, k: int)
    requires
        0 <= k <= vs.len(),
    ensures
        read_subids(subids_octets(vs), subids_octets(vs.take(k)).len() as int) == Some(
            vs.skip(k),
        ),
    decreases vs.len() - k,
{
    let s = subids_octets(vs);
    lemma_subids_octets_concat(vs.take(k), vs.skip(k));
    assert(vs.take(k) + vs.skip(k) =~= vs);
    let i = subids_octets(vs.take(k)).len() as int;
    if k == vs.len() {
        assert(vs.skip(k) =~= Seq::<u32>::empty());
        assert(subids_octets(vs.skip(k)) =~= Seq::<u8>::empty());
    } else {
        let p = subids_octets(vs.take(k));
        let x = vs[k];
        let t = subids_octets(vs.skip(k + 1));
        assert(vs.skip(k) =~= seq![x] + vs.skip(k + 1));
        lemma_subids_octets_concat(seq![x], vs.skip(k + 1));
        assert(seq![x].drop_last() =~= Seq::<u32>::empty());
        assert(seq![x].last() == x);
        assert(subids_octets(Seq::<u32>::empty()) =~= Seq::<u8>::empty());
        assert(subids_octets(seq![x]) =~= subid_octets(x as nat));
        assert(s =~= p + subid_octets(x as nat) + t);
        lemma_subid_read(p, x as nat, t);
        assert(vs.take(k + 1) =~= vs.take(k) + seq![x]);
        lemma_subids_octets_concat(vs.take(k), seq![x]);
        lemma_subids_read(vs, k + 1);
        assert(seq![x] + vs.skip(k + 1) =~= vs.skip(k));
    }
}

proof fn lemma_be_value_two(hi: u8, lo: u8)
    ensures
        be_value(seq![hi, lo]) == hi as nat * 256 + lo as nat,
{
    reveal_with_fuel(be_value, 3);
    assert(seq![hi, lo].drop_last() =~= seq![hi]);
    assert(seq![hi].drop_last() =~= Seq::<u8>::empty());
}

/// A header built for `len` content octets reads back as that tag and length,
/// and the content that follows it is what `parse_tlv` hands out, whatever
/// comes after.
pub proof fn law_tlv_round_trip(tag: u8, content: Seq<u8>, rest: Seq<u8>)
    requires
        content.len() <= 0xFFFF,
    ensures
        ({
            let d = header_octets(tag, content.len()) + content + rest;
            &&& tlv_fields(d) matches Some(f) && f.0 == tag && f.1 == content.len() && f.2
                == header_octets(tag, content.len()).len()
            &&& tlv_value(d) == content
        }),
{
    let n = content.len();
    let h = header_octets(tag, n);
    let d = h + content + rest;
    reveal_with_fuel(be_value, 3);
    if n < 0x80 {
    } else if n <= 0xFF {
        assert(d.subrange(2, 3) =~= seq![n as u8]);
        assert(seq![n as u8].drop_last() =~= Seq::<u8>::empty());
    } else {
        assert(d.subrange(2, 4) =~= seq![((n / 256) % 256) as u8, (n % 256) as u8]);
        lemma_be_value_two(((n / 256) % 256) as u8, (n % 256) as u8);
    }
    assert(d.subrange(h.len() as int, (h.len() + n) as int) =~= content);
}

/// Encoding an object identifier and parsing it back gives the same arcs, for
/// every OID whose first two arcs net-snmp can tell apart again.
pub proof fn law_objid_round_trip(oid: Seq<u32>, rest: Seq<u8>)
    requires
        oid.len() >= 2,
        oid[0] <= 2,
        oid[0] < 2 ==> oid[1] < 40,
        first_arcs_fit(oid),
        objid_content(oid).len() <= 0xFFFF,
    ensures
        ({
            let d = objid_tlv(ASN_OBJECT_ID, oid) + rest;
            &&& tlv_fields(d) matches Some(f) && f.0 == ASN_OBJECT_ID
            &&& objid_value(tlv_value(d)) == Some(oid)
        }),
{
    let c = objid_content(oid);
    law_tlv_round_trip(ASN_OBJECT_ID, c, rest);
    let vs = packed_subids(oid);
    lemma_subids_read(vs, 0);
    assert(vs.take(0) =~= Seq::<u32>::empty());
    assert(vs.skip(0) =~= vs);
    assert(unpack_first(vs) =~= oid);
}

proof fn lemma_fold_prepend(acc: u64, b: u8, t: Seq<u8>)
    ensures
        fold_octets(acc, seq![b] + t) == fold_octets(shift_in(acc, b), t),
    decreases t.len(),
{
    reveal_with_fuel(fold_octets, 2);
    if t.len() == 0 {
        assert(seq![b] + t =~= seq![b]);
        assert(seq![b].drop_last() =~= Seq::<u8>::empty());
    } else {
        assert((seq![b] + t).drop_last() =~= seq![b] + t.drop_last());
        assert((seq![b] + t).last() == t.last());
        lemma_fold_prepend(acc, b, t.drop_last());
    }
}

proof fn lemma_int_value_trim(s: Seq<u8>)
    requires
        s.len() >= 1,
    ensures
        int_value(trim_signed(s)) == int_value(s),
    decreases s.len(),
{
    if s.len() > 1 && ((s[0] == 0 && s[1] < 0x80) || (s[0] == 0xFF && s[1] >= 0x80)) {
        let t = s.drop_first();
        assert(s =~= seq![s[0]] + t);
        if s[0] == 0 {
            lemma_fold_prepend(0u64, 0u8, t);
            assert(shift_in(0u64, 0u8) == 0u64) by (bit_vector);
        } else {
            lemma_fold_prepend(0xFFFF_FFFF_FFFF_FFFFu64, 0xFFu8, t);
            assert(shift_in(0xFFFF_FFFF_FFFF_FFFFu64, 0xFFu8) == 0xFFFF_FFFF_FFFF_FFFFu64)
                by (bit_vector);
        }
        lemma_int_value_trim(t);
    }
}

proof fn lemma_unsigned_value_trim(s: Seq<u8>)
    requires
        s.len() >= 1,
    ensures
        unsigned_value(trim_zeros(s)) == unsigned_value(s),
    decreases s.len(),
{
    if s.len() > 1 && s[0] == 0 {
        let t = s.drop_first();
        assert(s =~= seq![0u8] + t);
        lemma_fold_prepend(0u64, 0u8, t);
        assert(shift_in(0u64, 0u8) == 0u64) by (bit_vector);
        lemma_unsigned_value_trim(t);
    }
}

proof fn lemma_fold_be8(acc: u64, x: u64)
    ensures
        fold_octets(acc, be8(x)) == x,
{
    let s = be8(x);
    let b0 = s[0];
    let b1 = s[1];
    let b2 = s[2];
    let b3 = s[3];
    let b4 = s[4];
    let b5 = s[5];
    let b6 = s[6];
    let b7 = s[7];
    assert(s =~= seq![b0, b1, b2, b3, b4, b5, b6, b7]);
    reveal_with_fuel(fold_octets, 9);
    assert(s.drop_last() =~= seq![b0, b1, b2, b3, b4, b5, b6]);
    assert(s.drop_last().drop_last() =~= seq![b0, b1, b2, b3, b4, b5]);
    assert(s.drop_last().drop_last().drop_last() =~= seq![b0, b1, b2, b3, b4]);
    assert(s.drop_last().drop_last().drop_last().drop_last() =~= seq![b0, b1, b2, b3]);
    assert(s.drop_last().drop_last().drop_last().drop_last().drop_last() =~= seq![b0, b1, b2]);
    assert(s.drop_last().drop_last().drop_last().drop_last().drop_last().drop_last() =~= seq![
        b0,
        b1,
    ]);
    assert(s.drop_last().drop_last().drop_last().drop_last().drop_last().drop_last().drop_last()
        =~= seq![b0]);
    assert(seq![b0].drop_last() =~= Seq::<u8>::empty());
    assert(b0 == ((x >> 56u64) & 0xFF) as u8);
    assert(b1 == ((x >> 48u64) & 0xFF) as u8);
    assert(b2 == ((x >> 40u64) & 0xFF) as u8);
    assert(b3 == ((x >> 32u64) & 0xFF) as u8);
    assert(b4 == ((x >> 24u64) & 0xFF) as u8);
    assert(b5 == ((x >> 16u64) & 0xFF) as u8);
    assert(b6 == ((x >> 8u64) & 0xFF) as u8);
    assert(b7 == ((x >> 0u64) & 0xFF) as u8);
    assert(shift_in(
        shift_in(
            shift_in(
                shift_in(
                    shift_in(
                        shift_in(
                            shift_in(shift_in(acc, ((x >> 56u64) & 0xFF) as u8), ((x >> 48u64) & 0xFF) as u8),
                            ((x >> 40u64) & 0xFF) as u8,
                        ),
                        ((x >> 32u64) & 0xFF) as u8,
                    ),
                    ((x >> 24u64) & 0xFF) as u8,
                ),
                ((x >> 16u64) & 0xFF) as u8,
            ),
            ((x >> 8u64) & 0xFF) as u8,
        ),
        ((x >> 0u64) & 0xFF) as u8,
    ) == x) by (bit_vector);
}

/// A signed integer encoded with `build_int` reads back with `parse_int`.
pub proof fn law_int_round_trip(v: i64)
    ensures
        int_value(int_content(v)) == v,
{
    let x = v as u64;
    lemma_int_value_trim(be8(x));
    lemma_fold_be8(0u64, x);
    lemma_fold_be8(0xFFFF_FFFF_FFFF_FFFFu64, x);
    assert((v as u64) as i64 == v) by (bit_vector);
}

/// An unsigned value encoded with `build_unsigned_int` reads back with
/// `parse_unsigned`.
pub proof fn law_unsigned_round_trip(v: u64)
    ensures
        unsigned_value(unsigned_content(v)) == v,
{
    let t = trim_zeros(be8(v));
    lemma_unsigned_value_trim(be8(v));
    lemma_fold_be8(0u64, v);
    lemma_trim_zeros_nonempty(be8(v));
    if t[0] >= 0x80 {
        lemma_fold_prepend(0u64, 0u8, t);
        assert(shift_in(0u64, 0u8) == 0u64) by (bit_vector);
    }
}

proof fn lemma_trim_zeros_nonempty(s: Seq<u8>)
    requires
        s.len() >= 1,
    ensures
        trim_zeros(s).len() >= 1,
    decreases s.len(),
{
    if s.len() > 1 && s[0] == 0 {
        lemma_trim_zeros_nonempty(s.drop_first());
    }
}

/// A variable binding built with `build_var_op` parses back with
/// `parse_var_op` to the same name and the same value, as long as its length
/// fits the header it was given.
pub proof fn law_varbind_round_trip(oid: Seq<u32>, val_tlv: Seq<u8>, short_header: bool)
    requires
        oid.len() >= 2,
        oid[0] <= 2,
        oid[0] < 2 ==> oid[1] < 40,
        first_arcs_fit(oid),
        tlv_fields(val_tlv) is Some,
        short_header ==> objid_tlv(ASN_OBJECT_ID, oid).len() + val_tlv.len() < 0x80,
        objid_tlv(ASN_OBJECT_ID, oid).len() + val_tlv.len() <= 0xFFFF,
    ensures
        varbind_fields(varbind_octets(oid, val_tlv, short_header)) == Some(
            (oid, tlv_fields(val_tlv).unwrap().0, tlv_value(val_tlv)),
        ),
{
    let name = objid_tlv(ASN_OBJECT_ID, oid);
    let inner = name + val_tlv;
    let n = inner.len();
    let d = varbind_octets(oid, val_tlv, short_header);
    let h = varbind_header(n, short_header);
    assert(varbind_name(oid) == name);
    assert(d == h + inner);
    if short_header {
        assert(d[1] == n as u8);
        assert(d.subrange(2, 2 + n as int) =~= inner);
    } else {
        assert(d.subrange(2, 4) =~= seq![((n / 256) % 256) as u8, (n % 256) as u8]);
        lemma_be_value_two(((n / 256) % 256) as u8, (n % 256) as u8);
        assert(d.subrange(4, 4 + n as int) =~= inner);
    }
    assert(tlv_value(d) =~= inner);
    law_objid_round_trip(oid, val_tlv);
    let c = objid_content(oid);
    law_tlv_round_trip(ASN_OBJECT_ID, c, val_tlv);
    let nf = tlv_fields(inner).unwrap();
    assert(inner.subrange((nf.2 + nf.1) as int, inner.len() as int) =~= val_tlv);
}

} // verus!
