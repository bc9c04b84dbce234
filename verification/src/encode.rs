//! Turning configuration-setting values into TLV value bytes.
//!
//! One function per `Enc` variant of the symbol table.  Every encoder
//! reports bad input as an error, with what the message about it needs.
use vstd::prelude::*;
use crate::ethermac::{mac_from_bytes, mac_octets};
use crate::inet::{ipv4_octets, ipv6_value, parse_ipv4, parse_ipv6};
use crate::mib::Mib;
use crate::symbol::{Enc, Symbol};
use crate::text::{
    dec_value, hex2, hex_value, parse_dec, parse_hex, parse_signed, push_all, sep_index,
    signed_dec_value, split_on, split_ranges, trim, trim_range,
};
use crate::value::{value_num, value_octets, value_text, Value};

verus! {

/// What the encoders need besides the value: the MIB, for OID values, and
/// the line being read, for messages.
pub struct Ctx<'a> {
    pub mib: &'a Mib,
    pub line: u32,
}

/// Why a value could not be encoded.
#[derive(Clone, Copy, PartialEq, Eq, Debug, Structural)]
pub enum EncodeError {
    /// A number outside the setting's range.
    OutOfRange { value: u32, low: u32, high: u32 },
    /// Text that is not an IP address (or list of them).
    BadIp,
    /// Text that is not an address followed by `/` and a port.
    BadIpPort,
    /// Text that is not a MAC address.
    BadMac,
    /// An ethermask without the `/` between address and mask.
    EthermaskFormat,
    /// The address (`false`) or mask (`true`) half of an ethermask is not a
    /// MAC address.
    BadEthermaskPart { mask: bool },
    /// A string shorter than the setting's minimum.
    StringTooShort { low: u32 },
    /// A string longer than the setting's maximum.
    StringTooLong { len: usize, high: u32 },
    /// Text that is not a `0x` hex string.
    BadHex,
    /// A hex string with fewer octets than the setting's minimum.
    HexTooShort { low: u32 },
    /// A hex string with more octets than the setting's maximum.
    HexTooLong { high: u32 },
    /// A list entry that is not a number.
    NotDigits,
    /// A list entry above 65535.
    TooBig,
    /// Fewer list entries than the setting's minimum.
    TooFewNumbers { low: u32 },
    /// More list entries than the setting's maximum.
    TooManyNumbers { high: u32 },
}

impl EncodeError {
    /// The status the program exits with on this error.
    pub fn exit_code(&self) -> (r: i32)
        ensures
            self matches EncodeError::OutOfRange { .. } ==> r == 241,
            (self is NotDigits || self is TooBig) ==> r == 245,
            !(self matches EncodeError::OutOfRange { .. } || self is NotDigits || self is TooBig)
                ==> r == 255,
    {
        match self {
            EncodeError::OutOfRange { .. } => 241,
            EncodeError::NotDigits | EncodeError::TooBig => 245,
            _ => 255,
        }
    }
}

/// Whether `v` is within the setting's range; a range of 0-0 means any.
pub open spec fn in_range(sym: Symbol, v: u32) -> bool {
    (sym.low == 0 && sym.high == 0) || (sym.low <= v && v <= sym.high)
}

/// The number a value holds, truncated to 32 bits.
pub open spec fn num32(value: Value) -> u32 {
    value_num(value) as u32
}

/// Four big-endian octets.
pub open spec fn be32(v: u32) -> Seq<u8> {
    seq![(v / 0x100_0000) as u8, ((v / 0x1_0000) % 256) as u8, ((v / 256) % 256) as u8, (v % 256) as u8]
}

/// Two big-endian octets of the low 16 bits.
pub open spec fn be16(v: nat) -> Seq<u8> {
    seq![((v / 256) % 256) as u8, (v % 256) as u8]
}

/// An encoder's result with the octets taken by their view.
pub open spec fn result_bytes(r: Result<Vec<u8>, EncodeError>) -> Result<Seq<u8>, EncodeError> {
    match r {
        Ok(b) => Ok(b@),
        Err(e) => Err(e),
    }
}

/// The result of a range-checked number encoding to `bytes`.
pub open spec fn checked(sym: Symbol, v: u32, bytes: Seq<u8>) -> Result<Seq<u8>, EncodeError> {
    if in_range(sym, v) {
        Ok(bytes)
    } else {
        Err(EncodeError::OutOfRange { value: v, low: sym.low, high: sym.high })
    }
}

/// The result of `opt`, or `err` when there is none.
pub open spec fn or_err(opt: Option<Seq<u8>>, err: EncodeError) -> Result<Seq<u8>, EncodeError> {
    match opt {
        Some(b) => Ok(b),
        None => Err(err),
    }
}

fn range_check(sym: &Symbol, v: u32) -> (r: Result<(), EncodeError>)
    ensures
        in_range(*sym, v) ==> r is Ok,
        !in_range(*sym, v) ==> r == Err::<(), EncodeError>(
            EncodeError::OutOfRange { value: v, low: sym.low, high: sym.high },
        ),
{
    if sym.low == 0 && sym.high == 0 {
        return Ok(());
    }
    if v < sym.low || v > sym.high {
        return Err(EncodeError::OutOfRange { value: v, low: sym.low, high: sym.high });
    }
    Ok(())
}

/// Four octets, big-endian, after the range check.
pub fn encode_uint(sym: &Symbol, value: &Value) -> (r: Result<Vec<u8>, EncodeError>)
    ensures
        result_bytes(r) == checked(*sym, num32(*value), be32(num32(*value))),
{
    let v = value.as_num() as u32;
    range_check(sym, v)?;
    let out = vec![(v / 0x100_0000) as u8, ((v / 0x1_0000) % 256) as u8, ((v / 256) % 256) as u8, (v % 256) as u8];
    assert(out@ =~= be32(v));
    Ok(out)
}

/// The low three octets, big-endian, with no range check.
pub fn encode_uint24(value: &Value) -> (r: Vec<u8>)
    ensures
        r@ == seq![
            ((num32(*value) / 0x1_0000) % 256) as u8,
            ((num32(*value) / 256) % 256) as u8,
            (num32(*value) % 256) as u8,
        ],
{
    let v = value.as_num() as u32;
    let out = vec![((v / 0x1_0000) % 256) as u8, ((v / 256) % 256) as u8, (v % 256) as u8];
    assert(out@ =~= seq![((v / 0x1_0000) % 256) as u8, ((v / 256) % 256) as u8, (v % 256) as u8]);
    out
}

/// Two octets, big-endian, after the range check.
pub fn encode_ushort(sym: &Symbol, value: &Value) -> (r: Result<Vec<u8>, EncodeError>)
    ensures
        result_bytes(r) == checked(*sym, num32(*value), be16(num32(*value) as nat)),
{
    let v = value.as_num() as u32;
    range_check(sym, v)?;
    let out = vec![((v / 256) % 256) as u8, (v % 256) as u8];
    assert(out@ =~= be16(v as nat));
    Ok(out)
}

/// One octet, after the range check.
pub fn encode_uchar(sym: &Symbol, value: &Value) -> (r: Result<Vec<u8>, EncodeError>)
    ensures
        result_bytes(r) == checked(*sym, num32(*value), seq![(num32(*value) % 256) as u8]),
{
    let v = value.as_num() as u32;
    range_check(sym, v)?;
    let out = vec![(v % 256) as u8];
    assert(out@ =~= seq![(v % 256) as u8]);
    Ok(out)
}

/// A dotted quad.
pub fn encode_ip(value: &Value) -> (r: Result<Vec<u8>, EncodeError>)
    ensures
        result_bytes(r) == or_err(ipv4_octets(value_text(*value)), EncodeError::BadIp),
{
    let text = value.as_text().as_bytes();
    match parse_ipv4(text) {
        Some(a) => {
            let mut out: Vec<u8> = Vec::new();
            push_all(&mut out, &a);
            Ok(out)
        },
        None => Err(EncodeError::BadIp),
    }
}

/// The octets of a comma-separated list of dotted quads, empty entries
/// skipped, when every other entry is one.
pub open spec fn ipv4_list(ps: Seq<Seq<u8>>) -> Option<Seq<u8>>
    decreases ps.len(),
{
    if ps.len() == 0 {
        Some(Seq::empty())
    } else {
        match ipv4_list(ps.drop_last()) {
            None => None,
            Some(a) => if ps.last().len() == 0 {
                Some(a)
            } else {
                match ipv4_octets(ps.last()) {
                    Some(o) => Some(a + o),
                    None => None,
                }
            },
        }
    }
}

/// A comma-separated list of dotted quads.
pub fn encode_ip_list(value: &Value) -> (r: Result<Vec<u8>, EncodeError>)
    ensures
        result_bytes(r) == or_err(ipv4_list(split_on(value_text(*value), 44)), EncodeError::BadIp),
{
    let text = value.as_text().as_bytes();
    let parts = split_ranges(text, 44);
    let ghost whole = split_on(text@, 44);
    let mut out: Vec<u8> = Vec::new();
    let mut k: usize = 0;
    while k < parts.len()
        invariant
            k <= parts@.len() == whole.len(),
            whole == split_on(text@, 44),
            text@ == value_text(*value),
            forall|i: int|
                0 <= i < parts@.len() ==> (#[trigger] parts@[i]).0 <= parts@[i].1 <= text@.len()
                    && whole[i] == text@.subrange(parts@[i].0 as int, parts@[i].1 as int),
            ipv4_list(whole.take(k as int)) == Some(out@),
        decreases parts@.len() - k,
    {
        let (lo, hi) = parts[k];
        proof {
            let t = whole.take(k as int + 1);
            assert(t.drop_last() =~= whole.take(k as int));
            assert(t.last() == whole[k as int]);
        }
        if lo < hi {
            let piece = crate::asn1::slice_range(text, lo, hi);
            match parse_ipv4(piece) {
                Some(a) => push_all(&mut out, &a),
                None => {
                    proof {
                        let t = whole.take(k as int + 1);
                        assert(piece@ == whole[k as int]);
                        assert(ipv4_list(t) is None);
                        lemma_ipv4_list_none(whole, k as int + 1);
                        assert(whole.take(whole.len() as int) =~= whole);
                    }
                    return Err(EncodeError::BadIp);
                },
            }
        }
        k += 1;
    }
    assert(whole.take(whole.len() as int) =~= whole);
    Ok(out)
}

/// Once a prefix of the list fails, the whole list fails.
proof fn lemma_ipv4_list_none(ps: Seq<Seq<u8>>, n: int)
    requires
        0 <= n <= ps.len(),
        ipv4_list(ps.take(n)) is None,
    ensures
        ipv4_list(ps) is None,
    decreases ps.len() - n,
{
    if n < ps.len() {
        let t = ps.take(n + 1);
        assert(t.drop_last() =~= ps.take(n));
        lemma_ipv4_list_none(ps, n + 1);
    } else {
        assert(ps.take(n) =~= ps);
    }
}

/// The octets of a comma-separated list of IPv6 addresses, empty entries
/// skipped; nothing when an entry is not an address.
pub open spec fn ipv6_list(ps: Seq<Seq<u8>>) -> Option<Seq<u8>>
    decreases ps.len(),
{
    if ps.len() == 0 {
        Some(Seq::empty())
    } else {
        match ipv6_list(ps.drop_last()) {
            None => None,
            Some(a) => if ps.last().len() == 0 {
                Some(a)
            } else {
                match ipv6_value(ps.last()) {
                    Some(o) => Some(a + o),
                    None => None,
                }
            },
        }
    }
}

/// Once a prefix of the list fails, the whole list fails.
proof fn lemma_ipv6_list_none(ps: Seq<Seq<u8>>, n: int)
    requires
        0 <= n <= ps.len(),
        ipv6_list(ps.take(n)) is None,
    ensures
        ipv6_list(ps) is None,
    decreases ps.len() - n,
{
    if n < ps.len() {
        let t = ps.take(n + 1);
        assert(t.drop_last() =~= ps.take(n));
        lemma_ipv6_list_none(ps, n + 1);
    } else {
        assert(ps.take(n) =~= ps);
    }
}

/// An IPv6 address.
pub fn encode_ip6(value: &Value) -> (r: Result<Vec<u8>, EncodeError>)
    ensures
        result_bytes(r) == or_err(ipv6_value(value_text(*value)), EncodeError::BadIp),
{
    let text = value.as_text().as_bytes();
    match parse_ipv6(text) {
        Some(a) => {
            let mut out: Vec<u8> = Vec::new();
            push_all(&mut out, &a);
            assert(out@ =~= a@);
            Ok(out)
        },
        None => Err(EncodeError::BadIp),
    }
}

/// A comma-separated list of IPv6 addresses, empty entries skipped.
pub fn encode_ip6_list(value: &Value) -> (r: Result<Vec<u8>, EncodeError>)
    ensures
        result_bytes(r) == or_err(ipv6_list(split_on(value_text(*value), 44)), EncodeError::BadIp),
{
    let text = value.as_text().as_bytes();
    let parts = split_ranges(text, 44);
    let ghost whole = split_on(text@, 44);
    let mut out: Vec<u8> = Vec::new();
    let mut k: usize = 0;
    while k < parts.len()
        invariant
            k <= parts@.len() == whole.len(),
            whole == split_on(text@, 44),
            text@ == value_text(*value),
            forall|i: int|
                0 <= i < parts@.len() ==> (#[trigger] parts@[i]).0 <= parts@[i].1 <= text@.len()
                    && whole[i] == text@.subrange(parts@[i].0 as int, parts@[i].1 as int),
            ipv6_list(whole.take(k as int)) == Some(out@),
        decreases parts@.len() - k,
    {
        let (lo, hi) = parts[k];
        proof {
            let t = whole.take(k as int + 1);
            assert(t.drop_last() =~= whole.take(k as int));
            assert(t.last() == whole[k as int]);
        }
        if lo < hi {
            let piece = crate::asn1::slice_range(text, lo, hi);
            match parse_ipv6(piece) {
                Some(a) => push_all(&mut out, &a),
                None => {
                    proof {
                        assert(piece@ == whole[k as int]);
                        lemma_ipv6_list_none(whole, k as int + 1);
                    }
                    return Err(EncodeError::BadIp);
                },
            }
        }
        k += 1;
    }
    assert(whole.take(whole.len() as int) =~= whole);
    Ok(out)
}

/// The prefix length one field of a prefix-list entry gives: its decimal
/// value when that is at most 255, else 0.
pub open spec fn prefix_len(f: Seq<u8>) -> u8 {
    match dec_value(f) {
        Some(v) => if v <= 255 {
            v as u8
        } else {
            0
        },
        None => 0,
    }
}

/// An entry of an IPv6 prefix list from its `/`-separated fields: the
/// address the last field that reads as one gives (all zeros when none
/// does), and the prefix length of the last field that does not.
pub open spec fn prefix_entry(fields: Seq<Seq<u8>>) -> (Seq<u8>, u8)
    decreases fields.len(),
{
    if fields.len() == 0 {
        (Seq::new(16, |i: int| 0u8), 0u8)
    } else {
        let e = prefix_entry(fields.drop_last());
        match ipv6_value(fields.last()) {
            Some(x) => (x, e.1),
            None => (e.0, prefix_len(fields.last())),
        }
    }
}

/// The octets of an IPv6 prefix list: for each non-empty entry, its
/// address and its prefix length.
pub open spec fn prefix_list(ps: Seq<Seq<u8>>) -> Seq<u8>
    decreases ps.len(),
{
    if ps.len() == 0 {
        Seq::empty()
    } else if ps.last().len() == 0 {
        prefix_list(ps.drop_last())
    } else {
        let e = prefix_entry(split_on(ps.last(), 47));
        prefix_list(ps.drop_last()) + e.0.push(e.1)
    }
}

/// The address and prefix length of one prefix-list entry.
fn prefix_list_entry(entry: &[u8]) -> (r: ([u8; 16], u8))
    ensures
        (r.0@, r.1) == prefix_entry(split_on(entry@, 47)),
{
    let fields = split_ranges(entry, 47);
    let ghost whole = split_on(entry@, 47);
    let mut addr = [0u8; 16];
    let mut prefix: u8 = 0;
    let mut f: usize = 0;
    assert(addr@ =~= Seq::new(16, |i: int| 0u8));
    while f < fields.len()
        invariant
            f <= fields@.len() == whole.len(),
            whole == split_on(entry@, 47),
            forall|i: int|
                0 <= i < fields@.len() ==> (#[trigger] fields@[i]).0 <= fields@[i].1 <= entry@.len()
                    && whole[i] == entry@.subrange(fields@[i].0 as int, fields@[i].1 as int),
            (addr@, prefix) == prefix_entry(whole.take(f as int)),
        decreases fields@.len() - f,
    {
        let (a, b) = fields[f];
        proof {
            let t = whole.take(f as int + 1);
            assert(t.drop_last() =~= whole.take(f as int));
            assert(t.last() == whole[f as int]);
        }
        match parse_ipv6(crate::asn1::slice_range(entry, a, b)) {
            Some(x) => addr = x,
            None => {
                prefix = match parse_dec(entry, a, b) {
                    Some(v) => if v <= 255 {
                        v as u8
                    } else {
                        0
                    },
                    None => 0,
                };
            },
        }
        f += 1;
    }
    assert(whole.take(whole.len() as int) =~= whole);
    (addr, prefix)
}

/// Each entry is a 16-octet address followed by a one-octet prefix length.
/// Within an entry, each `/`-separated field that reads as an address sets
/// the address and any other sets the prefix length (0 when it is not a
/// number up to 255).
pub fn encode_ip6_prefix_list(value: &Value) -> (r: Vec<u8>)
    ensures
        r@ == prefix_list(split_on(value_text(*value), 44)),
{
    let text = value.as_text().as_bytes();
    let parts = split_ranges(text, 44);
    let ghost whole = split_on(text@, 44);
    let mut out: Vec<u8> = Vec::new();
    let mut k: usize = 0;
    while k < parts.len()
        invariant
            k <= parts@.len() == whole.len(),
            whole == split_on(text@, 44),
            text@ == value_text(*value),
            forall|i: int|
                0 <= i < parts@.len() ==> (#[trigger] parts@[i]).0 <= parts@[i].1 <= text@.len()
                    && whole[i] == text@.subrange(parts@[i].0 as int, parts@[i].1 as int),
            out@ == prefix_list(whole.take(k as int)),
        decreases parts@.len() - k,
    {
        let (lo, hi) = parts[k];
        proof {
            let t = whole.take(k as int + 1);
            assert(t.drop_last() =~= whole.take(k as int));
            assert(t.last() == whole[k as int]);
        }
        if lo < hi {
            let entry = crate::asn1::slice_range(text, lo, hi);
            let (addr, prefix) = prefix_list_entry(entry);
            let ghost before = out@;
            push_all(&mut out, &addr);
            out.push(prefix);
            assert(out@ =~= before + addr@.push(prefix));
        }
        k += 1;
    }
    assert(whole.take(whole.len() as int) =~= whole);
    out
}

/// The octets of an IPv6 address, or failing that of a dotted quad.
pub open spec fn ip6_or_ip4(t: Seq<u8>) -> Option<Seq<u8>> {
    match ipv6_value(t) {
        Some(a) => Some(a),
        None => ipv4_octets(t),
    }
}

/// An IPv6 address, or failing that a dotted quad.
pub fn encode_ip_ip6(value: &Value) -> (r: Result<Vec<u8>, EncodeError>)
    ensures
        result_bytes(r) == or_err(ip6_or_ip4(value_text(*value)), EncodeError::BadIp),
{
    let text = value.as_text().as_bytes();
    if let Some(a) = parse_ipv6(text) {
        let mut out: Vec<u8> = Vec::new();
        push_all(&mut out, &a);
        assert(out@ =~= a@);
        return Ok(out);
    }
    encode_ip(value)
}

/// An address with its family: 2 and the IPv6 octets, or failing that 1
/// and the dotted quad's.
pub open spec fn family_address(t: Seq<u8>) -> Option<Seq<u8>> {
    match ipv6_value(t) {
        Some(a) => Some(seq![2u8] + a),
        None => match ipv4_octets(t) {
            Some(a) => Some(seq![1u8] + a),
            None => None,
        },
    }
}

/// An address family selector (2 for IPv6, 1 for IPv4) and the address.
pub fn encode_char_ip_ip6(value: &Value) -> (r: Result<Vec<u8>, EncodeError>)
    ensures
        result_bytes(r) == or_err(family_address(value_text(*value)), EncodeError::BadIp),
{
    let text = value.as_text().as_bytes();
    if let Some(a) = parse_ipv6(text) {
        let mut out: Vec<u8> = vec![2u8];
        push_all(&mut out, &a);
        assert(out@ =~= seq![2u8] + a@);
        return Ok(out);
    }
    match parse_ipv4(text) {
        Some(a) => {
            let mut out: Vec<u8> = vec![1u8];
            push_all(&mut out, &a);
            assert(out@ =~= seq![1u8] + a@);
            Ok(out)
        },
        None => Err(EncodeError::BadIp),
    }
}

/// The port of `address/port`: its decimal value when that is at most
/// 65535, else 0 (also when there is no port).
pub open spec fn port_of(parts: Seq<Seq<u8>>) -> nat {
    if parts.len() > 1 {
        match dec_value(parts[1]) {
            Some(v) => if v <= 65535 {
                v
            } else {
                0
            },
            None => 0,
        }
    } else {
        0
    }
}

/// The octets of `address/port`: the address (IPv6, or failing that IPv4)
/// and the port, big-endian.
pub open spec fn address_port(t: Seq<u8>) -> Option<Seq<u8>> {
    let parts = split_on(t, 47);
    match ip6_or_ip4(parts[0]) {
        Some(a) => Some(a + be16(port_of(parts))),
        None => None,
    }
}

/// An address (IPv6, or failing that IPv4) and a port after `/`, the port
/// being 0 when it is missing or not a 16-bit number.
pub fn encode_ip_ip6_port(value: &Value) -> (r: Result<Vec<u8>, EncodeError>)
    ensures
        result_bytes(r) == or_err(address_port(value_text(*value)), EncodeError::BadIpPort),
{
    let text = value.as_text().as_bytes();
    let parts = split_ranges(text, 47);
    let ghost whole = split_on(text@, 47);
    proof {
        crate::text::lemma_split_step(text@, 47);
    }
    let (alo, ahi) = parts[0];
    let addr = crate::asn1::slice_range(text, alo, ahi);
    let port: u64 = if parts.len() > 1 {
        let (plo, phi) = parts[1];
        match parse_dec(text, plo, phi) {
            Some(v) => if v <= 65535 {
                v
            } else {
                0
            },
            None => 0,
        }
    } else {
        0
    };
    assert(port == port_of(whole));
    let mut out: Vec<u8> = Vec::new();
    if let Some(a) = parse_ipv6(addr) {
        push_all(&mut out, &a);
    } else {
        match parse_ipv4(addr) {
            Some(a) => push_all(&mut out, &a),
            None => return Err(EncodeError::BadIpPort),
        }
    }
    let ghost a = out@;
    out.push(((port / 256) % 256) as u8);
    out.push((port % 256) as u8);
    assert(out@ =~= a + be16(port as nat));
    Ok(out)
}

/// A MAC address.
pub fn encode_ether(value: &Value) -> (r: Result<Vec<u8>, EncodeError>)
    ensures
        result_bytes(r) == or_err(mac_octets(value_text(*value)), EncodeError::BadMac),
{
    match mac_from_bytes(value.as_text().as_bytes()) {
        Some(m) => {
            let mut out: Vec<u8> = Vec::new();
            push_all(&mut out, &m);
            Ok(out)
        },
        None => Err(EncodeError::BadMac),
    }
}

/// The 16-bit number a trimmed entry holds, 0 when it holds none.
pub open spec fn u16_or_zero(p: Seq<u8>) -> nat {
    match dec_value(trim(p)) {
        Some(v) => if v <= 65535 {
            v
        } else {
            0
        },
        None => 0,
    }
}

fn parse_u16_or_zero(s: &[u8], lo: usize, hi: usize) -> (r: u64)
    requires
        lo <= hi <= s@.len(),
    ensures
        r == u16_or_zero(s@.subrange(lo as int, hi as int)),
{
    let (a, b) = trim_range(s, lo, hi);
    match parse_dec(s, a, b) {
        Some(v) => if v <= 65535 {
            v
        } else {
            0
        },
        None => 0,
    }
}

/// `outer,inner` packed as two big-endian 16-bit tags; a missing or
/// malformed tag is 0.
pub fn encode_dual_qtag(value: &Value) -> (r: Vec<u8>)
    ensures
        ({
            let ps = split_on(value_text(*value), 44);
            r@ == be16(u16_or_zero(ps[0])) + be16(
                if ps.len() > 1 {
                    u16_or_zero(ps[1])
                } else {
                    0
                },
            )
        }),
{
    let text = value.as_text().as_bytes();
    let parts = split_ranges(text, 44);
    let (alo, ahi) = parts[0];
    let a = parse_u16_or_zero(text, alo, ahi);
    let b: u64 = if parts.len() > 1 {
        let (blo, bhi) = parts[1];
        parse_u16_or_zero(text, blo, bhi)
    } else {
        0
    };
    let out = vec![((a / 256) % 256) as u8, (a % 256) as u8, ((b / 256) % 256) as u8, (b % 256) as u8];
    assert(out@ =~= be16(a as nat) + be16(b as nat));
    out
}

/// The octet a trimmed list entry gives: its signed value truncated to
/// eight bits, 0 when it is not a 64-bit number.
pub open spec fn char_entry(p: Seq<u8>) -> u8 {
    match signed_dec_value(trim(p)) {
        Some(v) => if i64::MIN <= v <= i64::MAX {
            (v as i64) as u8
        } else {
            0
        },
        None => 0,
    }
}

/// The octets of a comma-separated list, empty entries skipped.
pub open spec fn char_list(ps: Seq<Seq<u8>>) -> Seq<u8>
    decreases ps.len(),
{
    if ps.len() == 0 {
        Seq::empty()
    } else if ps.last().len() == 0 {
        char_list(ps.drop_last())
    } else {
        char_list(ps.drop_last()).push(char_entry(ps.last()))
    }
}

/// A comma-separated list of octets.
pub fn encode_char_list(value: &Value) -> (r: Vec<u8>)
    ensures
        r@ == char_list(split_on(value_text(*value), 44)),
{
    let text = value.as_text().as_bytes();
    let parts = split_ranges(text, 44);
    let ghost whole = split_on(text@, 44);
    let mut out: Vec<u8> = Vec::new();
    let mut k: usize = 0;
    while k < parts.len()
        invariant
            k <= parts@.len() == whole.len(),
            whole == split_on(text@, 44),
            forall|i: int|
                0 <= i < parts@.len() ==> (#[trigger] parts@[i]).0 <= parts@[i].1 <= text@.len()
                    && whole[i] == text@.subrange(parts@[i].0 as int, parts@[i].1 as int),
            out@ == char_list(whole.take(k as int)),
        decreases parts@.len() - k,
    {
        let (lo, hi) = parts[k];
        proof {
            let t = whole.take(k as int + 1);
            assert(t.drop_last() =~= whole.take(k as int));
            assert(t.last() == whole[k as int]);
        }
        if lo < hi {
            let (a, b) = trim_range(text, lo, hi);
            let v: u8 = match parse_signed(text, a, b) {
                Some(v) => v as u8,
                None => 0,
            };
            out.push(v);
        }
        k += 1;
    }
    assert(whole.take(whole.len() as int) =~= whole);
    out
}

/// What an ethermask `<mac>/<mask>` encodes to.
pub open spec fn ethermask_result(t: Seq<u8>) -> Result<Seq<u8>, EncodeError> {
    let j = sep_index(t, 47);
    if j >= t.len() {
        Err(EncodeError::EthermaskFormat)
    } else {
        match mac_octets(t.take(j)) {
            None => Err(EncodeError::BadEthermaskPart { mask: false }),
            Some(m) => match mac_octets(t.skip(j + 1)) {
                None => Err(EncodeError::BadEthermaskPart { mask: true }),
                Some(k) => Ok(m + k),
            },
        }
    }
}

/// `<mac>/<mask>`: two MAC addresses.
pub fn encode_ethermask(value: &Value) -> (r: Result<Vec<u8>, EncodeError>)
    ensures
        result_bytes(r) == ethermask_result(value_text(*value)),
{
    let text = value.as_text().as_bytes();
    let j = crate::text::find_byte(text, 0, 47);
    assert(text@.skip(0) =~= text@);
    if j >= text.len() {
        return Err(EncodeError::EthermaskFormat);
    }
    let mac = crate::asn1::slice_range(text, 0, j);
    let mask = crate::asn1::slice_range(text, j + 1, text.len());
    assert(mac@ =~= text@.take(j as int));
    assert(mask@ =~= text@.skip(j + 1));
    let mut out: Vec<u8> = Vec::new();
    match mac_from_bytes(mac) {
        Some(m) => push_all(&mut out, &m),
        None => return Err(EncodeError::BadEthermaskPart { mask: false }),
    }
    match mac_from_bytes(mask) {
        Some(m) => push_all(&mut out, &m),
        None => return Err(EncodeError::BadEthermaskPart { mask: true }),
    }
    Ok(out)
}

/// What the length check of a string or hex string gives for `len`.
pub open spec fn len_ok(sym: Symbol, len: nat) -> bool {
    (sym.low == 0 && sym.high == 0) || (sym.low <= len % 0x1_0000_0000 && len % 0x1_0000_0000
        <= sym.high)
}

fn check_string_len(sym: &Symbol, len: usize) -> (r: Result<(), EncodeError>)
    ensures
        len_ok(*sym, len as nat) ==> r is Ok,
        !len_ok(*sym, len as nat) ==> (if ((len as nat) % 0x1_0000_0000) < sym.low {
            r == Err::<(), EncodeError>(EncodeError::StringTooShort { low: sym.low })
        } else {
            r == Err::<(), EncodeError>(EncodeError::StringTooLong { len, high: sym.high })
        }),
{
    if sym.low == 0 && sym.high == 0 {
        return Ok(());
    }
    let l = (len as u64 % 0x1_0000_0000) as u32;
    if l < sym.low {
        return Err(EncodeError::StringTooShort { low: sym.low });
    }
    if sym.high < l {
        return Err(EncodeError::StringTooLong { len, high: sym.high });
    }
    Ok(())
}

/// A length-checked string encoding to `bytes`.
pub open spec fn string_result(sym: Symbol, len: nat, bytes: Seq<u8>) -> Result<Seq<u8>, EncodeError> {
    if len_ok(sym, len) {
        Ok(bytes)
    } else if len % 0x1_0000_0000 < sym.low {
        Err(EncodeError::StringTooShort { low: sym.low })
    } else {
        Err(EncodeError::StringTooLong { len: len as usize, high: sym.high })
    }
}

/// The value's octets, after the length check.
pub fn encode_string(sym: &Symbol, value: &Value) -> (r: Result<Vec<u8>, EncodeError>)
    ensures
        result_bytes(r) == string_result(*sym, value_octets(*value).len(), value_octets(*value)),
{
    let bytes = value.as_bytes();
    check_string_len(sym, bytes.len())?;
    Ok(crate::text::copy_bytes(bytes))
}

/// The value's octets and a terminating NUL, after the length check, for
/// strings that carry one (such as a Service Flow Class Name).
pub fn encode_strzero(sym: &Symbol, value: &Value) -> (r: Result<Vec<u8>, EncodeError>)
    ensures
        result_bytes(r) == string_result(
            *sym,
            value_octets(*value).len(),
            value_octets(*value).push(0),
        ),
{
    let bytes = value.as_bytes();
    check_string_len(sym, bytes.len())?;
    let mut out = crate::text::copy_bytes(bytes);
    out.push(0);
    Ok(out)
}

/// The octets of `0x`-prefixed hex text read two characters at a time, as
/// `u8::from_str_radix(.., 16)` reads each pair.
pub open spec fn hex_pairs_value(body: Seq<u8>) -> Option<Seq<u8>>
    decreases body.len(),
{
    if body.len() < 2 {
        Some(Seq::empty())
    } else {
        match hex_value(body.take(2)) {
            None => None,
            Some(v) => match hex_pairs_value(body.skip(2)) {
                None => None,
                Some(rest) => Some(seq![v as u8] + rest),
            },
        }
    }
}

/// What `parse_hexstr` reads: an even number of characters starting `0x` or
/// `0X`, then hex pairs.
pub open spec fn hexstr_value(t: Seq<u8>) -> Option<Seq<u8>> {
    if t.len() % 2 != 0 || t.len() < 2 || !(t[0] == 48 && (t[1] == 120 || t[1] == 88)) {
        None
    } else {
        hex_pairs_value(t.skip(2))
    }
}

/// Convert a `0x...` literal to bytes. The digit count must be even and the
/// prefix is required.
pub fn parse_hexstr(text: &[u8]) -> (r: Option<Vec<u8>>)
    ensures
        match hexstr_value(text@) {
            Some(v) => r matches Some(b) && b@ == v,
            None => r is None,
        },
{
    if text.len() % 2 != 0 {
        return None;
    }
    if text.len() < 2 || !(text[0] == 48 && (text[1] == 120 || text[1] == 88)) {
        return None;
    }
    let n = text.len();
    let ghost body = text@.skip(2);
    let mut out: Vec<u8> = Vec::new();
    let mut i: usize = 2;
    while i < n
        invariant
            2 <= i <= n == text@.len(),
            n % 2 == 0,
            i % 2 == 0,
            body == text@.skip(2),
            hex_pairs_value(body) == match hex_pairs_value(text@.skip(i as int)) {
                Some(rest) => Some(out@ + rest),
                None => None::<Seq<u8>>,
            },
        decreases n - i,
    {
        let ghost cur = text@.skip(i as int);
        assert(cur.take(2) =~= text@.subrange(i as int, i + 2));
        assert(cur.skip(2) =~= text@.skip(i + 2));
        match parse_hex(text, i, i + 2) {
            Some(v) => {
                proof {
                    assert(v < 256) by {
                        crate::text::lemma_hex_two_digits(text@.subrange(i as int, i + 2));
                    }
                }
                out.push(v as u8);
                proof {
                    match hex_pairs_value(text@.skip(i + 2)) {
                        Some(rest) => {
                            assert(out@ + rest =~= out@.drop_last() + (seq![v as u8] + rest));
                        },
                        None => {},
                    }
                }
            },
            None => {
                proof {
                    assert(n - i >= 2);
                    crate::text::lemma_hex_two_digits(text@.subrange(i as int, i + 2));
                    assert(hex_pairs_value(cur) is None);
                }
                return None;
            },
        }
        i += 2;
    }
    assert(text@.skip(n as int) =~= Seq::<u8>::empty());
    assert(out@ + Seq::<u8>::empty() =~= out@);
    Some(out)
}

/// What hex text encodes to, after the octet-count check.
pub open spec fn hexstr_result(sym: Symbol, t: Seq<u8>) -> Result<Seq<u8>, EncodeError> {
    match hexstr_value(t) {
        None => Err(EncodeError::BadHex),
        Some(v) => if len_ok(sym, v.len()) {
            Ok(v)
        } else if v.len() % 0x1_0000_0000 < sym.low {
            Err(EncodeError::HexTooShort { low: sym.low })
        } else {
            Err(EncodeError::HexTooLong { high: sym.high })
        },
    }
}

/// Hex text, after the octet-count check.
pub fn encode_hexstr(sym: &Symbol, value: &Value) -> (r: Result<Vec<u8>, EncodeError>)
    ensures
        result_bytes(r) == hexstr_result(*sym, value_octets(*value)),
{
    let raw = value.as_bytes();
    let bytes = match parse_hexstr(raw) {
        Some(b) => b,
        None => return Err(EncodeError::BadHex),
    };
    if sym.low != 0 || sym.high != 0 {
        let l = (bytes.len() as u64 % 0x1_0000_0000) as u32;
        if l < sym.low {
            return Err(EncodeError::HexTooShort { low: sym.low });
        }
        if sym.high < l {
            return Err(EncodeError::HexTooLong { high: sym.high });
        }
    }
    Ok(bytes)
}

/// An object identifier value, by name or number; nothing when it does not
/// resolve.
pub fn encode_oid(ctx: &Ctx, value: &Value) -> (r: Vec<u8>)
    requires
        ctx.mib.wf(),
    ensures
        r@ == match crate::snmp::snmp_oid_encoding(*ctx.mib, value_text(*value)) {
            Some(b) => b,
            None => Seq::empty(),
        },
{
    match crate::snmp::encode_snmp_oid(ctx.mib, value.as_text()) {
        Some(v) => v,
        None => Vec::new(),
    }
}

/// `s` with every space turned into a comma, so that splitting on commas
/// splits on either.
pub open spec fn spaces_to_commas(s: Seq<u8>) -> Seq<u8> {
    s.map_values(|b: u8| if b == 32 {
        44u8
    } else {
        b
    })
}

/// The numbers of a list, or the first error an entry gives.
pub open spec fn ushort_items(ps: Seq<Seq<u8>>) -> Result<Seq<nat>, EncodeError>
    decreases ps.len(),
{
    if ps.len() == 0 {
        Ok(Seq::empty())
    } else {
        match ushort_items(ps.drop_last()) {
            Err(e) => Err(e),
            Ok(a) => if ps.last().len() == 0 {
                Ok(a)
            } else {
                match dec_value(ps.last()) {
                    Some(v) => if v > u64::MAX {
                        Err(EncodeError::NotDigits)
                    } else if v > 65535 {
                        Err(EncodeError::TooBig)
                    } else {
                        Ok(a.push(v))
                    },
                    None => Err(EncodeError::NotDigits),
                }
            },
        }
    }
}

/// The big-endian 16-bit octets of each number.
pub open spec fn be16_all(vs: Seq<nat>) -> Seq<u8>
    decreases vs.len(),
{
    if vs.len() == 0 {
        Seq::empty()
    } else {
        be16_all(vs.drop_last()) + be16(vs.last())
    }
}

proof fn lemma_ushort_items_err(ps: Seq<Seq<u8>>, n: int, e: EncodeError)
    requires
        0 <= n <= ps.len(),
        ushort_items(ps.take(n)) == Err::<Seq<nat>, EncodeError>(e),
    ensures
        ushort_items(ps) == Err::<Seq<nat>, EncodeError>(e),
    decreases ps.len() - n,
{
    if n < ps.len() {
        let t = ps.take(n + 1);
        assert(t.drop_last() =~= ps.take(n));
        lemma_ushort_items_err(ps, n + 1, e);
    } else {
        assert(ps.take(n) =~= ps);
    }
}

/// What a list of 16-bit numbers encodes to, after the count check.
pub open spec fn ushort_list_result(sym: Symbol, t: Seq<u8>) -> Result<Seq<u8>, EncodeError> {
    match ushort_items(split_on(spaces_to_commas(t), 44)) {
        Err(e) => Err(e),
        Ok(vs) => if (sym.low != 0 || sym.high != 0) && vs.len() < sym.low {
            Err(EncodeError::TooFewNumbers { low: sym.low })
        } else if (sym.low != 0 || sym.high != 0) && sym.high < vs.len() {
            Err(EncodeError::TooManyNumbers { high: sym.high })
        } else {
            Ok(be16_all(vs))
        },
    }
}

/// A list of 16-bit numbers separated by commas or spaces, after the count
/// check.
pub fn encode_ushort_list(sym: &Symbol, value: &Value) -> (r: Result<Vec<u8>, EncodeError>)
    ensures
        result_bytes(r) == ushort_list_result(*sym, value_text(*value)),
{
    let text = commas_for_spaces(value.as_text().as_bytes());
    let (out, count) = ushort_values(text.as_slice())?;
    if sym.low != 0 || sym.high != 0 {
        if count < sym.low as u64 {
            return Err(EncodeError::TooFewNumbers { low: sym.low });
        }
        if (sym.high as u64) < count {
            return Err(EncodeError::TooManyNumbers { high: sym.high });
        }
    }
    Ok(out)
}

/// `raw` with every space turned into a comma.
fn commas_for_spaces(raw: &[u8]) -> (r: Vec<u8>)
    ensures
        r@ == spaces_to_commas(raw@),
{
    let mut text: Vec<u8> = Vec::new();
    let mut i: usize = 0;
    while i < raw.len()
        invariant
            i <= raw@.len(),
            text@ == spaces_to_commas(raw@.take(i as int)),
        decreases raw@.len() - i,
    {
        text.push(if raw[i] == 32 {
            44
        } else {
            raw[i]
        });
        i += 1;
        assert(text@ =~= spaces_to_commas(raw@.take(i as int)));
    }
    assert(raw@.take(raw@.len() as int) =~= raw@);
    text
}

/// The octets and the count of a comma-separated list of 16-bit numbers.
fn ushort_values(text: &[u8]) -> (r: Result<(Vec<u8>, u64), EncodeError>)
    ensures
        match ushort_items(split_on(text@, 44)) {
            Err(e) => r == Err::<(Vec<u8>, u64), EncodeError>(e),
            Ok(vs) => r matches Ok((b, c)) && b@ == be16_all(vs) && c == vs.len(),
        },
{
    let parts = split_ranges(text, 44);
    let ghost whole = split_on(text@, 44);
    let ghost mut vs: Seq<nat> = Seq::empty();
    let mut out: Vec<u8> = Vec::new();
    let mut count: u64 = 0;
    let mut k: usize = 0;
    while k < parts.len()
        invariant
            k <= parts@.len() == whole.len(),
            whole == split_on(text@, 44),
            forall|i: int|
                0 <= i < parts@.len() ==> (#[trigger] parts@[i]).0 <= parts@[i].1 <= text@.len()
                    && whole[i] == text@.subrange(parts@[i].0 as int, parts@[i].1 as int),
            ushort_items(whole.take(k as int)) == Ok::<Seq<nat>, EncodeError>(vs),
            out@ == be16_all(vs),
            count == vs.len(),
            count <= k,
        decreases parts@.len() - k,
    {
        let (lo, hi) = parts[k];
        proof {
            let t = whole.take(k as int + 1);
            assert(t.drop_last() =~= whole.take(k as int));
            assert(t.last() == whole[k as int]);
        }
        if lo < hi {
            let v = match parse_dec(text, lo, hi) {
                Some(v) => v,
                None => {
                    proof {
                        let t = whole.take(k as int + 1);
                        assert(whole[k as int].len() > 0);
                        assert(ushort_items(t) == Err::<Seq<nat>, EncodeError>(EncodeError::NotDigits));
                        lemma_ushort_items_err(whole, k as int + 1, EncodeError::NotDigits);
                    }
                    return Err(EncodeError::NotDigits);
                },
            };
            if v > 65535 {
                proof {
                    let t = whole.take(k as int + 1);
                    assert(whole[k as int].len() > 0);
                    assert(ushort_items(t) == Err::<Seq<nat>, EncodeError>(EncodeError::TooBig));
                    lemma_ushort_items_err(whole, k as int + 1, EncodeError::TooBig);
                }
                return Err(EncodeError::TooBig);
            }
            let ghost before = vs;
            out.push(((v / 256) % 256) as u8);
            out.push((v % 256) as u8);
            proof {
                vs = vs.push(v as nat);
                assert(vs.drop_last() =~= before);
            }
            assert(out@ =~= be16_all(vs));
            count += 1;
        }
        k += 1;
    }
    assert(whole.take(whole.len() as int) =~= whole);
    Ok((out, count))
}

/// What a value encodes to under `sym`, for the encodings whose result is a
/// function of the symbol and the value alone.
pub open spec fn encode_result(sym: Symbol, value: Value) -> Option<Result<Seq<u8>, EncodeError>> {
    encode_parts(sym, value_num(value), value_text(value), value_octets(value))
}

/// `encode_result` for a value given by its number, its text and its
/// octets.
pub open spec fn encode_parts(sym: Symbol, num: i64, t: Seq<u8>, octets: Seq<u8>) -> Option<
    Result<Seq<u8>, EncodeError>,
> {
    let v = num as u32;
    match sym.enc {
        Enc::Uint => Some(checked(sym, v, be32(v))),
        Enc::Uint24 => Some(Ok(seq![((v / 0x1_0000) % 256) as u8, ((v / 256) % 256) as u8, (v % 256) as u8])),
        Enc::Ushort => Some(checked(sym, v, be16(v as nat))),
        Enc::Uchar => Some(checked(sym, v, seq![(v % 256) as u8])),
        Enc::Ip => Some(or_err(ipv4_octets(t), EncodeError::BadIp)),
        Enc::IpList => Some(or_err(ipv4_list(split_on(t, 44)), EncodeError::BadIp)),
        Enc::Ip6 => Some(or_err(ipv6_value(t), EncodeError::BadIp)),
        Enc::Ip6List => Some(or_err(ipv6_list(split_on(t, 44)), EncodeError::BadIp)),
        Enc::Ip6PrefixList => Some(Ok(prefix_list(split_on(t, 44)))),
        Enc::IpIp6 => Some(or_err(ip6_or_ip4(t), EncodeError::BadIp)),
        Enc::CharIpIp6 => Some(or_err(family_address(t), EncodeError::BadIp)),
        Enc::IpIp6Port => Some(or_err(address_port(t), EncodeError::BadIpPort)),
        Enc::Lenzero => Some(Ok(Seq::empty())),
        Enc::Nothing => Some(Ok(Seq::empty())),
        Enc::Ether => Some(or_err(mac_octets(t), EncodeError::BadMac)),
        Enc::DualQtag => Some(Ok({
            let ps = split_on(t, 44);
            be16(u16_or_zero(ps[0])) + be16(if ps.len() > 1 { u16_or_zero(ps[1]) } else { 0 })
        })),
        Enc::CharList => Some(Ok(char_list(split_on(t, 44)))),
        Enc::Ethermask => Some(ethermask_result(t)),
        Enc::String => Some(string_result(sym, octets.len(), octets)),
        Enc::Strzero => Some(string_result(sym, octets.len(), octets.push(0))),
        Enc::Hexstr => Some(hexstr_result(sym, octets)),
        Enc::UshortList => Some(ushort_list_result(sym, t)),
        _ => None,
    }
}

/// What `encode` gives for a value given by its number, its text and its
/// octets: what the value alone gives, and for an OID setting the encoding
/// of the OID the MIB resolves the text to (no octets when it does not
/// resolve).
#[verifier::opaque]
pub open spec fn encoded(mib: Mib, sym: Symbol, num: i64, t: Seq<u8>, octets: Seq<u8>) -> Result<
    Seq<u8>,
    EncodeError,
> {
    match encode_parts(sym, num, t, octets) {
        Some(x) => x,
        None => Ok(
            match crate::snmp::snmp_oid_encoding(mib, t) {
                Some(b) => b,
                None => Seq::empty(),
            },
        ),
    }
}

/// Encode one value according to the symbol's declared encoding.
pub fn encode(ctx: &Ctx, sym: &Symbol, value: &Value) -> (r: Result<Vec<u8>, EncodeError>)
    requires
        ctx.mib.wf(),
    ensures
        result_bytes(r) == encoded(
            *ctx.mib,
            *sym,
            value_num(*value),
            value_text(*value),
            value_octets(*value),
        ),
{
    reveal(encoded);
    match sym.enc {
        Enc::Uint => encode_uint(sym, value),
        Enc::Uint24 => Ok(encode_uint24(value)),
        Enc::Ushort => encode_ushort(sym, value),
        Enc::Uchar => encode_uchar(sym, value),
        Enc::Ip => encode_ip(value),
        Enc::IpList => encode_ip_list(value),
        Enc::Ip6 => encode_ip6(value),
        Enc::Ip6List => encode_ip6_list(value),
        Enc::Ip6PrefixList => Ok(encode_ip6_prefix_list(value)),
        Enc::IpIp6 => encode_ip_ip6(value),
        Enc::CharIpIp6 => encode_char_ip_ip6(value),
        Enc::IpIp6Port => encode_ip_ip6_port(value),
        Enc::Lenzero => Ok(Vec::new()),
        Enc::Ether => encode_ether(value),
        Enc::DualQtag => Ok(encode_dual_qtag(value)),
        Enc::CharList => Ok(encode_char_list(value)),
        Enc::Ethermask => encode_ethermask(value),
        Enc::String => encode_string(sym, value),
        Enc::Strzero => encode_strzero(sym, value),
        Enc::Hexstr => encode_hexstr(sym, value),
        Enc::Oid => Ok(encode_oid(ctx, value)),
        Enc::UshortList => encode_ushort_list(sym, value),
        Enc::Nothing => Ok(Vec::new()),
    }
}

proof fn lemma_hex_pairs_front(v: Seq<u8>)
    requires
        v.len() >= 1,
    ensures
        crate::snmp::hex_pairs(v) == hex2(v[0]) + crate::snmp::hex_pairs(v.drop_first()),
    decreases v.len(),
{
    if v.len() == 1 {
        assert(v.drop_last() =~= Seq::<u8>::empty());
        assert(v.drop_first() =~= Seq::<u8>::empty());
        assert(crate::snmp::hex_pairs(v.drop_first()) =~= Seq::<u8>::empty());
        assert(crate::snmp::hex_pairs(v) =~= hex2(v[0]) + crate::snmp::hex_pairs(v.drop_first()));
    } else {
        let d = v.drop_last();
        lemma_hex_pairs_front(d);
        assert(d.drop_first() =~= v.drop_first().drop_last());
        assert(v.drop_first().last() == v.last());
        assert(crate::snmp::hex_pairs(v) =~= hex2(v[0]) + crate::snmp::hex_pairs(v.drop_first()));
    }
}

proof fn lemma_hex_pairs_value(v: Seq<u8>)
    ensures
        hex_pairs_value(crate::snmp::hex_pairs(v)) == Some(v),
        crate::snmp::hex_pairs(v).len() == 2 * v.len(),
    decreases v.len(),
{
    if v.len() == 0 {
        assert(crate::snmp::hex_pairs(v) =~= Seq::<u8>::empty());
    } else {
        lemma_hex_pairs_front(v);
        lemma_hex_pairs_value(v.drop_first());
        crate::text::lemma_hex2_value(v[0]);
        let h = crate::snmp::hex_pairs(v);
        assert(h.take(2) =~= hex2(v[0]));
        assert(h.skip(2) =~= crate::snmp::hex_pairs(v.drop_first()));
        assert(seq![v[0]] + v.drop_first() =~= v);
    }
}

/// The `0x` hex text the decoder prints for a value reads back through
/// `parse_hexstr` as the same octets.
pub proof fn law_hexstr_round_trip(v: Seq<u8>)
    ensures
        hexstr_value(crate::snmp::hex_text(v)) == Some(v),
{
    lemma_hex_pairs_value(v);
    let t = crate::snmp::hex_text(v);
    assert(t.skip(2) =~= crate::snmp::hex_pairs(v));
    assert(t.len() == 2 + 2 * v.len());
}

} // verus!
