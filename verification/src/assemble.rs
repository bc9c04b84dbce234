//! Putting a binary configuration file together: serialising the parse tree,
//! the CM and CMTS message integrity checks, the end-of-data marker and
//! padding, and the PacketCable dial plan and configuration hash.
use vstd::prelude::*;
use hmac::{Hmac, Mac};
use md5::{Digest, Md5};
use sha1::Sha1;
use crate::parser::{is_mta_config, Tlv};
use crate::text::push_all;

verus! {

// ---------------------------------------------------------------------------
// Digests
// ---------------------------------------------------------------------------

/// The MD5 digest of `data`.
pub uninterp spec fn md5_digest(data: Seq<u8>) -> Seq<u8>;

/// The HMAC-MD5 of `data` under `key`.
pub uninterp spec fn hmac_md5_digest(key: Seq<u8>, data: Seq<u8>) -> Seq<u8>;

/// The SHA-1 digest of `data`.
pub uninterp spec fn sha1_digest(data: Seq<u8>) -> Seq<u8>;

/// Calls `md5::Md5::digest` (the `Digest` trait of the `digest` crate): the
/// sixteen-octet MD5 digest of `data`, a function of `data` alone.
#[verifier::external_body]
fn md5(data: &[u8]) -> (r: [u8; 16])
    ensures
        r@ == md5_digest(data@),
{
    Md5::digest(data).into()
}

/// Calls `hmac::Hmac::<md5::Md5>::new_from_slice(key)`, then `update(data)`,
/// `finalize()` and `into_bytes()`: the sixteen-octet HMAC-MD5 of `data`
/// under `key`, a function of the two alone.  `new_from_slice` of `HmacCore`
/// accepts a key of any length (longer keys are hashed first), so the call
/// cannot fail.
#[verifier::external_body]
fn hmac_md5(key: &[u8], data: &[u8]) -> (r: [u8; 16])
    ensures
        r@ == hmac_md5_digest(key@, data@),
{
    let mut mac = <Hmac<Md5> as Mac>::new_from_slice(key).unwrap();
    mac.update(data);
    mac.finalize().into_bytes().into()
}

/// Calls `sha1::Sha1::digest` (the `Digest` trait of the `digest` crate): the
/// twenty-octet SHA-1 digest of `data`, a function of `data` alone.
#[verifier::external_body]
fn sha1(data: &[u8]) -> (r: [u8; 20])
    ensures
        r@ == sha1_digest(data@),
{
    Sha1::digest(data).into()
}

// ---------------------------------------------------------------------------
// Serialising the parse tree
// ---------------------------------------------------------------------------

/// The two length octets of a TLV 64, big-endian, of `n` taken modulo 2^16.
pub open spec fn be16_of(n: nat) -> Seq<u8> {
    seq![((n / 256) % 256) as u8, (n % 256) as u8]
}

/// The octets one setting contributes to the file.  An aggregate whose
/// contents exceed 255 octets is left out; so is an oversized value, except
/// an SNMP object (TLV 11), which becomes a TLV 64 with a 16-bit length.
pub open spec fn flat_one(t: Tlv) -> Seq<u8>
    decreases t,
{
    match t.children {
        Some(ch) => {
            let sub = flat_seq(ch@);
            if sub.len() > 255 {
                Seq::empty()
            } else {
                seq![t.code, sub.len() as u8] + sub
            }
        },
        None => if t.value@.len() <= 255 {
            seq![t.code, t.value@.len() as u8] + t.value@
        } else if t.code == 11 {
            seq![64u8] + be16_of(t.value@.len()) + t.value@
        } else {
            Seq::empty()
        },
    }
}

/// The octets a list of settings contributes, in order.
pub open spec fn flat_seq(ts: Seq<Tlv>) -> Seq<u8>
    decreases ts,
{
    if ts.len() == 0 {
        Seq::empty()
    } else {
        flat_seq(ts.drop_last()) + flat_one(ts.last())
    }
}

/// Serialise the parse tree into the byte sequence a modem reads.
pub fn flatten(tlvs: &[Tlv], out: &mut Vec<u8>)
    ensures
        final(out)@ == old(out)@ + flat_seq(tlvs@),
    decreases tlvs@,
{
    let mut k: usize = 0;
    while k < tlvs.len()
        invariant
            k <= tlvs@.len(),
            out@ == old(out)@ + flat_seq(tlvs@.take(k as int)),
        decreases tlvs@.len() - k,
    {
        let tlv = &tlvs[k];
        let ghost before = out@;
        proof {
            let t = tlvs@.take(k as int + 1);
            assert(t.drop_last() =~= tlvs@.take(k as int));
            assert(t.last() == tlvs@[k as int]);
        }
        match &tlv.children {
            Some(children) => {
                let mut sub: Vec<u8> = Vec::new();
                proof {
                    assert(decreases_to!(tlvs@ => tlvs@[k as int]));
                    assert(decreases_to!(tlvs@[k as int] => tlvs@[k as int].children));
                    assert(decreases_to!(tlvs@ => children@));
                }
                flatten(children.as_slice(), &mut sub);
                assert(sub@ =~= flat_seq(children@));
                if sub.len() <= 255 {
                    out.push(tlv.code);
                    out.push(sub.len() as u8);
                    push_all(out, sub.as_slice());
                }
            },
            None => {
                let n = tlv.value.len();
                if n <= 255 {
                    out.push(tlv.code);
                    out.push(n as u8);
                    push_all(out, tlv.value.as_slice());
                } else if tlv.code == 11 {
                    out.push(64);
                    out.push(((n / 256) % 256) as u8);
                    out.push((n % 256) as u8);
                    push_all(out, tlv.value.as_slice());
                }
            },
        }
        assert(out@ =~= before + flat_one(tlvs@[k as int]));
        k += 1;
        assert(out@ =~= old(out)@ + flat_seq(tlvs@.take(k as int)));
    }
    assert(tlvs@.take(tlvs@.len() as int) =~= tlvs@);
}

// ---------------------------------------------------------------------------
// Message integrity checks
// ---------------------------------------------------------------------------

/// Append the CM MIC (TLV 6): the MD5 digest of everything so far.  An empty
/// file is left alone.
pub fn add_cm_mic(buf: &mut Vec<u8>)
    ensures
        old(buf)@.len() == 0 ==> final(buf)@ == old(buf)@,
        old(buf)@.len() > 0 ==> final(buf)@ == old(buf)@ + seq![6u8, 16u8] + md5_digest(
            old(buf)@,
        ),
        old(buf)@.len() > 0 ==> final(buf)@.len() == old(buf)@.len() + 18,
{
    if buf.len() == 0 {
        return;
    }
    let digest = md5(buf.as_slice());
    buf.push(6);
    buf.push(16);
    push_all(buf, &digest);
}

/// The top-level settings that take part in the CMTS Message Integrity
/// Check, in the order they are hashed regardless of where they appear.
pub open spec fn cmts_mic_order() -> Seq<u8> {
    seq![1u8, 2, 3, 4, 17, 43, 6, 18, 19, 20, 22, 23, 24, 25, 28, 29, 26, 35, 36, 37, 40]
}

fn cmts_mic_codes() -> (r: Vec<u8>)
    ensures
        r@ == cmts_mic_order(),
        r@ == seq![1u8, 2, 3, 4, 17, 43, 6, 18, 19, 20, 22, 23, 24, 25, 28, 29, 26, 35, 36, 37, 40],
{
    let r = vec![1u8, 2, 3, 4, 17, 43, 6, 18, 19, 20, 22, 23, 24, 25, 28, 29, 26, 35, 36, 37, 40];
    assert(r@ =~= cmts_mic_order());
    r
}

/// The octets the settings with code `want` contribute when the file is walked
/// from `pos`: each such setting whole (cut short at the end of the file),
/// stepping over the others by their length; a TLV 64 has a 16-bit length.
pub open spec fn mic_scan(b: Seq<u8>, want: u8, pos: int) -> Seq<u8>
    decreases if pos < b.len() {
        b.len() - pos
    } else {
        0
    },
{
    if pos < 0 || pos + 1 >= b.len() {
        Seq::empty()
    } else if b[pos] == 64 && pos + 3 > b.len() {
        Seq::empty()
    } else if b[pos] == want {
        let end = if pos + b[pos + 1] + 2 < b.len() {
            pos + b[pos + 1] + 2
        } else {
            b.len() as int
        };
        b.subrange(pos, end) + mic_scan(b, want, end)
    } else if b[pos] == 64 {
        mic_scan(b, want, pos + b[pos + 1] * 256 + b[pos + 2] + 3)
    } else {
        mic_scan(b, want, pos + b[pos + 1] + 2)
    }
}

/// The settings of each code in `codes` in turn.
pub open spec fn mic_selection(b: Seq<u8>, codes: Seq<u8>) -> Seq<u8>
    decreases codes.len(),
{
    if codes.len() == 0 {
        Seq::empty()
    } else {
        mic_selection(b, codes.drop_last()) + mic_scan(b, codes.last(), 0)
    }
}

/// Append the settings of code `want` to `out`, walking `buf` from the start.
fn scan_for(buf: &[u8], want: u8, out: &mut Vec<u8>)
    ensures
        final(out)@ == old(out)@ + mic_scan(buf@, want, 0),
{
    let n = buf.len();
    let mut pos: usize = 0;
    while pos < n && n - pos > 1
        invariant
            n == buf@.len(),
            pos <= n,
            out@ + mic_scan(buf@, want, pos as int) == old(out)@ + mic_scan(buf@, want, 0),
        decreases n - pos,
    {
        let code = buf[pos];
        let ghost here = mic_scan(buf@, want, pos as int);
        if code == 64 && n - pos < 3 {
            assert(here =~= Seq::<u8>::empty());
            assert(mic_scan(buf@, want, n as int) =~= Seq::<u8>::empty());
            pos = n;
        } else if code == want {
            let l = buf[pos + 1] as usize;
            let end = if n - pos > l + 2 {
                pos + l + 2
            } else {
                n
            };
            let ghost o = out@;
            let mut i = pos;
            while i < end
                invariant
                    pos <= i <= end <= n == buf@.len(),
                    out@ == o + buf@.subrange(pos as int, i as int),
                decreases end - i,
            {
                out.push(buf[i]);
                i += 1;
                assert(out@ =~= o + buf@.subrange(pos as int, i as int));
            }
            assert(here == buf@.subrange(pos as int, end as int) + mic_scan(buf@, want, end as int));
            assert(out@ + mic_scan(buf@, want, end as int) =~= o + here);
            pos = end;
        } else {
            let step: usize = if code == 64 {
                (buf[pos + 1] as usize) * 256 + buf[pos + 2] as usize + 3
            } else {
                buf[pos + 1] as usize + 2
            };
            if n - pos <= step {
                proof {
                    let next = pos + step;
                    assert(mic_scan(buf@, want, next as int) =~= Seq::<u8>::empty());
                    assert(mic_scan(buf@, want, n as int) =~= Seq::<u8>::empty());
                }
                pos = n;
            } else {
                pos = pos + step;
            }
        }
    }
    proof {
        assert(mic_scan(buf@, want, pos as int) =~= Seq::<u8>::empty());
    }
}

/// The octets the CMTS MIC is computed over: the settings of each code in
/// the CMTS MIC order, one code after another.
pub fn cmts_mic_tlvs(buf: &[u8]) -> (r: Vec<u8>)
    ensures
        r@ == mic_selection(buf@, cmts_mic_order()),
        r@ == mic_selection(
            buf@,
            seq![1u8, 2, 3, 4, 17, 43, 6, 18, 19, 20, 22, 23, 24, 25, 28, 29, 26, 35, 36, 37, 40],
        ),
{
    let codes = cmts_mic_codes();
    let mut selected: Vec<u8> = Vec::new();
    let mut k: usize = 0;
    while k < codes.len()
        invariant
            k <= codes@.len(),
            codes@ == cmts_mic_order(),
            selected@ == mic_selection(buf@, codes@.take(k as int)),
        decreases codes@.len() - k,
    {
        scan_for(buf, codes[k], &mut selected);
        proof {
            let t = codes@.take(k as int + 1);
            assert(t.drop_last() =~= codes@.take(k as int));
        }
        k += 1;
    }
    assert(codes@.take(codes@.len() as int) =~= codes@);
    selected
}

/// Append the CMTS MIC (TLV 7): the HMAC-MD5, under the shared secret `key`,
/// of the settings `cmts_mic_tlvs` selects.  Gives back those settings, for
/// the caller to show.  An empty file is left alone.
pub fn add_cmts_mic(buf: &mut Vec<u8>, key: &[u8]) -> (selected: Vec<u8>)
    ensures
        old(buf)@.len() == 0 ==> final(buf)@ == old(buf)@ && selected@.len() == 0,
        old(buf)@.len() > 0 ==> selected@ == mic_selection(old(buf)@, cmts_mic_order())
            && final(buf)@ == old(buf)@ + seq![7u8, 16u8] + hmac_md5_digest(key@, selected@),
        old(buf)@.len() > 0 ==> selected@ == mic_selection(
            old(buf)@,
            seq![1u8, 2, 3, 4, 17, 43, 6, 18, 19, 20, 22, 23, 24, 25, 28, 29, 26, 35, 36, 37, 40],
        ),
        old(buf)@.len() > 0 ==> final(buf)@.len() == old(buf)@.len() + 18,
{
    if buf.len() == 0 {
        return Vec::new();
    }
    let selected = cmts_mic_tlvs(buf.as_slice());
    let digest = hmac_md5(key, selected.as_slice());
    buf.push(7);
    buf.push(16);
    push_all(buf, &digest);
    selected
}

/// How many zero octets bring a file of `n` octets to a multiple of four.
pub open spec fn pad_len(n: nat) -> nat {
    ((4 - (n % 4)) % 4) as nat
}

/// Append the end-of-data marker (255) and pad with zeros to a multiple of
/// four octets.  An empty file is left alone.
pub fn add_eod_and_pad(buf: &mut Vec<u8>)
    requires
        old(buf)@.len() + 4 <= usize::MAX,
    ensures
        old(buf)@.len() == 0 ==> final(buf)@ == old(buf)@,
        old(buf)@.len() > 0 ==> final(buf)@ == old(buf)@ + seq![255u8] + Seq::new(
            pad_len(old(buf)@.len() + 1),
            |i: int| 0u8,
        ),
        old(buf)@.len() > 0 ==> final(buf)@.len() % 4 == 0,
{
    if buf.len() == 0 {
        return;
    }
    buf.push(255);
    let pad = (4 - (buf.len() % 4)) % 4;
    let ghost mid = buf@;
    let mut i: usize = 0;
    while i < pad
        invariant
            i <= pad,
            pad == pad_len(mid.len()),
            buf@ == mid + Seq::new(i as nat, |j: int| 0u8),
        decreases pad - i,
    {
        buf.push(0);
        i += 1;
        assert(buf@ =~= mid + Seq::new(i as nat, |j: int| 0u8));
    }
}

// ---------------------------------------------------------------------------
// PacketCable additions
// ---------------------------------------------------------------------------

/// The varbind written before the SHA-1 digest for the CableLabs (NA) hash.
pub open spec fn na_hash_prefix() -> Seq<u8> {
    seq![
        0x0bu8, 0x28, 0x30, 0x26, 0x06, 0x0e, 0x2b, 0x06, 0x01, 0x04, 0x01, 0xa3, 0x0b, 0x02,
        0x02, 0x01, 0x01, 0x02, 0x07, 0x00, 0x04, 0x14,
    ]
}

/// The varbind written before the SHA-1 digest for the Excentis (EU) hash.
pub open spec fn eu_hash_prefix() -> Seq<u8> {
    seq![
        0x0bu8, 0x26, 0x30, 0x24, 0x06, 0x0c, 0x2b, 0x06, 0x01, 0x04, 0x01, 0xba, 0x08, 0x01,
        0x01, 0x02, 0x09, 0x00, 0x04, 0x14,
    ]
}

/// The MTA file terminator.
pub open spec fn mta_end() -> Seq<u8> {
    seq![0xfeu8, 0x01, 0xff]
}

fn push_na_hash_prefix(buf: &mut Vec<u8>)
    ensures
        final(buf)@ == old(buf)@ + na_hash_prefix(),
{
    let p = [
        0x0bu8, 0x28, 0x30, 0x26, 0x06, 0x0e, 0x2b, 0x06, 0x01, 0x04, 0x01, 0xa3, 0x0b, 0x02,
        0x02, 0x01, 0x01, 0x02, 0x07, 0x00, 0x04, 0x14,
    ];
    push_all(buf, &p);
    assert(final(buf)@ =~= old(buf)@ + na_hash_prefix());
}

fn push_eu_hash_prefix(buf: &mut Vec<u8>)
    ensures
        final(buf)@ == old(buf)@ + eu_hash_prefix(),
{
    let p = [
        0x0bu8, 0x26, 0x30, 0x24, 0x06, 0x0c, 0x2b, 0x06, 0x01, 0x04, 0x01, 0xba, 0x08, 0x01,
        0x01, 0x02, 0x09, 0x00, 0x04, 0x14,
    ];
    push_all(buf, &p);
    assert(final(buf)@ =~= old(buf)@ + eu_hash_prefix());
}

fn push_mta_end(buf: &mut Vec<u8>)
    ensures
        final(buf)@ == old(buf)@ + mta_end(),
{
    buf.push(0xfe);
    buf.push(0x01);
    buf.push(0xff);
    assert(final(buf)@ =~= old(buf)@ + mta_end());
}

/// Drop the last three octets.
fn drop_terminator(buf: &mut Vec<u8>)
    requires
        old(buf)@.len() >= 3,
    ensures
        final(buf)@ == old(buf)@.subrange(0, old(buf)@.len() - 3),
{
    buf.pop();
    buf.pop();
    buf.pop();
    assert(final(buf)@ =~= old(buf)@.subrange(0, old(buf)@.len() - 3));
}

/// Append the PacketCable configuration hash in place of the file
/// terminator: the NA varbind when `hash` is 1, the EU one otherwise, then
/// the SHA-1 digest of the whole file as it was, then a new terminator.  A
/// file shorter than the terminator is left alone.
pub fn add_mta_hash(buf: &mut Vec<u8>, hash: u32)
    ensures
        old(buf)@.len() < 3 ==> final(buf)@ == old(buf)@,
        old(buf)@.len() >= 3 ==> final(buf)@ == old(buf)@.subrange(0, old(buf)@.len() - 3) + (
        if hash == 1 {
            na_hash_prefix()
        } else {
            eu_hash_prefix()
        }) + sha1_digest(old(buf)@) + mta_end(),
        old(buf)@.len() >= 3 ==> final(buf)@.len() == old(buf)@.len() + 20 + (if hash == 1 {
            22int
        } else {
            20int
        }),
{
    let digest = sha1(buf.as_slice());
    if buf.len() < 3 {
        return;
    }
    drop_terminator(buf);
    if hash == 1 {
        push_na_hash_prefix(buf);
    } else {
        push_eu_hash_prefix(buf);
    }
    push_all(buf, &digest);
    push_mta_end(buf);
}

/// The object identifier of the PacketCable 2.0 dial plan, BER encoded.
pub open spec fn dialplan_asn_oid() -> Seq<u8> {
    seq![
        0x06u8, 0x12, 0x2b, 0x06, 0x01, 0x04, 0x01, 0xa3, 0x0b, 0x02, 0x02, 0x08, 0x02, 0x01,
        0x01, 0x03, 0x01, 0x01, 0x02, 0x01,
    ]
}

/// The value of the outer TLV 64's 16-bit length for a dial plan of `size`
/// octets.
pub open spec fn dialplan_outer_len(size: nat) -> nat {
    if size > 0x7f {
        ((28 + size) % 0x10000) as nat
    } else if size > 0x69 {
        ((26 + size) % 0x10000) as nat
    } else {
        ((24 + size) % 0x10000) as nat
    }
}

/// The SEQUENCE header of the dial plan varbind.
pub open spec fn dialplan_seq_header(size: nat) -> Seq<u8> {
    if 0x16 + size < 0x80 {
        seq![0x30u8, (0x16 + size) as u8]
    } else {
        seq![0x30u8, 0x82u8] + be16_of(
            if size > 0x7f {
                ((24 + size) % 0x10000) as nat
            } else {
                ((22 + size) % 0x10000) as nat
            },
        )
    }
}

/// The OCTET STRING header of the dial plan text.
pub open spec fn dialplan_str_header(size: nat) -> Seq<u8> {
    if size > 0x7f {
        seq![0x04u8, 0x82u8] + be16_of(size)
    } else {
        seq![0x04u8, size as u8]
    }
}

/// What `add_dialplan` puts in place of the terminator.
pub open spec fn dialplan_tlv(body: Seq<u8>) -> Seq<u8> {
    seq![0x40u8] + be16_of(dialplan_outer_len(body.len())) + dialplan_seq_header(body.len())
        + dialplan_asn_oid() + dialplan_str_header(body.len()) + body + mta_end()
}

fn push_be16(buf: &mut Vec<u8>, n: usize)
    ensures
        final(buf)@ == old(buf)@ + be16_of(n as nat),
{
    buf.push(((n / 256) % 256) as u8);
    buf.push((n % 256) as u8);
    assert(final(buf)@ =~= old(buf)@ + be16_of(n as nat));
}

/// `(a + n) % 2^16`, computed without overflow.
fn add_mod16(a: usize, n: usize) -> (r: usize)
    requires
        a < 0x10000,
    ensures
        r == (a + n) % 0x10000,
{
    proof {
        vstd::arithmetic::div_mod::lemma_add_mod_noop(a as int, n as int, 0x10000);
        assert(a % 0x10000 == a);
    }
    (a + n % 0x10000) % 0x10000
}

fn push_dialplan_outer(buf: &mut Vec<u8>, size: usize)
    ensures
        final(buf)@ == old(buf)@ + seq![0x40u8] + be16_of(dialplan_outer_len(size as nat)),
{
    buf.push(0x40);
    let outer: usize = if size > 0x7f {
        add_mod16(28, size)
    } else if size > 0x69 {
        add_mod16(26, size)
    } else {
        add_mod16(24, size)
    };
    push_be16(buf, outer);
    assert(final(buf)@ =~= old(buf)@ + seq![0x40u8] + be16_of(dialplan_outer_len(size as nat)));
}

fn push_dialplan_seq_header(buf: &mut Vec<u8>, size: usize)
    ensures
        final(buf)@ == old(buf)@ + dialplan_seq_header(size as nat),
{
    buf.push(0x30);
    if size < 0x80 - 0x16 {
        buf.push((0x16 + size) as u8);
    } else {
        buf.push(0x82);
        let inner: usize = if size > 0x7f {
            add_mod16(24, size)
        } else {
            add_mod16(22, size)
        };
        push_be16(buf, inner);
    }
    assert(final(buf)@ =~= old(buf)@ + dialplan_seq_header(size as nat));
}

fn push_dialplan_str_header(buf: &mut Vec<u8>, size: usize)
    ensures
        final(buf)@ == old(buf)@ + dialplan_str_header(size as nat),
{
    buf.push(0x04);
    if size > 0x7f {
        buf.push(0x82);
        push_be16(buf, size);
    } else {
        buf.push(size as u8);
    }
    assert(final(buf)@ =~= old(buf)@ + dialplan_str_header(size as nat));
}

fn push_dialplan_oid(buf: &mut Vec<u8>)
    ensures
        final(buf)@ == old(buf)@ + dialplan_asn_oid(),
{
    let oid = [
        0x06u8, 0x12, 0x2b, 0x06, 0x01, 0x04, 0x01, 0xa3, 0x0b, 0x02, 0x02, 0x08, 0x02, 0x01,
        0x01, 0x03, 0x01, 0x01, 0x02, 0x01,
    ];
    push_all(buf, &oid);
    assert(final(buf)@ =~= old(buf)@ + dialplan_asn_oid());
}

/// Append a PacketCable 2.0 dial plan, whose text is `body`, as a TLV 64
/// SNMP object in place of the file terminator.  A file shorter than the
/// terminator is left alone.
pub fn add_dialplan(buf: &mut Vec<u8>, body: &[u8])
    ensures
        old(buf)@.len() < 3 ==> final(buf)@ == old(buf)@,
        old(buf)@.len() >= 3 ==> final(buf)@ == old(buf)@.subrange(0, old(buf)@.len() - 3)
            + dialplan_tlv(body@),
{
    let size = body.len();
    if buf.len() < 3 {
        return;
    }
    drop_terminator(buf);
    let ghost b0 = buf@;
    push_dialplan_outer(buf, size);
    push_dialplan_seq_header(buf, size);
    push_dialplan_oid(buf);
    push_dialplan_str_header(buf, size);
    push_all(buf, body);
    push_mta_end(buf);
    assert(buf@ =~= b0 + dialplan_tlv(body@));
}

// ---------------------------------------------------------------------------
// Output names
// ---------------------------------------------------------------------------

/// The length of the extension of the file name at the end of `p`, counting
/// its dot: the part after the last `.` that follows every `/` and `\`, or
/// zero when there is none.
pub open spec fn ext_len(p: Seq<u8>) -> nat
    decreases p.len(),
{
    if p.len() == 0 {
        0
    } else if p.last() == 47 || p.last() == 92 {
        0
    } else if p.last() == 46 {
        1
    } else if ext_len(p.drop_last()) == 0 {
        0
    } else {
        ext_len(p.drop_last()) + 1
    }
}

proof fn lemma_ext_len_bound(p: Seq<u8>)
    ensures
        ext_len(p) <= p.len(),
    decreases p.len(),
{
    if p.len() > 0 {
        lemma_ext_len_bound(p.drop_last());
    }
}

/// The length of the extension at the end of `path`, dot included.
fn ext_len_of(path: &[u8]) -> (r: usize)
    ensures
        r == ext_len(path@),
{
    let n = path.len();
    let mut i = n;
    assert(path@.take(n as int) =~= path@);
    // Walk back from the end to the first '.', stopping at a separator.
    while i > 0
        invariant
            i <= n == path@.len(),
            ext_len(path@) == if ext_len(path@.take(i as int)) == 0 {
                0
            } else {
                ext_len(path@.take(i as int)) + (n - i)
            },
        decreases i,
    {
        let c = path[i - 1];
        proof {
            let t = path@.take(i as int);
            assert(t.drop_last() =~= path@.take(i - 1));
            assert(t.last() == c);
        }
        if c == 47 || c == 92 {
            return 0;
        }
        if c == 46 {
            return n - i + 1;
        }
        i -= 1;
    }
    assert(path@.take(0) =~= Seq::<u8>::empty());
    0
}

/// Swap a path's extension for `extension`, refusing when the new one would
/// be longer than the extension it replaces.
pub fn replace_extension(path: &[u8], extension: &[u8]) -> (r: Option<Vec<u8>>)
    ensures
        ext_len(path@) < extension@.len() ==> r is None,
        ext_len(path@) >= extension@.len() ==> (r matches Some(v) && v@ == path@.subrange(
            0,
            path@.len() - ext_len(path@),
        ) + extension@),
{
    let n = path.len();
    let old_len = ext_len_of(path);
    proof {
        lemma_ext_len_bound(path@);
    }
    if old_len < extension.len() {
        return None;
    }
    let mut out: Vec<u8> = Vec::new();
    let keep = n - old_len;
    let mut j: usize = 0;
    while j < keep
        invariant
            j <= keep <= n == path@.len(),
            out@ == path@.subrange(0, j as int),
        decreases keep - j,
    {
        out.push(path[j]);
        j += 1;
        assert(out@ =~= path@.subrange(0, j as int));
    }
    push_all(&mut out, extension);
    Some(out)
}

// ---------------------------------------------------------------------------
// The whole file
// ---------------------------------------------------------------------------

/// `b` with the CM MIC appended, as `add_cm_mic` appends it.
pub open spec fn with_cm_mic(b: Seq<u8>) -> Seq<u8> {
    if b.len() == 0 {
        b
    } else {
        b + seq![6u8, 16u8] + md5_digest(b)
    }
}

/// `b` with the CMTS MIC under `key` appended, as `add_cmts_mic` appends it.
pub open spec fn with_cmts_mic(b: Seq<u8>, key: Seq<u8>) -> Seq<u8> {
    if b.len() == 0 {
        b
    } else {
        b + seq![7u8, 16u8] + hmac_md5_digest(key, mic_selection(b, cmts_mic_order()))
    }
}

/// `b` with the end-of-data marker and padding, as `add_eod_and_pad` ends it.
pub open spec fn with_eod_and_pad(b: Seq<u8>) -> Seq<u8> {
    if b.len() == 0 {
        b
    } else {
        b + seq![255u8] + Seq::new(pad_len(b.len() + 1), |i: int| 0u8)
    }
}

/// `b` with the dial plan `body` in place of its terminator.
pub open spec fn with_dialplan(b: Seq<u8>, body: Seq<u8>) -> Seq<u8> {
    if b.len() < 3 {
        b
    } else {
        b.subrange(0, b.len() - 3) + dialplan_tlv(body)
    }
}

/// `b` with the configuration hash of kind `hash` in place of its
/// terminator.
pub open spec fn with_mta_hash(b: Seq<u8>, hash: u32) -> Seq<u8> {
    if b.len() < 3 {
        b
    } else {
        b.subrange(0, b.len() - 3) + (if hash == 1 {
            na_hash_prefix()
        } else {
            eu_hash_prefix()
        }) + sha1_digest(b) + mta_end()
    }
}

/// Whether the parse tree opens with the MTA configuration delimiter, which
/// makes the file a PacketCable MTA file.
pub open spec fn opens_mta(tree: Seq<Tlv>) -> bool {
    tree.len() > 0 && tree[0].code == 254
}

/// The bytes of the file built from the settings `flat`: for a cable modem
/// file the CM MIC, the CMTS MIC under `key`, the end-of-data marker and
/// padding; then the dial plan, when there is one; then the configuration
/// hash, unless `hash` is 0.
pub open spec fn assembled(
    flat: Seq<u8>,
    key: Seq<u8>,
    docsis: bool,
    dialplan: Option<Seq<u8>>,
    hash: u32,
) -> Seq<u8> {
    let a = if docsis {
        with_eod_and_pad(with_cmts_mic(with_cm_mic(flat), key))
    } else {
        flat
    };
    let b = match dialplan {
        Some(body) => with_dialplan(a, body),
        None => a,
    };
    if hash != 0 {
        with_mta_hash(b, hash)
    } else {
        b
    }
}

/// Build the binary file from the parse tree, in the fixed order the MICs
/// need: the settings; for a cable modem file (`docsis`, unless the tree
/// opens with the MTA delimiter) the CM MIC, the CMTS MIC under `key`, the
/// end-of-data marker and padding; then the dial plan `dialplan`, if any;
/// then the configuration hash unless `hash` is 0.  Also gives the settings
/// the CMTS MIC covers and its digest, empty where there is none.
pub fn assemble_file(
    tree: &[Tlv],
    key: &[u8],
    docsis: bool,
    dialplan: Option<&[u8]>,
    hash: u32,
) -> (r: (Vec<u8>, Vec<u8>, Vec<u8>))
    requires
        flat_seq(tree@).len() + 64 <= usize::MAX,
    ensures
        ({
            let d = docsis && !opens_mta(tree@);
            let flat = flat_seq(tree@);
            let m = with_cm_mic(flat);
            &&& r.0@ == assembled(
                flat,
                key@,
                d,
                match dialplan {
                    Some(b) => Some(b@),
                    None => None,
                },
                hash,
            )
            &&& r.1@ == (if d && flat.len() > 0 {
                mic_selection(m, cmts_mic_order())
            } else {
                Seq::empty()
            })
            &&& r.2@ == (if d && flat.len() > 0 {
                hmac_md5_digest(key@, mic_selection(m, cmts_mic_order()))
            } else {
                Seq::empty()
            })
        }),
{
    let d = docsis && !is_mta_config(tree);
    let mut buffer: Vec<u8> = Vec::new();
    flatten(tree, &mut buffer);
    assert(buffer@ =~= flat_seq(tree@));
    let mut selected: Vec<u8> = Vec::new();
    let mut digest: Vec<u8> = Vec::new();
    if d {
        add_cm_mic(&mut buffer);
        if buffer.len() > 0 {
            let n = buffer.len();
            selected = add_cmts_mic(&mut buffer, key);
            let mut k = n + 2;
            while k < buffer.len()
                invariant
                    n + 2 <= k <= buffer@.len(),
                    buffer@.len() == n + 18,
                    digest@ == buffer@.subrange(n + 2, k as int),
                decreases buffer@.len() - k,
            {
                digest.push(buffer[k]);
                k += 1;
                assert(digest@ =~= buffer@.subrange(n + 2, k as int));
            }
            assert(buffer@.subrange(n + 2, n + 18) =~= hmac_md5_digest(
                key@,
                mic_selection(with_cm_mic(flat_seq(tree@)), cmts_mic_order()),
            ));
        }
        add_eod_and_pad(&mut buffer);
    }
    match dialplan {
        Some(body) => add_dialplan(&mut buffer, body),
        None => {},
    }
    if hash != 0 {
        add_mta_hash(&mut buffer, hash);
    }
    (buffer, selected, digest)
}

/// The CMTS MIC covers the settings of these codes, in this order: 1, 2, 3,
/// 4, 17, 43, 6 (the CM MIC), 18, 19, 20, 22, 23, 24, 25, 28, 29, 26, 35,
/// 36, 37, 40.  So the settings of the earlier codes come first, then the
/// CM MIC, then the rest: a file holding a CM MIC has it in the selection,
/// right after the settings of code 43.
pub proof fn law_cmts_mic_covers_the_cm_mic(b: Seq<u8>)
    ensures
        cmts_mic_order() == seq![
            1u8, 2, 3, 4, 17, 43, 6, 18, 19, 20, 22, 23, 24, 25, 28, 29, 26, 35, 36, 37, 40,
        ],
        mic_selection(b, cmts_mic_order()) == mic_selection(b, seq![1u8, 2, 3, 4, 17, 43])
            + mic_scan(b, 6, 0) + mic_selection(
            b,
            seq![18u8, 19, 20, 22, 23, 24, 25, 28, 29, 26, 35, 36, 37, 40],
        ),
{
    let all = cmts_mic_order();
    let head = seq![1u8, 2, 3, 4, 17, 43];
    let tail = seq![18u8, 19, 20, 22, 23, 24, 25, 28, 29, 26, 35, 36, 37, 40];
    assert(all =~= head.push(6) + tail);
    lemma_mic_selection_append(b, head.push(6), tail);
    assert(head.push(6).drop_last() =~= head);
}

/// The selection of a list of codes joined from two is the two selections
/// joined.
proof fn lemma_mic_selection_append(b: Seq<u8>, x: Seq<u8>, y: Seq<u8>)
    ensures
        mic_selection(b, x + y) == mic_selection(b, x) + mic_selection(b, y),
    decreases y.len(),
{
    if y.len() == 0 {
        assert(x + y =~= x);
        assert(mic_selection(b, x) + Seq::<u8>::empty() =~= mic_selection(b, x));
    } else {
        lemma_mic_selection_append(b, x, y.drop_last());
        assert((x + y).drop_last() =~= x + y.drop_last());
        assert((x + y).last() == y.last());
        assert(mic_selection(b, x) + mic_selection(b, y.drop_last()) + mic_scan(b, y.last(), 0)
            =~= mic_selection(b, x) + (mic_selection(b, y.drop_last()) + mic_scan(b, y.last(), 0)));
    }
}

/// Scanning from offset `i` of `r` is scanning from offset `p.len() + i` of
/// `p + r`: what comes before a setting does not change what is read from it.
proof fn lemma_mic_scan_shift(p: Seq<u8>, r: Seq<u8>, want: u8, i: int)
    requires
        i >= 0,
    ensures
        mic_scan(p + r, want, p.len() + i) == mic_scan(r, want, i),
    decreases if i < r.len() {
        r.len() - i
    } else {
        0
    },
{
    let b = p + r;
    let q = p.len() + i;
    if i + 1 >= r.len() {
    } else {
        assert(b[q] == r[i]);
        assert(b[q + 1] == r[i + 1]);
        if r[i] == 64 && i + 3 > r.len() {
        } else if r[i] == want {
            let end = if i + r[i + 1] + 2 < r.len() {
                i + r[i + 1] + 2
            } else {
                r.len() as int
            };
            assert(b.subrange(q, p.len() + end) =~= r.subrange(i, end));
            lemma_mic_scan_shift(p, r, want, end);
        } else if r[i] == 64 {
            assert(b[q + 2] == r[i + 2]);
            lemma_mic_scan_shift(p, r, want, i + r[i + 1] * 256 + r[i + 2] + 3);
        } else {
            lemma_mic_scan_shift(p, r, want, i + r[i + 1] + 2);
        }
    }
}

/// The selection walks a file setting by setting: a setting of code `c`
/// (not the extended-length code 64) with up to 255 value octets is taken
/// whole, header included, when `c` is the code sought and skipped
/// otherwise, and the walk goes on with the settings after it.
pub proof fn law_mic_scan_walks_settings(c: u8, data: Seq<u8>, rest: Seq<u8>, want: u8)
    requires
        c != 64,
        data.len() <= 255,
    ensures
        ({
            let t = seq![c, data.len() as u8] + data;
            mic_scan(t + rest, want, 0) == (if c == want {
                t
            } else {
                Seq::empty()
            }) + mic_scan(rest, want, 0)
        }),
{
    let t = seq![c, data.len() as u8] + data;
    let b = t + rest;
    assert(b[0] == c);
    assert(b[1] == data.len() as u8);
    let end: int = data.len() + 2int;
    assert(t.len() == end);
    lemma_mic_scan_shift(t, rest, want, 0);
    if c == want {
        assert(b.subrange(0, end) =~= t);
    } else {
        assert(Seq::<u8>::empty() + mic_scan(rest, want, 0) =~= mic_scan(rest, want, 0));
    }
}

} // verus!
