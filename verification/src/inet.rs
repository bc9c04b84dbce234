//! Textual IPv4 and IPv6 addresses: reading the forms the configuration
//! language accepts and writing the forms the decoder prints.
use vstd::prelude::*;
use crate::text::{dec_digits, dec_value, hex_byte_value, hex_digits, is_digit_byte, is_hex_byte, push_dec, push_hex, split_on, split_ranges};

verus! {

// ---------------------------------------------------------------------------
// IPv4
// ---------------------------------------------------------------------------

/// The octet one part of a dotted quad stands for: a decimal number, as an
/// unsigned `str::parse` reads it, no larger than 255.
pub open spec fn quad_part(p: Seq<u8>) -> Option<u8> {
    match dec_value(p) {
        Some(v) => if v <= 255 {
            Some(v as u8)
        } else {
            None
        },
        None => None,
    }
}

/// The four octets of a dotted quad, when `s` is one.
pub open spec fn ipv4_octets(s: Seq<u8>) -> Option<Seq<u8>> {
    let parts = split_on(s, 46);
    if parts.len() == 4 && forall|i: int| 0 <= i < 4 ==> #[trigger] quad_part(parts[i]) is Some {
        Some(Seq::new(4, |i: int| quad_part(parts[i]).unwrap()))
    } else {
        None
    }
}

/// One part of a dotted quad, `s[lo..hi]`.
fn parse_quad_part(s: &[u8], lo: usize, hi: usize) -> (r: Option<u8>)
    requires
        lo <= hi <= s@.len(),
    ensures
        r == quad_part(s@.subrange(lo as int, hi as int)),
{
    match crate::text::parse_dec(s, lo, hi) {
        Some(v) => if v <= 255 {
            Some(v as u8)
        } else {
            None
        },
        None => None,
    }
}

/// Parse a dotted quad of four decimal parts, each at most 255.
pub fn parse_ipv4(text: &[u8]) -> (r: Option<[u8; 4]>)
    ensures
        match ipv4_octets(text@) {
            Some(o) => r matches Some(a) && a@ == o,
            None => r is None,
        },
{
    let parts = split_ranges(text, 46);
    let ghost whole = split_on(text@, 46);
    if parts.len() != 4 {
        return None;
    }
    let mut out = [0u8; 4];
    let mut k: usize = 0;
    while k < 4
        invariant
            k <= 4,
            parts@.len() == 4,
            whole == split_on(text@, 46),
            forall|i: int|
                0 <= i < 4 ==> (#[trigger] parts@[i]).0 <= parts@[i].1 <= text@.len()
                    && whole[i] == text@.subrange(parts@[i].0 as int, parts@[i].1 as int),
            forall|i: int| 0 <= i < k ==> quad_part(#[trigger] whole[i]) == Some(out@[i]),
        decreases 4 - k,
    {
        let (lo, hi) = parts[k];
        match parse_quad_part(text, lo, hi) {
            Some(v) => out[k] = v,
            None => {
                assert(quad_part(whole[k as int]) is None);
                return None;
            },
        }
        k += 1;
    }
    proof {
        assert forall|i: int| 0 <= i < 4 implies #[trigger] quad_part(whole[i]) is Some by {
            assert(quad_part(whole[i]) == Some(out@[i]));
        }
        assert(out@ =~= Seq::new(4, |i: int| quad_part(whole[i]).unwrap()));
    }
    Some(out)
}

// ---------------------------------------------------------------------------
// IPv6
// ---------------------------------------------------------------------------

/// Whether `b` is a digit of the radix: hexadecimal with `hex`, else
/// decimal.
pub open spec fn radix_digit(b: u8, hex: bool) -> bool {
    if hex {
        crate::text::is_hex_digit(b)
    } else {
        crate::text::is_digit(b)
    }
}

/// The end of the run of digits of the radix starting at `pos`.
pub open spec fn run_end(s: Seq<u8>, pos: int, hex: bool) -> int
    decreases s.len() - pos,
{
    if 0 <= pos < s.len() && radix_digit(s[pos], hex) {
        run_end(s, pos + 1, hex)
    } else {
        pos
    }
}

/// The value of digits of the radix.
pub open spec fn run_value(t: Seq<u8>, hex: bool) -> nat {
    if hex {
        crate::text::hex_digits_value(t)
    } else {
        crate::text::digits_value(t)
    }
}

/// How the standard library's address parser reads a number at `pos`: the
/// whole run of digits there, which must be non-empty, at most `max_digits`
/// long, at most `max_value`, and (without `zero_prefix`) not a multi-digit
/// run starting with `0`.  Gives the value and where the run ends.
pub open spec fn number_at(
    s: Seq<u8>,
    pos: int,
    hex: bool,
    max_digits: nat,
    max_value: nat,
    zero_prefix: bool,
) -> Option<(nat, int)> {
    let e = run_end(s, pos, hex);
    let len = e - pos;
    let v = run_value(s.subrange(pos, e), hex);
    if len <= 0 || len > max_digits || v > max_value || (!zero_prefix && len > 1 && s[pos]
        == 48) {
        None
    } else {
        Some((v, e))
    }
}

/// The parts `k..4` of a dotted quad at `pos`, each a decimal of at most
/// three digits without a leading zero and at most 255: the octets and
/// where the quad ends.
pub open spec fn quad_from(s: Seq<u8>, pos: int, k: nat) -> Option<(Seq<u8>, int)>
    decreases 4 - k,
{
    if k >= 4 {
        Some((Seq::empty(), pos))
    } else {
        let start = if k > 0 {
            if 0 <= pos < s.len() && s[pos] == 46 {
                Some(pos + 1)
            } else {
                None
            }
        } else {
            Some(pos)
        };
        match start {
            None => None,
            Some(q) => match number_at(s, q, false, 3, 255, false) {
                None => None,
                Some((v, e)) => match quad_from(s, e, k + 1) {
                    None => None,
                    Some((rest, end)) => Some((seq![v as u8] + rest, end)),
                },
            },
        }
    }
}

/// Groups `i..limit` read from `pos` (a colon before each but the first):
/// hex groups of one to four digits, or a dotted quad standing for the last
/// two where two groups are still allowed.  Gives the groups, where they
/// end, and whether a dotted quad ended them; the reading stops before the
/// first group that does not read.
pub open spec fn groups_from(s: Seq<u8>, pos: int, i: nat, limit: nat, acc: Seq<u16>) -> (
    Seq<u16>,
    int,
    bool,
)
    decreases limit - i,
{
    if i >= limit {
        (acc, pos, false)
    } else {
        let q = if i > 0 {
            if 0 <= pos < s.len() && s[pos] == 58 {
                Some(pos + 1)
            } else {
                None
            }
        } else {
            Some(pos)
        };
        let quad = if i + 1 < limit && q is Some {
            quad_from(s, q->0, 0)
        } else {
            None
        };
        match quad {
            Some((o, end)) => (
                acc.push((o[0] as u16 * 256 + o[1] as u16) as u16).push(
                    (o[2] as u16 * 256 + o[3] as u16) as u16,
                ),
                end,
                true,
            ),
            None => match q {
                None => (acc, pos, false),
                Some(q) => match number_at(s, q, true, 4, 0xFFFF, true) {
                    None => (acc, pos, false),
                    Some((g, end)) => groups_from(s, end, i + 1, limit, acc.push(g as u16)),
                },
            },
        }
    }
}

/// The sixteen octets of eight groups, big-endian.
pub open spec fn group_octets(g: Seq<u16>) -> Seq<u8> {
    Seq::new(16, |k: int| if k % 2 == 0 {
        (g[k / 2] / 256) as u8
    } else {
        (g[k / 2] % 256) as u8
    })
}

/// The address `s` spells, read as the standard library's `Ipv6Addr`
/// parser reads it: eight groups (the last two possibly a dotted quad), or
/// the groups before and after one `::`, which stands for the zero groups
/// between them (at least one).
pub open spec fn ipv6_value(s: Seq<u8>) -> Option<Seq<u8>> {
    let h = groups_from(s, 0, 0, 8, Seq::empty());
    if h.0.len() == 8 {
        if h.1 == s.len() {
            Some(group_octets(h.0))
        } else {
            None
        }
    } else if h.2 || !(s.len() - h.1 >= 2 && s[h.1] == 58 && s[h.1 + 1] == 58) {
        None
    } else {
        let t = groups_from(s, h.1 + 2, 0, (8 - (h.0.len() + 1)) as nat, Seq::empty());
        if t.1 != s.len() {
            None
        } else {
            Some(
                group_octets(
                    h.0 + Seq::new((8 - h.0.len() - t.0.len()) as nat, |k: int| 0u16) + t.0,
                ),
            )
        }
    }
}

/// Whether `b` is a hexadecimal digit (with `hex`) or a decimal one.
fn is_radix_digit(b: u8, hex: bool) -> (r: bool)
    ensures
        r == radix_digit(b, hex),
{
    if hex {
        is_hex_byte(b)
    } else {
        is_digit_byte(b)
    }
}

/// The run of digits has a larger value the longer it is.
proof fn lemma_run_grows(s: Seq<u8>, pos: int, a: int, b: int, hex: bool)
    requires
        0 <= pos <= a <= b <= s.len(),
        forall|k: int| pos <= k < b ==> radix_digit(#[trigger] s[k], hex),
    ensures
        run_value(s.subrange(pos, a), hex) <= run_value(s.subrange(pos, b), hex),
    decreases b - a,
{
    if a < b {
        lemma_run_grows(s, pos, a, b - 1, hex);
        assert(s.subrange(pos, b).drop_last() =~= s.subrange(pos, b - 1));
        assert(radix_digit(s[b - 1], hex));
        assert(s.subrange(pos, b).last() == s[b - 1]);
    }
}

proof fn lemma_run_end(s: Seq<u8>, pos: int, i: int, hex: bool)
    requires
        0 <= pos <= i <= s.len(),
        forall|k: int| pos <= k < i ==> radix_digit(#[trigger] s[k], hex),
    ensures
        run_end(s, pos, hex) == run_end(s, i, hex),
        i <= run_end(s, pos, hex) <= s.len(),
        forall|k: int| pos <= k < run_end(s, pos, hex) ==> radix_digit(#[trigger] s[k], hex),
    decreases i - pos,
{
    if pos < i {
        lemma_run_end(s, pos + 1, i, hex);
    } else {
        lemma_run_end_bounds(s, pos, hex);
    }
}

proof fn lemma_run_end_bounds(s: Seq<u8>, pos: int, hex: bool)
    requires
        0 <= pos <= s.len(),
    ensures
        pos <= run_end(s, pos, hex) <= s.len(),
        forall|k: int| pos <= k < run_end(s, pos, hex) ==> radix_digit(#[trigger] s[k], hex),
    decreases s.len() - pos,
{
    if pos < s.len() && radix_digit(s[pos], hex) {
        lemma_run_end_bounds(s, pos + 1, hex);
    }
}

/// A run of decimal (or, with `hex`, hexadecimal) digits at `pos`, read the
/// way the standard library's address parser reads one: every digit of the
/// run counts, there may be at most `max_digits` of them, the value may not
/// pass `max_value`, and without `zero_prefix` a multi-digit run may not
/// start with `0`.  Gives the value and where the run ends.
fn read_number(s: &[u8], pos: usize, hex: bool, max_digits: usize, max_value: u32, zero_prefix: bool)
    -> (r: Option<(u32, usize)>)
    requires
        pos <= s@.len(),
        max_value <= 0xFFFF,
    ensures
        match number_at(s@, pos as int, hex, max_digits as nat, max_value as nat, zero_prefix) {
            Some((v, e)) => r == Some((v as u32, e as usize)),
            None => r is None,
        },
        r matches Some((v, end)) ==> pos < end <= s@.len() && v <= max_value && number_at(
            s@,
            pos as int,
            hex,
            max_digits as nat,
            max_value as nat,
            zero_prefix,
        ) == Some((v as nat, end as int)),
{
    let mut i = pos;
    let mut value: u32 = 0;
    let mut count: usize = 0;
    while i < s.len() && is_radix_digit(s[i], hex)
        invariant
            pos <= i <= s@.len(),
            count == i - pos,
            count <= max_digits,
            value <= max_value <= 0xFFFF,
            value == run_value(s@.subrange(pos as int, i as int), hex),
            forall|k: int| pos <= k < i ==> radix_digit(#[trigger] s@[k], hex),
        decreases s@.len() - i,
    {
        let d: u32 = hex_byte_value(s[i]) as u32;
        proof {
            assert(s@.subrange(pos as int, i + 1).drop_last() =~= s@.subrange(pos as int, i as int));
            assert(hex ==> crate::text::hex_val(s@[i as int]) < 16);
        }
        let next: u32 = if hex {
            value * 16 + d
        } else {
            value * 10 + d
        };
        proof {
            if !hex {
                assert(crate::text::hex_val(s@[i as int]) < 10);
            }
        }
        if next > max_value {
            proof {
                lemma_run_end(s@, pos as int, i + 1, hex);
                lemma_run_grows(s@, pos as int, i + 1, run_end(s@, pos as int, hex), hex);
            }
            return None;
        }
        value = next;
        count += 1;
        i += 1;
        if count > max_digits {
            proof {
                lemma_run_end(s@, pos as int, i as int, hex);
            }
            return None;
        }
    }
    proof {
        lemma_run_end(s@, pos as int, i as int, hex);
        assert(run_end(s@, i as int, hex) == i);
    }
    if count == 0 {
        return None;
    }
    if !zero_prefix && count > 1 && s[pos] == 48 {
        return None;
    }
    Some((value, i))
}

/// A dotted-quad embedded at `pos`, with where it ends.
fn read_ipv4_at(s: &[u8], pos: usize) -> (r: Option<([u8; 4], usize)>)
    requires
        pos <= s@.len(),
    ensures
        match quad_from(s@, pos as int, 0) {
            Some((o, e)) => r matches Some((a, end)) && a@ == o && end == e,
            None => r is None,
        },
        r matches Some((_, end)) ==> pos < end <= s@.len(),
{
    let ghost whole = quad_from(s@, pos as int, 0);
    let mut out = [0u8; 4];
    let mut p = pos;
    let mut k: usize = 0;
    while k < 4
        invariant
            pos <= p <= s@.len(),
            k <= 4,
            k > 0 ==> pos < p,
            out@.len() == 4,
            whole == quad_from(s@, pos as int, 0),
            whole == match quad_from(s@, p as int, k as nat) {
                None => None,
                Some((rest, end)) => Some((out@.take(k as int) + rest, end)),
            },
        decreases 4 - k,
    {
        let ghost p0 = p;
        if k > 0 {
            if p >= s.len() || s[p] != 46 {
                return None;
            }
            p += 1;
        }
        match read_number(s, p, false, 3, 255, false) {
            Some((v, end)) => {
                let ghost o = out@;
                proof {
                    let st: Option<int> = if k > 0 {
                        if 0 <= p0 < s@.len() && s@[p0 as int] == 46 {
                            Some(p0 + 1)
                        } else {
                            None
                        }
                    } else {
                        Some(p0 as int)
                    };
                    assert(st == Some(p as int));
                    let nn = number_at(s@, p as int, false, 3, 255, false);
                    assert(nn matches Some((vv, ee)) && vv == v && ee == end);
                    assert(quad_from(s@, p0 as int, k as nat) == match quad_from(
                        s@,
                        end as int,
                        (k + 1) as nat,
                    ) {
                        None => None,
                        Some((rest, e2)) => Some((seq![v as u8] + rest, e2)),
                    });
                }
                out[k] = v as u8;
                p = end;
                proof {
                    match quad_from(s@, p as int, (k + 1) as nat) {
                        None => {},
                        Some((rest, e2)) => {
                            assert(o.take(k as int) + (seq![v as u8] + rest) =~= out@.take(k + 1)
                                + rest);
                        },
                    }
                }
            },
            None => return None,
        }
        k += 1;
    }
    proof {
        assert(out@.take(4) =~= out@);
        assert(out@.take(4) + Seq::<u8>::empty() =~= out@);
    }
    Some((out, p))
}

/// Up to `limit` colon-separated groups from `pos`, the last two of which may
/// be an embedded dotted quad: the groups, where they end, and whether a
/// dotted quad was read.
fn read_groups(s: &[u8], pos: usize, limit: usize) -> (r: (Vec<u16>, usize, bool))
    requires
        pos <= s@.len(),
        limit <= 8,
    ensures
        (r.0@, r.1 as int, r.2) == groups_from(s@, pos as int, 0, limit as nat, Seq::empty()),
        r.0@.len() <= limit,
        pos <= r.1 <= s@.len(),
{
    let ghost whole = groups_from(s@, pos as int, 0, limit as nat, Seq::empty());
    let mut groups: Vec<u16> = Vec::new();
    let mut p = pos;
    let mut i: usize = 0;
    while i < limit
        invariant
            pos <= p <= s@.len(),
            i <= limit <= 8,
            groups@.len() == i,
            whole == groups_from(s@, pos as int, 0, limit as nat, Seq::empty()),
            whole == groups_from(s@, p as int, i as nat, limit as nat, groups@),
        decreases limit - i,
    {
        let q = if i > 0 {
            if p < s.len() && s[p] == 58 {
                Some(p + 1)
            } else {
                None
            }
        } else {
            Some(p)
        };
        if i + 1 < limit {
            if let Some(q) = q {
                if let Some((quad, end)) = read_ipv4_at(s, q) {
                    groups.push(((quad[0] as u16) << 8) | quad[1] as u16);
                    groups.push(((quad[2] as u16) << 8) | quad[3] as u16);
                    proof {
                        let a = quad[0];
                        let b = quad[1];
                        let c = quad[2];
                        let d = quad[3];
                        assert(((a as u16) << 8) | b as u16 == (a as u16 * 256 + b as u16) as u16)
                            by (bit_vector);
                        assert(((c as u16) << 8) | d as u16 == (c as u16 * 256 + d as u16) as u16)
                            by (bit_vector);
                    }
                    return (groups, end, true);
                }
            }
        }
        let q = match q {
            Some(q) => q,
            None => return (groups, p, false),
        };
        match read_number(s, q, true, 4, 0xFFFF, true) {
            Some((g, end)) => {
                proof {
                    assert(groups_from(s@, p as int, i as nat, limit as nat, groups@)
                        == groups_from(s@, end as int, (i + 1) as nat, limit as nat, groups@.push(g as u16)));
                }
                groups.push(g as u16);
                p = end;
            },
            None => return (groups, p, false),
        }
        i += 1;
    }
    (groups, p, false)
}

/// Parse an IPv6 address as the standard library's `Ipv6Addr` parser does:
/// up to eight groups of one to four hex digits, one `::` standing for at
/// least one group of zeros, and an optional dotted quad in the last two
/// groups.
pub fn parse_ipv6(text: &[u8]) -> (r: Option<[u8; 16]>)
    ensures
        match ipv6_value(text@) {
            Some(o) => r matches Some(a) && a@ == o,
            None => r is None,
        },
{
    let (head, p, head_ipv4) = read_groups(text, 0, 8);
    let mut out = [0u8; 16];
    if head.len() == 8 {
        if p != text.len() {
            return None;
        }
        let mut k: usize = 0;
        while k < 8
            invariant
                k <= 8,
                head@.len() == 8,
                out@.len() == 16,
                forall|j: int| 0 <= j < 2 * k ==> out@[j] == #[trigger] group_octets(head@)[j],
            decreases 8 - k,
        {
            let g = head[k];
            out[2 * k] = (g >> 8) as u8;
            out[2 * k + 1] = (g & 0xff) as u8;
            proof {
                assert((g >> 8) as u8 == (g / 256) as u8) by (bit_vector);
                assert((g & 0xff) as u8 == (g % 256) as u8) by (bit_vector);
            }
            k += 1;
        }
        assert(out@ =~= group_octets(head@));
        return Some(out);
    }
    if head_ipv4 {
        return None;
    }
    if text.len() - p < 2 || text[p] != 58 || text[p + 1] != 58 {
        return None;
    }
    let limit = 8 - (head.len() + 1);
    let (tail, p2, _) = read_groups(text, p + 2, limit);
    if p2 != text.len() {
        return None;
    }
    let ghost all = head@ + Seq::new((8 - head@.len() - tail@.len()) as nat, |k: int| 0u16)
        + tail@;
    let mut k: usize = 0;
    while k < head.len()
        invariant
            k <= head@.len() < 8,
            head@.len() + tail@.len() <= 7,
            all == head@ + Seq::new((8 - head@.len() - tail@.len()) as nat, |k: int| 0u16) + tail@,
            out@.len() == 16,
            forall|j: int| 0 <= j < 2 * k ==> out@[j] == #[trigger] group_octets(all)[j],
            forall|j: int| 2 * head@.len() <= j < 16 ==> out@[j] == 0,
        decreases head@.len() - k,
    {
        let g = head[k];
        out[2 * k] = (g >> 8) as u8;
        out[2 * k + 1] = (g & 0xff) as u8;
        proof {
            assert((g >> 8) as u8 == (g / 256) as u8) by (bit_vector);
            assert((g & 0xff) as u8 == (g % 256) as u8) by (bit_vector);
            assert(all[k as int] == g);
        }
        k += 1;
    }
    let off = 8 - tail.len();
    let mut k: usize = 0;
    while k < tail.len()
        invariant
            k <= tail@.len() <= 7,
            head@.len() + tail@.len() <= 7,
            off + tail@.len() == 8,
            all == head@ + Seq::new((8 - head@.len() - tail@.len()) as nat, |k: int| 0u16) + tail@,
            out@.len() == 16,
            forall|j: int| 0 <= j < 2 * head@.len() ==> out@[j] == #[trigger] group_octets(all)[j],
            forall|j: int| 2 * head@.len() <= j < 2 * off ==> #[trigger] out@[j] == 0,
            forall|j: int| 2 * head@.len() <= j < 2 * off ==> #[trigger] group_octets(all)[j] == 0,
            forall|j: int| 2 * off <= j < 2 * (off + k) ==> out@[j] == #[trigger] group_octets(all)[j],
        decreases tail@.len() - k,
    {
        let g = tail[k];
        let ghost before = out@;
        out[2 * (off + k)] = (g >> 8) as u8;
        out[2 * (off + k) + 1] = (g & 0xff) as u8;
        proof {
            assert forall|j: int| 0 <= j < 2 * off implies out@[j] == before[j] by {}
            assert((g >> 8) as u8 == (g / 256) as u8) by (bit_vector);
            assert((g & 0xff) as u8 == (g % 256) as u8) by (bit_vector);
            assert(all[off + k] == g);
            let j0 = 2 * (off + k);
            assert(group_octets(all)[j0] == (all[j0 / 2] / 256) as u8);
            assert(group_octets(all)[j0 + 1] == (all[(j0 + 1) / 2] % 256) as u8);
            assert(j0 / 2 == off + k);
            assert((j0 + 1) / 2 == off + k);
        }
        k += 1;
    }
    assert(out@ =~= group_octets(all));
    Some(out)
}

/// Group `i` of an address: two octets read big-endian.
pub open spec fn group_at(a: Seq<u8>, i: int) -> nat {
    (a[2 * i] * 256 + a[2 * i + 1]) as nat
}

/// The groups `lo..hi` of `a` in hex, separated by colons.
pub open spec fn groups_text(a: Seq<u8>, lo: int, hi: int) -> Seq<u8>
    decreases hi - lo,
{
    if hi <= lo {
        Seq::empty()
    } else if hi == lo + 1 {
        hex_digits(group_at(a, lo))
    } else {
        groups_text(a, lo, hi - 1) + seq![58u8] + hex_digits(group_at(a, hi - 1))
    }
}

/// How many zero groups run from group `i` on.
pub open spec fn zero_run(a: Seq<u8>, i: int) -> nat
    decreases 8 - i,
{
    if 0 <= i < 8 && a[2 * i] == 0 && a[2 * i + 1] == 0 {
        1 + zero_run(a, i + 1)
    } else {
        0
    }
}

/// The first longest run of zero groups starting before group `k`: its
/// start and length.
pub open spec fn longest_zero_run(a: Seq<u8>, k: int) -> (int, nat)
    decreases k,
{
    if k <= 0 {
        (0, 0)
    } else {
        let prev = longest_zero_run(a, k - 1);
        let r = zero_run(a, k - 1);
        if r > prev.1 {
            (k - 1, r)
        } else {
            prev
        }
    }
}

/// Whether `a` is an IPv4-mapped address, `::ffff:a.b.c.d`.
pub open spec fn v4_mapped(a: Seq<u8>) -> bool {
    &&& forall|k: int| 0 <= k < 10 ==> a[k] == 0
    &&& a[10] == 0xff
    &&& a[11] == 0xff
}

/// The text of an IPv6 address as the standard library's `Ipv6Addr`
/// displays it.
pub open spec fn ipv6_spec(a: Seq<u8>) -> Seq<u8> {
    if v4_mapped(a) {
        seq![58u8, 58, 102, 102, 102, 102, 58] + ipv4_text(a[12], a[13], a[14], a[15])
    } else {
        let (start, len) = longest_zero_run(a, 8);
        if len > 1 {
            groups_text(a, 0, start) + seq![58u8, 58] + groups_text(a, start + len, 8)
        } else {
            groups_text(a, 0, 8)
        }
    }
}

proof fn lemma_zero_run(a: Seq<u8>, i: int)
    requires
        0 <= i <= 8,
    ensures
        i + zero_run(a, i) <= 8,
    decreases 8 - i,
{
    if i < 8 && a[2 * i] == 0 && a[2 * i + 1] == 0 {
        lemma_zero_run(a, i + 1);
    }
}

proof fn lemma_longest_zero_run(a: Seq<u8>, k: int)
    requires
        0 <= k <= 8,
    ensures
        0 <= longest_zero_run(a, k).0,
        longest_zero_run(a, k).0 + longest_zero_run(a, k).1 <= 8,
    decreases k,
{
    if k > 0 {
        lemma_longest_zero_run(a, k - 1);
        lemma_zero_run(a, k - 1);
    }
}

/// Append the groups `lo..hi` of `a` in hex, separated by colons.
fn push_groups(out: &mut Vec<u8>, a: &[u8; 16], lo: usize, hi: usize)
    requires
        lo <= hi <= 8,
    ensures
        final(out)@ == old(out)@ + groups_text(a@, lo as int, hi as int),
{
    let mut i = lo;
    assert(groups_text(a@, lo as int, lo as int) =~= Seq::<u8>::empty());
    while i < hi
        invariant
            lo <= i <= hi <= 8,
            out@ == old(out)@ + groups_text(a@, lo as int, i as int),
        decreases hi - i,
    {
        let ghost before = out@;
        if i > lo {
            out.push(58);
        }
        let g: u64 = (a[2 * i] as u64) * 256 + a[2 * i + 1] as u64;
        push_hex(out, g);
        i += 1;
        assert(out@ =~= old(out)@ + groups_text(a@, lo as int, i as int));
    }
}

/// Write an IPv6 address as the standard library's `Ipv6Addr` displays it:
/// an IPv4-mapped address as `::ffff:a.b.c.d`, otherwise lowercase hex
/// groups with the first longest run of two or more zero groups written as
/// `::`.
pub fn ipv6_text(a: &[u8; 16]) -> (r: Vec<u8>)
    ensures
        r@ == ipv6_spec(a@),
{
    let mut out: Vec<u8> = Vec::new();
    let mut mapped = a[10] == 0xff && a[11] == 0xff;
    let mut k: usize = 0;
    while k < 10
        invariant
            k <= 10,
            mapped == (a@[10] == 0xff && a@[11] == 0xff && forall|m: int| 0 <= m < k ==> a@[m] == 0),
        decreases 10 - k,
    {
        if a[k] != 0 {
            mapped = false;
        }
        k += 1;
    }
    if mapped {
        out.push(58);
        out.push(58);
        out.push(102);
        out.push(102);
        out.push(102);
        out.push(102);
        out.push(58);
        push_ipv4_text(&mut out, a[12], a[13], a[14], a[15]);
        assert(out@ =~= ipv6_spec(a@));
        return out;
    }
    // The first longest run of zero groups.
    let mut best_start: usize = 0;
    let mut best_len: usize = 0;
    let mut s: usize = 0;
    while s < 8
        invariant
            s <= 8,
            (best_start as int, best_len as nat) == longest_zero_run(a@, s as int),
            best_start + best_len <= 8,
        decreases 8 - s,
    {
        proof {
            lemma_longest_zero_run(a@, s as int + 1);
        }
        let mut run: usize = 0;
        while s + run < 8 && a[2 * (s + run)] == 0 && a[2 * (s + run) + 1] == 0
            invariant
                s < 8,
                s + run <= 8,
                zero_run(a@, s as int) == run + zero_run(a@, (s + run) as int),
            decreases 8 - s - run,
        {
            run += 1;
        }
        if run > best_len {
            best_start = s;
            best_len = run;
        }
        s += 1;
    }
    if best_len > 1 {
        push_groups(&mut out, a, 0, best_start);
        out.push(58);
        out.push(58);
        push_groups(&mut out, a, best_start + best_len, 8);
    } else {
        push_groups(&mut out, a, 0, 8);
    }
    assert(out@ =~= ipv6_spec(a@));
    out
}

/// The text of a dotted quad.
pub open spec fn ipv4_text(a: u8, b: u8, c: u8, d: u8) -> Seq<u8> {
    crate::text::dec_digits(a as nat) + seq![46u8] + crate::text::dec_digits(b as nat) + seq![46u8]
        + crate::text::dec_digits(c as nat) + seq![46u8] + crate::text::dec_digits(d as nat)
}

/// Append `a.b.c.d`.
pub fn push_ipv4_text(out: &mut Vec<u8>, a: u8, b: u8, c: u8, d: u8)
    ensures
        final(out)@ == old(out)@ + ipv4_text(a, b, c, d),
{
    push_dec(out, a as u64);
    out.push(46);
    push_dec(out, b as u64);
    out.push(46);
    push_dec(out, c as u64);
    out.push(46);
    push_dec(out, d as u64);
    assert(final(out)@ =~= old(out)@ + ipv4_text(a, b, c, d));
}

/// The digits of a number have no dot.
proof fn lemma_digits_no_dot(n: nat)
    ensures
        forall|i: int| 0 <= i < dec_digits(n).len() ==> #[trigger] dec_digits(n)[i] != 46,
{
    crate::text::law_decimal_round_trip(n);
    assert forall|i: int| 0 <= i < dec_digits(n).len() implies #[trigger] dec_digits(n)[i] != 46 by {
        assert(crate::text::is_digit(dec_digits(n)[i]));
    }
}

/// A dotted quad printed by the decoder reads back through `parse_ipv4` as
/// the same four octets.
pub proof fn law_ipv4_round_trip(a: u8, b: u8, c: u8, d: u8)
    ensures
        ipv4_octets(ipv4_text(a, b, c, d)) == Some(seq![a, b, c, d]),
{
    let da = dec_digits(a as nat);
    let db = dec_digits(b as nat);
    let dc = dec_digits(c as nat);
    let dd = dec_digits(d as nat);
    lemma_digits_no_dot(a as nat);
    lemma_digits_no_dot(b as nat);
    lemma_digits_no_dot(c as nat);
    lemma_digits_no_dot(d as nat);
    crate::text::law_decimal_round_trip(a as nat);
    crate::text::law_decimal_round_trip(b as nat);
    crate::text::law_decimal_round_trip(c as nat);
    crate::text::law_decimal_round_trip(d as nat);
    crate::text::lemma_split_single(da, 46);
    crate::text::lemma_split_join(da, db, 46);
    let x2 = da + seq![46u8] + db;
    crate::text::lemma_split_join(x2, dc, 46);
    let x3 = x2 + seq![46u8] + dc;
    crate::text::lemma_split_join(x3, dd, 46);
    assert(ipv4_text(a, b, c, d) =~= x3 + seq![46u8] + dd);
    let parts = split_on(ipv4_text(a, b, c, d), 46);
    assert(parts =~= seq![da, db, dc, dd]);
    assert(Seq::new(4, |i: int| quad_part(parts[i]).unwrap()) =~= seq![a, b, c, d]);
}

// ---------------------------------------------------------------------------
// Reading back what is written
// ---------------------------------------------------------------------------

/// A run of digits `t` standing at `p` and ended by a non-digit (or the end)
/// is read as its value.
proof fn lemma_number_at_run(
    s: Seq<u8>,
    p: int,
    t: Seq<u8>,
    hex: bool,
    max_digits: nat,
    max_value: nat,
    zero_prefix: bool,
)
    requires
        0 <= p,
        p + t.len() <= s.len(),
        forall|k: int| 0 <= k < t.len() ==> s[p + k] == #[trigger] t[k],
        forall|k: int| 0 <= k < t.len() ==> radix_digit(#[trigger] t[k], hex),
        p + t.len() == s.len() || !radix_digit(s[p + t.len()], hex),
        1 <= t.len() <= max_digits,
        run_value(t, hex) <= max_value,
        zero_prefix || t.len() == 1 || t[0] != 48,
    ensures
        number_at(s, p, hex, max_digits, max_value, zero_prefix) == Some(
            (run_value(t, hex), p + t.len()),
        ),
{
    let e = p + t.len();
    assert forall|k: int| p <= k < e implies radix_digit(#[trigger] s[k], hex) by {
        assert(s[p + (k - p)] == t[k - p]);
    }
    lemma_run_end(s, p, e, hex);
    assert(run_end(s, e, hex) == e);
    assert(s.subrange(p, e) =~= t);
    if !zero_prefix && t.len() > 1 {
        assert(s[p] == t[0]);
    }
}

/// Without a dot in the text no dotted quad is read.
proof fn lemma_no_quad(s: Seq<u8>, q: int)
    requires
        forall|k: int| 0 <= k < s.len() ==> #[trigger] s[k] != 46,
    ensures
        quad_from(s, q, 0) is None,
{
    reveal_with_fuel(quad_from, 2);
}

/// A dotted quad written at `p`, up to the end of the text, reads back as
/// its four octets.
proof fn lemma_quad_reads(s: Seq<u8>, p: int, a: u8, b: u8, c: u8, d: u8)
    requires
        0 <= p,
        p + ipv4_text(a, b, c, d).len() == s.len(),
        forall|k: int| 0 <= k < ipv4_text(a, b, c, d).len() ==> s[p + k] == #[trigger] ipv4_text(a, b, c, d)[k],
    ensures
        quad_from(s, p, 0) == Some((seq![a, b, c, d], s.len() as int)),
{
    let it = ipv4_text(a, b, c, d);
    let da = dec_digits(a as nat);
    let db = dec_digits(b as nat);
    let dc = dec_digits(c as nat);
    let dd = dec_digits(d as nat);
    crate::text::lemma_dec_digits_form(a as nat);
    crate::text::lemma_dec_digits_form(b as nat);
    crate::text::lemma_dec_digits_form(c as nat);
    crate::text::lemma_dec_digits_form(d as nat);
    let e1 = p + da.len();
    let e2 = e1 + 1 + db.len();
    let e3 = e2 + 1 + dc.len();
    let e4 = e3 + 1 + dd.len();
    assert(it =~= da + seq![46u8] + db + seq![46u8] + dc + seq![46u8] + dd);
    assert(e4 == s.len());
    assert forall|k: int| 0 <= k < da.len() implies s[p + k] == #[trigger] da[k] by {
        assert(it[k] == da[k]);
    }
    assert forall|k: int| 0 <= k < db.len() implies s[e1 + 1 + k] == #[trigger] db[k] by {
        assert(it[da.len() + 1 + k] == db[k]);
    }
    assert forall|k: int| 0 <= k < dc.len() implies s[e2 + 1 + k] == #[trigger] dc[k] by {
        assert(it[e2 - p + 1 + k] == dc[k]);
    }
    assert forall|k: int| 0 <= k < dd.len() implies s[e3 + 1 + k] == #[trigger] dd[k] by {
        assert(it[e3 - p + 1 + k] == dd[k]);
    }
    assert(s[e1] == it[e1 - p]);
    assert(s[e2] == it[e2 - p]);
    assert(s[e3] == it[e3 - p]);
    lemma_number_at_run(s, p, da, false, 3, 255, false);
    lemma_number_at_run(s, e1 + 1, db, false, 3, 255, false);
    lemma_number_at_run(s, e2 + 1, dc, false, 3, 255, false);
    lemma_number_at_run(s, e3 + 1, dd, false, 3, 255, false);
    assert(quad_from(s, e4, 4) == Some((Seq::<u8>::empty(), e4)));
    assert(quad_from(s, e3, 3) == Some((seq![d], e4)));
    assert(quad_from(s, e2, 2) == Some((seq![c, d], e4)));
    assert(quad_from(s, e1, 1) == Some((seq![b, c, d], e4)));
    assert(quad_from(s, p, 0) == Some((seq![a, b, c, d], e4)));
}

/// The groups `lo..lo + j` of `a` as 16-bit values.
spec fn group_values(a: Seq<u8>, lo: int, j: int) -> Seq<u16> {
    Seq::new(j as nat, |k: int| group_at(a, lo + k) as u16)
}

/// Written groups are hex digits and colons.
proof fn lemma_groups_text_chars(a: Seq<u8>, lo: int, hi: int)
    ensures
        forall|k: int|
            0 <= k < groups_text(a, lo, hi).len() ==> is_hex_digit_or_colon(
                #[trigger] groups_text(a, lo, hi)[k],
            ),
    decreases hi - lo,
{
    let g = groups_text(a, lo, hi);
    if hi == lo + 1 {
        crate::text::lemma_hex_digits_form(group_at(a, lo));
    } else if hi > lo + 1 {
        lemma_groups_text_chars(a, lo, hi - 1);
        let x = groups_text(a, lo, hi - 1);
        let h = hex_digits(group_at(a, hi - 1));
        crate::text::lemma_hex_digits_form(group_at(a, hi - 1));
        assert(g == x + seq![58u8] + h);
        assert forall|k: int| 0 <= k < g.len() implies is_hex_digit_or_colon(#[trigger] g[k]) by {
            if k < x.len() {
                assert(g[k] == x[k]);
            } else if k > x.len() {
                assert(g[k] == h[k - x.len() - 1]);
            }
        }
    }
}

/// A hex digit or a colon.
spec fn is_hex_digit_or_colon(b: u8) -> bool {
    crate::text::is_hex_digit(b) || b == 58
}

/// Fewer groups are written as a prefix of more, followed by a colon.
proof fn lemma_groups_prefix(a: Seq<u8>, lo: int, h1: int, h2: int)
    requires
        lo <= h1 <= h2,
    ensures
        groups_text(a, lo, h1).len() <= groups_text(a, lo, h2).len(),
        forall|k: int|
            0 <= k < groups_text(a, lo, h1).len() ==> #[trigger] groups_text(a, lo, h2)[k]
                == groups_text(a, lo, h1)[k],
        lo < h1 < h2 ==> groups_text(a, lo, h1).len() < groups_text(a, lo, h2).len()
            && groups_text(a, lo, h2)[groups_text(a, lo, h1).len() as int] == 58,
    decreases h2 - h1,
{
    if h1 < h2 {
        lemma_groups_prefix(a, lo, h1, h2 - 1);
        if h2 > lo + 1 {
            let x = groups_text(a, lo, h2 - 1);
            let h = hex_digits(group_at(a, h2 - 1));
            assert(groups_text(a, lo, h2) == x + seq![58u8] + h);
            assert forall|k: int| 0 <= k < x.len() implies #[trigger] groups_text(a, lo, h2)[k]
                == x[k] by {}
        } else {
            assert(groups_text(a, lo, h1).len() == 0);
        }
    }
}

/// The groups `lo..lo + n` written at `p`, ended by the end of the text or
/// by `::`, in a text without a dot.
spec fn groups_written(s: Seq<u8>, p: int, a: Seq<u8>, lo: int, n: int) -> bool {
    let g = groups_text(a, lo, lo + n);
    let e = p + g.len();
    &&& a.len() == 16
    &&& 0 <= lo
    &&& 0 <= n
    &&& lo + n <= 8
    &&& 0 <= p
    &&& e <= s.len()
    &&& forall|k: int| 0 <= k < g.len() ==> s[p + k] == #[trigger] g[k]
    &&& forall|k: int| 0 <= k < s.len() ==> #[trigger] s[k] != 46
    &&& (e == s.len() || (e + 1 < s.len() && s[e] == 58 && s[e + 1] == 58))
}

/// Reading one more of the written groups.
proof fn lemma_group_step(s: Seq<u8>, p: int, a: Seq<u8>, lo: int, n: int, limit: nat, j: int)
    requires
        groups_written(s, p, a, lo, n),
        0 <= j < n <= limit,
    ensures
        groups_from(
            s,
            p + groups_text(a, lo, lo + j).len(),
            j as nat,
            limit,
            group_values(a, lo, j),
        ) == groups_from(
            s,
            p + groups_text(a, lo, lo + j + 1).len(),
            (j + 1) as nat,
            limit,
            group_values(a, lo, j + 1),
        ),
{
    let gn = groups_text(a, lo, lo + n);
    let gj = groups_text(a, lo, lo + j);
    let gj1 = groups_text(a, lo, lo + j + 1);
    let pos = p + gj.len();
    let g = group_at(a, lo + j);
    let h = hex_digits(g);
    crate::text::lemma_hex_digits_form(g);
    lemma_groups_prefix(a, lo, lo + j, lo + n);
    lemma_groups_prefix(a, lo, lo + j + 1, lo + n);
    let q = if j > 0 {
        pos + 1
    } else {
        pos
    };
    if j > 0 {
        assert(gj1 == gj + seq![58u8] + h);
        assert(s[p + gj.len()] == gn[gj.len() as int]);
    } else {
        assert(gj.len() == 0);
        assert(gj1 == h);
    }
    assert(q + h.len() == p + gj1.len());
    assert forall|k: int| 0 <= k < h.len() implies s[q + k] == #[trigger] h[k] by {
        assert(s[p + (q + k - p)] == gn[q + k - p]);
        assert(gn[q + k - p] == gj1[q + k - p]);
    }
    if j + 1 < n {
        assert(s[p + gj1.len()] == gn[gj1.len() as int]);
    }
    lemma_no_quad(s, q);
    lemma_number_at_run(s, q, h, true, 4, 0xFFFF, true);
    assert(group_values(a, lo, j).push(g as u16) =~= group_values(a, lo, j + 1));
}

/// Reading the first `j` of the written groups.
proof fn lemma_groups_read(s: Seq<u8>, p: int, a: Seq<u8>, lo: int, n: int, limit: nat, j: int)
    requires
        groups_written(s, p, a, lo, n),
        0 <= j <= n <= limit,
    ensures
        groups_from(s, p, 0, limit, Seq::empty()) == groups_from(
            s,
            p + groups_text(a, lo, lo + j).len(),
            j as nat,
            limit,
            group_values(a, lo, j),
        ),
    decreases j,
{
    if j == 0 {
        assert(group_values(a, lo, 0) =~= Seq::<u16>::empty());
    } else {
        lemma_groups_read(s, p, a, lo, n, limit, j - 1);
        lemma_group_step(s, p, a, lo, n, limit, j - 1);
    }
}

/// The reading stops at the end of the text or at `::`.
proof fn lemma_groups_stop(s: Seq<u8>, e: int, n: nat, limit: nat, acc: Seq<u16>)
    requires
        0 <= e <= s.len(),
        n <= limit,
        e == s.len() || (e + 1 < s.len() && s[e] == 58 && s[e + 1] == 58),
    ensures
        groups_from(s, e, n, limit, acc) == (acc, e, false),
{
}

/// The longest run found is a run of zero groups of that length.
proof fn lemma_longest_is_run(a: Seq<u8>, k: int)
    requires
        1 <= k <= 8,
    ensures
        longest_zero_run(a, k).1 == zero_run(a, longest_zero_run(a, k).0),
    decreases k,
{
    if k > 1 {
        lemma_longest_is_run(a, k - 1);
    } else {
        assert(longest_zero_run(a, 0) == (0int, 0nat));
    }
}

/// The groups of a run of zeros are zero.
proof fn lemma_zero_run_zeros(a: Seq<u8>, i: int, m: int)
    requires
        0 <= i,
        0 <= m <= zero_run(a, i),
    ensures
        forall|j: int| i <= j < i + m ==> #[trigger] group_at(a, j) == 0,
    decreases m,
{
    if m > 0 {
        lemma_zero_run_zeros(a, i + 1, m - 1);
    }
}

/// A group splits back into its two octets.
proof fn lemma_group_split(x: u8, y: u8)
    ensures
        ((x * 256 + y) as u16) / 256 == x,
        ((x * 256 + y) as u16) % 256 == y,
{
    assert(((x * 256 + y) as u16) == x * 256 + y);
    assert((x * 256 + y) / 256 == x) by (nonlinear_arith)
        requires
            x < 256,
            y < 256,
    ;
    assert((x * 256 + y) % 256 == y) by (nonlinear_arith)
        requires
            x < 256,
            y < 256,
    ;
}

/// The octets of the groups of `a` are `a`.
proof fn lemma_octets_of_groups(a: Seq<u8>, gs: Seq<u16>)
    requires
        a.len() == 16,
        gs.len() == 8,
        forall|i: int| 0 <= i < 8 ==> #[trigger] gs[i] == group_at(a, i) as u16,
    ensures
        group_octets(gs) == a,
{
    assert forall|k: int| 0 <= k < 16 implies #[trigger] group_octets(gs)[k] == a[k] by {
        let i = k / 2;
        lemma_group_split(a[2 * i], a[2 * i + 1]);
        assert(gs[i] == group_at(a, i) as u16);
    }
    assert(group_octets(gs) =~= a);
}

/// The text of an IPv4-mapped address reads back as the address.
proof fn lemma_mapped_reads(a: Seq<u8>)
    requires
        a.len() == 16,
        v4_mapped(a),
    ensures
        ipv6_value(ipv6_spec(a)) == Some(a),
{
    let s = ipv6_spec(a);
    let pre = seq![58u8, 58, 102, 102, 102, 102, 58];
    let it = ipv4_text(a[12], a[13], a[14], a[15]);
    assert(s == pre + it);
    // Before the `::` no group is read.
    assert(groups_from(s, 0, 0, 8, Seq::empty()) == (Seq::<u16>::empty(), 0int, false));
    // After it, `ffff` and then the dotted quad.
    let ff = seq![102u8, 102, 102, 102];
    reveal_with_fuel(hex_digits, 4);
    assert(hex_digits(0xFFFF) =~= ff);
    crate::text::lemma_hex_digits_form(0xFFFF);
    lemma_number_at_run(s, 2, ff, true, 4, 0xFFFF, true);
    assert forall|k: int| 0 <= k < it.len() implies s[7 + k] == #[trigger] it[k] by {
        assert(s[7 + k] == (pre + it)[7 + k]);
    }
    lemma_quad_reads(s, 7, a[12], a[13], a[14], a[15]);
    let tail = seq![
        0xFFFFu16,
        (a[12] as u16 * 256 + a[13] as u16) as u16,
        (a[14] as u16 * 256 + a[15] as u16) as u16,
    ];
    assert(groups_from(s, 6, 1, 7, seq![0xFFFFu16]) == (tail, s.len() as int, true));
    assert(groups_from(s, 2, 0, 7, Seq::empty()) == (tail, s.len() as int, true));
    let all = Seq::<u16>::empty() + Seq::new(5, |k: int| 0u16) + tail;
    assert forall|i: int| 0 <= i < 8 implies #[trigger] all[i] == group_at(a, i) as u16 by {
        if i < 5 {
            assert(a[2 * i] == 0 && a[2 * i + 1] == 0);
        }
    }
    lemma_octets_of_groups(a, all);
}

/// The text of an address with a run of two or more zero groups, written
/// as `::`, reads back as the address.
proof fn lemma_compressed_reads(a: Seq<u8>)
    requires
        a.len() == 16,
        !v4_mapped(a),
        longest_zero_run(a, 8).1 > 1,
    ensures
        ipv6_value(ipv6_spec(a)) == Some(a),
{
    let s = ipv6_spec(a);
    let (start, len) = longest_zero_run(a, 8);
    lemma_longest_zero_run(a, 8);
    let hd = groups_text(a, 0, start);
    let tl = groups_text(a, start + len, 8);
    assert(s == hd + seq![58u8, 58] + tl);
    lemma_groups_text_chars(a, 0, start);
    lemma_groups_text_chars(a, start + len, 8);
    assert forall|k: int| 0 <= k < s.len() implies #[trigger] s[k] != 46 by {
        if k < hd.len() {
            assert(s[k] == hd[k]);
        } else if k >= hd.len() + 2 {
            assert(s[k] == tl[k - hd.len() - 2]);
        }
    }
    let p2: int = hd.len() as int + 2;
    let n2 = 8 - start - len;
    assert forall|k: int| 0 <= k < hd.len() implies s[0 + k] == #[trigger] hd[k] by {}
    assert forall|k: int| 0 <= k < tl.len() implies s[p2 + k] == #[trigger] tl[k] by {}
    assert(groups_written(s, 0, a, 0, start));
    assert(groups_written(s, p2, a, start + len, n2));
    lemma_groups_read(s, 0, a, 0, start, 8, start);
    lemma_groups_stop(s, hd.len() as int, start as nat, 8, group_values(a, 0, start));
    let limit = (8 - (start + 1)) as nat;
    lemma_groups_read(s, p2, a, start + len, n2, limit, n2);
    lemma_groups_stop(s, s.len() as int, n2 as nat, limit, group_values(a, start + len, n2));
    let gh = group_values(a, 0, start);
    let gt = group_values(a, start + len, n2);
    let all = gh + Seq::new((8 - gh.len() - gt.len()) as nat, |k: int| 0u16) + gt;
    lemma_longest_is_run(a, 8);
    lemma_zero_run_zeros(a, start, len as int);
    assert forall|i: int| 0 <= i < 8 implies #[trigger] all[i] == group_at(a, i) as u16 by {
        if start <= i < start + len {
            assert(group_at(a, i) == 0);
        }
    }
    lemma_octets_of_groups(a, all);
}

/// The text of an address written as eight groups reads back as the
/// address.
proof fn lemma_plain_reads(a: Seq<u8>)
    requires
        a.len() == 16,
        !v4_mapped(a),
        longest_zero_run(a, 8).1 <= 1,
    ensures
        ipv6_value(ipv6_spec(a)) == Some(a),
{
    let s = ipv6_spec(a);
    let g = groups_text(a, 0, 8);
    assert(s == g);
    lemma_groups_text_chars(a, 0, 8);
    assert forall|k: int| 0 <= k < s.len() implies #[trigger] s[k] != 46 by {}
    assert forall|k: int| 0 <= k < g.len() implies s[0 + k] == #[trigger] g[k] by {}
    assert(groups_written(s, 0, a, 0, 8));
    lemma_groups_read(s, 0, a, 0, 8, 8, 8);
    lemma_groups_stop(s, s.len() as int, 8, 8, group_values(a, 0, 8));
    lemma_octets_of_groups(a, group_values(a, 0, 8));
}

/// An IPv6 address written as the decoder writes it reads back, through
/// `parse_ipv6`, as the same sixteen octets.
pub proof fn law_ipv6_round_trip(a: Seq<u8>)
    requires
        a.len() == 16,
    ensures
        ipv6_value(ipv6_spec(a)) == Some(a),
{
    if v4_mapped(a) {
        lemma_mapped_reads(a);
    } else if longest_zero_run(a, 8).1 > 1 {
        lemma_compressed_reads(a);
    } else {
        lemma_plain_reads(a);
    }
}

} // verus!
