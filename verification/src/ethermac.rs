//! Ethernet MAC address conversion: six colon-separated hex groups of at most
//! two digits.
use vstd::prelude::*;
use vstd::string::StringSliceAdditionalSpecFns;
use crate::text::{
    all_ascii, ascii_string, find_byte, hex2, hex_value, lemma_hex2_value, lemma_split_join,
    lemma_split_single, lemma_split_step, parse_hex, push_hex2, split_on, string_octets,
};

verus! {

/// The octet one group of a MAC address stands for: one or two hex digits,
/// read as `u32::from_str_radix(.., 16)` reads them.
pub open spec fn mac_group(p: Seq<u8>) -> Option<u8> {
    if p.len() == 0 || p.len() > 2 {
        None
    } else {
        match hex_value(p) {
            Some(v) => if v <= 255 {
                Some(v as u8)
            } else {
                None
            },
            None => None,
        }
    }
}

/// The six octets of a MAC address written as colon-separated groups, when it
/// is one.
pub open spec fn mac_octets(s: Seq<u8>) -> Option<Seq<u8>> {
    let parts = split_on(s, 58);
    if parts.len() == 6 && forall|i: int| 0 <= i < 6 ==> #[trigger] mac_group(parts[i]) is Some {
        Some(Seq::new(6, |i: int| mac_group(parts[i]).unwrap()))
    } else {
        None
    }
}

/// The text `ether_ntoa` writes: the first six octets, two lowercase hex
/// digits each, joined by colons.
pub open spec fn mac_text(mac: Seq<u8>) -> Seq<u8>
    decreases mac.len(),
{
    if mac.len() == 0 {
        Seq::empty()
    } else if mac.len() == 1 {
        hex2(mac[0])
    } else {
        mac_text(mac.drop_last()) + seq![58u8] + hex2(mac.last())
    }
}

/// Parse a MAC address of six colon-separated groups of one or two hex digits.
pub fn ether_aton(macstr: &str) -> (r: Option<[u8; 6]>)
    ensures
        match mac_octets(macstr.spec_bytes()) {
            Some(m) => r matches Some(a) && a@ == m,
            None => r is None,
        },
{
    mac_from_bytes(macstr.as_bytes())
}

/// `ether_aton` on octets.
pub fn mac_from_bytes(b: &[u8]) -> (r: Option<[u8; 6]>)
    ensures
        match mac_octets(b@) {
            Some(m) => r matches Some(a) && a@ == m,
            None => r is None,
        },
{
    let ghost whole = split_on(b@, 58);
    let ghost mut done: Seq<Seq<u8>> = Seq::empty();
    let mut vals: Vec<u8> = Vec::new();
    let mut pos: usize = 0;
    let mut k: usize = 0;
    assert(b@.skip(0) =~= b@);
    assert(whole =~= done + split_on(b@.skip(0), 58));
    while k < 6
        invariant
            k <= 6,
            pos <= b@.len(),
            done.len() == k,
            vals@.len() == k,
            whole == split_on(b@, 58),
            k < 6 ==> whole == done + split_on(b@.skip(pos as int), 58),
            k == 6 ==> whole == done,
            forall|i: int| 0 <= i < k ==> #[trigger] mac_group(done[i]) == Some(vals@[i]),
        decreases 6 - k,
    {
        let j = find_byte(b, pos, 58);
        let ghost rest = b@.skip(pos as int);
        proof {
            lemma_split_step(rest, 58);
            assert(rest.take(j - pos) =~= b@.subrange(pos as int, j as int));
        }
        let n = j - pos;
        if n == 0 || n > 2 {
            proof {
                assert(whole[k as int] == b@.subrange(pos as int, j as int));
                assert(mac_group(whole[k as int]) is None);
            }
            return None;
        }
        let v = match parse_hex(b, pos, j) {
            Some(v) => v,
            None => {
                proof {
                    assert(whole[k as int] == b@.subrange(pos as int, j as int));
                    assert(mac_group(whole[k as int]) is None);
                }
                return None;
            },
        };
        if v > 255 {
            proof {
                assert(whole[k as int] == b@.subrange(pos as int, j as int));
                assert(mac_group(whole[k as int]) is None);
            }
            return None;
        }
        proof {
            assert(whole[k as int] == b@.subrange(pos as int, j as int));
        }
        vals.push(v as u8);
        if k < 5 {
            if j == b.len() {
                proof {
                    assert(whole.len() == k + 1);
                }
                return None;
            }
            proof {
                assert(rest.skip(j - pos + 1) =~= b@.skip(j + 1));
                done = done.push(b@.subrange(pos as int, j as int));
                assert(whole =~= done + split_on(b@.skip(j + 1), 58));
            }
            pos = j + 1;
        } else {
            if j < b.len() {
                proof {
                    assert(rest.skip(j - pos + 1) =~= b@.skip(j + 1));
                    lemma_split_step(b@.skip(j + 1), 58);
                    assert(whole.len() > 6);
                }
                return None;
            }
            proof {
                done = done.push(b@.subrange(pos as int, j as int));
                assert(whole =~= done);
            }
        }
        k = k + 1;
    }
    let arr: [u8; 6] = [vals[0], vals[1], vals[2], vals[3], vals[4], vals[5]];
    proof {
        assert(whole.len() == 6);
        assert forall|i: int| 0 <= i < 6 implies #[trigger] mac_group(whole[i]) is Some by {
            assert(mac_group(done[i]) == Some(vals@[i]));
        }
        assert(arr@ =~= Seq::new(6, |i: int| mac_group(whole[i]).unwrap()));
    }
    Some(arr)
}

/// Print up to six octets as lowercase colon-separated hex pairs.
pub fn ether_ntoa(mac: &[u8]) -> (r: String)
    ensures
        string_octets(r) == mac_text(mac@.take(if mac@.len() < 6 { mac@.len() as int } else { 6 })),
{
    let v = mac_text_bytes(mac);
    ascii_string(v)
}

proof fn lemma_mac_text_ascii(mac: Seq<u8>)
    ensures
        all_ascii(mac_text(mac)),
    decreases mac.len(),
{
    if mac.len() > 1 {
        lemma_mac_text_ascii(mac.drop_last());
    }
}

/// The octets of `ether_ntoa`'s text.
pub fn mac_text_bytes(mac: &[u8]) -> (r: Vec<u8>)
    ensures
        r@ == mac_text(mac@.take(if mac@.len() < 6 { mac@.len() as int } else { 6 })),
        all_ascii(r@),
{
    let n = if mac.len() < 6 {
        mac.len()
    } else {
        6
    };
    let mut out: Vec<u8> = Vec::new();
    let mut i: usize = 0;
    while i < n
        invariant
            n <= mac@.len(),
            i <= n,
            out@ == mac_text(mac@.take(i as int)),
        decreases n - i,
    {
        if i > 0 {
            out.push(58);
        }
        push_hex2(&mut out, mac[i]);
        proof {
            assert(mac@.take(i + 1).drop_last() =~= mac@.take(i as int));
            if i == 0 {
                assert(out@ =~= mac_text(mac@.take(1)));
            }
        }
        i = i + 1;
    }
    proof {
        lemma_mac_text_ascii(mac@.take(n as int));
    }
    out
}

proof fn lemma_mac_text_split(m: Seq<u8>)
    requires
        m.len() >= 1,
    ensures
        split_on(mac_text(m), 58) == Seq::new(m.len(), |i: int| hex2(m[i])),
    decreases m.len(),
{
    if m.len() == 1 {
        lemma_hex2_value(m[0]);
        lemma_split_single(hex2(m[0]), 58);
        assert(split_on(mac_text(m), 58) =~= Seq::new(m.len(), |i: int| hex2(m[i])));
    } else {
        let d = m.drop_last();
        lemma_mac_text_split(d);
        lemma_hex2_value(m.last());
        lemma_split_join(mac_text(d), hex2(m.last()), 58);
        assert(split_on(mac_text(m), 58) =~= Seq::new(m.len(), |i: int| hex2(m[i])));
    }
}

/// A MAC address printed by `ether_ntoa` reads back through `ether_aton`
/// as the same six octets.
pub proof fn law_mac_round_trip(m: Seq<u8>)
    requires
        m.len() == 6,
    ensures
        mac_octets(mac_text(m)) == Some(m),
{
    lemma_mac_text_split(m);
    let parts = split_on(mac_text(m), 58);
    assert forall|i: int| 0 <= i < 6 implies #[trigger] mac_group(parts[i]) == Some(m[i]) by {
        lemma_hex2_value(m[i]);
        assert(parts[i] == hex2(m[i]));
    }
    assert(Seq::new(6, |i: int| mac_group(parts[i]).unwrap()) =~= m);
}

} // verus!
