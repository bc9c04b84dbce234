//! Byte-level text helpers shared by the scanners, encoders and decoders:
//! splitting on a separator, reading decimal and hexadecimal numbers, and
//! writing numbers back out.
use vstd::prelude::*;
use vstd::utf8::*;

verus! {

// ---------------------------------------------------------------------------
// Splitting
// ---------------------------------------------------------------------------

/// The position of the first `c` in `s`, or `s.len()` when there is none.
pub open spec fn sep_index(s: Seq<u8>, c: u8) -> int
    decreases s.len(),
{
    if s.len() == 0 {
        0
    } else if s[0] == c {
        0
    } else {
        1 + sep_index(s.drop_first(), c)
    }
}

/// The pieces of `s` between occurrences of `c`, as `str::split` gives them.
pub open spec fn split_on(s: Seq<u8>, c: u8) -> Seq<Seq<u8>>
    decreases s.len(),
{
    let j = sep_index(s, c);
    if j < 0 || j >= s.len() {
        seq![s]
    } else {
        seq![s.take(j)] + split_on(s.skip(j + 1), c)
    }
}

pub proof fn lemma_sep_index(s: Seq<u8>, c: u8, k: int)
    requires
        0 <= k <= s.len(),
        forall|m: int| 0 <= m < k ==> s[m] != c,
        k == s.len() || s[k] == c,
    ensures
        sep_index(s, c) == k,
    decreases k,
{
    if k > 0 {
        lemma_sep_index(s.drop_first(), c, k - 1);
    }
}

pub proof fn lemma_sep_index_bounds(s: Seq<u8>, c: u8)
    ensures
        0 <= sep_index(s, c) <= s.len(),
        sep_index(s, c) < s.len() ==> s[sep_index(s, c)] == c,
        forall|m: int| 0 <= m < sep_index(s, c) ==> s[m] != c,
    decreases s.len(),
{
    if s.len() > 0 && s[0] != c {
        lemma_sep_index_bounds(s.drop_first(), c);
        assert forall|m: int| 0 <= m < sep_index(s, c) implies s[m] != c by {
            if m > 0 {
                assert(s[m] == s.drop_first()[m - 1]);
            }
        }
    }
}

/// The first position at or after `from` that holds `c`, or `s.len()`.
pub fn find_byte(s: &[u8], from: usize, c: u8) -> (j: usize)
    requires
        from <= s@.len(),
    ensures
        from <= j <= s@.len(),
        j - from == sep_index(s@.skip(from as int), c),
        j < s@.len() ==> s@[j as int] == c,
        forall|m: int| from <= m < j ==> s@[m] != c,
{
    let mut j = from;
    while j < s.len() && s[j] != c
        invariant
            from <= j <= s@.len(),
            forall|m: int| from <= m < j ==> s@[m] != c,
        decreases s@.len() - j,
    {
        j = j + 1;
    }
    proof {
        let t = s@.skip(from as int);
        lemma_sep_index(t, c, j - from);
    }
    j
}

/// The first position at or after `from` that holds `c`, if there is one.
pub fn find_byte_opt(s: &[u8], from: usize, c: u8) -> (r: Option<usize>)
    ensures
        r matches Some(j) ==> from <= j < s@.len() && s@[j as int] == c && forall|m: int|
            from <= m < j ==> s@[m] != c,
        r is None ==> forall|m: int| from <= m < s@.len() ==> s@[m] != c,
{
    if from > s.len() {
        return None;
    }
    let j = find_byte(s, from, c);
    if j < s.len() {
        Some(j)
    } else {
        None
    }
}

/// Splitting after a piece: the first piece is the text up to the first
/// separator and the rest splits on from just past it.
pub proof fn lemma_split_step(s: Seq<u8>, c: u8)
    ensures
        split_on(s, c).len() >= 1,
        split_on(s, c)[0] == s.take(sep_index(s, c)),
        sep_index(s, c) < s.len() ==> split_on(s, c) == seq![s.take(sep_index(s, c))] + split_on(
            s.skip(sep_index(s, c) + 1),
            c,
        ),
        sep_index(s, c) == s.len() ==> split_on(s, c) == seq![s],
{
    lemma_sep_index_bounds(s, c);
    if sep_index(s, c) == s.len() {
        assert(s.take(s.len() as int) =~= s);
    }
}

/// The bounds of every piece of `s` between occurrences of `c`.
pub fn split_ranges(s: &[u8], c: u8) -> (r: Vec<(usize, usize)>)
    ensures
        r@.len() == split_on(s@, c).len(),
        forall|i: int|
            0 <= i < r@.len() ==> (#[trigger] r@[i]).0 <= r@[i].1 <= s@.len()
                && split_on(s@, c)[i] == s@.subrange(r@[i].0 as int, r@[i].1 as int),
{
    let ghost whole = split_on(s@, c);
    let mut r: Vec<(usize, usize)> = Vec::new();
    let mut pos: usize = 0;
    assert(s@.skip(0) =~= s@);
    loop
        invariant
            pos <= s@.len(),
            whole == split_on(s@, c),
            r@.len() + split_on(s@.skip(pos as int), c).len() == whole.len(),
            forall|i: int|
                0 <= i < r@.len() ==> (#[trigger] r@[i]).0 <= r@[i].1 <= s@.len() && whole[i]
                    == s@.subrange(r@[i].0 as int, r@[i].1 as int),
            forall|i: int|
                0 <= i < split_on(s@.skip(pos as int), c).len() ==> whole[r@.len() + i]
                    == #[trigger] split_on(s@.skip(pos as int), c)[i],
        decreases s@.len() - pos,
    {
        let j = find_byte(s, pos, c);
        let ghost rest = s@.skip(pos as int);
        proof {
            lemma_split_step(rest, c);
            assert(rest.take(j - pos) =~= s@.subrange(pos as int, j as int));
            assert(whole[r@.len() as int] == split_on(rest, c)[0]);
        }
        r.push((pos, j));
        if j >= s.len() {
            proof {
                assert(split_on(rest, c).len() == 1);
            }
            return r;
        }
        proof {
            assert(rest.skip(j - pos + 1) =~= s@.skip(j + 1));
            let tail = split_on(s@.skip(j + 1), c);
            assert forall|i: int| 0 <= i < tail.len() implies whole[r@.len() + i] == #[trigger] tail[i] by {
                assert(split_on(rest, c)[i + 1] == tail[i]);
            }
        }
        pos = j + 1;
    }
}

// ---------------------------------------------------------------------------
// Digits
// ---------------------------------------------------------------------------

pub open spec fn is_digit(b: u8) -> bool {
    48 <= b <= 57
}

pub open spec fn is_hex_digit(b: u8) -> bool {
    (48 <= b <= 57) || (65 <= b <= 70) || (97 <= b <= 102)
}

pub open spec fn is_alpha(b: u8) -> bool {
    (65 <= b <= 90) || (97 <= b <= 122)
}

pub open spec fn hex_val(b: u8) -> nat {
    if 48 <= b <= 57 {
        (b - 48) as nat
    } else if 65 <= b <= 70 {
        (b - 55) as nat
    } else {
        (b - 87) as nat
    }
}

/// Whether every octet of `s` is a decimal digit.
pub open spec fn all_digits(s: Seq<u8>) -> bool {
    forall|i: int| 0 <= i < s.len() ==> is_digit(#[trigger] s[i])
}

/// Whether every octet of `s` is a hexadecimal digit.
pub open spec fn all_hex(s: Seq<u8>) -> bool {
    forall|i: int| 0 <= i < s.len() ==> is_hex_digit(#[trigger] s[i])
}

/// The value of a string of decimal digits.
pub open spec fn digits_value(s: Seq<u8>) -> nat
    decreases s.len(),
{
    if s.len() == 0 {
        0
    } else {
        digits_value(s.drop_last()) * 10 + (s.last() - 48) as nat
    }
}

/// The value of a string of hexadecimal digits.
pub open spec fn hex_digits_value(s: Seq<u8>) -> nat
    decreases s.len(),
{
    if s.len() == 0 {
        0
    } else {
        hex_digits_value(s.drop_last()) * 16 + hex_val(s.last())
    }
}

/// The value an unsigned `str::parse` reads: an optional `+`, then at least
/// one decimal digit and nothing else.
pub open spec fn dec_value(s: Seq<u8>) -> Option<nat> {
    let body = if s.len() > 0 && s[0] == 43 {
        s.drop_first()
    } else {
        s
    };
    if body.len() > 0 && all_digits(body) {
        Some(digits_value(body))
    } else {
        None
    }
}

/// The value a signed `str::parse` reads: an optional sign, then at least one
/// decimal digit and nothing else.
pub open spec fn signed_dec_value(s: Seq<u8>) -> Option<int> {
    if s.len() > 0 && s[0] == 45 {
        let body = s.drop_first();
        if body.len() > 0 && all_digits(body) {
            Some(-(digits_value(body) as int))
        } else {
            None
        }
    } else {
        match dec_value(s) {
            Some(v) => Some(v as int),
            None => None,
        }
    }
}

/// The value `from_str_radix(.., 16)` reads: an optional `+`, then at least
/// one hexadecimal digit and nothing else.
pub open spec fn hex_value(s: Seq<u8>) -> Option<nat> {
    let body = if s.len() > 0 && s[0] == 43 {
        s.drop_first()
    } else {
        s
    };
    if body.len() > 0 && all_hex(body) {
        Some(hex_digits_value(body))
    } else {
        None
    }
}

/// Two characters of hex read by `from_str_radix` give at most 255.
pub proof fn lemma_hex_two_digits(s: Seq<u8>)
    requires
        s.len() == 2,
    ensures
        hex_value(s) matches Some(v) ==> v < 256,
{
    let body = if s.len() > 0 && s[0] == 43 {
        s.drop_first()
    } else {
        s
    };
    if body.len() > 0 && all_hex(body) {
        let a = body.drop_last();
        assert(is_hex_digit(body.last()));
        assert(hex_val(body.last()) < 16);
        if a.len() == 1 {
            assert(is_hex_digit(a[0]));
            assert(a.drop_last() =~= Seq::<u8>::empty());
            assert(hex_digits_value(a.drop_last()) == 0);
            assert(hex_digits_value(a) == hex_val(a.last()));
            assert(hex_val(a.last()) < 16);
            assert(hex_digits_value(body) == hex_digits_value(a) * 16 + hex_val(body.last()));
        } else {
            assert(a =~= Seq::<u8>::empty());
            assert(hex_digits_value(a) == 0);
        }
    }
}

pub fn is_digit_byte(b: u8) -> (r: bool)
    ensures
        r == is_digit(b),
{
    48 <= b && b <= 57
}

pub fn is_hex_byte(b: u8) -> (r: bool)
    ensures
        r == is_hex_digit(b),
{
    (48 <= b && b <= 57) || (65 <= b && b <= 70) || (97 <= b && b <= 102)
}

pub fn is_alpha_byte(b: u8) -> (r: bool)
    ensures
        r == is_alpha(b),
{
    (65 <= b && b <= 90) || (97 <= b && b <= 122)
}

pub fn hex_byte_value(b: u8) -> (r: u8)
    requires
        is_hex_digit(b),
    ensures
        r as nat == hex_val(b),
        r < 16,
{
    if b <= 57 {
        b - 48
    } else if b <= 70 {
        b - 55
    } else {
        b - 87
    }
}

pub proof fn lemma_digits_value_step(s: Seq<u8>, i: int)
    requires
        0 <= i < s.len(),
    ensures
        digits_value(s.take(i + 1)) == digits_value(s.take(i)) * 10 + (s[i] - 48) as nat,
        hex_digits_value(s.take(i + 1)) == hex_digits_value(s.take(i)) * 16 + hex_val(s[i]),
{
    assert(s.take(i + 1).drop_last() =~= s.take(i));
}

/// The value of `s[lo..hi]` read as decimal digits, when it fits in 64 bits.
pub fn digits_to_u64(s: &[u8], lo: usize, hi: usize) -> (r: Option<u64>)
    requires
        lo <= hi <= s@.len(),
        all_digits(s@.subrange(lo as int, hi as int)),
    ensures
        match r {
            Some(v) => v == digits_value(s@.subrange(lo as int, hi as int)),
            None => digits_value(s@.subrange(lo as int, hi as int)) > u64::MAX,
        },
{
    let ghost t = s@.subrange(lo as int, hi as int);
    let mut acc: u64 = 0;
    let mut i = lo;
    while i < hi
        invariant
            lo <= i <= hi <= s@.len(),
            t == s@.subrange(lo as int, hi as int),
            all_digits(t),
            acc == digits_value(t.take(i - lo)),
        decreases hi - i,
    {
        proof {
            lemma_digits_value_step(t, i - lo);
            assert(t[i - lo] == s@[i as int]);
            assert(is_digit(t[i - lo]));
        }
        let d = (s[i] - 48) as u64;
        let m = match acc.checked_mul(10) {
            Some(m) => m,
            None => {
                proof {
                    lemma_digits_value_grows(t, i - lo + 1, hi - lo);
                    assert(t.take(hi - lo) =~= t);
                }
                return None;
            },
        };
        let n = match m.checked_add(d) {
            Some(n) => n,
            None => {
                proof {
                    lemma_digits_value_grows(t, i - lo + 1, hi - lo);
                    assert(t.take(hi - lo) =~= t);
                }
                return None;
            },
        };
        acc = n;
        i = i + 1;
    }
    assert(t.take(hi - lo) =~= t);
    Some(acc)
}

/// Reading more digits never gives a smaller value.
pub proof fn lemma_digits_value_grows(t: Seq<u8>, a: int, b: int)
    requires
        0 <= a <= b <= t.len(),
        all_digits(t),
    ensures
        digits_value(t.take(a)) <= digits_value(t.take(b)),
    decreases b - a,
{
    if a < b {
        lemma_digits_value_grows(t, a, b - 1);
        lemma_digits_value_step(t, b - 1);
        assert(is_digit(t[b - 1]));
    }
}

/// The value of `s[lo..hi]` read as hexadecimal digits, when it fits in 64 bits.
pub fn hex_digits_to_u64(s: &[u8], lo: usize, hi: usize) -> (r: Option<u64>)
    requires
        lo <= hi <= s@.len(),
        all_hex(s@.subrange(lo as int, hi as int)),
    ensures
        match r {
            Some(v) => v == hex_digits_value(s@.subrange(lo as int, hi as int)),
            None => hex_digits_value(s@.subrange(lo as int, hi as int)) > u64::MAX,
        },
{
    let ghost t = s@.subrange(lo as int, hi as int);
    let mut acc: u64 = 0;
    let mut i = lo;
    while i < hi
        invariant
            lo <= i <= hi <= s@.len(),
            t == s@.subrange(lo as int, hi as int),
            all_hex(t),
            acc == hex_digits_value(t.take(i - lo)),
        decreases hi - i,
    {
        proof {
            lemma_digits_value_step(t, i - lo);
            assert(t[i - lo] == s@[i as int]);
            assert(is_hex_digit(t[i - lo]));
        }
        let d = hex_byte_value(s[i]) as u64;
        let m = match acc.checked_mul(16) {
            Some(m) => m,
            None => {
                proof {
                    lemma_hex_value_grows(t, i - lo + 1, hi - lo);
                    assert(t.take(hi - lo) =~= t);
                }
                return None;
            },
        };
        let n = match m.checked_add(d) {
            Some(n) => n,
            None => {
                proof {
                    lemma_hex_value_grows(t, i - lo + 1, hi - lo);
                    assert(t.take(hi - lo) =~= t);
                }
                return None;
            },
        };
        acc = n;
        i = i + 1;
    }
    assert(t.take(hi - lo) =~= t);
    Some(acc)
}

pub proof fn lemma_hex_value_grows(t: Seq<u8>, a: int, b: int)
    requires
        0 <= a <= b <= t.len(),
    ensures
        hex_digits_value(t.take(a)) <= hex_digits_value(t.take(b)),
    decreases b - a,
{
    if a < b {
        lemma_hex_value_grows(t, a, b - 1);
        lemma_digits_value_step(t, b - 1);
    }
}

/// Whether `s[lo..hi]` is all decimal digits.
pub fn check_digits(s: &[u8], lo: usize, hi: usize) -> (r: bool)
    requires
        lo <= hi <= s@.len(),
    ensures
        r == all_digits(s@.subrange(lo as int, hi as int)),
{
    let mut i = lo;
    while i < hi
        invariant
            lo <= i <= hi <= s@.len(),
            forall|m: int| lo <= m < i ==> is_digit(s@[m]),
        decreases hi - i,
    {
        if !is_digit_byte(s[i]) {
            assert(!is_digit(s@.subrange(lo as int, hi as int)[i - lo]));
            return false;
        }
        i = i + 1;
    }
    assert forall|k: int| 0 <= k < hi - lo implies is_digit(
        #[trigger] s@.subrange(lo as int, hi as int)[k],
    ) by {
        assert(s@.subrange(lo as int, hi as int)[k] == s@[lo + k]);
    }
    true
}

/// Whether `s[lo..hi]` is all hexadecimal digits.
pub fn check_hex(s: &[u8], lo: usize, hi: usize) -> (r: bool)
    requires
        lo <= hi <= s@.len(),
    ensures
        r == all_hex(s@.subrange(lo as int, hi as int)),
{
    let mut i = lo;
    while i < hi
        invariant
            lo <= i <= hi <= s@.len(),
            forall|m: int| lo <= m < i ==> is_hex_digit(s@[m]),
        decreases hi - i,
    {
        if !is_hex_byte(s[i]) {
            assert(!is_hex_digit(s@.subrange(lo as int, hi as int)[i - lo]));
            return false;
        }
        i = i + 1;
    }
    assert forall|k: int| 0 <= k < hi - lo implies is_hex_digit(
        #[trigger] s@.subrange(lo as int, hi as int)[k],
    ) by {
        assert(s@.subrange(lo as int, hi as int)[k] == s@[lo + k]);
    }
    true
}

/// `str::parse::<u64>` on `s[lo..hi]`.
pub fn parse_dec(s: &[u8], lo: usize, hi: usize) -> (r: Option<u64>)
    requires
        lo <= hi <= s@.len(),
    ensures
        match dec_value(s@.subrange(lo as int, hi as int)) {
            Some(v) => if v <= u64::MAX {
                r == Some(v as u64)
            } else {
                r is None
            },
            None => r is None,
        },
{
    let ghost t = s@.subrange(lo as int, hi as int);
    let start = if lo < hi && s[lo] == 43 {
        lo + 1
    } else {
        lo
    };
    let ghost body = s@.subrange(start as int, hi as int);
    assert(body =~= (if t.len() > 0 && t[0] == 43 {
        t.drop_first()
    } else {
        t
    }));
    if start == hi {
        return None;
    }
    if !check_digits(s, start, hi) {
        return None;
    }
    digits_to_u64(s, start, hi)
}

/// `u64::from_str_radix(.., 16)` on `s[lo..hi]`.
pub fn parse_hex(s: &[u8], lo: usize, hi: usize) -> (r: Option<u64>)
    requires
        lo <= hi <= s@.len(),
    ensures
        match hex_value(s@.subrange(lo as int, hi as int)) {
            Some(v) => if v <= u64::MAX {
                r == Some(v as u64)
            } else {
                r is None
            },
            None => r is None,
        },
{
    let ghost t = s@.subrange(lo as int, hi as int);
    let start = if lo < hi && s[lo] == 43 {
        lo + 1
    } else {
        lo
    };
    let ghost body = s@.subrange(start as int, hi as int);
    assert(body =~= (if t.len() > 0 && t[0] == 43 {
        t.drop_first()
    } else {
        t
    }));
    if start == hi {
        return None;
    }
    if !check_hex(s, start, hi) {
        return None;
    }
    hex_digits_to_u64(s, start, hi)
}

/// `str::parse::<i64>` on `s[lo..hi]`.
pub fn parse_signed(s: &[u8], lo: usize, hi: usize) -> (r: Option<i64>)
    requires
        lo <= hi <= s@.len(),
    ensures
        match signed_dec_value(s@.subrange(lo as int, hi as int)) {
            Some(v) => if i64::MIN <= v <= i64::MAX {
                r == Some(v as i64)
            } else {
                r is None
            },
            None => r is None,
        },
{
    let ghost t = s@.subrange(lo as int, hi as int);
    if lo < hi && s[lo] == 45 {
        let ghost body = s@.subrange(lo + 1, hi as int);
        assert(body =~= t.drop_first());
        if lo + 1 == hi || !check_digits(s, lo + 1, hi) {
            return None;
        }
        match digits_to_u64(s, lo + 1, hi) {
            Some(m) => if m <= 0x8000_0000_0000_0000 {
                if m == 0x8000_0000_0000_0000 {
                    Some(i64::MIN)
                } else {
                    Some(-(m as i64))
                }
            } else {
                None
            },
            None => None,
        }
    } else {
        match parse_dec(s, lo, hi) {
            Some(v) => if v <= 0x7FFF_FFFF_FFFF_FFFF {
                Some(v as i64)
            } else {
                None
            },
            None => None,
        }
    }
}

/// Whether `b` is ASCII white space, as `str::trim` sees it.
pub open spec fn is_space(b: u8) -> bool {
    b == 9 || b == 10 || b == 11 || b == 12 || b == 13 || b == 32
}

/// `s` without leading white space.
pub open spec fn trim_start(s: Seq<u8>) -> Seq<u8>
    decreases s.len(),
{
    if s.len() > 0 && is_space(s[0]) {
        trim_start(s.drop_first())
    } else {
        s
    }
}

/// `s` without trailing white space.
pub open spec fn trim_end(s: Seq<u8>) -> Seq<u8>
    decreases s.len(),
{
    if s.len() > 0 && is_space(s.last()) {
        trim_end(s.drop_last())
    } else {
        s
    }
}

/// `s` without leading or trailing white space.
pub open spec fn trim(s: Seq<u8>) -> Seq<u8> {
    trim_end(trim_start(s))
}

fn is_space_byte(b: u8) -> (r: bool)
    ensures
        r == is_space(b),
{
    b == 9 || b == 10 || b == 11 || b == 12 || b == 13 || b == 32
}

/// The bounds of `s[lo..hi]` without leading or trailing white space.
pub fn trim_range(s: &[u8], lo: usize, hi: usize) -> (r: (usize, usize))
    requires
        lo <= hi <= s@.len(),
    ensures
        lo <= r.0 <= r.1 <= hi,
        s@.subrange(r.0 as int, r.1 as int) == trim(s@.subrange(lo as int, hi as int)),
{
    let mut a = lo;
    while a < hi && is_space_byte(s[a])
        invariant
            lo <= a <= hi <= s@.len(),
            trim_start(s@.subrange(lo as int, hi as int)) == trim_start(s@.subrange(a as int, hi as int)),
        decreases hi - a,
    {
        assert(s@.subrange(a as int, hi as int).drop_first() =~= s@.subrange(a + 1, hi as int));
        a += 1;
    }
    assert(trim_start(s@.subrange(a as int, hi as int)) == s@.subrange(a as int, hi as int));
    let mut b = hi;
    while b > a && is_space_byte(s[b - 1])
        invariant
            lo <= a <= b <= hi <= s@.len(),
            trim_start(s@.subrange(lo as int, hi as int)) == s@.subrange(a as int, hi as int),
            trim_end(s@.subrange(a as int, hi as int)) == trim_end(s@.subrange(a as int, b as int)),
        decreases b - a,
    {
        assert(s@.subrange(a as int, b as int).drop_last() =~= s@.subrange(a as int, b - 1));
        b -= 1;
    }
    assert(trim_end(s@.subrange(a as int, b as int)) == s@.subrange(a as int, b as int));
    (a, b)
}

// ---------------------------------------------------------------------------
// Writing numbers
// ---------------------------------------------------------------------------

/// The decimal digits of `n`, with no leading zeros.
pub open spec fn dec_digits(n: nat) -> Seq<u8>
    decreases n,
{
    if n < 10 {
        seq![(n + 48) as u8]
    } else {
        dec_digits(n / 10) + seq![((n % 10) + 48) as u8]
    }
}

/// The lowercase hexadecimal digit for `d`.
pub open spec fn hex_char(d: nat) -> u8 {
    if d < 10 {
        (d + 48) as u8
    } else {
        (d + 87) as u8
    }
}

/// The lowercase hexadecimal digits of `n`, with no leading zeros.
pub open spec fn hex_digits(n: nat) -> Seq<u8>
    decreases n,
{
    if n < 16 {
        seq![hex_char(n)]
    } else {
        hex_digits(n / 16) + seq![hex_char(n % 16)]
    }
}

/// Two lowercase hexadecimal digits for an octet, as `{:02x}` prints it.
pub open spec fn hex2(b: u8) -> Seq<u8> {
    seq![hex_char((b / 16) as nat), hex_char((b % 16) as nat)]
}

/// Append the decimal digits of `n`.
pub fn push_dec(out: &mut Vec<u8>, n: u64)
    ensures
        final(out)@ == old(out)@ + dec_digits(n as nat),
    decreases n,
{
    if n < 10 {
        out.push((n + 48) as u8);
    } else {
        push_dec(out, n / 10);
        out.push(((n % 10) + 48) as u8);
    }
    assert(final(out)@ =~= old(out)@ + dec_digits(n as nat));
}

/// Append a signed number in decimal, with a leading `-` when negative.
pub fn push_signed(out: &mut Vec<u8>, n: i64)
    ensures
        final(out)@ == old(out)@ + signed_digits(n as int),
{
    if n < 0 {
        out.push(45);
        let m: u64 = if n == i64::MIN {
            0x8000_0000_0000_0000
        } else {
            (-n) as u64
        };
        push_dec(out, m);
    } else {
        push_dec(out, n as u64);
    }
    assert(final(out)@ =~= old(out)@ + signed_digits(n as int));
}

/// A signed number in decimal.
pub open spec fn signed_digits(n: int) -> Seq<u8> {
    if n < 0 {
        seq![45u8] + dec_digits((-n) as nat)
    } else {
        dec_digits(n as nat)
    }
}

pub fn hex_digit_char(d: u8) -> (r: u8)
    requires
        d < 16,
    ensures
        r == hex_char(d as nat),
{
    if d < 10 {
        d + 48
    } else {
        d + 87
    }
}

/// Append an octet as two lowercase hexadecimal digits.
pub fn push_hex2(out: &mut Vec<u8>, b: u8)
    ensures
        final(out)@ == old(out)@ + hex2(b),
{
    out.push(hex_digit_char(b / 16));
    out.push(hex_digit_char(b % 16));
    assert(final(out)@ =~= old(out)@ + hex2(b));
}

/// Append the lowercase hexadecimal digits of `n`.
pub fn push_hex(out: &mut Vec<u8>, n: u64)
    ensures
        final(out)@ == old(out)@ + hex_digits(n as nat),
    decreases n,
{
    if n < 16 {
        out.push(hex_digit_char(n as u8));
    } else {
        push_hex(out, n / 16);
        out.push(hex_digit_char((n % 16) as u8));
    }
    assert(final(out)@ =~= old(out)@ + hex_digits(n as nat));
}

/// Append every octet of `s`.
pub fn push_all(out: &mut Vec<u8>, s: &[u8])
    ensures
        final(out)@ == old(out)@ + s@,
{
    let mut i: usize = 0;
    while i < s.len()
        invariant
            i <= s@.len(),
            out@ == old(out)@ + s@.take(i as int),
        decreases s@.len() - i,
    {
        out.push(s[i]);
        i = i + 1;
        assert(out@ =~= old(out)@ + s@.take(i as int));
    }
    assert(s@.take(s@.len() as int) =~= s@);
}

/// A fresh copy of `s`.
pub fn copy_bytes(s: &[u8]) -> (r: Vec<u8>)
    ensures
        r@ == s@,
{
    let mut out: Vec<u8> = Vec::new();
    push_all(&mut out, s);
    assert(out@ =~= s@);
    out
}

/// Whether `a` and `b` hold the same octets.
pub fn bytes_eq(a: &[u8], b: &[u8]) -> (r: bool)
    ensures
        r == (a@ == b@),
{
    if a.len() != b.len() {
        return false;
    }
    let mut i: usize = 0;
    while i < a.len()
        invariant
            a@.len() == b@.len(),
            i <= a@.len(),
            forall|k: int| 0 <= k < i ==> a@[k] == b@[k],
        decreases a@.len() - i,
    {
        if a[i] != b[i] {
            return false;
        }
        i = i + 1;
    }
    assert(a@ =~= b@);
    true
}

/// Whether `s` starts with `prefix`.
pub fn starts_with(s: &[u8], prefix: &[u8]) -> (r: bool)
    ensures
        r == (prefix@.len() <= s@.len() && s@.take(prefix@.len() as int) == prefix@),
{
    if prefix.len() > s.len() {
        return false;
    }
    let mut i: usize = 0;
    while i < prefix.len()
        invariant
            prefix@.len() <= s@.len(),
            i <= prefix@.len(),
            forall|k: int| 0 <= k < i ==> s@[k] == prefix@[k],
        decreases prefix@.len() - i,
    {
        if s[i] != prefix[i] {
            assert(s@.take(prefix@.len() as int)[i as int] != prefix@[i as int]);
            return false;
        }
        i = i + 1;
    }
    assert(s@.take(prefix@.len() as int) =~= prefix@);
    true
}


// ---------------------------------------------------------------------------
// Strings
// ---------------------------------------------------------------------------

/// Whether every octet of `s` is ASCII.
pub open spec fn all_ascii(s: Seq<u8>) -> bool {
    forall|i: int| 0 <= i < s.len() ==> #[trigger] s[i] < 128
}

/// The UTF-8 octets of a string.
pub open spec fn string_octets(s: String) -> Seq<u8> {
    encode_utf8(s@)
}

/// Calls `String::from_utf8`: gives the string `v` encodes when `v` is valid
/// UTF-8, and nothing otherwise.
#[verifier::external_body]
fn string_from_utf8(v: Vec<u8>) -> (r: Option<String>)
    ensures
        r is Some <==> valid_utf8(v@),
        r matches Some(s) ==> s@ == decode_utf8(v@),
{
    String::from_utf8(v).ok()
}

/// The UTF-8 octets of the text `String::from_utf8_lossy` reads from `v`.
pub uninterp spec fn lossy_utf8(v: Seq<u8>) -> Seq<u8>;

/// Calls `String::from_utf8_lossy`: the text `v` encodes, each invalid
/// sequence replaced by U+FFFD, as octets.  A function of `v` alone; valid
/// UTF-8 comes back unchanged.  Which octets an invalid sequence spans is
/// not stated here.
#[verifier::external_body]
pub(crate) fn utf8_lossy_bytes(v: &[u8]) -> (r: Vec<u8>)
    ensures
        r@ == lossy_utf8(v@),
        valid_utf8(v@) ==> r@ == v@,
{
    String::from_utf8_lossy(v).into_owned().into_bytes()
}

/// The string whose UTF-8 encoding is `v`, or the empty string when `v` is
/// not valid UTF-8.
pub fn utf8_string(v: Vec<u8>) -> (r: String)
    ensures
        valid_utf8(v@) ==> string_octets(r) == v@,
        !valid_utf8(v@) ==> r@.len() == 0,
{
    let ghost bytes = v@;
    match string_from_utf8(v) {
        Some(s) => {
            proof {
                decode_utf8_encode_utf8(bytes);
            }
            s
        },
        None => String::new(),
    }
}

/// The string made of ASCII octets `v`.
pub fn ascii_string(v: Vec<u8>) -> (r: String)
    requires
        all_ascii(v@),
    ensures
        string_octets(r) == v@,
{
    proof {
        assert forall|i: int| 0 <= i < v@.len() implies #[trigger] is_leading_byte_width_1(v@[i]) by {
            assert(v@[i] < 128);
        }
        assert(v@.subrange(0, 0) =~= Seq::<u8>::empty());
        partial_valid_utf8_extend_ascii_block(v@, 0, v@.len() as int);
        assert(v@.subrange(0, v@.len() as int) =~= v@);
        decode_utf8_encode_utf8(v@);
    }
    let ghost bytes = v@;
    match string_from_utf8(v) {
        Some(s) => s,
        None => {
            assert(false);
            String::new()
        },
    }
}

// ---------------------------------------------------------------------------
// What writing and reading back give
// ---------------------------------------------------------------------------

/// Text without the separator splits into itself alone.
pub proof fn lemma_split_single(y: Seq<u8>, c: u8)
    requires
        forall|i: int| 0 <= i < y.len() ==> y[i] != c,
    ensures
        split_on(y, c) == seq![y],
{
    lemma_sep_index(y, c, y.len() as int);
}

/// Appending a separator and a piece without separators appends that piece
/// to the split.
pub proof fn lemma_split_join(x: Seq<u8>, y: Seq<u8>, c: u8)
    requires
        forall|i: int| 0 <= i < y.len() ==> y[i] != c,
    ensures
        split_on(x + seq![c] + y, c) == split_on(x, c).push(y),
    decreases x.len(),
{
    let s = x + seq![c] + y;
    lemma_sep_index_bounds(x, c);
    let j = sep_index(x, c);
    if j < x.len() {
        assert forall|m: int| 0 <= m < j implies s[m] != c by {
            assert(s[m] == x[m]);
        }
        assert(s[j] == x[j]);
        lemma_sep_index(s, c, j);
        assert(s.take(j) =~= x.take(j));
        assert(s.skip(j + 1) =~= x.skip(j + 1) + seq![c] + y);
        lemma_split_join(x.skip(j + 1), y, c);
        assert(split_on(x, c) == seq![x.take(j)] + split_on(x.skip(j + 1), c));
        assert(split_on(s, c) == seq![s.take(j)] + split_on(s.skip(j + 1), c));
        assert(split_on(s, c) =~= split_on(x, c).push(y));
    } else {
        assert forall|m: int| 0 <= m < x.len() implies s[m] != c by {
            assert(s[m] == x[m]);
        }
        lemma_sep_index(s, c, x.len() as int);
        assert(s.take(x.len() as int) =~= x);
        assert(s.skip((x.len() + 1) as int) =~= y);
        lemma_split_single(y, c);
        lemma_split_single(x, c);
        assert(split_on(s, c) =~= split_on(x, c).push(y));
    }
}

/// The digit `hex_char` writes reads back as `d`.
pub proof fn lemma_hex_char(d: nat)
    requires
        d < 16,
    ensures
        is_hex_digit(hex_char(d)),
        hex_val(hex_char(d)) == d,
        hex_char(d) != 43,
        hex_char(d) != 58,
        hex_char(d) != 46,
        hex_char(d) < 128,
{
}

/// Two hex digits written for an octet read back as that octet.
pub proof fn lemma_hex2_value(b: u8)
    ensures
        hex_value(hex2(b)) == Some(b as nat),
        hex2(b).len() == 2,
        forall|i: int| 0 <= i < 2 ==> #[trigger] hex2(b)[i] != 58 && hex2(b)[i] != 46,
{
    let h = hex2(b);
    lemma_hex_char((b / 16) as nat);
    lemma_hex_char((b % 16) as nat);
    assert(all_hex(h));
    assert(h.drop_last().drop_last() =~= Seq::<u8>::empty());
    assert(hex_digits_value(h.drop_last().drop_last()) == 0);
    assert(hex_digits_value(h.drop_last()) == hex_val(h[0]));
    assert(hex_digits_value(h) == hex_val(h[0]) * 16 + hex_val(h[1]));
}

/// Decimal digits written for `n` are all digits, the first not `+`.
proof fn lemma_dec_digits_shape(n: nat)
    ensures
        dec_digits(n).len() >= 1,
        all_digits(dec_digits(n)),
        digits_value(dec_digits(n)) == n,
    decreases n,
{
    if n >= 10 {
        lemma_dec_digits_shape(n / 10);
        let a = dec_digits(n / 10);
        let d = dec_digits(n);
        assert(d == a + seq![((n % 10) + 48) as u8]);
        assert forall|i: int| 0 <= i < d.len() implies is_digit(#[trigger] d[i]) by {
            if i < a.len() {
                assert(d[i] == a[i]);
            }
        }
        assert(d.drop_last() =~= a);
        assert(d.last() == ((n % 10) + 48) as u8);
        assert(digits_value(d) == digits_value(a) * 10 + (d.last() - 48) as nat);
    } else {
        assert(dec_digits(n).drop_last() =~= Seq::<u8>::empty());
        assert(digits_value(dec_digits(n).drop_last()) == 0);
    }
}

/// A number written in decimal reads back as itself, as `str::parse` reads
/// it.
pub proof fn law_decimal_round_trip(n: nat)
    ensures
        dec_value(dec_digits(n)) == Some(n),
        forall|i: int| 0 <= i < dec_digits(n).len() ==> #[trigger] is_digit(dec_digits(n)[i]),
{
    lemma_dec_digits_shape(n);
    assert(dec_digits(n)[0] != 43);
}

/// The decimal digits of `n` have no leading zero and at most three
/// digits below a thousand.
pub proof fn lemma_dec_digits_form(n: nat)
    ensures
        dec_digits(n).len() >= 1,
        all_digits(dec_digits(n)),
        digits_value(dec_digits(n)) == n,
        n < 10 ==> dec_digits(n).len() == 1,
        n < 100 ==> dec_digits(n).len() <= 2,
        n < 1000 ==> dec_digits(n).len() <= 3,
        n >= 10 ==> dec_digits(n).len() >= 2,
        dec_digits(n).len() > 1 ==> dec_digits(n)[0] != 48,
    decreases n,
{
    lemma_dec_digits_shape(n);
    if n >= 10 {
        lemma_dec_digits_form(n / 10);
        let a = dec_digits(n / 10);
        assert(dec_digits(n) == a + seq![((n % 10) + 48) as u8]);
        assert(dec_digits(n)[0] == a[0]);
        if n / 10 < 10 {
            assert(a[0] == ((n / 10) + 48) as u8);
        }
    }
}

/// The hexadecimal digits of `n` read back as `n`, and a 16-bit value
/// takes at most four of them.
pub proof fn lemma_hex_digits_form(n: nat)
    ensures
        hex_digits(n).len() >= 1,
        all_hex(hex_digits(n)),
        hex_digits_value(hex_digits(n)) == n,
        n < 16 ==> hex_digits(n).len() == 1,
        n < 256 ==> hex_digits(n).len() <= 2,
        n < 4096 ==> hex_digits(n).len() <= 3,
        n < 65536 ==> hex_digits(n).len() <= 4,
    decreases n,
{
    let d = hex_digits(n);
    if n >= 16 {
        lemma_hex_digits_form(n / 16);
        lemma_hex_char(n % 16);
        let a = hex_digits(n / 16);
        assert(d == a + seq![hex_char(n % 16)]);
        assert forall|i: int| 0 <= i < d.len() implies is_hex_digit(#[trigger] d[i]) by {
            if i < a.len() {
                assert(d[i] == a[i]);
            }
        }
        assert(d.drop_last() =~= a);
        assert(hex_digits_value(d) == hex_digits_value(a) * 16 + hex_val(d.last()));
    } else {
        lemma_hex_char(n);
        assert(d.drop_last() =~= Seq::<u8>::empty());
        assert(hex_digits_value(d.drop_last()) == 0);
    }
}

} // verus!
