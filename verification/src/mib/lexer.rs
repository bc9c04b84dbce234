//! Tokenizer for ASN.1/SMI MIB modules.
//!
//! This is deliberately loose: it recognises just enough of ASN.1 to walk the
//! macro invocations that define OIDs, and skips everything else.  Vendors ship
//! MIBs with all sorts of syntax errors, so the rule is to never fail a whole
//! file over a construct we do not understand.
use vstd::prelude::*;
use crate::text::{
    all_digits, copy_bytes, digits_value, hex_val, is_alpha, is_digit, is_digit_byte,
    is_hex_digit, is_hex_byte, hex_byte_value, is_alpha_byte, digits_to_u64,
};

verus! {

#[derive(Clone, Debug)]
pub enum Tok {
    /// A bare word: type name, object name, macro name, keyword.
    Word(Vec<u8>),
    /// A decimal number.
    Num(i64),
    /// The contents of a `"..."` literal, with the quotes stripped, as text:
    /// invalid UTF-8 in it becomes U+FFFD.
    Str(Vec<u8>),
    /// A `'...'B` or `'...'H` literal, already converted to its numeric value.
    Bits(i64),
    Assign,
    LBrace,
    RBrace,
    LParen,
    RParen,
    LBracket,
    RBracket,
    Comma,
    Semi,
    Pipe,
    DotDot,
    Dot,
    /// Anything not modelled; carried through so callers can skip it.
    Other(u8),
}

/// Whether `b` is one of the octets `u8::is_ascii_whitespace` accepts.
pub open spec fn ascii_ws(b: u8) -> bool {
    b == 32 || b == 9 || b == 10 || b == 12 || b == 13
}

/// Whether `b` is an ASCII octet `char::is_whitespace` accepts.
pub open spec fn char_ws(b: u8) -> bool {
    ascii_ws(b) || b == 11
}

pub open spec fn is_alnum(b: u8) -> bool {
    is_alpha(b) || is_digit(b)
}

/// The value a MIB number token takes: the signed decimal it spells, or
/// `i64::MAX` when that does not fit.
pub open spec fn num_token_value(neg: bool, digits: Seq<u8>) -> i64 {
    let v = digits_value(digits);
    if neg {
        if v <= 0x8000_0000_0000_0000 {
            (-(v as int)) as i64
        } else {
            i64::MAX
        }
    } else {
        if v <= i64::MAX {
            v as i64
        } else {
            i64::MAX
        }
    }
}

/// The number token for `src[lo..hi]`, digits only, negated when `neg`.
fn number_token(src: &[u8], lo: usize, hi: usize, neg: bool) -> (r: i64)
    requires
        lo <= hi <= src@.len(),
        all_digits(src@.subrange(lo as int, hi as int)),
    ensures
        r == num_token_value(neg, src@.subrange(lo as int, hi as int)),
{
    match digits_to_u64(src, lo, hi) {
        Some(v) => {
            if neg {
                if v <= 0x8000_0000_0000_0000 {
                    if v == 0x8000_0000_0000_0000 {
                        i64::MIN
                    } else {
                        -(v as i64)
                    }
                } else {
                    i64::MAX
                }
            } else {
                if v <= 0x7FFF_FFFF_FFFF_FFFF {
                    v as i64
                } else {
                    i64::MAX
                }
            }
        },
        None => i64::MAX,
    }
}

/// Whether `b` is a digit in `radix` (2 or 16).
pub open spec fn radix_digit(b: u8, radix: u64) -> bool {
    if radix == 2 {
        b == 48 || b == 49
    } else {
        is_hex_digit(b)
    }
}

/// The value of a digit in `radix` (2 or 16).
pub open spec fn radix_digit_value(b: u8, radix: u64) -> nat {
    if radix == 2 {
        (b - 48) as nat
    } else {
        hex_val(b)
    }
}

/// Whether every octet of `s` is a digit in `radix`.
pub open spec fn all_radix(s: Seq<u8>, radix: u64) -> bool {
    forall|i: int| 0 <= i < s.len() ==> radix_digit(#[trigger] s[i], radix)
}

/// The value of digits in `radix`.
pub open spec fn radix_value(s: Seq<u8>, radix: u64) -> nat
    decreases s.len(),
{
    if s.len() == 0 {
        0
    } else {
        (radix_value(s.drop_last(), radix) * radix + radix_digit_value(s.last(), radix)) as nat
    }
}

/// How many octets the white space character that `s` starts with takes in
/// UTF-8, or 0 when `s` does not start with one: every character
/// `char::is_whitespace` accepts (ASCII white space and vertical tab, NEL,
/// no-break space, the Ogham space mark, the spaces U+2000 to U+200A, the
/// line and paragraph separators, the narrow no-break space, the medium
/// mathematical space and the ideographic space).
pub open spec fn ws_len(s: Seq<u8>) -> nat {
    if s.len() >= 1 && char_ws(s[0]) {
        1
    } else if s.len() >= 2 && s[0] == 0xC2 && (s[1] == 0x85 || s[1] == 0xA0) {
        2
    } else if s.len() >= 3 && s[0] == 0xE1 && s[1] == 0x9A && s[2] == 0x80 {
        3
    } else if s.len() >= 3 && s[0] == 0xE2 && s[1] == 0x80 && ((0x80 <= s[2] <= 0x8A) || s[2]
        == 0xA8 || s[2] == 0xA9 || s[2] == 0xAF) {
        3
    } else if s.len() >= 3 && s[0] == 0xE2 && s[1] == 0x81 && s[2] == 0x9F {
        3
    } else if s.len() >= 3 && s[0] == 0xE3 && s[1] == 0x80 && s[2] == 0x80 {
        3
    } else {
        0
    }
}

/// `s` without its white space characters.  What is left of any other
/// octet beyond ASCII can never be read as a digit, as no character it is
/// part of (or the replacement character an invalid one becomes) is one.
pub open spec fn strip_space(s: Seq<u8>) -> Seq<u8>
    decreases s.len(),
{
    if s.len() == 0 {
        Seq::empty()
    } else if ws_len(s) > 0 {
        strip_space(s.skip(ws_len(s) as int))
    } else {
        seq![s[0]] + strip_space(s.drop_first())
    }
}

/// What `i64::from_str_radix` reads from `s` (an optional sign, then digits),
/// or 0 when it reads nothing.
pub open spec fn signed_radix_value(s: Seq<u8>, radix: u64) -> i64 {
    let neg = s.len() > 0 && s[0] == 45;
    let digits = if s.len() > 0 && (s[0] == 43 || s[0] == 45) {
        s.drop_first()
    } else {
        s
    };
    if digits.len() == 0 || !all_radix(digits, radix) {
        0
    } else {
        let v = radix_value(digits, radix);
        if neg {
            if v <= 0x8000_0000_0000_0000 {
                (-(v as int)) as i64
            } else {
                0
            }
        } else if v <= 0x7FFF_FFFF_FFFF_FFFF {
            v as i64
        } else {
            0
        }
    }
}

/// The value of a `'...'B` or `'...'H` literal whose body is `body`: its
/// digits with white space dropped, read as `i64::from_str_radix` reads them,
/// or 0 when that fails.
pub open spec fn bits_literal(body: Seq<u8>, radix: u64) -> i64 {
    signed_radix_value(strip_space(body), radix)
}

proof fn lemma_radix_value_grows(t: Seq<u8>, radix: u64, a: int, b: int)
    requires
        0 <= a <= b <= t.len(),
        radix == 2 || radix == 16,
    ensures
        radix_value(t.take(a), radix) <= radix_value(t.take(b), radix),
    decreases b - a,
{
    if a < b {
        lemma_radix_value_grows(t, radix, a, b - 1);
        assert(t.take(b).drop_last() =~= t.take(b - 1));
        assert(radix_value(t.take(b - 1), radix) <= radix_value(t.take(b - 1), radix) * radix)
            by (nonlinear_arith)
            requires
                radix >= 2,
        ;
    }
}

/// The length of the white space character at `i` in `body`.
fn ws_len_at(body: &[u8], i: usize) -> (r: usize)
    requires
        i <= body@.len(),
    ensures
        r == ws_len(body@.skip(i as int)),
{
    let ghost s = body@.skip(i as int);
    let n = body.len() - i;
    if n >= 1 {
        let b = body[i];
        assert(s[0] == b);
        if b == 32 || b == 9 || b == 10 || b == 11 || b == 12 || b == 13 {
            return 1;
        }
    }
    if n >= 2 && body[i] == 0xC2 && (body[i + 1] == 0x85 || body[i + 1] == 0xA0) {
        assert(s[0] == body[i as int] && s[1] == body[i + 1]);
        return 2;
    }
    if n >= 3 {
        let (a, b, c) = (body[i], body[i + 1], body[i + 2]);
        assert(s[0] == a && s[1] == b && s[2] == c);
        if (a == 0xE1 && b == 0x9A && c == 0x80) || (a == 0xE2 && b == 0x80 && ((0x80 <= c
            && c <= 0x8A) || c == 0xA8 || c == 0xA9 || c == 0xAF)) || (a == 0xE2 && b == 0x81
            && c == 0x9F) || (a == 0xE3 && b == 0x80 && c == 0x80) {
            return 3;
        }
    }
    if n >= 2 {
        assert(s[0] == body[i as int] && s[1] == body[i + 1]);
    }
    0
}

/// Drop the white space of `body`.
fn strip_space_bytes(body: &[u8]) -> (r: Vec<u8>)
    ensures
        r@ == strip_space(body@),
{
    let mut cleaned: Vec<u8> = Vec::new();
    let mut i: usize = 0;
    assert(body@.skip(0) =~= body@);
    while i < body.len()
        invariant
            i <= body@.len(),
            cleaned@ + strip_space(body@.skip(i as int)) == strip_space(body@),
        decreases body@.len() - i,
    {
        let w = ws_len_at(body, i);
        let ghost s = body@.skip(i as int);
        if w > 0 {
            proof {
                assert(s.skip(w as int) =~= body@.skip(i + w));
            }
            i = i + w;
        } else {
            proof {
                assert(s.drop_first() =~= body@.skip(i + 1));
                assert(s[0] == body@[i as int]);
                assert(cleaned@.push(body@[i as int]) + strip_space(body@.skip(i + 1)) =~= cleaned@
                    + (seq![s[0]] + strip_space(s.drop_first())));
            }
            cleaned.push(body[i]);
            i = i + 1;
        }
    }
    assert(body@.skip(body@.len() as int) =~= Seq::<u8>::empty());
    assert(cleaned@ + Seq::<u8>::empty() =~= cleaned@);
    cleaned
}

/// `i64::from_str_radix(body, radix)` with white space dropped first, or 0
/// when that fails.
fn bits_value(body: &[u8], radix: u64) -> (r: i64)
    requires
        radix == 2 || radix == 16,
    ensures
        r == bits_literal(body@, radix),
{
    let cleaned = strip_space_bytes(body);
    let ghost c = cleaned@;
    let mut start: usize = 0;
    let mut neg = false;
    if cleaned.len() > 0 && (cleaned[0] == 43 || cleaned[0] == 45) {
        neg = cleaned[0] == 45;
        start = 1;
    }
    let ghost digits = c.skip(start as int);
    assert(digits =~= (if c.len() > 0 && (c[0] == 43 || c[0] == 45) {
        c.drop_first()
    } else {
        c
    }));
    if start >= cleaned.len() {
        return 0;
    }
    let limit: u64 = if neg {
        0x8000_0000_0000_0000
    } else {
        0x7FFF_FFFF_FFFF_FFFF
    };
    let mut acc: u64 = 0;
    let mut k = start;
    while k < cleaned.len()
        invariant
            start <= k <= cleaned@.len(),
            c == cleaned@,
            c == strip_space(body@),
            digits == c.skip(start as int),
            digits == (if c.len() > 0 && (c[0] == 43 || c[0] == 45) {
                c.drop_first()
            } else {
                c
            }),
            digits.len() > 0,
            neg == (c.len() > 0 && c[0] == 45),
            limit == (if neg {
                0x8000_0000_0000_0000u64
            } else {
                0x7FFF_FFFF_FFFF_FFFFu64
            }),
            radix == 2 || radix == 16,
            acc <= limit,
            acc == radix_value(digits.take(k - start), radix),
            all_radix(digits.take(k - start), radix),
        decreases cleaned@.len() - k,
    {
        let b = cleaned[k];
        let ghost t = digits.take(k - start + 1);
        assert(t.drop_last() =~= digits.take(k - start));
        assert(t.last() == b);
        let d: u64 = if radix == 2 {
            if b == 48 {
                0
            } else if b == 49 {
                1
            } else {
                assert(!all_radix(digits, radix)) by {
                    assert(digits[k - start] == b);
                }
                return 0;
            }
        } else {
            if is_hex_byte(b) {
                hex_byte_value(b) as u64
            } else {
                assert(!all_radix(digits, radix)) by {
                    assert(digits[k - start] == b);
                }
                return 0;
            }
        };
        let next: Option<u64> = match acc.checked_mul(radix) {
            Some(m) => m.checked_add(d),
            None => None,
        };
        let ok = match next {
            Some(n) => n <= limit,
            None => false,
        };
        if !ok {
            proof {
                assert(radix_value(t, radix) > limit);
                if all_radix(digits, radix) {
                    lemma_radix_value_grows(digits, radix, k - start + 1, digits.len() as int);
                    assert(digits.take(digits.len() as int) =~= digits);
                }
            }
            return 0;
        }
        acc = match next {
            Some(n) => n,
            None => 0,
        };
        proof {
            assert forall|i: int| 0 <= i < t.len() implies radix_digit(#[trigger] t[i], radix) by {
                if i < t.len() - 1 {
                    assert(t[i] == digits.take(k - start)[i]);
                }
            }
        }
        k = k + 1;
    }
    assert(digits.take(cleaned@.len() - start) =~= digits);
    if neg {
        if acc == 0x8000_0000_0000_0000 {
            i64::MIN
        } else {
            -(acc as i64)
        }
    } else {
        acc as i64
    }
}

/// Whether `b` may stand in a word: an ASCII letter or digit, `-` or `_`.
pub open spec fn label_byte(b: u8) -> bool {
    is_alnum(b) || b == 45 || b == 95
}

/// Whether every octet of `w` may stand in a word.
pub open spec fn label_text(w: Seq<u8>) -> bool {
    forall|k: int| 0 <= k < w.len() ==> label_byte(#[trigger] w[k])
}

/// Whether `toks` holds only words made of label characters.
pub open spec fn words_wf(toks: Seq<Tok>) -> bool {
    forall|i: int|
        0 <= i < toks.len() ==> (#[trigger] toks[i] matches Tok::Word(w) ==> w@.len() > 0
            && label_text(w@))
}

/// The rest of a word from `j` is made of label characters.
pub proof fn lemma_word_end_chars(s: Seq<u8>, j: int)
    requires
        0 <= j <= s.len(),
    ensures
        forall|k: int| j <= k < word_end(s, j) ==> label_byte(#[trigger] s[k]),
    decreases s.len() - j,
{
    if j < s.len() && (is_alnum(s[j]) || s[j] == 95 || (s[j] == 45 && j + 1 < s.len() && is_alnum(
        s[j + 1],
    ))) {
        lemma_word_end_chars(s, j + 1);
    }
}

/// Where a `--` comment whose text starts at `j` ends: just past the next
/// newline or `--`, or at the end of the input.
pub open spec fn comment_end(s: Seq<u8>, j: int) -> int
    decreases s.len() - j,
{
    if j < 0 || j >= s.len() {
        s.len() as int
    } else if s[j] == 10 {
        j + 1
    } else if s[j] == 45 && j + 1 < s.len() && s[j + 1] == 45 {
        j + 2
    } else {
        comment_end(s, j + 1)
    }
}

/// The first position at or after `j` holding `c`, or the end.
pub open spec fn find_from(s: Seq<u8>, j: int, c: u8) -> int {
    j + crate::text::sep_index(s.skip(j), c)
}

/// The end of the run of digits starting at `j`.
pub open spec fn digits_end(s: Seq<u8>, j: int) -> int
    decreases s.len() - j,
{
    if j < 0 || j >= s.len() || !is_digit(s[j]) {
        j
    } else {
        digits_end(s, j + 1)
    }
}

/// The end of the rest of a word from `j`: letters, digits and `_`, and `-`
/// where a letter or digit follows it.
pub open spec fn word_end(s: Seq<u8>, j: int) -> int
    decreases s.len() - j,
{
    if j < 0 || j >= s.len() {
        j
    } else if is_alnum(s[j]) || s[j] == 95 {
        word_end(s, j + 1)
    } else if s[j] == 45 && j + 1 < s.len() && is_alnum(s[j + 1]) {
        word_end(s, j + 1)
    } else {
        j
    }
}

/// The one-octet token for `c`.
pub open spec fn punct(c: u8) -> Tok {
    if c == 123 {
        Tok::LBrace
    } else if c == 125 {
        Tok::RBrace
    } else if c == 40 {
        Tok::LParen
    } else if c == 41 {
        Tok::RParen
    } else if c == 91 {
        Tok::LBracket
    } else if c == 93 {
        Tok::RBracket
    } else if c == 44 {
        Tok::Comma
    } else if c == 59 {
        Tok::Semi
    } else if c == 124 {
        Tok::Pipe
    } else if c == 46 {
        Tok::Dot
    } else {
        Tok::Other(c)
    }
}

pub proof fn lemma_digits_end_bounds(s: Seq<u8>, j: int)
    requires
        0 <= j <= s.len(),
    ensures
        j <= digits_end(s, j) <= s.len(),
        j < s.len() && is_digit(s[j]) ==> digits_end(s, j) > j,
    decreases s.len() - j,
{
    if j < s.len() && is_digit(s[j]) {
        lemma_digits_end_bounds(s, j + 1);
    }
}

pub proof fn lemma_word_end_bounds(s: Seq<u8>, j: int)
    requires
        0 <= j <= s.len(),
    ensures
        j <= word_end(s, j) <= s.len(),
    decreases s.len() - j,
{
    if j < s.len() && (is_alnum(s[j]) || s[j] == 95 || (s[j] == 45 && j + 1 < s.len() && is_alnum(
        s[j + 1],
    ))) {
        lemma_word_end_bounds(s, j + 1);
    }
}

pub proof fn lemma_find_from_bounds(s: Seq<u8>, j: int, c: u8)
    requires
        0 <= j <= s.len(),
    ensures
        j <= find_from(s, j, c) <= s.len(),
{
    crate::text::lemma_sep_index_bounds(s.skip(j), c);
}

/// Whether `toks` are the tokens of `s` from position `i` on: white space
/// and `--` comments skipped, `"..."` strings, `'...'B`/`'...'H` literals,
/// numbers (with a `-` directly before the digits), words, `::=`, `..`,
/// and single-octet punctuation.
pub open spec fn lexes(s: Seq<u8>, i: int, toks: Seq<Tok>) -> bool
    decreases s.len() - i,
{
    if i < 0 || i >= s.len() {
        toks.len() == 0
    } else {
        let c = s[i];
        if ascii_ws(c) {
            lexes(s, i + 1, toks)
        } else if c == 45 && i + 1 < s.len() && s[i + 1] == 45 {
            proof {
                lemma_comment_end_bounds(s, i + 2);
            }
            lexes(s, comment_end(s, i + 2), toks)
        } else if c == 34 {
            let j = find_from(s, i + 1, 34);
            proof {
                lemma_find_from_bounds(s, i + 1, 34);
            }
            &&& toks.len() > 0
            &&& toks[0] matches Tok::Str(v) && v@ == crate::text::lossy_utf8(s.subrange(i + 1, j))
            &&& lexes(s, if j < s.len() { j + 1 } else { j }, toks.drop_first())
        } else if c == 39 {
            let j = find_from(s, i + 1, 39);
            proof {
                lemma_find_from_bounds(s, i + 1, 39);
            }
            let k = if j < s.len() { j + 1 } else { j };
            let hex_mark = k < s.len() && (s[k] == 72 || s[k] == 104);
            let bin_mark = k < s.len() && (s[k] == 66 || s[k] == 98);
            let radix: u64 = if bin_mark && !hex_mark { 2 } else { 16 };
            let e = if hex_mark || bin_mark { k + 1 } else { k };
            &&& toks.len() > 0
            &&& toks[0] == Tok::Bits(bits_literal(s.subrange(i + 1, j), radix))
            &&& lexes(s, e, toks.drop_first())
        } else if is_digit(c) || (c == 45 && i + 1 < s.len() && is_digit(s[i + 1])) {
            let st = if c == 45 { i + 1 } else { i };
            let e = digits_end(s, st);
            proof {
                lemma_digits_end_bounds(s, st);
            }
            &&& toks.len() > 0
            &&& toks[0] == Tok::Num(num_token_value(c == 45, s.subrange(st, e)))
            &&& lexes(s, e, toks.drop_first())
        } else if is_alpha(c) || c == 95 {
            let e = word_end(s, i + 1);
            proof {
                lemma_word_end_bounds(s, i + 1);
            }
            &&& toks.len() > 0
            &&& toks[0] matches Tok::Word(w) && w@ == s.subrange(i, e)
            &&& lexes(s, e, toks.drop_first())
        } else if c == 58 && i + 2 < s.len() && s[i + 1] == 58 && s[i + 2] == 61 {
            toks.len() > 0 && toks[0] is Assign && lexes(s, i + 3, toks.drop_first())
        } else if c == 46 && i + 1 < s.len() && s[i + 1] == 46 {
            toks.len() > 0 && toks[0] is DotDot && lexes(s, i + 2, toks.drop_first())
        } else {
            toks.len() > 0 && toks[0] == punct(c) && lexes(s, i + 1, toks.drop_first())
        }
    }
}

pub proof fn lemma_comment_end_bounds(s: Seq<u8>, j: int)
    requires
        0 <= j,
    ensures
        j <= comment_end(s, j) <= s.len() || (j > s.len() && comment_end(s, j) == s.len()),
    decreases s.len() - j,
{
    if j < s.len() && s[j] != 10 && !(s[j] == 45 && j + 1 < s.len() && s[j + 1] == 45) {
        lemma_comment_end_bounds(s, j + 1);
    }
}

/// Where the comment whose text starts at `j` ends.
fn skip_comment(src: &[u8], j: usize) -> (r: usize)
    requires
        j <= src@.len(),
    ensures
        r == comment_end(src@, j as int),
        j <= r <= src@.len(),
{
    let n = src.len();
    let mut i = j;
    while i < n
        invariant
            n == src@.len(),
            j <= i <= n,
            comment_end(src@, j as int) == comment_end(src@, i as int),
        decreases n - i,
    {
        if src[i] == 10 {
            return i + 1;
        }
        if src[i] == 45 && i + 1 < n && src[i + 1] == 45 {
            return i + 2;
        }
        i += 1;
    }
    i
}

/// The end of the run of digits starting at `j`.
fn skip_digits(src: &[u8], j: usize) -> (r: usize)
    requires
        j <= src@.len(),
    ensures
        r == digits_end(src@, j as int),
        j <= r <= src@.len(),
        forall|k: int| j <= k < r ==> is_digit(#[trigger] src@[k]),
{
    let mut i = j;
    while i < src.len() && is_digit_byte(src[i])
        invariant
            j <= i <= src@.len(),
            digits_end(src@, j as int) == digits_end(src@, i as int),
            forall|k: int| j <= k < i ==> is_digit(#[trigger] src@[k]),
        decreases src@.len() - i,
    {
        i += 1;
    }
    i
}

/// The end of the rest of a word from `j`.
fn skip_word(src: &[u8], j: usize) -> (r: usize)
    requires
        j <= src@.len(),
    ensures
        r == word_end(src@, j as int),
        j <= r <= src@.len(),
{
    let n = src.len();
    let mut i = j;
    while i < n
        invariant
            n == src@.len(),
            j <= i <= n,
            word_end(src@, j as int) == word_end(src@, i as int),
        decreases n - i,
    {
        let c = src[i];
        if is_alpha_byte(c) || is_digit_byte(c) || c == 95 {
            i += 1;
        } else if c == 45 && i + 1 < n && (is_alpha_byte(src[i + 1]) || is_digit_byte(
            src[i + 1],
        )) {
            i += 1;
        } else {
            return i;
        }
    }
    i
}

/// Split a MIB module into tokens.
pub fn tokenize(src: &[u8]) -> (out: Vec<Tok>)
    ensures
        lexes(src@, 0, out@),
        words_wf(out@),
        out@.len() <= src@.len(),
{
    let mut out: Vec<Tok> = Vec::new();
    let mut i: usize = 0;
    let n = src.len();
    let ghost s = src@;
    assert forall|rest: Seq<Tok>| lexes(s, 0, rest) implies lexes(s, 0, out@ + rest) by {
        assert(out@ + rest =~= rest);
    }
    while i < n
        invariant
            n == src@.len(),
            s == src@,
            i <= n,
            out@.len() <= i,
            words_wf(out@),
            forall|rest: Seq<Tok>| lexes(s, i as int, rest) ==> lexes(s, 0, out@ + rest),
        decreases n - i,
    {
        let c = src[i];
        let ghost o = out@;
        let ghost i0 = i as int;
        if c == 32 || c == 9 || c == 10 || c == 12 || c == 13 {
            i += 1;
            proof {
                assert forall|rest: Seq<Tok>| lexes(s, i as int, rest) implies lexes(
                    s,
                    0,
                    out@ + rest,
                ) by {
                    assert(lexes(s, i0, rest));
                }
            }
            continue;
        }
        // An SMI comment runs from "--" to either the next "--" or end of line.
        if c == 45 && i + 1 < n && src[i + 1] == 45 {
            i = skip_comment(src, i + 2);
            proof {
                assert forall|rest: Seq<Tok>| lexes(s, i as int, rest) implies lexes(
                    s,
                    0,
                    out@ + rest,
                ) by {
                    assert(lexes(s, i0, rest));
                }
            }
            continue;
        }
        let t: Tok;
        if c == 34 {
            let j = crate::text::find_byte(src, i + 1, 34);
            let v = crate::text::utf8_lossy_bytes(crate::asn1::slice_range(src, i + 1, j));
            assert(j == find_from(s, i0 + 1, 34));
            proof {
                lemma_find_from_bounds(s, i0 + 1, 34);
            }
            i = if j < n {
                j + 1
            } else {
                j
            };
            t = Tok::Str(v);
        } else if c == 39 {
            // '1010'B and 'FF'H binary/hex literals.
            let j = crate::text::find_byte(src, i + 1, 39);
            assert(j == find_from(s, i0 + 1, 39));
            proof {
                lemma_find_from_bounds(s, i0 + 1, 39);
            }
            let body = crate::asn1::slice_range(src, i + 1, j);
            let mut k = if j < n {
                j + 1
            } else {
                j
            };
            let mut radix: u64 = 16;
            if k < n && (src[k] == 72 || src[k] == 104) {
                k += 1;
            } else if k < n && (src[k] == 66 || src[k] == 98) {
                k += 1;
                radix = 2;
            }
            i = k;
            t = Tok::Bits(bits_value(body, radix));
        } else if is_digit_byte(c) || (c == 45 && i + 1 < n && is_digit_byte(src[i + 1])) {
            let neg = c == 45;
            let st = if neg {
                i + 1
            } else {
                i
            };
            let e = skip_digits(src, st);
            proof {
                lemma_digits_end_bounds(s, st as int);
                assert forall|k: int| 0 <= k < e - st implies is_digit(
                    #[trigger] src@.subrange(st as int, e as int)[k],
                ) by {
                    assert(src@.subrange(st as int, e as int)[k] == src@[st + k]);
                }
            }
            t = Tok::Num(number_token(src, st, e, neg));
            i = e;
        } else if is_alpha_byte(c) || c == 95 {
            let e = skip_word(src, i + 1);
            let w = copy_bytes(crate::asn1::slice_range(src, i, e));
            proof {
                lemma_word_end_chars(s, i0 + 1);
                assert forall|k: int| 0 <= k < w@.len() implies label_byte(#[trigger] w@[k]) by {
                    assert(w@[k] == s[i0 + k]);
                }
            }
            t = Tok::Word(w);
            i = e;
        } else if c == 58 && n - i > 2 && src[i + 1] == 58 && src[i + 2] == 61 {
            t = Tok::Assign;
            i += 3;
        } else if c == 46 && i + 1 < n && src[i + 1] == 46 {
            t = Tok::DotDot;
            i += 2;
        } else {
            t = if c == 123 {
                Tok::LBrace
            } else if c == 125 {
                Tok::RBrace
            } else if c == 40 {
                Tok::LParen
            } else if c == 41 {
                Tok::RParen
            } else if c == 91 {
                Tok::LBracket
            } else if c == 93 {
                Tok::RBracket
            } else if c == 44 {
                Tok::Comma
            } else if c == 59 {
                Tok::Semi
            } else if c == 124 {
                Tok::Pipe
            } else if c == 46 {
                Tok::Dot
            } else {
                Tok::Other(c)
            };
            i += 1;
        }
        let ghost tv = t;
        out.push(t);
        proof {
            assert forall|rest: Seq<Tok>| lexes(s, i as int, rest) implies lexes(s, 0, out@ + rest) by {
                let r2 = seq![tv] + rest;
                assert(r2.drop_first() =~= rest);
                assert(r2[0] == tv);
                assert(lexes(s, i0, r2));
                assert(out@ + rest =~= o + r2);
            }
            assert forall|k: int| 0 <= k < out@.len() implies (#[trigger] out@[k] matches Tok::Word(w)
                ==> w@.len() > 0 && label_text(w@)) by {
                if k < o.len() {
                    assert(out@[k] == o[k]);
                }
            }
        }
    }
    assert(lexes(s, n as int, Seq::empty()));
    assert(out@ + Seq::<Tok>::empty() =~= out@);
    out
}

/// Two tokens alike: the same kind, and the same text or value.
pub open spec fn same_tok(x: Tok, y: Tok) -> bool {
    match (x, y) {
        (Tok::Word(a), Tok::Word(b)) => a@ == b@,
        (Tok::Str(a), Tok::Str(b)) => a@ == b@,
        _ => x == y,
    }
}

/// A text has one reading as tokens: two token sequences that both lex the
/// text from the same position are alike token by token.
pub proof fn law_tokens_unique(s: Seq<u8>, i: int, t1: Seq<Tok>, t2: Seq<Tok>)
    requires
        lexes(s, i, t1),
        lexes(s, i, t2),
    ensures
        t1.len() == t2.len(),
        forall|k: int| 0 <= k < t1.len() ==> same_tok(#[trigger] t1[k], t2[k]),
    decreases s.len() - i,
{
    if 0 <= i < s.len() {
        let c = s[i];
        if ascii_ws(c) {
            law_tokens_unique(s, i + 1, t1, t2);
        } else if c == 45 && i + 1 < s.len() && s[i + 1] == 45 {
            lemma_comment_end_bounds(s, i + 2);
            law_tokens_unique(s, comment_end(s, i + 2), t1, t2);
        } else {
            let next: int = if c == 34 {
                let j = find_from(s, i + 1, 34);
                lemma_find_from_bounds(s, i + 1, 34);
                if j < s.len() {
                    j + 1
                } else {
                    j
                }
            } else if c == 39 {
                let j = find_from(s, i + 1, 39);
                lemma_find_from_bounds(s, i + 1, 39);
                let k = if j < s.len() {
                    j + 1
                } else {
                    j
                };
                let hex_mark = k < s.len() && (s[k] == 72 || s[k] == 104);
                let bin_mark = k < s.len() && (s[k] == 66 || s[k] == 98);
                if hex_mark || bin_mark {
                    k + 1
                } else {
                    k
                }
            } else if is_digit(c) || (c == 45 && i + 1 < s.len() && is_digit(s[i + 1])) {
                let st = if c == 45 {
                    i + 1
                } else {
                    i
                };
                lemma_digits_end_bounds(s, st);
                digits_end(s, st)
            } else if is_alpha(c) || c == 95 {
                lemma_word_end_bounds(s, i + 1);
                word_end(s, i + 1)
            } else if c == 58 && i + 2 < s.len() && s[i + 1] == 58 && s[i + 2] == 61 {
                i + 3
            } else if c == 46 && i + 1 < s.len() && s[i + 1] == 46 {
                i + 2
            } else {
                i + 1
            };
            assert(lexes(s, next, t1.drop_first()));
            assert(lexes(s, next, t2.drop_first()));
            assert(same_tok(t1[0], t2[0]));
            law_tokens_unique(s, next, t1.drop_first(), t2.drop_first());
            assert forall|k: int| 0 <= k < t1.len() implies same_tok(#[trigger] t1[k], t2[k]) by {
                if k > 0 {
                    assert(t1[k] == t1.drop_first()[k - 1]);
                    assert(t2[k] == t2.drop_first()[k - 1]);
                }
            }
        }
    }
}

} // verus!
