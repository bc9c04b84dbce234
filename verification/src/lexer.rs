//! Scanner for DOCSIS text configuration files.
//!
//! At each position every pattern is tried, the longest match wins, and
//! equal-length matches fall to the pattern listed first.  That ordering is
//! load-bearing - `1.3.6.1` is an IP address but `.1.3.6.1` is an OID, and
//! `docsDevCpeIpMax.0` is an OID rather than an identifier followed by a
//! number.
use vstd::prelude::*;
use vstd::string::StringSliceAdditionalSpecFns;
use crate::symbol::{first_named, lemma_named_row, named_row, Symbol};
use crate::text::{
    bytes_eq, copy_bytes, is_alpha, is_alpha_byte, is_digit, is_digit_byte, is_hex_byte, signed_dec_value,
    is_hex_digit,
};

verus! {

#[derive(Clone, Copy, PartialEq, Eq, Debug, Structural)]
pub enum AsnType {
    Int,
    Uint,
    Short,
    Char,
    Gauge,
    Counter,
    TimeTicks,
    Ip,
    ObjId,
    Str,
    HexStr,
    DecStr,
    BitStr,
    BigInt,
    UBigInt,
    Float,
    Double,
}

/// A token.  The setting keywords carry the position of their row in the
/// symbol table; text values carry their octets as written.
pub enum Tok {
    Identifier(usize),
    IdentSnmpW(usize),
    IdentSnmpSet(usize),
    IdentGeneric(usize),
    IdentCvc(usize),
    DigitMap(usize),
    Main,
    Integer(i64),
    /// A `"..."` literal with escapes already applied.
    Str(Vec<u8>),
    HexString(Vec<u8>),
    SubmgtFilters(Vec<u8>),
    Ip(Vec<u8>),
    IpList(Vec<u8>),
    Ip6(Vec<u8>),
    Ip6List(Vec<u8>),
    Ip6PrefixList(Vec<u8>),
    IpIp6Port(Vec<u8>),
    Mac(Vec<u8>),
    Ethermask(Vec<u8>),
    LabelOid(Vec<u8>),
    TimeTicks(Vec<u8>),
    AsnType(AsnType),
    TlvCode,
    TlvLength,
    TlvValue,
    TlvString,
    TlvStringZero,
    TlvType,
    LBrace,
    RBrace,
    Semi,
}

pub struct Token {
    pub tok: Tok,
    pub line: u32,
}

/// Why the input could not be scanned.
pub enum LexError {
    /// No pattern matches at this octet.
    Unrecognized { c: u8, line: u32 },
    /// A newline inside a string.
    NewlineInString { line: u32 },
    /// A tab inside a string.
    TabInString { line: u32 },
    /// A string longer than 2048 octets.
    StringTooLong { line: u32 },
    /// A string that never closes.
    UnterminatedString { line: u32 },
    /// A word that names no setting.
    UnknownSymbol { text: Vec<u8>, line: u32 },
}

/// The token kinds a value pattern can produce, in rule order so that
/// equal-length matches resolve the same way.
#[derive(Clone, Copy, PartialEq, Eq, Structural)]
pub enum Pat {
    SubmgtFilters,
    Ip,
    IpList,
    HexString,
    Ethermask,
    IpIp6Port,
    Mac,
    LabelOid,
    LabelOidQuoted,
    LabelOidText,
    TimeTicks,
    Word,
    Integer,
    Ip6,
    Ip6Port,
    Ip6PrefixList,
    Ip6List,
}

/// The pattern at rule position `k`.
pub open spec fn rule(k: int) -> Pat {
    if k == 0 {
        Pat::SubmgtFilters
    } else if k == 1 {
        Pat::Ip
    } else if k == 2 {
        Pat::IpList
    } else if k == 3 {
        Pat::HexString
    } else if k == 4 {
        Pat::Ethermask
    } else if k == 5 {
        Pat::IpIp6Port
    } else if k == 6 {
        Pat::Mac
    } else if k == 7 {
        Pat::LabelOid
    } else if k == 8 {
        Pat::LabelOidQuoted
    } else if k == 9 {
        Pat::LabelOidText
    } else if k == 10 {
        Pat::TimeTicks
    } else if k == 11 {
        Pat::Word
    } else if k == 12 {
        Pat::Integer
    } else if k == 13 {
        Pat::Ip6
    } else if k == 14 {
        Pat::Ip6Port
    } else if k == 15 {
        Pat::Ip6PrefixList
    } else {
        Pat::Ip6List
    }
}

fn pattern_at(k: usize) -> (r: Pat)
    requires
        k < 17,
    ensures
        r == rule(k as int),
{
    if k == 0 {
        Pat::SubmgtFilters
    } else if k == 1 {
        Pat::Ip
    } else if k == 2 {
        Pat::IpList
    } else if k == 3 {
        Pat::HexString
    } else if k == 4 {
        Pat::Ethermask
    } else if k == 5 {
        Pat::IpIp6Port
    } else if k == 6 {
        Pat::Mac
    } else if k == 7 {
        Pat::LabelOid
    } else if k == 8 {
        Pat::LabelOidQuoted
    } else if k == 9 {
        Pat::LabelOidText
    } else if k == 10 {
        Pat::TimeTicks
    } else if k == 11 {
        Pat::Word
    } else if k == 12 {
        Pat::Integer
    } else if k == 13 {
        Pat::Ip6
    } else if k == 14 {
        Pat::Ip6Port
    } else if k == 15 {
        Pat::Ip6PrefixList
    } else {
        Pat::Ip6List
    }
}

// ---------------------------------------------------------------------------
// Pattern matchers. Each gives the length of the match at `pos`, or 0.
// ---------------------------------------------------------------------------

pub open spec fn alnum(c: u8) -> bool {
    is_alpha(c) || is_digit(c)
}

pub open spec fn label_char(c: u8) -> bool {
    alnum(c) || c == 95 || c == 45
}

fn is_alnum(c: u8) -> (r: bool)
    ensures
        r == alnum(c),
{
    is_alpha_byte(c) || is_digit_byte(c)
}

/// The octet at `i`, if there is one.
pub open spec fn byte_at(s: Seq<u8>, i: int) -> Option<u8> {
    if 0 <= i < s.len() {
        Some(s[i])
    } else {
        None
    }
}

/// Whether the octet at `i` is `b`.
fn at_is(s: &[u8], i: usize, b: u8) -> (r: bool)
    ensures
        r == (byte_at(s@, i as int) == Some(b)),
{
    i < s.len() && s[i] == b
}

/// The octet at `i`, if there is one.
fn at(s: &[u8], i: usize) -> (r: Option<u8>)
    ensures
        r == byte_at(s@, i as int),
{
    if i < s.len() {
        Some(s[i])
    } else {
        None
    }
}

/// The kinds of octet runs the patterns are made of.
#[derive(Clone, Copy, PartialEq, Eq, Structural)]
pub enum Class {
    /// Decimal digits.
    Digit,
    /// Hexadecimal digits.
    Hex,
    /// Letters and digits.
    Alnum,
    /// Letters, digits, `_` and `-`.
    Label,
    /// Dots.
    Dot,
    /// What a quoted OID index may hold: letters, digits and `[]@,:_.-`.
    Quoted,
    /// What a textual OID index may hold: letters, digits, `,:_.-` and `"`.
    Text,
    /// Hexadecimal digits and colons.
    HexColon,
    /// Asterisks.
    Star,
}

/// Whether `c` belongs to `class`.
pub open spec fn in_class(c: u8, class: Class) -> bool {
    match class {
        Class::Digit => is_digit(c),
        Class::Hex => is_hex_digit(c),
        Class::Alnum => alnum(c),
        Class::Label => label_char(c),
        Class::Dot => c == 46,
        Class::Quoted => alnum(c) || c == 91 || c == 93 || c == 64 || c == 44 || c == 58 || c == 95
            || c == 46 || c == 45,
        Class::Text => c == 34 || alnum(c) || c == 44 || c == 58 || c == 95 || c == 46 || c == 45,
        Class::HexColon => is_hex_digit(c) || c == 58,
        Class::Star => c == 42,
    }
}

/// The end of the run of `class` octets starting at `i`.
pub open spec fn class_end(s: Seq<u8>, i: int, class: Class) -> int
    decreases s.len() - i,
{
    if 0 <= i < s.len() && in_class(s[i], class) {
        class_end(s, i + 1, class)
    } else {
        i
    }
}

pub proof fn lemma_class_end(s: Seq<u8>, i: int, class: Class)
    requires
        0 <= i <= s.len(),
    ensures
        i <= class_end(s, i, class) <= s.len(),
        forall|k: int| i <= k < class_end(s, i, class) ==> in_class(#[trigger] s[k], class),
    decreases s.len() - i,
{
    if i < s.len() && in_class(s[i], class) {
        lemma_class_end(s, i + 1, class);
    }
}

fn class_byte(c: u8, class: Class) -> (r: bool)
    ensures
        r == in_class(c, class),
{
    match class {
        Class::Digit => is_digit_byte(c),
        Class::Hex => is_hex_byte(c),
        Class::Alnum => is_alnum(c),
        Class::Label => is_alnum(c) || c == 95 || c == 45,
        Class::Dot => c == 46,
        Class::Quoted => is_alnum(c) || c == 91 || c == 93 || c == 64 || c == 44 || c == 58 || c
            == 95 || c == 46 || c == 45,
        Class::Text => c == 34 || is_alnum(c) || c == 44 || c == 58 || c == 95 || c == 46 || c
            == 45,
        Class::HexColon => is_hex_byte(c) || c == 58,
        Class::Star => c == 42,
    }
}

/// The end of the run of `class` octets starting at `i`.
fn run_from(s: &[u8], i: usize, class: Class) -> (r: usize)
    requires
        i <= s@.len(),
    ensures
        r == class_end(s@, i as int, class),
        i <= r <= s@.len(),
{
    proof {
        lemma_class_end(s@, i as int, class);
    }
    let mut j = i;
    while j < s.len() && class_byte(s[j], class)
        invariant
            i <= j <= s@.len(),
            class_end(s@, i as int, class) == class_end(s@, j as int, class),
        decreases s@.len() - j,
    {
        j += 1;
    }
    j
}

/// Digits at `i` ended by `sep`: where the text after `sep` starts.
pub open spec fn num_sep(s: Seq<u8>, i: int, sep: u8) -> Option<int> {
    let e = class_end(s, i, Class::Digit);
    if e == i || byte_at(s, e) != Some(sep) {
        None
    } else {
        Some(e + 1)
    }
}

fn num_then(s: &[u8], i: usize, sep: u8) -> (r: Option<usize>)
    requires
        i <= s@.len(),
    ensures
        pos_of(r) == num_sep(s@, i as int, sep),
        r matches Some(j) ==> i < j <= s@.len(),
{
    let e = run_from(s, i, Class::Digit);
    if e == i || e >= s.len() || s[e] != sep {
        None
    } else {
        Some(e + 1)
    }
}

/// A position as an integer, when there is one.
pub open spec fn pos_of(p: Option<usize>) -> Option<int> {
    match p {
        Some(v) => Some(v as int),
        None => None,
    }
}

/// `([0-9]+,){1,127}[0-9]+` from `i`, with `groups` groups already read.
pub open spec fn submgt_from(s: Seq<u8>, pos: int, i: int, groups: nat) -> int
    decreases s.len() - i,
{
    let e = class_end(s, i, Class::Digit);
    if e <= i {
        0
    } else if byte_at(s, e) == Some(44u8) && groups < 127 {
        submgt_from(s, pos, e + 1, groups + 1)
    } else if groups == 0 {
        0
    } else {
        e - pos
    }
}

/// `([0-9]+,){1,127}[0-9]+`
fn m_submgt_filters(s: &[u8], pos: usize) -> (r: usize)
    requires
        pos <= s.len(),
    ensures
        r == submgt_from(s@, pos as int, pos as int, 0),
        pos + r <= s.len(),
{
    let ghost whole = submgt_from(s@, pos as int, pos as int, 0);
    let mut i = pos;
    let mut groups: usize = 0;
    loop
        invariant
            pos <= i <= s.len(),
            groups <= 127,
            groups == 0 ==> i == pos,
            whole == submgt_from(s@, pos as int, pos as int, 0),
            whole == submgt_from(s@, pos as int, i as int, groups as nat),
        decreases s.len() - i,
    {
        let e = run_from(s, i, Class::Digit);
        if e == i {
            return 0;
        }
        if at(s, e) == Some(44u8) && groups < 127 {
            i = e + 1;
            groups += 1;
            continue ;
        }
        if groups == 0 {
            return 0;
        }
        return e - pos;
    }
}

/// `([0-9]+\.){3}[0-9]+`
pub open spec fn ipv4_len(s: Seq<u8>, pos: int) -> int {
    match num_sep(s, pos, 46) {
        None => 0,
        Some(i1) => match num_sep(s, i1, 46) {
            None => 0,
            Some(i2) => match num_sep(s, i2, 46) {
                None => 0,
                Some(i3) => {
                    let e = class_end(s, i3, Class::Digit);
                    if e == i3 {
                        0
                    } else {
                        e - pos
                    }
                },
            },
        },
    }
}

fn m_ipv4(s: &[u8], pos: usize) -> (r: usize)
    requires
        pos <= s.len(),
    ensures
        r == ipv4_len(s@, pos as int),
        pos + r <= s.len(),
{
    let i1 = match num_then(s, pos, 46) {
        Some(i) => i,
        None => return 0,
    };
    let i2 = match num_then(s, i1, 46) {
        Some(i) => i,
        None => return 0,
    };
    let i3 = match num_then(s, i2, 46) {
        Some(i) => i,
        None => return 0,
    };
    let e = run_from(s, i3, Class::Digit);
    if e == i3 {
        0
    } else {
        e - pos
    }
}

/// Whether `t` holds the octet `c`.
pub open spec fn has_byte(t: Seq<u8>, c: u8) -> bool {
    exists|k: int| 0 <= k < t.len() && t[k] == c
}

/// The longest run of `s[pos..e]` (shortening from the end) that holds a
/// colon and reads as an IPv6 address.
pub open spec fn ipv6_search(s: Seq<u8>, pos: int, e: int) -> int
    decreases e - pos,
{
    if e <= pos {
        0
    } else if has_byte(s.subrange(pos, e), 58) && crate::inet::ipv6_value(s.subrange(pos, e)) is Some {
        e - pos
    } else {
        ipv6_search(s, pos, e - 1)
    }
}

/// The IPv6 forms the scanner accepts: the longest stretch of the run of hex
/// digits and colons from `pos` that holds a colon and reads as an address.
pub open spec fn ipv6_len(s: Seq<u8>, pos: int) -> int {
    ipv6_search(s, pos, class_end(s, pos, Class::HexColon))
}

/// The IPv6 forms the scanner accepts, recognised by parsing: the longest
/// run of hex digits and colons from `pos`, holding a colon, that reads as an
/// address.
fn m_ipv6(s: &[u8], pos: usize) -> (r: usize)
    requires
        pos <= s.len(),
    ensures
        r == ipv6_len(s@, pos as int),
        pos + r <= s.len(),
{
    let mut end = run_from(s, pos, Class::HexColon);
    while end > pos
        invariant
            pos <= end <= s@.len(),
            ipv6_len(s@, pos as int) == ipv6_search(s@, pos as int, end as int),
        decreases end - pos,
    {
        let text = crate::asn1::slice_range(s, pos, end);
        let colon = crate::text::find_byte_opt(text, 0, 58).is_some();
        proof {
            if !colon {
                assert(!has_byte(text@, 58));
            }
        }
        if colon && crate::inet::parse_ipv6(text).is_some() {
            return end - pos;
        }
        end -= 1;
    }
    0
}

/// The matcher a list or suffix pattern is built from.
#[derive(Clone, Copy, PartialEq, Eq, Structural)]
pub enum Item {
    Ipv4,
    Ipv6,
    Ipv6Port,
}

/// An address followed by `/` and a decimal number.
pub open spec fn suffix_len(s: Seq<u8>, pos: int, v6: bool) -> int {
    let len = if v6 {
        ipv6_len(s, pos)
    } else {
        ipv4_len(s, pos)
    };
    if len == 0 || byte_at(s, pos + len) != Some(47u8) {
        0
    } else {
        let st = pos + len + 1;
        let e = class_end(s, st, Class::Digit);
        if e == st {
            0
        } else {
            len + 1 + (e - st)
        }
    }
}

/// The length of the item of a list at `i`.
pub open spec fn item_len(item: Item, s: Seq<u8>, i: int) -> int {
    match item {
        Item::Ipv4 => ipv4_len(s, i),
        Item::Ipv6 => ipv6_len(s, i),
        Item::Ipv6Port => suffix_len(s, i, true),
    }
}

fn m_item(item: Item, s: &[u8], pos: usize) -> (r: usize)
    requires
        pos <= s.len(),
    ensures
        r == item_len(item, s@, pos as int),
        pos + r <= s.len(),
{
    match item {
        Item::Ipv4 => m_ipv4(s, pos),
        Item::Ipv6 => m_ipv6(s, pos),
        Item::Ipv6Port => m_with_suffix_num(s, pos, Item::Ipv6),
    }
}

/// A comma-separated list of items from `i`, `count` read so far and the
/// last one that made two or more ending at `end`: the list's length, when
/// it has at least two and at most `max` items.
pub open spec fn list_from(s: Seq<u8>, pos: int, i: int, item: Item, max: nat, count: nat, end: int) -> int
    decreases s.len() - i,
{
    let len = item_len(item, s, i);
    let (c, e, more) = if len <= 0 {
        (count, end, false)
    } else {
        let i2 = i + len;
        let c2 = count + 1;
        let e2 = if c2 >= 2 {
            i2
        } else {
            end
        };
        (c2, e2, !(c2 >= max || byte_at(s, i2) != Some(44u8)))
    };
    if more {
        list_from(s, pos, i + len + 1, item, max, c, e)
    } else if c < 2 {
        0
    } else {
        e - pos
    }
}

/// A comma-separated list of at least two and at most `max` items.
fn m_list(s: &[u8], pos: usize, item: Item, max: usize) -> (r: usize)
    requires
        pos <= s.len(),
    ensures
        r == list_from(s@, pos as int, pos as int, item, max as nat, 0, pos as int),
        pos + r <= s.len(),
{
    let ghost whole = list_from(s@, pos as int, pos as int, item, max as nat, 0, pos as int);
    let mut i = pos;
    let mut count: usize = 0;
    let mut end = pos;
    loop
        invariant_except_break
            whole == list_from(s@, pos as int, i as int, item, max as nat, count as nat, end as int),
        invariant
            pos <= i <= s.len(),
            pos <= end <= s.len(),
            count <= i - pos,
            whole == list_from(s@, pos as int, pos as int, item, max as nat, 0, pos as int),
        ensures
            whole == (if count < 2 {
                0
            } else {
                end - pos
            }),
        decreases s.len() - i,
    {
        let len = m_item(item, s, i);
        if len == 0 {
            break ;
        }
        i = i + len;
        count += 1;
        if count >= 2 {
            end = i;
        }
        if count >= max || at(s, i) != Some(44u8) {
            break ;
        }
        i = i + 1;
    }
    if count < 2 {
        0
    } else {
        end - pos
    }
}

/// An item followed by `/` and a decimal number.
fn m_with_suffix_num(s: &[u8], pos: usize, item: Item) -> (r: usize)
    requires
        pos <= s.len(),
    ensures
        r == suffix_len(s@, pos as int, item != Item::Ipv4),
        pos + r <= s.len(),
{
    let len = if item == Item::Ipv4 {
        m_ipv4(s, pos)
    } else {
        m_ipv6(s, pos)
    };
    if len == 0 || at(s, pos + len) != Some(47u8) {
        return 0;
    }
    let st = pos + len + 1;
    let e = run_from(s, st, Class::Digit);
    if e == st {
        return 0;
    }
    len + 1 + (e - st)
}

/// `0[Xx][0-9A-Fa-f]+`
pub open spec fn hexstring_len(s: Seq<u8>, pos: int) -> int {
    if byte_at(s, pos) == Some(48u8) && (byte_at(s, pos + 1) == Some(120u8) || byte_at(s, pos + 1)
        == Some(88u8)) {
        let e = class_end(s, pos + 2, Class::Hex);
        if e == pos + 2 {
            0
        } else {
            e - pos
        }
    } else {
        0
    }
}

fn m_hexstring(s: &[u8], pos: usize) -> (r: usize)
    requires
        pos <= s.len(),
    ensures
        r == hexstring_len(s@, pos as int),
        pos + r <= s.len(),
{
    if at(s, pos) != Some(48u8) || !(at(s, pos + 1) == Some(120u8) || at(s, pos + 1) == Some(
        88u8,
    )) {
        return 0;
    }
    let e = run_from(s, pos + 2, Class::Hex);
    if e == pos + 2 {
        0
    } else {
        e - pos
    }
}

/// `([0-9A-Fa-f]{2}:){5}[0-9A-Fa-f]{2}`
pub open spec fn mac_len(s: Seq<u8>, pos: int) -> int {
    if 0 <= pos && pos + 17 <= s.len() && (forall|k: int|
        0 <= k < 5 ==> is_hex_digit(#[trigger] s[pos + 3 * k]) && is_hex_digit(s[pos + 3 * k + 1])
            && s[pos + 3 * k + 2] == 58) && is_hex_digit(s[pos + 15]) && is_hex_digit(s[pos + 16]) {
        17
    } else {
        0
    }
}

fn m_mac(s: &[u8], pos: usize) -> (r: usize)
    requires
        pos <= s.len(),
    ensures
        r == mac_len(s@, pos as int),
        pos + r <= s.len(),
{
    let mut i = pos;
    let mut k: usize = 0;
    while k < 5
        invariant
            pos <= i <= s.len(),
            k <= 5,
            i == pos + 3 * k,
            forall|m: int|
                0 <= m < k ==> is_hex_digit(#[trigger] s@[pos + 3 * m]) && is_hex_digit(
                    s@[pos + 3 * m + 1],
                ) && s@[pos + 3 * m + 2] == 58,
        decreases 5 - k,
    {
        if s.len() - i < 3 || !is_hex_byte(s[i]) || !is_hex_byte(s[i + 1]) || s[i + 2] != 58 {
            proof {
                if pos + 17 <= s@.len() {
                    assert(!(is_hex_digit(s@[pos + 3 * k]) && is_hex_digit(s@[pos + 3 * k + 1])
                        && s@[pos + 3 * k + 2] == 58));
                }
            }
            return 0;
        }
        i += 3;
        k += 1;
    }
    if s.len() - i < 2 || !is_hex_byte(s[i]) || !is_hex_byte(s[i + 1]) {
        return 0;
    }
    i + 2 - pos
}

pub open spec fn ethermask_len(s: Seq<u8>, pos: int) -> int {
    let a = mac_len(s, pos);
    if a == 0 || byte_at(s, pos + a) != Some(47u8) {
        0
    } else {
        let b = mac_len(s, pos + a + 1);
        if b == 0 {
            0
        } else {
            a + 1 + b
        }
    }
}

fn m_ethermask(s: &[u8], pos: usize) -> (r: usize)
    requires
        pos <= s.len(),
    ensures
        r == ethermask_len(s@, pos as int),
        pos + r <= s.len(),
{
    let a = m_mac(s, pos);
    if a == 0 || at(s, pos + a) != Some(47u8) {
        return 0;
    }
    let b = m_mac(s, pos + a + 1);
    if b == 0 {
        return 0;
    }
    a + 1 + b
}

/// `([0-9]+:){3}[0-9]+\.[0-9]+`
pub open spec fn timeticks_len(s: Seq<u8>, pos: int) -> int {
    match num_sep(s, pos, 58) {
        None => 0,
        Some(i1) => match num_sep(s, i1, 58) {
            None => 0,
            Some(i2) => match num_sep(s, i2, 58) {
                None => 0,
                Some(i3) => match num_sep(s, i3, 46) {
                    None => 0,
                    Some(i4) => {
                        let e = class_end(s, i4, Class::Digit);
                        if e == i4 {
                            0
                        } else {
                            e - pos
                        }
                    },
                },
            },
        },
    }
}

fn m_timeticks(s: &[u8], pos: usize) -> (r: usize)
    requires
        pos <= s.len(),
    ensures
        r == timeticks_len(s@, pos as int),
        pos + r <= s.len(),
{
    let i1 = match num_then(s, pos, 58) {
        Some(i) => i,
        None => return 0,
    };
    let i2 = match num_then(s, i1, 58) {
        Some(i) => i,
        None => return 0,
    };
    let i3 = match num_then(s, i2, 58) {
        Some(i) => i,
        None => return 0,
    };
    let i4 = match num_then(s, i3, 46) {
        Some(i) => i,
        None => return 0,
    };
    let e = run_from(s, i4, Class::Digit);
    if e == i4 {
        0
    } else {
        e - pos
    }
}

/// A letter, then letters and digits.
pub open spec fn word_len(s: Seq<u8>, pos: int) -> int {
    if byte_at(s, pos) matches Some(c) && is_alpha(c) {
        class_end(s, pos, Class::Alnum) - pos
    } else {
        0
    }
}

/// A letter, then letters, then letters and digits.
fn m_word(s: &[u8], pos: usize) -> (r: usize)
    requires
        pos <= s.len(),
    ensures
        r == word_len(s@, pos as int),
        pos + r <= s.len(),
        r > 0 ==> is_alpha(s@[pos as int]),
        forall|k: int| pos <= k < pos + r ==> alnum(#[trigger] s@[k]),
{
    if pos >= s.len() || !is_alpha_byte(s[pos]) {
        return 0;
    }
    let e = run_from(s, pos, Class::Alnum);
    proof {
        lemma_class_end(s@, pos as int, Class::Alnum);
    }
    e - pos
}

/// An optional `-` and decimal digits.
pub open spec fn integer_len(s: Seq<u8>, pos: int) -> int {
    let st = if byte_at(s, pos) == Some(45u8) {
        pos + 1
    } else {
        pos
    };
    let e = class_end(s, st, Class::Digit);
    if e == st {
        0
    } else {
        e - pos
    }
}

fn m_integer(s: &[u8], pos: usize) -> (r: usize)
    requires
        pos <= s.len(),
    ensures
        r == integer_len(s@, pos as int),
        pos + r <= s.len(),
{
    let start = if at(s, pos) == Some(45u8) {
        pos + 1
    } else {
        pos
    };
    let e = run_from(s, start, Class::Digit);
    if e == start {
        0
    } else {
        e - pos
    }
}

/// The positions after each `label.` group from `i`.
pub open spec fn prefix_starts(s: Seq<u8>, i: int) -> Seq<int>
    decreases s.len() - i,
{
    let j = class_end(s, i, Class::Label);
    if j <= i || byte_at(s, j) != Some(46u8) {
        Seq::empty()
    } else {
        seq![j + 1] + prefix_starts(s, j + 1)
    }
}

/// Consume the leading dots and `label.` groups shared by the OID patterns,
/// giving the position after each group.
fn oid_prefix_positions(s: &[u8], pos: usize) -> (r: Vec<usize>)
    requires
        pos <= s.len(),
    ensures
        r@.map_values(|p: usize| p as int) == prefix_starts(s@, class_end(s@, pos as int, Class::Dot)),
        forall|k: int| 0 <= k < r@.len() ==> pos <= #[trigger] r@[k] <= s.len(),
{
    let mut i = run_from(s, pos, Class::Dot);
    let ghost whole = prefix_starts(s@, i as int);
    let mut out: Vec<usize> = Vec::new();
    assert(out@.map_values(|p: usize| p as int) + prefix_starts(s@, i as int) =~= whole);
    loop
        invariant_except_break
            out@.map_values(|p: usize| p as int) + prefix_starts(s@, i as int) == whole,
        invariant
            pos <= i <= s.len(),
            whole == prefix_starts(s@, class_end(s@, pos as int, Class::Dot)),
            forall|k: int| 0 <= k < out@.len() ==> pos <= #[trigger] out@[k] <= s.len(),
        ensures
            out@.map_values(|p: usize| p as int) == whole,
        decreases s.len() - i,
    {
        let j = run_from(s, i, Class::Label);
        if j == i || at(s, j) != Some(46u8) {
            assert(out@.map_values(|p: usize| p as int) + Seq::<int>::empty() =~= out@.map_values(
                |p: usize| p as int,
            ));
            break ;
        }
        let ghost before = out@.map_values(|p: usize| p as int);
        i = j + 1;
        out.push(i);
        assert(out@.map_values(|p: usize| p as int) =~= before.push(i as int));
        assert(before + (seq![i as int] + prefix_starts(s@, i as int)) =~= out@.map_values(
            |p: usize| p as int,
        ) + prefix_starts(s@, i as int));
    }
    out
}

/// `(\.)*([A-Za-z0-9_-]+\.)+[A-Za-z0-9]+`: the longest of the OID prefixes
/// `st` followed by letters and digits.
pub open spec fn label_oid_len(s: Seq<u8>, pos: int, st: Seq<int>) -> int
    decreases st.len(),
{
    if st.len() == 0 {
        0
    } else {
        let a = st.last();
        let j = class_end(s, a, Class::Alnum);
        if j > a {
            j - pos
        } else {
            label_oid_len(s, pos, st.drop_last())
        }
    }
}

/// `(\.)*([A-Za-z0-9_-]+\.)+'[\[A-Za-z0-9@,:_.\-\]]+'`
pub open spec fn quoted_oid_len(s: Seq<u8>, pos: int, st: Seq<int>) -> int
    decreases st.len(),
{
    if st.len() == 0 {
        0
    } else {
        let a = st.last();
        let j = class_end(s, a + 1, Class::Quoted);
        if byte_at(s, a) == Some(39u8) && j > a + 1 && byte_at(s, j) == Some(39u8) {
            j + 1 - pos
        } else {
            quoted_oid_len(s, pos, st.drop_last())
        }
    }
}

/// `(\.)*([A-Za-z0-9_-]+\.)+((")*[A-Za-z0-9,:_.\-]+(")*)+`
pub open spec fn text_oid_len(s: Seq<u8>, pos: int, st: Seq<int>) -> int
    decreases st.len(),
{
    if st.len() == 0 {
        0
    } else {
        let a = st.last();
        let j = class_end(s, a, Class::Text);
        if exists|k: int| a <= k < j && #[trigger] s[k] != 34 {
            j - pos
        } else {
            text_oid_len(s, pos, st.drop_last())
        }
    }
}

/// The OID prefixes of the text at `pos`.
pub open spec fn oid_starts(s: Seq<u8>, pos: int) -> Seq<int> {
    prefix_starts(s, class_end(s, pos, Class::Dot))
}

/// `(\.)*([A-Za-z0-9_-]+\.)+[A-Za-z0-9]+`
fn m_label_oid(s: &[u8], pos: usize) -> (r: usize)
    requires
        pos <= s.len(),
    ensures
        r == label_oid_len(s@, pos as int, oid_starts(s@, pos as int)),
        pos + r <= s.len(),
{
    let starts = oid_prefix_positions(s, pos);
    let ghost st = starts@.map_values(|p: usize| p as int);
    let mut best: usize = 0;
    let mut k: usize = 0;
    while k < starts.len()
        invariant
            k <= starts.len(),
            pos + best <= s.len(),
            st == starts@.map_values(|p: usize| p as int),
            forall|m: int| 0 <= m < starts.len() ==> pos <= #[trigger] starts@[m] <= s.len(),
            best == label_oid_len(s@, pos as int, st.take(k as int)),
        decreases starts.len() - k,
    {
        let start = starts[k];
        let j = run_from(s, start, Class::Alnum);
        proof {
            assert(st.take(k + 1).drop_last() =~= st.take(k as int));
            assert(st.take(k + 1).last() == start as int);
        }
        if j > start {
            best = j - pos;
        }
        k += 1;
    }
    assert(st.take(starts.len() as int) =~= st);
    best
}

/// `(\.)*([A-Za-z0-9_-]+\.)+'[\[A-Za-z0-9@,:_.\-\]]+'`
fn m_label_oid_quoted(s: &[u8], pos: usize) -> (r: usize)
    requires
        pos <= s.len(),
    ensures
        r == quoted_oid_len(s@, pos as int, oid_starts(s@, pos as int)),
        pos + r <= s.len(),
{
    let starts = oid_prefix_positions(s, pos);
    let ghost st = starts@.map_values(|p: usize| p as int);
    let mut best: usize = 0;
    let mut k: usize = 0;
    while k < starts.len()
        invariant
            k <= starts.len(),
            pos + best <= s.len(),
            st == starts@.map_values(|p: usize| p as int),
            forall|m: int| 0 <= m < starts.len() ==> pos <= #[trigger] starts@[m] <= s.len(),
            best == quoted_oid_len(s@, pos as int, st.take(k as int)),
        decreases starts.len() - k,
    {
        let start = starts[k];
        proof {
            assert(st.take(k + 1).drop_last() =~= st.take(k as int));
            assert(st.take(k + 1).last() == start as int);
        }
        if at(s, start) == Some(39u8) {
            let j = run_from(s, start + 1, Class::Quoted);
            if j > start + 1 && at(s, j) == Some(39u8) {
                best = j + 1 - pos;
            }
        }
        k += 1;
    }
    assert(st.take(starts.len() as int) =~= st);
    best
}

/// `(\.)*([A-Za-z0-9_-]+\.)+((")*[A-Za-z0-9,:_.\-]+(")*)+`
fn m_label_oid_text(s: &[u8], pos: usize) -> (r: usize)
    requires
        pos <= s.len(),
    ensures
        r == text_oid_len(s@, pos as int, oid_starts(s@, pos as int)),
        pos + r <= s.len(),
{
    let starts = oid_prefix_positions(s, pos);
    let ghost st = starts@.map_values(|p: usize| p as int);
    let mut best: usize = 0;
    let mut k: usize = 0;
    while k < starts.len()
        invariant
            k <= starts.len(),
            pos + best <= s.len(),
            st == starts@.map_values(|p: usize| p as int),
            forall|m: int| 0 <= m < starts.len() ==> pos <= #[trigger] starts@[m] <= s.len(),
            best == text_oid_len(s@, pos as int, st.take(k as int)),
        decreases starts.len() - k,
    {
        let start = starts[k];
        let j = run_from(s, start, Class::Text);
        // The run must contain at least one non-quote character.
        let mut saw_body = false;
        let mut m = start;
        while m < j
            invariant
                start <= m <= j <= s@.len(),
                saw_body == exists|q: int| start <= q < m && #[trigger] s@[q] != 34,
            decreases j - m,
        {
            if s[m] != 34 {
                saw_body = true;
            }
            m += 1;
        }
        proof {
            assert(st.take(k + 1).drop_last() =~= st.take(k as int));
            assert(st.take(k + 1).last() == start as int);
        }
        if saw_body {
            best = j - pos;
        }
        k += 1;
    }
    assert(st.take(starts.len() as int) =~= st);
    best
}

/// The length of the match of pattern `p` at `pos`.
pub open spec fn pattern_len(p: Pat, s: Seq<u8>, pos: int) -> int {
    match p {
        Pat::SubmgtFilters => submgt_from(s, pos, pos, 0),
        Pat::Ip => ipv4_len(s, pos),
        Pat::IpList => list_from(s, pos, pos, Item::Ipv4, 16, 0, pos),
        Pat::HexString => hexstring_len(s, pos),
        Pat::Ethermask => ethermask_len(s, pos),
        Pat::IpIp6Port => suffix_len(s, pos, false),
        Pat::Mac => mac_len(s, pos),
        Pat::LabelOid => label_oid_len(s, pos, oid_starts(s, pos)),
        Pat::LabelOidQuoted => quoted_oid_len(s, pos, oid_starts(s, pos)),
        Pat::LabelOidText => text_oid_len(s, pos, oid_starts(s, pos)),
        Pat::TimeTicks => timeticks_len(s, pos),
        Pat::Word => word_len(s, pos),
        Pat::Integer => integer_len(s, pos),
        Pat::Ip6 => ipv6_len(s, pos),
        Pat::Ip6Port => suffix_len(s, pos, true),
        Pat::Ip6PrefixList => list_from(s, pos, pos, Item::Ipv6Port, 15, 0, pos),
        Pat::Ip6List => list_from(s, pos, pos, Item::Ipv6, 16, 0, pos),
    }
}

fn match_pattern(p: Pat, s: &[u8], pos: usize) -> (r: usize)
    requires
        pos <= s.len(),
    ensures
        r == pattern_len(p, s@, pos as int),
        pos + r <= s.len(),
        p == Pat::Word ==> forall|k: int| pos <= k < pos + r ==> alnum(#[trigger] s@[k]),
{
    match p {
        Pat::SubmgtFilters => m_submgt_filters(s, pos),
        Pat::Ip => m_ipv4(s, pos),
        Pat::IpList => m_list(s, pos, Item::Ipv4, 16),
        Pat::HexString => m_hexstring(s, pos),
        Pat::Ethermask => m_ethermask(s, pos),
        Pat::IpIp6Port => m_with_suffix_num(s, pos, Item::Ipv4),
        Pat::Mac => m_mac(s, pos),
        Pat::LabelOid => m_label_oid(s, pos),
        Pat::LabelOidQuoted => m_label_oid_quoted(s, pos),
        Pat::LabelOidText => m_label_oid_text(s, pos),
        Pat::TimeTicks => m_timeticks(s, pos),
        Pat::Word => m_word(s, pos),
        Pat::Integer => m_integer(s, pos),
        Pat::Ip6 => m_ipv6(s, pos),
        Pat::Ip6Port => m_with_suffix_num(s, pos, Item::Ipv6),
        Pat::Ip6PrefixList => m_list(s, pos, Item::Ipv6Port, 15),
        Pat::Ip6List => m_list(s, pos, Item::Ipv6, 16),
    }
}

/// The position of the first row of `table` whose keyword is `name`.
pub fn find_index_by_name(table: &[Symbol], name: &[u8]) -> (r: Option<usize>)
    ensures
        pos_of(r) == named_row(table@, name@),
        match r {
            Some(i) => first_named(table@, name@, i as int),
            None => forall|i: int|
                0 <= i < table@.len() ==> (#[trigger] table@[i]).ident.spec_bytes() != name@,
        },
{
    let mut i: usize = 0;
    while i < table.len()
        invariant
            i <= table@.len(),
            forall|j: int| 0 <= j < i ==> (#[trigger] table@[j]).ident.spec_bytes() != name@,
        decreases table@.len() - i,
    {
        if bytes_eq(table[i].ident.as_bytes(), name) {
            proof {
                lemma_named_row(table@, name@, i as int);
            }
            return Some(i);
        }
        i = i + 1;
    }
    assert(!exists|k: int| first_named(table@, name@, k));
    None
}

/// `c` with an upper-case ASCII letter made lower case.
pub open spec fn ascii_lower(c: u8) -> u8 {
    if 65 <= c <= 90 {
        (c + 32) as u8
    } else {
        c
    }
}

/// Whether `a` and `b` spell the same text, ignoring ASCII case.
pub open spec fn same_ignoring_case(a: Seq<u8>, b: Seq<u8>) -> bool {
    &&& a.len() == b.len()
    &&& forall|i: int| 0 <= i < a.len() ==> ascii_lower(#[trigger] a[i]) == ascii_lower(b[i])
}

fn to_lower(c: u8) -> (r: u8)
    ensures
        r == ascii_lower(c),
{
    if 65 <= c && c <= 90 {
        c + 32
    } else {
        c
    }
}

/// Whether `a` spells `b` ignoring ASCII case.
fn eq_ignore_case(a: &[u8], b: &[u8]) -> (r: bool)
    ensures
        r == same_ignoring_case(a@, b@),
{
    if a.len() != b.len() {
        return false;
    }
    let mut i: usize = 0;
    while i < a.len()
        invariant
            i <= a@.len() == b@.len(),
            forall|k: int| 0 <= k < i ==> ascii_lower(#[trigger] a@[k]) == ascii_lower(b@[k]),
        decreases a@.len() - i,
    {
        if to_lower(a[i]) != to_lower(b[i]) {
            return false;
        }
        i += 1;
    }
    true
}

fn word_is(text: &[u8], w: &str) -> (r: bool)
    ensures
        r == (text@ == w.spec_bytes()),
{
    bytes_eq(text, w.as_bytes())
}

/// The type a type keyword names.
pub open spec fn asn_keyword(w: Seq<u8>) -> Option<AsnType> {
    if w == "Integer".spec_bytes() {
        Some(AsnType::Int)
    } else if w == "Unsigned32".spec_bytes() {
        Some(AsnType::Uint)
    } else if w == "Short".spec_bytes() {
        Some(AsnType::Short)
    } else if w == "Char".spec_bytes() {
        Some(AsnType::Char)
    } else if w == "Gauge".spec_bytes() || w == "Gauge32".spec_bytes() {
        Some(AsnType::Gauge)
    } else if w == "Counter32".spec_bytes() {
        Some(AsnType::Counter)
    } else if w == "TimeTicks".spec_bytes() {
        Some(AsnType::TimeTicks)
    } else if w == "IPAddress".spec_bytes() {
        Some(AsnType::Ip)
    } else if w == "ObjectID".spec_bytes() {
        Some(AsnType::ObjId)
    } else if w == "String".spec_bytes() {
        Some(AsnType::Str)
    } else if w == "HexString".spec_bytes() {
        Some(AsnType::HexStr)
    } else if w == "DecimalString".spec_bytes() {
        Some(AsnType::DecStr)
    } else if w == "BitString".spec_bytes() {
        Some(AsnType::BitStr)
    } else if w == "BigInt".spec_bytes() {
        Some(AsnType::BigInt)
    } else if w == "UnsignedBigInt".spec_bytes() {
        Some(AsnType::UBigInt)
    } else if w == "Float".spec_bytes() {
        Some(AsnType::Float)
    } else if w == "Double".spec_bytes() {
        Some(AsnType::Double)
    } else {
        None
    }
}

/// The type keywords of `SnmpMibObject` and `GenericTLV TlvType`.
fn asn_type_of(text: &[u8]) -> (r: Option<AsnType>)
    ensures
        r == asn_keyword(text@),
{
    if word_is(text, "Integer") {
        Some(AsnType::Int)
    } else if word_is(text, "Unsigned32") {
        Some(AsnType::Uint)
    } else if word_is(text, "Short") {
        Some(AsnType::Short)
    } else if word_is(text, "Char") {
        Some(AsnType::Char)
    } else if word_is(text, "Gauge") || word_is(text, "Gauge32") {
        Some(AsnType::Gauge)
    } else if word_is(text, "Counter32") {
        Some(AsnType::Counter)
    } else if word_is(text, "TimeTicks") {
        Some(AsnType::TimeTicks)
    } else if word_is(text, "IPAddress") {
        Some(AsnType::Ip)
    } else if word_is(text, "ObjectID") {
        Some(AsnType::ObjId)
    } else if word_is(text, "String") {
        Some(AsnType::Str)
    } else if word_is(text, "HexString") {
        Some(AsnType::HexStr)
    } else if word_is(text, "DecimalString") {
        Some(AsnType::DecStr)
    } else if word_is(text, "BitString") {
        Some(AsnType::BitStr)
    } else if word_is(text, "BigInt") {
        Some(AsnType::BigInt)
    } else if word_is(text, "UnsignedBigInt") {
        Some(AsnType::UBigInt)
    } else if word_is(text, "Float") {
        Some(AsnType::Float)
    } else if word_is(text, "Double") {
        Some(AsnType::Double)
    } else {
        None
    }
}

/// A token as plain values: text carried as octets.
pub enum TokSpec {
    Identifier(usize),
    IdentSnmpW(usize),
    IdentSnmpSet(usize),
    IdentGeneric(usize),
    IdentCvc(usize),
    DigitMap(usize),
    Main,
    Integer(i64),
    Str(Seq<u8>),
    HexString(Seq<u8>),
    SubmgtFilters(Seq<u8>),
    Ip(Seq<u8>),
    IpList(Seq<u8>),
    Ip6(Seq<u8>),
    Ip6List(Seq<u8>),
    Ip6PrefixList(Seq<u8>),
    IpIp6Port(Seq<u8>),
    Mac(Seq<u8>),
    Ethermask(Seq<u8>),
    LabelOid(Seq<u8>),
    TimeTicks(Seq<u8>),
    AsnType(AsnType),
    TlvCode,
    TlvLength,
    TlvValue,
    TlvString,
    TlvStringZero,
    TlvType,
    LBrace,
    RBrace,
    Semi,
}

/// The plain values of a token.
pub open spec fn tok_spec(t: Tok) -> TokSpec {
    match t {
        Tok::Identifier(i) => TokSpec::Identifier(i),
        Tok::IdentSnmpW(i) => TokSpec::IdentSnmpW(i),
        Tok::IdentSnmpSet(i) => TokSpec::IdentSnmpSet(i),
        Tok::IdentGeneric(i) => TokSpec::IdentGeneric(i),
        Tok::IdentCvc(i) => TokSpec::IdentCvc(i),
        Tok::DigitMap(i) => TokSpec::DigitMap(i),
        Tok::Main => TokSpec::Main,
        Tok::Integer(v) => TokSpec::Integer(v),
        Tok::Str(b) => TokSpec::Str(b@),
        Tok::HexString(b) => TokSpec::HexString(b@),
        Tok::SubmgtFilters(b) => TokSpec::SubmgtFilters(b@),
        Tok::Ip(b) => TokSpec::Ip(b@),
        Tok::IpList(b) => TokSpec::IpList(b@),
        Tok::Ip6(b) => TokSpec::Ip6(b@),
        Tok::Ip6List(b) => TokSpec::Ip6List(b@),
        Tok::Ip6PrefixList(b) => TokSpec::Ip6PrefixList(b@),
        Tok::IpIp6Port(b) => TokSpec::IpIp6Port(b@),
        Tok::Mac(b) => TokSpec::Mac(b@),
        Tok::Ethermask(b) => TokSpec::Ethermask(b@),
        Tok::LabelOid(b) => TokSpec::LabelOid(b@),
        Tok::TimeTicks(b) => TokSpec::TimeTicks(b@),
        Tok::AsnType(a) => TokSpec::AsnType(a),
        Tok::TlvCode => TokSpec::TlvCode,
        Tok::TlvLength => TokSpec::TlvLength,
        Tok::TlvValue => TokSpec::TlvValue,
        Tok::TlvString => TokSpec::TlvString,
        Tok::TlvStringZero => TokSpec::TlvStringZero,
        Tok::TlvType => TokSpec::TlvType,
        Tok::LBrace => TokSpec::LBrace,
        Tok::RBrace => TokSpec::RBrace,
        Tok::Semi => TokSpec::Semi,
    }
}

/// A token and its line, as plain values.
pub open spec fn token_spec(t: Token) -> (TokSpec, u32) {
    (tok_spec(t.tok), t.line)
}

/// The plain values of a list of tokens.
pub open spec fn tokens_spec(ts: Seq<Token>) -> Seq<(TokSpec, u32)> {
    ts.map_values(|t: Token| token_spec(t))
}

/// Why the input could not be scanned, as plain values.
pub enum LexErrSpec {
    Unrecognized { c: u8, line: u32 },
    NewlineInString { line: u32 },
    TabInString { line: u32 },
    StringTooLong { line: u32 },
    UnterminatedString { line: u32 },
    UnknownSymbol { text: Seq<u8>, line: u32 },
}

/// The plain values of a scanning error.
pub open spec fn lex_err_spec(e: LexError) -> LexErrSpec {
    match e {
        LexError::Unrecognized { c, line } => LexErrSpec::Unrecognized { c, line },
        LexError::NewlineInString { line } => LexErrSpec::NewlineInString { line },
        LexError::TabInString { line } => LexErrSpec::TabInString { line },
        LexError::StringTooLong { line } => LexErrSpec::StringTooLong { line },
        LexError::UnterminatedString { line } => LexErrSpec::UnterminatedString { line },
        LexError::UnknownSymbol { text, line } => LexErrSpec::UnknownSymbol { text: text@, line },
    }
}

/// The token a word reads as: `main` in any case, a type keyword, a
/// GenericTLV keyword, or the first setting of that name; `None` when it
/// names no setting.
pub open spec fn word_token(table: Seq<Symbol>, w: Seq<u8>) -> Option<TokSpec> {
    if same_ignoring_case(w, "main".spec_bytes()) {
        Some(TokSpec::Main)
    } else if asn_keyword(w) is Some {
        Some(TokSpec::AsnType(asn_keyword(w)->0))
    } else if w == "TlvCode".spec_bytes() {
        Some(TokSpec::TlvCode)
    } else if w == "TlvLength".spec_bytes() {
        Some(TokSpec::TlvLength)
    } else if w == "TlvValue".spec_bytes() {
        Some(TokSpec::TlvValue)
    } else if w == "TlvString".spec_bytes() {
        Some(TokSpec::TlvString)
    } else if w == "TlvStringZero".spec_bytes() {
        Some(TokSpec::TlvStringZero)
    } else if w == "TlvType".spec_bytes() {
        Some(TokSpec::TlvType)
    } else {
        match named_row(table, w) {
            None => None,
            Some(i) => {
                let i = i as usize;
                Some(
                    if w == "SnmpWriteControl".spec_bytes() {
                        TokSpec::IdentSnmpW(i)
                    } else if w == "SnmpMibObject".spec_bytes() {
                        TokSpec::IdentSnmpSet(i)
                    } else if w == "DigitMap".spec_bytes() {
                        TokSpec::DigitMap(i)
                    } else if w == "ManufacturerCVC".spec_bytes() || w == "CoSignerCVC".spec_bytes()
                        || w == "ManufacturerCVCChainFile".spec_bytes() || w
                        == "CoSignerCVCChainFile".spec_bytes() {
                        TokSpec::IdentCvc(i)
                    } else if w == "GenericTLV".spec_bytes() {
                        TokSpec::IdentGeneric(i)
                    } else {
                        TokSpec::Identifier(i)
                    },
                )
            },
        }
    }
}

/// A word: `main` in any case, a type keyword, a GenericTLV keyword, or the
/// name of a setting.
pub fn keyword_or_identifier(table: &[Symbol], text: &[u8], line: u32) -> (r: Result<Tok, LexError>)
    ensures
        match word_token(table@, text@) {
            Some(t) => r matches Ok(x) && tok_spec(x) == t,
            None => r matches Err(e) && lex_err_spec(e) == (LexErrSpec::UnknownSymbol {
                text: text@,
                line,
            }),
        },
{
    if eq_ignore_case(text, "main".as_bytes()) {
        return Ok(Tok::Main);
    }
    if let Some(a) = asn_type_of(text) {
        return Ok(Tok::AsnType(a));
    }
    if word_is(text, "TlvCode") {
        return Ok(Tok::TlvCode);
    }
    if word_is(text, "TlvLength") {
        return Ok(Tok::TlvLength);
    }
    if word_is(text, "TlvValue") {
        return Ok(Tok::TlvValue);
    }
    if word_is(text, "TlvString") {
        return Ok(Tok::TlvString);
    }
    if word_is(text, "TlvStringZero") {
        return Ok(Tok::TlvStringZero);
    }
    if word_is(text, "TlvType") {
        return Ok(Tok::TlvType);
    }
    let i = match find_index_by_name(table, text) {
        Some(i) => i,
        None => return Err(LexError::UnknownSymbol { text: copy_bytes(text), line }),
    };
    if word_is(text, "SnmpWriteControl") {
        Ok(Tok::IdentSnmpW(i))
    } else if word_is(text, "SnmpMibObject") {
        Ok(Tok::IdentSnmpSet(i))
    } else if word_is(text, "DigitMap") {
        Ok(Tok::DigitMap(i))
    } else if word_is(text, "ManufacturerCVC") || word_is(text, "CoSignerCVC") || word_is(
        text,
        "ManufacturerCVCChainFile",
    ) || word_is(text, "CoSignerCVCChainFile") {
        Ok(Tok::IdentCvc(i))
    } else if word_is(text, "GenericTLV") {
        Ok(Tok::IdentGeneric(i))
    } else {
        Ok(Tok::Identifier(i))
    }
}

/// The value of an integer token's text; 0 where it does not fit.
pub open spec fn integer_value(text: Seq<u8>) -> i64 {
    match signed_dec_value(text) {
        Some(v) => if i64::MIN <= v <= i64::MAX {
            v as i64
        } else {
            0
        },
        None => 0,
    }
}

/// The token that text matched by `pat` reads as; `None` for a word that
/// names no setting.
pub open spec fn classified(table: Seq<Symbol>, pat: Pat, text: Seq<u8>) -> Option<TokSpec> {
    match pat {
        Pat::SubmgtFilters => Some(TokSpec::SubmgtFilters(text)),
        Pat::Ip => Some(TokSpec::Ip(text)),
        Pat::IpList => Some(TokSpec::IpList(text)),
        Pat::HexString => Some(TokSpec::HexString(text)),
        Pat::Ethermask => Some(TokSpec::Ethermask(text)),
        Pat::IpIp6Port | Pat::Ip6Port => Some(TokSpec::IpIp6Port(text)),
        Pat::Mac => Some(TokSpec::Mac(text)),
        Pat::LabelOid | Pat::LabelOidQuoted | Pat::LabelOidText => Some(TokSpec::LabelOid(text)),
        Pat::TimeTicks => Some(TokSpec::TimeTicks(text)),
        Pat::Ip6 => Some(TokSpec::Ip6(text)),
        Pat::Ip6PrefixList => Some(TokSpec::Ip6PrefixList(text)),
        Pat::Ip6List => Some(TokSpec::Ip6List(text)),
        Pat::Integer => Some(TokSpec::Integer(integer_value(text))),
        Pat::Word => word_token(table, text),
    }
}

/// The longest match at `pos` among the first `k` rules, the earlier rule
/// winning a tie; no rule matching gives length 0.
pub open spec fn best_match(s: Seq<u8>, pos: int, k: nat) -> (Pat, int)
    decreases k,
{
    if k == 0 {
        (Pat::Word, 0)
    } else {
        let prev = best_match(s, pos, (k - 1) as nat);
        let len = pattern_len(rule(k - 1), s, pos);
        if len > prev.1 {
            (rule(k - 1), len)
        } else {
            prev
        }
    }
}

/// The longest match wins, and of equal-length matches the one of the rule
/// listed first: no rule matches more, and every rule listed before the
/// winner matches less.
pub proof fn law_longest_match(s: Seq<u8>, pos: int, k: nat)
    requires
        k <= 17,
    ensures
        forall|j: int| 0 <= j < k ==> pattern_len(#[trigger] rule(j), s, pos) <= best_match(s, pos, k).1,
        best_match(s, pos, k).1 == 0 || exists|j: int|
            0 <= j < k && rule(j) == best_match(s, pos, k).0 && pattern_len(rule(j), s, pos)
                == best_match(s, pos, k).1 && forall|i: int|
                0 <= i < j ==> pattern_len(#[trigger] rule(i), s, pos) < best_match(s, pos, k).1,
    decreases k,
{
    if k > 0 {
        law_longest_match(s, pos, (k - 1) as nat);
        let prev = best_match(s, pos, (k - 1) as nat);
        let len = pattern_len(rule(k - 1), s, pos);
        if len > prev.1 {
            assert(rule(k - 1) == best_match(s, pos, k).0);
        }
    }
}

/// The line count after one more newline.
pub open spec fn bump(line: u32) -> u32 {
    if line < u32::MAX {
        (line + 1) as u32
    } else {
        line
    }
}

/// Where the body of a comment, from `i`, ends, and the line count then.
pub open spec fn comment_body(s: Seq<u8>, i: int, line: u32) -> (int, u32)
    decreases s.len() - i,
{
    if i < 0 || i >= s.len() {
        (i, line)
    } else if s[i] == 10 {
        comment_body(s, i + 1, bump(line))
    } else if s[i] == 42 {
        let j = class_end(s, i, Class::Star);
        if byte_at(s, j) == Some(47u8) {
            (j + 1, line)
        } else {
            proof {
                lemma_class_end(s, i + 1, Class::Star);
            }
            comment_body(s, j, line)
        }
    } else {
        comment_body(s, i + 1, line)
    }
}

/// Where the comment whose `/` stands at `pos` ends, and the line count
/// then.  The run of `*` that opens it cannot also close it.
pub open spec fn comment_end(s: Seq<u8>, pos: int, line: u32) -> (int, u32) {
    comment_body(s, class_end(s, pos + 1, Class::Star), line)
}

pub proof fn lemma_comment_body(s: Seq<u8>, i: int, line: u32)
    requires
        0 <= i <= s.len(),
    ensures
        i <= comment_body(s, i, line).0 <= s.len(),
    decreases s.len() - i,
{
    if i < s.len() {
        if s[i] == 10 {
            lemma_comment_body(s, i + 1, bump(line));
        } else if s[i] == 42 {
            lemma_class_end(s, i + 1, Class::Star);
            let j = class_end(s, i, Class::Star);
            if byte_at(s, j) != Some(47u8) {
                lemma_comment_body(s, j, line);
            }
        } else {
            lemma_comment_body(s, i + 1, line);
        }
    }
}

pub proof fn lemma_comment_end(s: Seq<u8>, pos: int, line: u32)
    requires
        0 <= pos < s.len(),
    ensures
        pos < comment_end(s, pos, line).0 <= s.len(),
{
    lemma_class_end(s, pos + 1, Class::Star);
    lemma_comment_body(s, class_end(s, pos + 1, Class::Star), line);
}

/// Reading a string's body from `i`, with `out` read so far: the octets
/// and where the string ends.  `\"` gives a quote; any other backslash a
/// space.
pub open spec fn string_from(s: Seq<u8>, i: int, out: Seq<u8>, line: u32) -> Result<
    (Seq<u8>, int),
    LexErrSpec,
>
    decreases s.len() - i,
{
    if i < 0 || i >= s.len() {
        Err(LexErrSpec::UnterminatedString { line })
    } else if s[i] == 34 {
        Ok((out, i + 1))
    } else if s[i] == 10 {
        Err(LexErrSpec::NewlineInString { line })
    } else if s[i] == 9 {
        Err(LexErrSpec::TabInString { line })
    } else {
        let (more, next) = if s[i] == 92 {
            if byte_at(s, i + 1) == Some(34u8) {
                (out.push(34), i + 2)
            } else {
                (out.push(32), i + 1)
            }
        } else {
            (out.push(s[i]), i + 1)
        };
        if more.len() > 2048 {
            Err(LexErrSpec::StringTooLong { line })
        } else {
            string_from(s, next, more, line)
        }
    }
}

/// What the scanner meets from a position on.
pub enum Scan {
    /// The end of the input.
    End,
    /// A token, on the line given, and where the scan goes on.
    Token(TokSpec, int, u32),
    /// A problem.
    Fail(LexErrSpec),
}

/// The next token from `pos`, on line `line`: blanks, newlines and
/// comments are passed over.
#[verifier::opaque]
pub open spec fn scan(table: Seq<Symbol>, s: Seq<u8>, pos: int, line: u32) -> Scan
    decreases s.len() - pos,
{
    if pos < 0 || pos >= s.len() {
        Scan::End
    } else {
        let c = s[pos];
        if c == 32 || c == 9 || c == 13 {
            scan(table, s, pos + 1, line)
        } else if c == 10 {
            scan(table, s, pos + 1, bump(line))
        } else if c == 47 && byte_at(s, pos + 1) == Some(42u8) {
            proof {
                lemma_comment_end(s, pos, line);
            }
            let (p, l) = comment_end(s, pos, line);
            scan(table, s, p, l)
        } else if c == 34 {
            match string_from(s, pos + 1, Seq::empty(), line) {
                Ok((text, p)) => Scan::Token(TokSpec::Str(text), p, line),
                Err(e) => Scan::Fail(e),
            }
        } else if c == 123 {
            Scan::Token(TokSpec::LBrace, pos + 1, line)
        } else if c == 125 {
            Scan::Token(TokSpec::RBrace, pos + 1, line)
        } else if c == 59 {
            Scan::Token(TokSpec::Semi, pos + 1, line)
        } else {
            let (pat, len) = best_match(s, pos, 17);
            let text = s.subrange(pos, pos + len);
            if len == 0 {
                Scan::Fail(LexErrSpec::Unrecognized { c, line })
            } else {
                match classified(table, pat, text) {
                    Some(t) => Scan::Token(t, pos + len, line),
                    None => Scan::Fail(LexErrSpec::UnknownSymbol { text, line }),
                }
            }
        }
    }
}

/// The tokens of `s` from `pos` on, or the first problem met.
pub open spec fn lex_from(table: Seq<Symbol>, s: Seq<u8>, pos: int, line: u32) -> Result<
    Seq<(TokSpec, u32)>,
    LexErrSpec,
>
    decreases s.len() - pos,
{
    match scan(table, s, pos, line) {
        Scan::End => Ok(Seq::empty()),
        Scan::Fail(e) => Err(e),
        Scan::Token(t, p, l) => if pos < p <= s.len() {
            match lex_from(table, s, p, l) {
                Ok(rest) => Ok(seq![(t, l)] + rest),
                Err(e) => Err(e),
            }
        } else {
            Ok(seq![(t, l)])
        },
    }
}

/// One step of `lex_from`: what the next scan gives decides it.
pub proof fn lemma_lex_step(table: Seq<Symbol>, s: Seq<u8>, pos: int, line: u32)
    ensures
        match scan(table, s, pos, line) {
            Scan::End => lex_from(table, s, pos, line) == Ok::<Seq<(TokSpec, u32)>, LexErrSpec>(
                Seq::empty(),
            ),
            Scan::Fail(e) => lex_from(table, s, pos, line) == Err::<Seq<(TokSpec, u32)>, LexErrSpec>(
                e,
            ),
            Scan::Token(t, p, l) => pos < p <= s.len() ==> lex_from(table, s, pos, line) == prepend(
                seq![(t, l)],
                lex_from(table, s, p, l),
            ),
        },
{
}

/// `front` put before the tokens of `rest`, when there are tokens.
pub open spec fn prepend(front: Seq<(TokSpec, u32)>, rest: Result<Seq<(TokSpec, u32)>, LexErrSpec>) -> Result<
    Seq<(TokSpec, u32)>,
    LexErrSpec,
> {
    match rest {
        Ok(r) => Ok(front + r),
        Err(e) => Err(e),
    }
}

pub struct Lexer<'a> {
    src: &'a [u8],
    table: &'a [Symbol],
    pos: usize,
    line: u32,
}

impl<'a> Lexer<'a> {
    /// The input.
    pub closed spec fn source(&self) -> Seq<u8> {
        self.src@
    }

    /// The symbol table that words are looked up in.
    pub closed spec fn rows(&self) -> Seq<Symbol> {
        self.table@
    }

    /// Where the scanner stands.
    pub closed spec fn position(&self) -> int {
        self.pos as int
    }

    /// The line the scanner is on.
    pub closed spec fn line_no(&self) -> u32 {
        self.line
    }

    pub fn new(src: &'a [u8], table: &'a [Symbol]) -> (r: Lexer<'a>)
        ensures
            r.source() == src@,
            r.rows() == table@,
            r.position() == 0,
            r.line_no() == 1,
    {
        Lexer { src, table, pos: 0, line: 1 }
    }

    /// Read the whole input, reporting the first problem found.
    pub fn tokenize(self) -> (r: Result<Vec<Token>, LexError>)
        requires
            0 <= self.position() <= self.source().len(),
        ensures
            match lex_from(self.rows(), self.source(), self.position(), self.line_no()) {
                Ok(ts) => r matches Ok(v) && tokens_spec(v@) == ts,
                Err(e) => r matches Err(x) && lex_err_spec(x) == e,
            },
    {
        let ghost rows = self.table@;
        let ghost src = self.src@;
        let ghost start = lex_from(rows, src, self.pos as int, self.line);
        let ghost whole = lex_from(self.rows(), self.source(), self.position(), self.line_no());
        assert(whole == start);
        let mut lx = self;
        let mut out: Vec<Token> = Vec::new();
        assert(tokens_spec(out@) =~= Seq::<(TokSpec, u32)>::empty());
        assert(prepend(Seq::empty(), start) =~= start) by {
            if let Ok(r) = start {
                assert(Seq::<(TokSpec, u32)>::empty() + r =~= r);
            }
        }
        loop
            invariant
                lx.src@ == src,
                lx.table@ == rows,
                lx.pos <= src.len(),
                whole == start,
                whole == lex_from(self.rows(), self.source(), self.position(), self.line_no()),
                start == prepend(tokens_spec(out@), lex_from(rows, src, lx.pos as int, lx.line)),
            decreases src.len() - lx.pos,
        {
            let ghost before = lx.pos as int;
            let ghost line = lx.line;
            let ghost done = tokens_spec(out@);
            proof {
                lemma_lex_step(rows, src, before, line);
            }
            match lx.next_token() {
                Err(e) => {
                    return Err(e);
                },
                Ok(Some(t)) => {
                    out.push(t);
                    proof {
                        let x = token_spec(t);
                        let rest = lex_from(rows, src, lx.pos as int, lx.line);
                        assert(tokens_spec(out@) =~= done.push(x));
                        if let Ok(r) = rest {
                            assert(done + (seq![x] + r) =~= done.push(x) + r);
                        }
                    }
                },
                Ok(None) => {
                    assert(done + Seq::<(TokSpec, u32)>::empty() =~= done);
                    return Ok(out);
                },
            }
        }
    }

    fn bump_line(&mut self)
        ensures
            final(self).src == old(self).src,
            final(self).table == old(self).table,
            final(self).pos == old(self).pos,
            final(self).line == bump(old(self).line),
    {
        if self.line < u32::MAX {
            self.line += 1;
        }
    }

    /// The next token, or `None` at the end of the input.
    fn next_token(&mut self) -> (r: Result<Option<Token>, LexError>)
        requires
            old(self).pos <= old(self).src@.len(),
        ensures
            final(self).src == old(self).src,
            final(self).table == old(self).table,
            old(self).pos <= final(self).pos <= final(self).src@.len(),
            match scan(old(self).table@, old(self).src@, old(self).pos as int, old(self).line) {
                Scan::End => r matches Ok(None),
                Scan::Token(t, p, l) => r matches Ok(Some(tk)) && token_spec(tk) == (t, l)
                    && final(self).pos == p && final(self).line == l,
                Scan::Fail(e) => r matches Err(x) && lex_err_spec(x) == e,
            },
            r matches Ok(Some(_)) ==> final(self).pos > old(self).pos,
    {
        let n = self.src.len();
        loop
            invariant
                self.src == old(self).src,
                self.table == old(self).table,
                n == self.src@.len(),
                old(self).pos <= self.pos <= n,
                scan(old(self).table@, old(self).src@, old(self).pos as int, old(self).line)
                    == scan(self.table@, self.src@, self.pos as int, self.line),
            decreases n - self.pos,
        {
            proof {
                reveal(scan);
            }
            if self.pos >= n {
                return Ok(None);
            }
            let c = self.src[self.pos];
            if c == 32 || c == 9 || c == 13 {
                self.pos += 1;
                continue ;
            }
            if c == 10 {
                self.pos += 1;
                self.bump_line();
                continue ;
            }
            // A comment opens with '/' followed by one or more '*'.
            if c == 47 && at_is(self.src, self.pos + 1, 42) {
                self.skip_comment();
                continue ;
            }
            if c == 34 {
                let line = self.line;
                return match self.scan_string() {
                    Ok(s) => Ok(Some(Token { tok: Tok::Str(s), line })),
                    Err(e) => Err(e),
                };
            }
            if c == 123 {
                self.pos += 1;
                return Ok(Some(Token { tok: Tok::LBrace, line: self.line }));
            }
            if c == 125 {
                self.pos += 1;
                return Ok(Some(Token { tok: Tok::RBrace, line: self.line }));
            }
            if c == 59 {
                self.pos += 1;
                return Ok(Some(Token { tok: Tok::Semi, line: self.line }));
            }
            let (pat, len) = self.longest_match();
            if len == 0 {
                return Err(LexError::Unrecognized { c, line: self.line });
            }
            let text = copy_bytes(crate::asn1::slice_range(self.src, self.pos, self.pos + len));
            let line = self.line;
            self.pos += len;
            return match self.classify(pat, text, line) {
                Ok(tok) => Ok(Some(Token { tok, line })),
                Err(e) => Err(e),
            };
        }
    }

    fn longest_match(&self) -> (r: (Pat, usize))
        requires
            self.pos <= self.src@.len(),
        ensures
            r.0 == best_match(self.src@, self.pos as int, 17).0,
            r.1 == best_match(self.src@, self.pos as int, 17).1,
            self.pos + r.1 <= self.src@.len(),
    {
        let mut best_pat = Pat::Word;
        let mut best_len: usize = 0;
        let mut k: usize = 0;
        while k < 17
            invariant
                k <= 17,
                self.pos + best_len <= self.src@.len(),
                best_pat == best_match(self.src@, self.pos as int, k as nat).0,
                best_len == best_match(self.src@, self.pos as int, k as nat).1,
            decreases 17 - k,
        {
            let p = pattern_at(k);
            let len = match_pattern(p, self.src, self.pos);
            if len > best_len {
                best_pat = p;
                best_len = len;
            }
            k += 1;
        }
        (best_pat, best_len)
    }

    fn classify(&self, pat: Pat, text: Vec<u8>, line: u32) -> (r: Result<Tok, LexError>)
        ensures
            match classified(self.table@, pat, text@) {
                Some(t) => r matches Ok(x) && tok_spec(x) == t,
                None => r matches Err(e) && lex_err_spec(e) == (LexErrSpec::UnknownSymbol {
                    text: text@,
                    line,
                }),
            },
    {
        match pat {
            Pat::SubmgtFilters => Ok(Tok::SubmgtFilters(text)),
            Pat::Ip => Ok(Tok::Ip(text)),
            Pat::IpList => Ok(Tok::IpList(text)),
            Pat::HexString => Ok(Tok::HexString(text)),
            Pat::Ethermask => Ok(Tok::Ethermask(text)),
            Pat::IpIp6Port | Pat::Ip6Port => Ok(Tok::IpIp6Port(text)),
            Pat::Mac => Ok(Tok::Mac(text)),
            Pat::LabelOid | Pat::LabelOidQuoted | Pat::LabelOidText => Ok(Tok::LabelOid(text)),
            Pat::TimeTicks => Ok(Tok::TimeTicks(text)),
            Pat::Ip6 => Ok(Tok::Ip6(text)),
            Pat::Ip6PrefixList => Ok(Tok::Ip6PrefixList(text)),
            Pat::Ip6List => Ok(Tok::Ip6List(text)),
            Pat::Integer => {
                let v = crate::text::parse_signed(text.as_slice(), 0, text.len());
                assert(text@.subrange(0, text@.len() as int) =~= text@);
                Ok(
                    Tok::Integer(
                        match v {
                            Some(v) => v,
                            None => 0,
                        },
                    ),
                )
            },
            Pat::Word => keyword_or_identifier(self.table, text.as_slice(), line),
        }
    }

    fn skip_comment(&mut self)
        requires
            old(self).pos < old(self).src@.len(),
        ensures
            final(self).src == old(self).src,
            final(self).table == old(self).table,
            (final(self).pos as int, final(self).line) == comment_end(
                old(self).src@,
                old(self).pos as int,
                old(self).line,
            ),
            old(self).pos < final(self).pos <= final(self).src@.len(),
    {
        let n = self.src.len();
        let ghost start = comment_end(self.src@, self.pos as int, self.line);
        self.pos = run_from(self.src, self.pos + 1, Class::Star);
        while self.pos < n
            invariant
                self.src == old(self).src,
                self.table == old(self).table,
                n == self.src@.len(),
                old(self).pos < self.pos <= n,
                start == comment_end(old(self).src@, old(self).pos as int, old(self).line),
                start == comment_body(self.src@, self.pos as int, self.line),
            decreases n - self.pos,
        {
            if self.src[self.pos] == 10 {
                self.bump_line();
                self.pos += 1;
                continue ;
            }
            if self.src[self.pos] == 42 {
                let j = run_from(self.src, self.pos, Class::Star);
                if at_is(self.src, j, 47) {
                    self.pos = j + 1;
                    return ;
                }
                proof {
                    lemma_class_end(self.src@, self.pos + 1, Class::Star);
                }
                self.pos = j;
                continue ;
            }
            self.pos += 1;
        }
    }

    /// Read a quoted string. `\"` yields a quote; any other backslash becomes
    /// a space.
    fn scan_string(&mut self) -> (r: Result<Vec<u8>, LexError>)
        requires
            old(self).pos < old(self).src@.len(),
        ensures
            final(self).src == old(self).src,
            final(self).table == old(self).table,
            final(self).line == old(self).line,
            old(self).pos < final(self).pos <= final(self).src@.len(),
            match string_from(old(self).src@, old(self).pos + 1, Seq::empty(), old(self).line) {
                Ok((t, p)) => r matches Ok(v) && v@ == t && final(self).pos == p,
                Err(e) => r matches Err(x) && lex_err_spec(x) == e,
            },
    {
        let n = self.src.len();
        self.pos += 1;  // opening quote
        let mut out: Vec<u8> = Vec::new();
        let ghost start = string_from(self.src@, self.pos as int, Seq::empty(), self.line);
        while self.pos < n
            invariant
                self.src == old(self).src,
                self.table == old(self).table,
                self.line == old(self).line,
                n == self.src@.len(),
                old(self).pos < self.pos <= n,
                out@.len() <= 2048,
                start == string_from(old(self).src@, old(self).pos + 1, Seq::empty(), old(self).line),
                start == string_from(self.src@, self.pos as int, out@, self.line),
            decreases n - self.pos,
        {
            let c = self.src[self.pos];
            if c == 34 {
                self.pos += 1;
                return Ok(out);
            } else if c == 10 {
                return Err(LexError::NewlineInString { line: self.line });
            } else if c == 9 {
                return Err(LexError::TabInString { line: self.line });
            } else if c == 92 {
                if at_is(self.src, self.pos + 1, 34) {
                    out.push(34);
                    self.pos += 2;
                } else {
                    out.push(32);
                    self.pos += 1;
                }
            } else {
                out.push(c);
                self.pos += 1;
            }
            if out.len() > 2048 {
                return Err(LexError::StringTooLong { line: self.line });
            }
        }
        Err(LexError::UnterminatedString { line: self.line })
    }
}

} // verus!
