//! Parsing symbolic OIDs, including table index suffixes, back to numbers.
//!
//! Mirrors net-snmp's `get_node`/`read_objid` pair so that a config file
//! produced by decoding re-encodes to the same bytes.
use vstd::prelude::*;
use super::{BaseType, Index, Mib, NodeId, Syntax, integerish, node_wf, oid_path};
use crate::text::{
    dec_value, hex_value, is_digit, is_digit_byte, lemma_sep_index_bounds, parse_dec, parse_hex,
    sep_index,
};
use vstd::string::StringSliceAdditionalSpecFns;

verus! {

/// A text position as an integer, when there is one.
pub open spec fn pos_of(p: Option<usize>) -> Option<int> {
    match p {
        Some(v) => Some(v as int),
        None => None,
    }
}

/// Where the component of `s` that starts at `pos` ends: at the next `.`,
/// or at the end of the text.
pub open spec fn comp_end(s: Seq<u8>, pos: int) -> int {
    pos + sep_index(s.skip(pos), 46)
}

/// Where the text after the component starting at `pos` begins, when a `.`
/// ends that component.
pub open spec fn comp_rest(s: Seq<u8>, pos: int) -> Option<int> {
    if comp_end(s, pos) < s.len() {
        Some(comp_end(s, pos) + 1)
    } else {
        None
    }
}

/// The value of a sub-identifier: decimal, or hexadecimal after `0x` or
/// `0X`, when it fits in 32 bits.
pub open spec fn subid_value(t: Seq<u8>) -> Option<u32> {
    let v = if t.len() >= 2 && t[0] == 48 && (t[1] == 120 || t[1] == 88) {
        hex_value(t.skip(2))
    } else {
        dec_value(t)
    };
    match v {
        Some(n) => if n <= 0xFFFF_FFFF {
            Some(n as u32)
        } else {
            None
        },
        None => None,
    }
}

/// The value the first entry of `enums` labelled `t` carries.
pub open spec fn enum_value(enums: Seq<(Vec<u8>, i64)>, t: Seq<u8>) -> Option<i64>
    decreases enums.len(),
{
    if enums.len() == 0 {
        None
    } else if enums[0].0@ == t {
        Some(enums[0].1)
    } else {
        enum_value(enums.drop_first(), t)
    }
}

/// Whether some range of `ranges` holds `x`.
pub open spec fn in_range_list(ranges: Seq<(i64, i64)>, x: int) -> bool {
    exists|k: int| 0 <= k < ranges.len() && (#[trigger] ranges[k]).0 <= x <= ranges[k].1
}

/// Octets as sub-identifiers, one each.
pub open spec fn widen(b: Seq<u8>) -> Seq<u32> {
    b.map_values(|x: u8| x as u32)
}

/// Where the closing `quote` stands at or after `i`, a backslash escaping
/// the octet after it.
pub open spec fn unescaped_close(s: Seq<u8>, i: int, quote: u8) -> Option<int>
    decreases s.len() - i,
{
    if i < 0 || i >= s.len() {
        None
    } else if s[i] == 92 {
        if s.len() - i < 2 {
            None
        } else {
            unescaped_close(s, i + 2, quote)
        }
    } else if s[i] == quote {
        Some(i)
    } else {
        unescaped_close(s, i + 1, quote)
    }
}

/// `s[i..hi]` with each backslash dropped and the octet after it kept.
pub open spec fn unescaped(s: Seq<u8>, i: int, hi: int) -> Seq<u8>
    decreases hi - i,
{
    if i >= hi {
        Seq::empty()
    } else if s[i] == 92 {
        if i + 1 < hi {
            seq![s[i + 1]] + unescaped(s, i + 2, hi)
        } else {
            Seq::empty()
        }
    } else {
        seq![s[i]] + unescaped(s, i + 1, hi)
    }
}

/// An integer index: a number, or an enumeration label, which must fall in
/// the object's ranges when it has any.  The sub-identifiers it adds and
/// where the text goes on; nothing when the text does not fit.
pub open spec fn int_index(s: Seq<u8>, text: int, syn: Syntax, acc: Seq<u32>) -> Option<
    (Seq<u32>, Option<int>),
> {
    let e = comp_end(s, text);
    let t = s.subrange(text, e);
    let v: Option<u32> = if e > text && is_digit(s[text]) {
        subid_value(t)
    } else {
        match enum_value(syn.enums@, t) {
            Some(x) => Some(x as u32),
            None => None,
        }
    };
    match v {
        None => None,
        Some(v) => if syn.ranges@.len() > 0 && !in_range_list(syn.ranges@, v as int) {
            None
        } else {
            Some((acc.push(v), comp_rest(s, text)))
        },
    }
}

/// Up to `q` more components, each a number below 256, as an address index
/// takes them.
pub open spec fn ip_index(s: Seq<u8>, t: Option<int>, q: nat, acc: Seq<u32>) -> Option<
    (Seq<u32>, Option<int>),
>
    decreases q,
{
    if q == 0 {
        Some((acc, t))
    } else {
        match t {
            None => Some((acc, None)),
            Some(p) => match subid_value(s.subrange(p, comp_end(s, p))) {
                None => None,
                Some(v) => if v > 255 {
                    None
                } else {
                    ip_index(s, comp_rest(s, p), (q - 1) as nat, acc.push(v))
                },
            },
        }
    }
}

/// Up to `len` more octet components of a string index written as numbers.
pub open spec fn octets(s: Seq<u8>, t: Option<int>, len: int, acc: Seq<u32>) -> Option<
    (Seq<u32>, Option<int>),
>
    decreases len,
{
    if len <= 0 {
        Some((acc, t))
    } else {
        match t {
            None => Some((acc, None)),
            Some(p) => match subid_value(s.subrange(p, comp_end(s, p))) {
                None => None,
                Some(v) => if v > 255 {
                    None
                } else {
                    octets(s, comp_rest(s, p), len - 1, acc.push(v))
                },
            },
        }
    }
}

/// The fixed length a string index has when its only SIZE range is a
/// single value.
pub open spec fn fixed_len(ranges: Seq<(i64, i64)>) -> Option<usize> {
    if ranges.len() == 1 && ranges[0].0 == ranges[0].1 {
        Some(ranges[0].0 as usize)
    } else {
        None
    }
}

/// A string index: quoted (`"..."` when its length varies, `'...'` when it
/// is fixed or IMPLIED), or as numbers, a variable length one led by its
/// length.
pub open spec fn str_index(
    s: Seq<u8>,
    text: int,
    ranges: Seq<(i64, i64)>,
    implied: bool,
    acc: Seq<u32>,
) -> Option<(Seq<u32>, Option<int>)> {
    let fixed = fixed_len(ranges);
    let variable = fixed is None && !implied;
    if 0 <= text < s.len() && (s[text] == 34 || s[text] == 39) {
        let quote = s[text];
        if (variable && quote == 39) || (!variable && quote == 34) {
            None
        } else {
            match unescaped_close(s, text + 1, quote) {
                None => None,
                Some(close) => {
                    let body = unescaped(s, text + 1, close);
                    let n = body.len();
                    let fits = match fixed {
                        Some(f) => n == f,
                        None => !(ranges.len() > 0 && (n > i64::MAX || !in_range_list(
                            ranges,
                            n as int,
                        ))),
                    };
                    let vals = (if variable {
                        seq![n as u32]
                    } else {
                        Seq::empty()
                    }) + widen(body);
                    if !fits {
                        None
                    } else if close + 1 >= s.len() {
                        Some((acc + vals, None))
                    } else if s[close + 1] == 46 {
                        Some((acc + vals, Some(close + 2)))
                    } else {
                        None
                    }
                },
            }
        }
    } else {
        let len0: i64 = match fixed {
            Some(f) => f as i64,
            None => -1i64,
        };
        if len0 == -1 && !implied {
            match subid_value(s.subrange(text, comp_end(s, text))) {
                None => None,
                Some(v) => octets(s, comp_rest(s, text), v as int, acc.push(v)),
            }
        } else {
            octets(s, Some(text), len0 as int, acc)
        }
    }
}

/// What a bare tail adds: numbers, and quoted strings (a `"..."` string led
/// by its length).
pub open spec fn tail_value(s: Seq<u8>, cp: Option<int>, acc: Seq<u32>) -> Option<Seq<u32>>
    decreases (match cp {
        Some(p) => s.len() + 1 - p,
        None => 0,
    }),
{
    match cp {
        None => Some(acc),
        Some(text) => if text < 0 || text >= s.len() {
            None
        } else {
            let c = s[text];
            proof {
                lemma_sep_index_bounds(s.skip(text), 46);
                lemma_sep_index_bounds(s.skip(text + 1), c);
            }
            if is_digit(c) {
                match subid_value(s.subrange(text, comp_end(s, text))) {
                    None => None,
                    Some(v) => tail_value(s, comp_rest(s, text), acc.push(v)),
                }
            } else if c == 34 || c == 39 {
                let close = text + 1 + sep_index(s.skip(text + 1), c);
                if close >= s.len() {
                    None
                } else {
                    let body = s.subrange(text + 1, close);
                    let vals = (if c == 34 {
                        seq![body.len() as u32]
                    } else {
                        Seq::empty()
                    }) + widen(body);
                    if close + 1 >= s.len() {
                        Some(acc + vals)
                    } else if s[close + 1] == 46 {
                        tail_value(s, Some(close + 2), acc + vals)
                    } else {
                        None
                    }
                }
            } else {
                None
            }
        },
    }
}

/// The position of the last `c` in `s`, or -1 when there is none.
pub open spec fn last_index(s: Seq<u8>, c: u8) -> int
    decreases s.len(),
{
    if s.len() == 0 {
        -1
    } else if s.last() == c {
        s.len() - 1
    } else {
        last_index(s.drop_last(), c)
    }
}

/// Where the object name of a textual OID starts: after the last `:` of a
/// module qualification, and past one leading `.`.
pub open spec fn name_start(s: Seq<u8>) -> int {
    let a = last_index(s, 58) + 1;
    if a < s.len() && s[a] == 46 {
        a + 1
    } else {
        a
    }
}

pub proof fn lemma_last_index(s: Seq<u8>, c: u8, k: int)
    requires
        -1 <= k < s.len(),
        k >= 0 ==> s[k] == c,
        forall|j: int| k < j < s.len() ==> s[j] != c,
    ensures
        last_index(s, c) == k,
    decreases s.len(),
{
    if s.len() > 0 && s.len() - 1 != k {
        lemma_last_index(s.drop_last(), c, k);
    }
}

/// The position of the last `c` in `s`.
fn rfind_byte(s: &[u8], c: u8) -> (r: Option<usize>)
    ensures
        r matches Some(k) ==> k < s.len() && s@[k as int] == c && last_index(s@, c) == k,
        r is None ==> last_index(s@, c) == -1,
{
    let mut i = s.len();
    while i > 0
        invariant
            i <= s@.len(),
            forall|j: int| i <= j < s@.len() ==> s@[j] != c,
        decreases i,
    {
        i -= 1;
        if s[i] == c {
            proof {
                lemma_last_index(s@, c, i as int);
            }
            return Some(i);
        }
    }
    proof {
        lemma_last_index(s@, c, -1);
    }
    None
}

impl Mib {
    /// The walk down the tree from `cur` along the components of `s` from
    /// `cp`: each names or numbers a child.  A number that no child bears is
    /// still taken, and ends the walk; so does reaching a leaf.  Gives the
    /// sub-identifiers so far, where the text goes on, and the node reached;
    /// nothing when a component names no child or is no number.
    pub open spec fn descend(
        &self,
        s: Seq<u8>,
        cp: Option<int>,
        cur: Option<NodeId>,
        acc: Seq<u32>,
    ) -> Option<(Seq<u32>, Option<int>, Option<NodeId>)>
        decreases (match cp {
            Some(p) => s.len() + 1 - p,
            None => 0,
        }),
    {
        match cp {
            None => Some((acc, cp, cur)),
            Some(pos) => if pos < 0 || pos > s.len() || self.kids(cur).len() == 0 {
                Some((acc, cp, cur))
            } else {
                proof {
                    lemma_sep_index_bounds(s.skip(pos), 46);
                }
                let e = comp_end(s, pos);
                let t = s.subrange(pos, e);
                if e > pos && is_digit(s[pos]) {
                    match subid_value(t) {
                        None => None,
                        Some(v) => match self.first_with_subid(self.kids(cur), v) {
                            Some(id) => self.descend(s, comp_rest(s, pos), Some(id), acc.push(v)),
                            None => Some((acc.push(v), comp_rest(s, pos), cur)),
                        },
                    }
                } else {
                    match self.first_with_label(self.kids(cur), t) {
                        None => None,
                        Some(id) => self.descend(
                            s,
                            comp_rest(s, pos),
                            Some(id),
                            acc.push(self.nodes@[id as int].subid),
                        ),
                    }
                }
            },
        }
    }

    /// The index objects whose values follow a walk that ended at `cur`:
    /// those of the row holding `cur` when `cur` is a leaf.
    pub open spec fn leaf_indexes(&self, cur: Option<NodeId>) -> Seq<Index> {
        match cur {
            Some(id) => if self.kids(cur).len() == 0 {
                match self.nodes@[id as int].parent {
                    Some(p) => match self.row_indexes(p) {
                        Some(v) => v,
                        None => Seq::empty(),
                    },
                    None => Seq::empty(),
                }
            } else {
                Seq::empty()
            },
            None => Seq::empty(),
        }
    }

    /// The values of the index objects `ix`, each read as its type is
    /// written; the walk stops at an index object it cannot find or whose
    /// type it does not break down.
    pub open spec fn index_walk(&self, s: Seq<u8>, cp: Option<int>, ix: Seq<Index>, acc: Seq<u32>) -> Option<
        (Seq<u32>, Option<int>),
    >
        decreases ix.len(),
    {
        match cp {
            None => Some((acc, cp)),
            Some(text) => if ix.len() == 0 {
                Some((acc, cp))
            } else {
                match self.label_node(ix[0].label@) {
                    None => Some((acc, cp)),
                    Some(tpi) => {
                        let syn = self.nodes@[tpi as int].syntax;
                        let step = if integerish(syn.base) || syn.base == BaseType::TimeTicks {
                            Some(int_index(s, text, syn, acc))
                        } else if syn.base == BaseType::IpAddr {
                            Some(ip_index(s, Some(text), 4, acc))
                        } else if syn.base == BaseType::OctetStr {
                            Some(str_index(s, text, syn.ranges@, ix[0].implied, acc))
                        } else {
                            None
                        };
                        match step {
                            None => Some((acc, cp)),
                            Some(None) => None,
                            Some(Some((a, c))) => self.index_walk(s, c, ix.drop_first(), a),
                        }
                    },
                }
            },
        }
    }

    /// What the text of `s` from `cp` appends to `acc` below `start` (above
    /// the roots when `None`): named or numbered children, then the values
    /// of the row's index objects, then bare numbers and quoted strings.
    pub open spec fn text_oid(&self, start: Option<NodeId>, s: Seq<u8>, cp: Option<int>, acc: Seq<u32>) -> Option<
        Seq<u32>,
    > {
        match self.descend(s, cp, start, acc) {
            None => None,
            Some(d) => match self.index_walk(s, d.1, self.leaf_indexes(d.2), d.0) {
                None => None,
                Some(w) => tail_value(s, w.1, w.0),
            },
        }
    }

    /// What `get_node` gives for `s`: the path of the node the label table
    /// gives for the object name, extended by what follows the name.
    pub open spec fn node_value(&self, s: Seq<u8>) -> Option<Seq<u32>> {
        let a = name_start(s);
        match self.label_node(s.subrange(a, comp_end(s, a))) {
            None => None,
            Some(tp) => self.text_oid(Some(tp), s, comp_rest(s, a), oid_path(self.nodes@, tp as int)),
        }
    }

    /// What `read_objid` gives for `s`: a path from the roots, or the
    /// `get_node` reading when `s` is module-qualified.
    pub open spec fn rooted_value(&self, s: Seq<u8>) -> Option<Seq<u32>> {
        if last_index(s, 58) >= 0 {
            self.node_value(s)
        } else {
            let start: int = if s.len() > 0 && s[0] == 46 {
                1
            } else {
                0
            };
            self.text_oid(None, s, Some(start), Seq::empty())
        }
    }

    /// What `resolve_oid` gives for `s`: the name first, then the path.
    pub open spec fn resolved(&self, s: Seq<u8>) -> Option<Seq<u32>> {
        match self.node_value(s) {
            Some(o) => Some(o),
            None => self.rooted_value(s),
        }
    }

    /// What `resolve_oid_numeric_first` gives for `s`: the path first, then
    /// the name.
    pub open spec fn resolved_numeric_first(&self, s: Seq<u8>) -> Option<Seq<u32>> {
        match self.rooted_value(s) {
            Some(o) => Some(o),
            None => self.node_value(s),
        }
    }

    /// Resolve an OID written as a name, a numeric path, or a name followed by
    /// index values.  Tries name-first resolution before a rooted numeric path,
    /// which is the order the encoder uses.
    pub fn resolve_oid(&self, input: &str) -> (r: Option<Vec<u32>>)
        requires
            self.wf(),
        ensures
            opt_seq(r) == self.resolved(input.spec_bytes()),
    {
        match self.get_node(input) {
            Some(o) => Some(o),
            None => self.read_objid(input),
        }
    }

    /// Resolve a numeric path first, falling back to a name. Used where an OID
    /// is expected to be fully qualified.
    pub fn resolve_oid_numeric_first(&self, input: &str) -> (r: Option<Vec<u32>>)
        requires
            self.wf(),
        ensures
            opt_seq(r) == self.resolved_numeric_first(input.spec_bytes()),
    {
        match self.read_objid(input) {
            Some(o) => Some(o),
            None => self.get_node(input),
        }
    }

    /// Look up `name[.rest]`, where `name` is an object name anywhere in the
    /// tree.
    pub fn get_node(&self, input: &str) -> (r: Option<Vec<u32>>)
        requires
            self.wf(),
        ensures
            opt_seq(r) == self.node_value(input.spec_bytes()),
    {
        self.get_node_bytes(input.as_bytes())
    }

    /// `get_node` on octets.
    pub fn get_node_bytes(&self, input: &[u8]) -> (r: Option<Vec<u32>>)
        requires
            self.wf(),
        ensures
            opt_seq(r) == self.node_value(input@),
    {
        // Accept "MODULE::object" and "MODULE:object" qualification.
        let mut start: usize = match rfind_byte(input, 58) {
            Some(p) => p + 1,
            None => 0,
        };
        if start < input.len() && input[start] == 46 {
            start += 1;
        }
        assert(start == name_start(input@));
        let (end, rest) = split_component(input, start);
        let first = crate::asn1::slice_range(input, start, end);
        let tp = match self.find_by_label(first) {
            Some(t) => t,
            None => return None,
        };
        let mut oid = self.oid_of(tp);
        if rest.is_some() {
            if !self.add_strings_to_oid(Some(tp), input, rest, &mut oid) {
                return None;
            }
        }
        Some(oid)
    }

    /// Look up a path starting from the OID roots, e.g. `.1.3.6.1.2.1.1.4.0`.
    pub fn read_objid(&self, input: &str) -> (r: Option<Vec<u32>>)
        requires
            self.wf(),
        ensures
            opt_seq(r) == self.rooted_value(input.spec_bytes()),
    {
        self.read_objid_bytes(input.as_bytes())
    }

    /// `read_objid` on octets.
    pub fn read_objid_bytes(&self, input: &[u8]) -> (r: Option<Vec<u32>>)
        requires
            self.wf(),
        ensures
            opt_seq(r) == self.rooted_value(input@),
    {
        if rfind_byte(input, 58).is_some() {
            return self.get_node_bytes(input);
        }
        let start: usize = if input.len() > 0 && input[0] == 46 {
            1
        } else {
            0
        };
        let mut oid: Vec<u32> = Vec::new();
        if self.add_strings_to_oid(None, input, Some(start), &mut oid) {
            Some(oid)
        } else {
            None
        }
    }

    fn children_of(&self, cur: Option<NodeId>) -> (r: &Vec<NodeId>)
        requires
            self.wf(),
            cur matches Some(id) ==> id < self.size(),
        ensures
            r@ == self.kids(cur),
            forall|k: int| 0 <= k < r@.len() ==> #[trigger] r@[k] < self.size(),
    {
        match cur {
            None => &self.roots,
            Some(id) => {
                proof {
                    assert(node_wf(self.nodes@, id as int));
                }
                &self.nodes[id].children
            },
        }
    }

    /// The first of `children` whose sub-identifier is `v`.
    fn child_by_subid(&self, children: &Vec<NodeId>, v: u32) -> (r: Option<NodeId>)
        requires
            forall|k: int| 0 <= k < children@.len() ==> #[trigger] children@[k] < self.size(),
        ensures
            r == self.first_with_subid(children@, v),
            r matches Some(c) ==> c < self.size(),
    {
        let mut k: usize = 0;
        assert(children@.skip(0) =~= children@);
        while k < children.len()
            invariant
                k <= children@.len(),
                forall|m: int| 0 <= m < children@.len() ==> #[trigger] children@[m] < self.size(),
                self.first_with_subid(children@, v) == self.first_with_subid(
                    children@.skip(k as int),
                    v,
                ),
            decreases children@.len() - k,
        {
            proof {
                assert(children@.skip(k as int)[0] == children@[k as int]);
                assert(children@.skip(k as int).drop_first() =~= children@.skip(k + 1));
            }
            if self.nodes[children[k]].subid == v {
                return Some(children[k]);
            }
            k += 1;
        }
        assert(children@.skip(k as int).len() == 0);
        None
    }

    /// The first of `children` whose label is `s[lo..hi]`.
    fn child_by_label(&self, children: &Vec<NodeId>, s: &[u8], lo: usize, hi: usize) -> (r:
        Option<NodeId>)
        requires
            lo <= hi <= s@.len(),
            forall|k: int| 0 <= k < children@.len() ==> #[trigger] children@[k] < self.size(),
        ensures
            r == self.first_with_label(children@, s@.subrange(lo as int, hi as int)),
            r matches Some(c) ==> c < self.size(),
    {
        let comp = crate::asn1::slice_range(s, lo, hi);
        let mut k: usize = 0;
        assert(children@.skip(0) =~= children@);
        while k < children.len()
            invariant
                k <= children@.len(),
                comp@ == s@.subrange(lo as int, hi as int),
                forall|m: int| 0 <= m < children@.len() ==> #[trigger] children@[m] < self.size(),
                self.first_with_label(children@, comp@) == self.first_with_label(
                    children@.skip(k as int),
                    comp@,
                ),
            decreases children@.len() - k,
        {
            proof {
                assert(children@.skip(k as int)[0] == children@[k as int]);
                assert(children@.skip(k as int).drop_first() =~= children@.skip(k + 1));
            }
            if crate::text::bytes_eq(self.nodes[children[k]].label.as_slice(), comp) {
                return Some(children[k]);
            }
            k += 1;
        }
        assert(children@.skip(k as int).len() == 0);
        None
    }

    /// Append to `oid` what the text `s[cp..]` adds below `start`: named or
    /// numbered children, then the values of the row's index objects, then
    /// bare numbers and quoted strings.  False when the text does not fit.
    fn add_strings_to_oid(
        &self,
        start: Option<NodeId>,
        s: &[u8],
        cp0: Option<usize>,
        oid: &mut Vec<u32>,
    ) -> (r: bool)
        requires
            self.wf(),
            start matches Some(id) ==> id < self.size(),
            cp0 matches Some(p) ==> p <= s@.len(),
        ensures
            match self.text_oid(start, s@, pos_of(cp0), old(oid)@) {
                Some(v) => r && final(oid)@ == v,
                None => !r,
            },
    {
        let ghost whole = self.descend(s@, pos_of(cp0), start, old(oid)@);
        let ghost total = self.text_oid(start, s@, pos_of(cp0), old(oid)@);
        let mut cp = cp0;
        let mut cur = start;

        // Descend the tree for as long as components name known children.
        loop
            invariant_except_break
                whole == self.descend(s@, pos_of(cp), cur, oid@),
            invariant
                self.wf(),
                cp matches Some(p) ==> p <= s@.len(),
                cur matches Some(id) ==> id < self.size(),
                whole == self.descend(s@, pos_of(cp0), start, old(oid)@),
                total == self.text_oid(start, s@, pos_of(cp0), old(oid)@),
            ensures
                whole == Some((oid@, pos_of(cp), cur)),
            decreases (match cp {
                Some(p) => s@.len() + 1 - p,
                None => 0,
            }),
        {
            let pos = match cp {
                Some(p) => p,
                None => break ,
            };
            let children = self.children_of(cur);
            if children.len() == 0 {
                break ;
            }
            let (end, rest) = split_component(s, pos);
            if end > pos && is_digit_byte(s[pos]) {
                let subid = match parse_subid(s, pos, end) {
                    Some(v) => v,
                    None => return false,
                };
                let found = self.child_by_subid(children, subid);
                oid.push(subid);
                cp = rest;
                match found {
                    Some(id) => cur = Some(id),
                    None => break ,
                }
            } else {
                let id = match self.child_by_label(children, s, pos, end) {
                    Some(id) => id,
                    None => return false,
                };
                oid.push(self.nodes[id].subid);
                cp = rest;
                cur = Some(id);
            }
        }

        // Landing on a leaf means what follows are table index values.
        let empty: Vec<Index> = Vec::new();
        let mut in_dices: &Vec<Index> = &empty;
        if let Some(id) = cur {
            if self.nodes[id].children.len() == 0 {
                if let Some(parent) = self.nodes[id].parent {
                    proof {
                        assert(node_wf(self.nodes@, id as int));
                    }
                    if let Some(idx) = self.indexes_of(parent) {
                        in_dices = idx;
                    }
                }
            }
        }
        assert(in_dices@ =~= self.leaf_indexes(cur));
        let ghost walked = self.index_walk(s@, pos_of(cp), in_dices@, oid@);
        assert(total == (match walked {
            None => None,
            Some(w) => tail_value(s@, w.1, w.0),
        }));
        let mut ii: usize = 0;
        assert(in_dices@.skip(0) =~= in_dices@);
        while ii < in_dices.len()
            invariant_except_break
                walked == self.index_walk(s@, pos_of(cp), in_dices@.skip(ii as int), oid@),
            invariant
                self.wf(),
                ii <= in_dices@.len(),
                cp matches Some(p) ==> p <= s@.len(),
                total == self.text_oid(start, s@, pos_of(cp0), old(oid)@),
                total == (match walked {
                    None => None,
                    Some(w) => tail_value(s@, w.1, w.0),
                }),
            ensures
                walked == Some((oid@, pos_of(cp))),
            decreases in_dices@.len() - ii,
        {
            let text = match cp {
                Some(p) => p,
                None => break ,
            };
            let index = &in_dices[ii];
            proof {
                assert(in_dices@.skip(ii as int)[0] == in_dices@[ii as int]);
                assert(in_dices@.skip(ii as int).drop_first() =~= in_dices@.skip(ii + 1));
            }
            let tpi = match self.find_by_label(index.label.as_slice()) {
                Some(t) => t,
                None => break ,
            };
            let syntax = &self.nodes[tpi].syntax;
            let step = if syntax.base.is_integerish() || syntax.base == BaseType::TimeTicks {
                push_int_index(s, text, syntax, oid)
            } else if syntax.base == BaseType::IpAddr {
                push_ip_index(s, text, oid)
            } else if syntax.base == BaseType::OctetStr {
                push_str_index(s, text, &syntax.ranges, index.implied, oid)
            } else {
                // Object identifier and unknown index types stop the breakdown.
                break ;
            };
            match step {
                Some(c) => cp = c,
                None => return false,
            }
            ii += 1;
        }

        // Whatever remains is a bare numeric or quoted-string tail.
        let ghost tail = tail_value(s@, pos_of(cp), oid@);
        loop
            invariant
                cp matches Some(p) ==> p <= s@.len(),
                tail == tail_value(s@, pos_of(cp), oid@),
                total == tail,
                total == self.text_oid(start, s@, pos_of(cp0), old(oid)@),
            ensures
                cp is None,
                tail == tail_value(s@, pos_of(cp), oid@),
            decreases (match cp {
                Some(p) => s@.len() + 1 - p,
                None => 0,
            }),
        {
            let text = match cp {
                Some(p) => p,
                None => break ,
            };
            if text >= s.len() {
                return false;
            }
            let first = s[text];
            if is_digit_byte(first) {
                let (end, rest) = split_component(s, text);
                let v = match parse_subid(s, text, end) {
                    Some(v) => v,
                    None => return false,
                };
                oid.push(v);
                cp = rest;
            } else if first == 34 || first == 39 {
                let ghost acc0 = oid@;
                let close = crate::text::find_byte(s, text + 1, first);
                if close >= s.len() {
                    return false;
                }
                if first == 34 {
                    oid.push((close - (text + 1)) as u32);
                }
                push_widened(s, text + 1, close, oid);
                proof {
                    let body = s@.subrange(text + 1, close as int);
                    let vals = (if first == 34 {
                        seq![body.len() as u32]
                    } else {
                        Seq::empty()
                    }) + widen(body);
                    assert(oid@ =~= acc0 + vals);
                }
                let after = close + 1;
                if after >= s.len() {
                    cp = None;
                } else if s[after] == 46 {
                    cp = Some(after + 1);
                } else {
                    return false;
                }
            } else {
                return false;
            }
        }
        true
    }
}

/// The octets of an optional OID.
pub open spec fn opt_seq(r: Option<Vec<u32>>) -> Option<Seq<u32>> {
    match r {
        Some(v) => Some(v@),
        None => None,
    }
}

/// The text from `pos` to the next `.`: its end, and where the rest starts
/// when there is a rest.
fn split_component(s: &[u8], pos: usize) -> (r: (usize, Option<usize>))
    requires
        pos <= s@.len(),
    ensures
        pos <= r.0 <= s@.len(),
        r.0 == comp_end(s@, pos as int),
        pos_of(r.1) == comp_rest(s@, pos as int),
        r.1 matches Some(p) ==> p <= s@.len(),
{
    let j = crate::text::find_byte(s, pos, 46);
    if j < s.len() {
        (j, Some(j + 1))
    } else {
        (j, None)
    }
}

/// A sub-identifier: decimal, or hexadecimal after `0x`.
fn parse_subid(s: &[u8], lo: usize, hi: usize) -> (r: Option<u32>)
    requires
        lo <= hi <= s@.len(),
    ensures
        r == subid_value(s@.subrange(lo as int, hi as int)),
{
    let ghost t = s@.subrange(lo as int, hi as int);
    if hi - lo >= 2 && s[lo] == 48 && (s[lo + 1] == 120 || s[lo + 1] == 88) {
        assert(t.skip(2) =~= s@.subrange(lo + 2, hi as int));
        match parse_hex(s, lo + 2, hi) {
            Some(v) => if v <= 0xFFFF_FFFF {
                Some(v as u32)
            } else {
                None
            },
            None => None,
        }
    } else {
        match parse_dec(s, lo, hi) {
            Some(v) => if v <= 0xFFFF_FFFF {
                Some(v as u32)
            } else {
                None
            },
            None => None,
        }
    }
}

/// The position of the closing `quote` at or after `from`, honouring
/// backslash escapes.
fn find_unescaped(s: &[u8], from: usize, quote: u8) -> (r: Option<usize>)
    requires
        from <= s@.len(),
    ensures
        pos_of(r) == unescaped_close(s@, from as int, quote),
        r matches Some(k) ==> from <= k < s@.len(),
{
    let mut i = from;
    while i < s.len()
        invariant
            from <= i <= s@.len(),
            unescaped_close(s@, from as int, quote) == unescaped_close(s@, i as int, quote),
        decreases s@.len() - i,
    {
        if s[i] == 92 {
            if s.len() - i < 2 {
                return None;
            }
            i += 2;
            continue;
        }
        if s[i] == quote {
            return Some(i);
        }
        i += 1;
    }
    None
}

/// `s[lo..hi]` with each backslash dropped and the octet after it kept.
fn unescape(s: &[u8], lo: usize, hi: usize) -> (r: Vec<u8>)
    requires
        lo <= hi <= s@.len(),
    ensures
        r@ == unescaped(s@, lo as int, hi as int),
{
    let mut out: Vec<u8> = Vec::new();
    let mut i = lo;
    assert(out@ + unescaped(s@, lo as int, hi as int) =~= unescaped(s@, lo as int, hi as int));
    while i < hi
        invariant
            lo <= i <= hi,
            hi <= s@.len(),
            out@ + unescaped(s@, i as int, hi as int) == unescaped(s@, lo as int, hi as int),
        decreases hi - i,
    {
        let ghost o = out@;
        if s[i] == 92 {
            if i + 1 < hi {
                out.push(s[i + 1]);
                proof {
                    assert(o + unescaped(s@, i as int, hi as int) =~= out@ + unescaped(
                        s@,
                        i + 2,
                        hi as int,
                    ));
                }
                i += 2;
            } else {
                i = hi;
            }
        } else {
            out.push(s[i]);
            proof {
                assert(o + unescaped(s@, i as int, hi as int) =~= out@ + unescaped(
                    s@,
                    i + 1,
                    hi as int,
                ));
            }
            i += 1;
        }
    }
    assert(out@ + unescaped(s@, i as int, hi as int) =~= out@);
    out
}

/// Whether some range in `ranges` holds `x`.
fn in_ranges(ranges: &Vec<(i64, i64)>, x: i64) -> (r: bool)
    ensures
        r == in_range_list(ranges@, x as int),
{
    let mut k: usize = 0;
    while k < ranges.len()
        invariant
            k <= ranges@.len(),
            forall|m: int| 0 <= m < k ==> !((#[trigger] ranges@[m]).0 <= x <= ranges@[m].1),
        decreases ranges@.len() - k,
    {
        let (lo, hi) = ranges[k];
        if lo <= x && x <= hi {
            return true;
        }
        k += 1;
    }
    false
}

/// The value of the enumeration label `s[lo..hi]`.
fn find_enum(enums: &Vec<(Vec<u8>, i64)>, s: &[u8], lo: usize, hi: usize) -> (r: Option<i64>)
    requires
        lo <= hi <= s@.len(),
    ensures
        r == enum_value(enums@, s@.subrange(lo as int, hi as int)),
{
    let comp = crate::asn1::slice_range(s, lo, hi);
    let mut k: usize = 0;
    assert(enums@.skip(0) =~= enums@);
    while k < enums.len()
        invariant
            k <= enums@.len(),
            comp@ == s@.subrange(lo as int, hi as int),
            enum_value(enums@, comp@) == enum_value(enums@.skip(k as int), comp@),
        decreases enums@.len() - k,
    {
        proof {
            assert(enums@.skip(k as int)[0] == enums@[k as int]);
            assert(enums@.skip(k as int).drop_first() =~= enums@.skip(k + 1));
        }
        if crate::text::bytes_eq(enums[k].0.as_slice(), comp) {
            return Some(enums[k].1);
        }
        k += 1;
    }
    assert(enums@.skip(k as int).len() == 0);
    None
}

/// Append the octets of `s[lo..hi]` to `oid`, one sub-identifier each.
fn push_widened(s: &[u8], lo: usize, hi: usize, oid: &mut Vec<u32>)
    requires
        lo <= hi <= s@.len(),
    ensures
        final(oid)@ == old(oid)@ + widen(s@.subrange(lo as int, hi as int)),
{
    let mut b = lo;
    while b < hi
        invariant
            lo <= b <= hi <= s@.len(),
            oid@ == old(oid)@ + widen(s@.subrange(lo as int, b as int)),
        decreases hi - b,
    {
        oid.push(s[b] as u32);
        b += 1;
        proof {
            assert(widen(s@.subrange(lo as int, b as int)) =~= widen(
                s@.subrange(lo as int, b - 1),
            ).push(s@[b - 1] as u32));
            assert(oid@ =~= old(oid)@ + widen(s@.subrange(lo as int, b as int)));
        }
    }
}

/// Read an integer index value at `text` into `oid`; where the text goes
/// on, or nothing when it does not fit.
fn push_int_index(s: &[u8], text: usize, syntax: &Syntax, oid: &mut Vec<u32>) -> (r: Option<
    Option<usize>,
>)
    requires
        text <= s@.len(),
    ensures
        match int_index(s@, text as int, *syntax, old(oid)@) {
            None => r is None,
            Some((a, c)) => r matches Some(rc) && pos_of(rc) == c && final(oid)@ == a,
        },
        r matches Some(Some(p)) ==> p <= s@.len(),
{
    let (end, rest) = split_component(s, text);
    let subid: u32 = if end > text && is_digit_byte(s[text]) {
        match parse_subid(s, text, end) {
            Some(v) => v,
            None => return None,
        }
    } else {
        match find_enum(&syntax.enums, s, text, end) {
            Some(v) => v as u32,
            None => return None,
        }
    };
    if syntax.ranges.len() > 0 && !in_ranges(&syntax.ranges, subid as i64) {
        return None;
    }
    oid.push(subid);
    Some(rest)
}

/// Read an address index, up to four numbers below 256, into `oid`.
fn push_ip_index(s: &[u8], text: usize, oid: &mut Vec<u32>) -> (r: Option<Option<usize>>)
    requires
        text <= s@.len(),
    ensures
        match ip_index(s@, Some(text as int), 4, old(oid)@) {
            None => r is None,
            Some((a, c)) => r matches Some(rc) && pos_of(rc) == c && final(oid)@ == a,
        },
        r matches Some(Some(p)) ==> p <= s@.len(),
{
    let ghost whole = ip_index(s@, Some(text as int), 4, old(oid)@);
    let mut t = Some(text);
    let mut q: usize = 0;
    while q < 4 && t.is_some()
        invariant
            q <= 4,
            t matches Some(p) ==> p <= s@.len(),
            whole == ip_index(s@, Some(text as int), 4, old(oid)@),
            whole == ip_index(s@, pos_of(t), (4 - q) as nat, oid@),
        decreases 4 - q,
    {
        let tt = t.unwrap();
        let (end, rest) = split_component(s, tt);
        let v = match parse_subid(s, tt, end) {
            Some(v) => v,
            None => return None,
        };
        if v > 255 {
            return None;
        }
        oid.push(v);
        t = rest;
        q += 1;
    }
    Some(t)
}

/// Read the octets of a string index written as numbers, at most `len` of
/// them, into `oid`.
fn push_octets(s: &[u8], t0: Option<usize>, len0: i64, oid: &mut Vec<u32>) -> (r: Option<
    Option<usize>,
>)
    requires
        t0 matches Some(p) ==> p <= s@.len(),
    ensures
        match octets(s@, pos_of(t0), len0 as int, old(oid)@) {
            None => r is None,
            Some((a, c)) => r matches Some(rc) && pos_of(rc) == c && final(oid)@ == a,
        },
        r matches Some(Some(p)) ==> p <= s@.len(),
{
    let ghost whole = octets(s@, pos_of(t0), len0 as int, old(oid)@);
    let mut t = t0;
    let mut len = len0;
    while len > 0 && t.is_some()
        invariant
            t matches Some(p) ==> p <= s@.len(),
            whole == octets(s@, pos_of(t0), len0 as int, old(oid)@),
            whole == octets(s@, pos_of(t), len as int, oid@),
        decreases len,
    {
        let tt = t.unwrap();
        let (end, rest) = split_component(s, tt);
        let v = match parse_subid(s, tt, end) {
            Some(v) => v,
            None => return None,
        };
        if v > 255 {
            return None;
        }
        oid.push(v);
        len -= 1;
        t = rest;
    }
    Some(t)
}

/// Read a string index at `text` into `oid`.
fn push_str_index(
    s: &[u8],
    text: usize,
    ranges: &Vec<(i64, i64)>,
    implied: bool,
    oid: &mut Vec<u32>,
) -> (r: Option<Option<usize>>)
    requires
        text <= s@.len(),
    ensures
        match str_index(s@, text as int, ranges@, implied, old(oid)@) {
            None => r is None,
            Some((a, c)) => r matches Some(rc) && pos_of(rc) == c && final(oid)@ == a,
        },
        r matches Some(Some(p)) ==> p <= s@.len(),
{
    let fixed: Option<usize> = if ranges.len() == 1 && ranges[0].0 == ranges[0].1 {
        Some(ranges[0].0 as usize)
    } else {
        None
    };
    assert(fixed == fixed_len(ranges@));
    let variable = fixed.is_none() && !implied;
    if text < s.len() && (s[text] == 34 || s[text] == 39) {
        let quote = s[text];
        if (variable && quote == 39) || (!variable && quote == 34) {
            return None;
        }
        let close = match find_unescaped(s, text + 1, quote) {
            Some(c) => c,
            None => return None,
        };
        let body = unescape(s, text + 1, close);
        let n = body.len();
        let fits = match fixed {
            Some(f) => n == f,
            None => !(ranges.len() > 0 && ((n as u64) > 0x7FFF_FFFF_FFFF_FFFFu64 || !in_ranges(
                ranges,
                n as i64,
            ))),
        };
        if !fits {
            return None;
        }
        let ghost acc0 = oid@;
        if variable {
            oid.push(n as u32);
        }
        push_widened(body.as_slice(), 0, n, oid);
        proof {
            assert(body@.subrange(0, n as int) =~= body@);
            let vals = (if variable {
                seq![n as u32]
            } else {
                Seq::empty()
            }) + widen(body@);
            assert(oid@ =~= acc0 + vals);
        }
        let after = close + 1;
        if after >= s.len() {
            Some(None)
        } else if s[after] == 46 {
            Some(Some(after + 1))
        } else {
            None
        }
    } else {
        let len0: i64 = match fixed {
            Some(f) => f as i64,
            None => -1,
        };
        if len0 == -1 && !implied {
            let (end, rest) = split_component(s, text);
            let v = match parse_subid(s, text, end) {
                Some(v) => v,
                None => return None,
            };
            oid.push(v);
            push_octets(s, rest, v as i64, oid)
        } else {
            push_octets(s, Some(text), len0, oid)
        }
    }
}

} // verus!
