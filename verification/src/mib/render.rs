//! Conversion between numeric OIDs and their symbolic text form.
//!
//! Reproduces net-snmp's rendering, including how table indexes are broken
//! out into quoted strings, enum labels and dotted quads, because DOCSIS
//! config files are round-tripped through this representation.
use vstd::prelude::*;
use super::{BaseType, Index, Mib, NodeId, Syntax, integerish, node_wf};
use crate::text::{dec_digits, is_alpha, push_all, push_dec, utf8_string, string_octets};
use vstd::utf8::valid_utf8;

verus! {

#[derive(Clone, Copy, PartialEq, Eq, Debug, Structural)]
pub enum OidFormat {
    /// `.1.3.6.1.2.1.1.4.0`
    Numeric,
    /// `.iso.org.dod.internet.mgmt.mib-2.system.sysContact.0`
    Full,
    /// `sysContact.0` - the last named node plus its instance.
    Suffix,
}

/// The sub-identifiers of `s` in decimal, separated by dots.
pub open spec fn dotted(s: Seq<u32>) -> Seq<u8>
    decreases s.len(),
{
    if s.len() == 0 {
        Seq::empty()
    } else if s.len() == 1 {
        dec_digits(s[0] as nat)
    } else {
        dec_digits(s[0] as nat) + seq![46u8] + dotted(s.drop_first())
    }
}

/// The numeric rendering of an OID: a dot before each sub-identifier, and
/// nothing at all for the empty OID.
pub open spec fn numeric_text(s: Seq<u32>) -> Seq<u8> {
    if s.len() == 0 {
        Seq::empty()
    } else {
        seq![46u8] + dotted(s)
    }
}

/// How net-snmp shows one sub-identifier inside a quoted index string:
/// printable ASCII as itself, anything else as `.`.
pub open spec fn shown_octet(sub: u32) -> u8 {
    if 0x20 <= sub < 0x7f {
        sub as u8
    } else {
        46u8
    }
}

/// Sub-identifiers as a quoted character string; nothing when there are none.
pub open spec fn dumped(s: Seq<u32>, quote: u8) -> Seq<u8> {
    if s.len() == 0 {
        Seq::empty()
    } else {
        seq![quote] + s.map_values(|x: u32| shown_octet(x)) + seq![quote]
    }
}

proof fn lemma_dotted_step(s: Seq<u32>)
    requires
        s.len() >= 1,
    ensures
        s.len() == 1 ==> dotted(s) == dec_digits(s[0] as nat),
        s.len() > 1 ==> dotted(s) == dec_digits(s[0] as nat) + seq![46u8] + dotted(s.drop_first()),
{
}

/// Print `objid[lo..hi]` as a quoted character string, substituting `.` for
/// anything unprintable, as net-snmp does.
fn dump_oid_to_string(objid: &[u32], lo: usize, hi: usize, buf: &mut Vec<u8>, quote: u8)
    requires
        lo <= hi <= objid@.len(),
    ensures
        final(buf)@ == old(buf)@ + dumped(objid@.subrange(lo as int, hi as int), quote),
{
    if lo == hi {
        assert(final(buf)@ =~= old(buf)@ + dumped(objid@.subrange(lo as int, hi as int), quote));
        return;
    }
    buf.push(quote);
    let mut i = lo;
    while i < hi
        invariant
            lo <= i <= hi <= objid@.len(),
            buf@ == old(buf)@ + seq![quote] + objid@.subrange(lo as int, i as int).map_values(
                |x: u32| shown_octet(x),
            ),
        decreases hi - i,
    {
        let sub = objid[i];
        let c: u8 = if sub > 254 || !(0x20 <= sub && sub < 0x7f) {
            46
        } else {
            sub as u8
        };
        buf.push(c);
        i += 1;
        assert(buf@ =~= old(buf)@ + seq![quote] + objid@.subrange(lo as int, i as int).map_values(
            |x: u32| shown_octet(x),
        ));
    }
    buf.push(quote);
    assert(final(buf)@ =~= old(buf)@ + dumped(objid@.subrange(lo as int, hi as int), quote));
}

/// Where the suffix form starts in a full rendering: just after the last `.`
/// found before `mark`, or at the start when there is none.
fn start_after_dot(bytes: &Vec<u8>, mark: usize) -> (r: usize)
    requires
        mark <= bytes@.len(),
    ensures
        r <= mark,
        r == dot_start(bytes@, mark as int),
{
    let mut c1 = mark;
    while c1 > 0
        invariant
            c1 <= mark <= bytes@.len(),
            dot_start(bytes@, mark as int) == dot_start(bytes@, c1 as int),
        decreases c1,
    {
        if bytes[c1 - 1] == 46 {
            return c1;
        }
        c1 -= 1;
    }
    0
}

/// One past the last letter of `bytes`, or zero when it holds none.
fn after_last_letter(bytes: &Vec<u8>) -> (r: usize)
    ensures
        r <= bytes@.len(),
        r == letter_end(bytes@),
{
    let mut k = bytes.len();
    assert(bytes@.take(k as int) =~= bytes@);
    while k > 0
        invariant
            k <= bytes@.len(),
            letter_end(bytes@) == letter_end(bytes@.take(k as int)),
        decreases k,
    {
        assert(bytes@.take(k as int).drop_last() =~= bytes@.take(k - 1));
        if crate::text::is_alpha_byte(bytes[k - 1]) {
            return k;
        }
        k -= 1;
    }
    0
}

/// One past the last letter of `b`, or zero when it holds none.
pub open spec fn letter_end(b: Seq<u8>) -> int
    decreases b.len(),
{
    if b.len() == 0 {
        0
    } else if is_alpha(b.last()) {
        b.len() as int
    } else {
        letter_end(b.drop_last())
    }
}

/// Just after the last `.` of `b` before `mark`, or zero when there is none.
pub open spec fn dot_start(b: Seq<u8>, mark: int) -> int
    decreases mark,
{
    if mark <= 0 {
        0
    } else if b[mark - 1] == 46 {
        mark
    } else {
        dot_start(b, mark - 1)
    }
}

/// Each sub-identifier of `s` in decimal followed by a dot.
pub open spec fn dotted_each(s: Seq<u32>) -> Seq<u8>
    decreases s.len(),
{
    if s.len() == 0 {
        Seq::empty()
    } else {
        dotted_each(s.drop_last()) + dec_digits(s.last() as nat) + seq![46u8]
    }
}

/// The first four sub-identifiers of `s` as a dotted quad.
pub open spec fn quad(s: Seq<u32>) -> Seq<u8> {
    dec_digits(s[0] as nat) + seq![46u8] + dec_digits(s[1] as nat) + seq![46u8] + dec_digits(
        s[2] as nat,
    ) + seq![46u8] + dec_digits(s[3] as nat)
}

/// The label of the first enumeration entry whose value is `v`.
pub open spec fn enum_label(enums: Seq<(Vec<u8>, i64)>, v: i64) -> Option<Seq<u8>>
    decreases enums.len(),
{
    if enums.len() == 0 {
        None
    } else if enums[0].1 == v {
        Some(enums[0].0@)
    } else {
        enum_label(enums.drop_first(), v)
    }
}

/// The fixed length of a string index, when its only SIZE range is a single
/// value.
pub open spec fn fixed_size(ranges: Seq<(i64, i64)>) -> Option<u64> {
    if ranges.len() == 1 && ranges[0].0 == ranges[0].1 {
        Some(ranges[0].0 as u64)
    } else {
        None
    }
}

/// An optional index list as a sequence.
pub open spec fn opt_view(ix: Option<&Vec<Index>>) -> Option<Seq<Index>> {
    match ix {
        Some(v) => Some(v@),
        None => None,
    }
}

/// A string index value rendered from `objid` (not empty): an IMPLIED one
/// as all that is left, a fixed-size one as that many octets, and any
/// other as the octets its leading length counts, each quoted.
pub open spec fn string_piece(buf: Seq<u8>, index: Index, syn: Syntax, objid: Seq<u32>) -> (
    Seq<u8>,
    Seq<u32>,
    bool,
) {
    let left = objid.len();
    if index.implied {
        (buf + dumped(objid, 39), Seq::empty(), true)
    } else {
        match fixed_size(syn.ranges@) {
            Some(n) => if n > left {
                (buf, objid, false)
            } else {
                (buf + dumped(objid.take(n as int), 39), objid.skip(n as int), true)
            },
            None => {
                let n = objid[0] + 1;
                if n > left {
                    (buf, objid, false)
                } else if n == 1 {
                    (buf + seq![34u8, 34u8], objid.skip(1), true)
                } else {
                    (buf + dumped(objid.subrange(1, n as int), 34), objid.skip(n as int), true)
                }
            },
        }
    }
}

/// An integer index value rendered from `objid` (not empty): its
/// enumeration label, or its number (always its number for TimeTicks).
pub open spec fn number_piece(buf: Seq<u8>, syn: Syntax, objid: Seq<u32>) -> (
    Seq<u8>,
    Seq<u32>,
    bool,
) {
    (
        buf + if syn.base == BaseType::TimeTicks {
            dec_digits(objid[0] as nat)
        } else {
            match enum_label(syn.enums@, objid[0] as i64) {
                Some(l) => l,
                None => dec_digits(objid[0] as nat),
            }
        },
        objid.drop_first(),
        true,
    )
}

/// An address index value rendered from `objid` (not empty): an IpAddress
/// as a dotted quad, a NetworkAddress as its type and (for type 1) a dotted
/// quad.
pub open spec fn address_piece(buf: Seq<u8>, syn: Syntax, objid: Seq<u32>) -> (
    Seq<u8>,
    Seq<u32>,
    bool,
) {
    if syn.base == BaseType::IpAddr {
        if objid.len() < 4 {
            (buf, objid, false)
        } else {
            (buf + quad(objid), objid.skip(4), true)
        }
    } else {
        let b = buf + dec_digits(objid[0] as nat) + seq![46u8];
        let o = objid.drop_first();
        if objid[0] == 1 && o.len() >= 4 {
            (b + quad(o), o.skip(4), true)
        } else {
            (b, o, false)
        }
    }
}

impl Mib {
    /// The rendering of `objid` appended to `buf` (which ends in `.`),
    /// walking down from the nodes `subtree` with the index objects `ix` in
    /// force: each sub-identifier a child bears prints as the child's label
    /// (its number when `numeric` or the child is unnamed); where the tree
    /// ends, a row entry's own sub-identifier prints as a number, then the
    /// index values (unless `numeric`), then the rest as numbers.  Gives the
    /// new buffer, the deepest node matched, and where the names stopped
    /// when they did.
    pub open spec fn symbol(
        &self,
        buf: Seq<u8>,
        objid: Seq<u32>,
        subtree: Seq<NodeId>,
        ix: Option<Seq<Index>>,
        numeric: bool,
    ) -> (Seq<u8>, Option<NodeId>, Option<usize>)
        decreases objid.len(), (if ix is Some {
            2int
        } else {
            0int
        }), 0int,
    {
        match (if objid.len() > 0 {
            self.first_with_subid(subtree, objid[0])
        } else {
            None
        }) {
            Some(id) => {
                let node = self.nodes@[id as int];
                let nested = match self.row_indexes(id) {
                    Some(v) => Some(v),
                    None => ix,
                };
                let b1 = buf + (if node.anonymous || numeric {
                    dec_digits(node.subid as nat)
                } else {
                    node.label@
                });
                if objid.len() > 1 {
                    let d = self.symbol(b1.push(46), objid.drop_first(), node.children@, nested, numeric);
                    (d.0, if d.1 is Some {
                        d.1
                    } else {
                        Some(id)
                    }, d.2)
                } else {
                    (b1, Some(id), None)
                }
            },
            None => {
                let take_first = subtree.len() > 0 && ix is Some && objid.len() > 0;
                let b1 = if take_first {
                    buf + dec_digits(objid[0] as nat) + seq![46u8]
                } else {
                    buf
                };
                let r1 = if take_first {
                    objid.drop_first()
                } else {
                    objid
                };
                let d = match ix {
                    Some(v) => if !numeric {
                        self.indexes_text(b1, v, r1)
                    } else {
                        (b1, r1)
                    },
                    None => (b1, r1),
                };
                let b3 = if d.0.len() == 0 || d.0.last() != 46 {
                    d.0.push(46)
                } else {
                    d.0
                };
                ((b3 + dotted_each(d.1)).drop_last(), None, Some(buf.len() as usize))
            },
        }
    }

    /// One index value of the object `index` (whose syntax is `syn`)
    /// rendered from `objid`: a string as quoted text, an integer as its
    /// enumeration label or number, an OID as its symbolic name, an address
    /// as a dotted quad.  Gives the new buffer, what is left of `objid`, and
    /// whether the rendering goes on to the next index.
    pub open spec fn index_piece(&self, buf: Seq<u8>, index: Index, syn: Syntax, objid: Seq<u32>) -> (
        Seq<u8>,
        Seq<u32>,
        bool,
    )
        decreases objid.len(), 1int, 0int,
    {
        let left = objid.len();
        if objid.len() == 0 {
            (buf, objid, false)
        } else if syn.base == BaseType::OctetStr {
            string_piece(buf, index, syn, objid)
        } else if integerish(syn.base) || syn.base == BaseType::TimeTicks {
            number_piece(buf, syn, objid)
        } else if syn.base == BaseType::ObjId {
            let n: int = if index.implied {
                left as int
            } else {
                objid[0] + 1
            };
            if n > left {
                (buf, objid, false)
            } else {
                (self.symbol(buf, objid.take(n), self.roots@, None, false).0, objid.skip(n), true)
            }
        } else if syn.base == BaseType::IpAddr || syn.base == BaseType::NetAddr {
            address_piece(buf, syn, objid)
        } else {
            (buf, objid, false)
        }
    }

    /// The index values of `ix` rendered from `objid`, each followed by a
    /// dot, as far as the sub-identifiers allow.  Gives the new buffer and
    /// what is left of `objid`.
    pub open spec fn indexes_text(&self, buf: Seq<u8>, ix: Seq<Index>, objid: Seq<u32>) -> (
        Seq<u8>,
        Seq<u32>,
    )
        decreases objid.len(), 1int, ix.len(),
    {
        if ix.len() == 0 || objid.len() == 0 {
            (buf, objid)
        } else {
            match self.label_node(ix[0].label@) {
                None => (buf, objid),
                Some(tp) => {
                    let piece = self.index_piece(buf, ix[0], self.nodes@[tp as int].syntax, objid);
                    if piece.2 && piece.1.len() <= objid.len() {
                        self.indexes_text(piece.0.push(46), ix.drop_first(), piece.1)
                    } else {
                        (piece.0, piece.1)
                    }
                },
            }
        }
    }

    /// The rendering of `oid` in `format`: the full walk's text, or for the
    /// suffix form the part after the last named node before the index
    /// values (after the last label when every sub-identifier was named).
    pub open spec fn sprint(&self, oid: Seq<u32>, format: OidFormat) -> Seq<u8> {
        let d = self.symbol(seq![46u8], oid, self.roots@, None, format == OidFormat::Numeric);
        let b = d.0;
        match format {
            OidFormat::Suffix => {
                let mark: int = match d.2 {
                    Some(off) => if off >= 1 && off - 1 <= b.len() {
                        off - 1
                    } else if off >= 1 {
                        b.len() as int
                    } else {
                        0
                    },
                    None => letter_end(b),
                };
                b.skip(dot_start(b, mark))
            },
            _ => b,
        }
    }

    /// Render a numeric OID in the requested format.
    pub fn sprint_objid(&self, oid: &[u32], format: OidFormat) -> (r: String)
        requires
            self.wf(),
        ensures
            valid_utf8(self.sprint(oid@, format)) ==> string_octets(r) == self.sprint(oid@, format),
            !valid_utf8(self.sprint(oid@, format)) ==> r@.len() == 0,
            format == OidFormat::Numeric ==> string_octets(r) == numeric_text(oid@),
    {
        let numeric = format == OidFormat::Numeric;
        let mut buf: Vec<u8> = Vec::new();
        buf.push(46);
        let mut end_of_known: Option<usize> = None;
        self.get_symbol(oid, 0, oid.len(), &self.roots, &mut buf, None, &mut end_of_known, numeric);
        proof {
            assert(oid@.subrange(0, oid@.len() as int) =~= oid@);
            assert(seq![46u8] =~= Seq::<u8>::empty().push(46u8));
            if numeric {
                self.lemma_symbol_numeric(seq![46u8], oid@, self.roots@, None);
                assert(buf@ =~= numeric_text(oid@));
                lemma_numeric_text_ascii(oid@);
            }
        }
        match format {
            OidFormat::Numeric | OidFormat::Full => utf8_string(buf),
            OidFormat::Suffix => {
                // Start just before the '.' that precedes the unresolved tail;
                // with nothing unresolved, start at the last letter.
                let mark: usize = match end_of_known {
                    Some(off) => if off >= 1 && off - 1 <= buf.len() {
                        off - 1
                    } else if off >= 1 {
                        buf.len()
                    } else {
                        0
                    },
                    None => after_last_letter(&buf),
                };
                let start = start_after_dot(&buf, mark);
                let mut out: Vec<u8> = Vec::new();
                let mut i = start;
                while i < buf.len()
                    invariant
                        start <= i <= buf@.len(),
                        out@ == buf@.subrange(start as int, i as int),
                    decreases buf@.len() - i,
                {
                    out.push(buf[i]);
                    i += 1;
                    assert(out@ =~= buf@.subrange(start as int, i as int));
                }
                assert(out@ =~= buf@.skip(start as int));
                utf8_string(out)
            },
        }
    }

    /// The node `first_with_subid` picks bears the sub-identifier sought.
    proof fn lemma_first_with_subid(&self, list: Seq<NodeId>, v: u32)
        ensures
            self.first_with_subid(list, v) matches Some(id) ==> self.nodes@[id as int].subid == v,
        decreases list.len(),
    {
        if list.len() > 0 && self.nodes@[list[0] as int].subid != v {
            self.lemma_first_with_subid(list.drop_first(), v);
        }
    }

    /// Each sub-identifier followed by a dot is the dotted form and a dot.
    proof fn lemma_dotted_each(s: Seq<u32>)
        requires
            s.len() >= 1,
        ensures
            dotted_each(s) == dotted(s).push(46u8),
        decreases s.len(),
    {
        lemma_dotted_snoc(s);
        if s.len() == 1 {
            assert(dotted_each(s.drop_last()) =~= Seq::<u8>::empty());
            assert(s.last() == s[0]);
            assert(dotted_each(s) =~= dotted(s).push(46u8));
        } else {
            Self::lemma_dotted_each(s.drop_last());
            assert(dotted_each(s) =~= dotted(s).push(46u8));
        }
    }

    /// The numeric walk writes the sub-identifiers in decimal, separated by
    /// dots after the buffer's dot, and takes that dot back for no OID.
    proof fn lemma_symbol_numeric(
        &self,
        buf: Seq<u8>,
        s: Seq<u32>,
        subtree: Seq<NodeId>,
        ix: Option<Seq<Index>>,
    )
        requires
            buf.len() >= 1,
            buf.last() == 46,
        ensures
            self.symbol(buf, s, subtree, ix, true).0 == (if s.len() == 0 {
                buf.drop_last()
            } else {
                buf + dotted(s)
            }),
        decreases s.len(),
    {
        let f = if s.len() > 0 {
            self.first_with_subid(subtree, s[0])
        } else {
            None
        };
        self.lemma_first_with_subid(subtree, if s.len() > 0 {
            s[0]
        } else {
            0
        });
        match f {
            Some(id) => {
                let node = self.nodes@[id as int];
                let nested = match self.row_indexes(id) {
                    Some(v) => Some(v),
                    None => ix,
                };
                let b1 = buf + dec_digits(node.subid as nat);
                lemma_dotted_step(s);
                if s.len() > 1 {
                    self.lemma_symbol_numeric(b1.push(46), s.drop_first(), node.children@, nested);
                    assert(b1.push(46) + dotted(s.drop_first()) =~= buf + dotted(s));
                } else {
                    assert(b1 =~= buf + dotted(s));
                }
            },
            None => {
                let take_first = subtree.len() > 0 && ix is Some && s.len() > 0;
                if take_first {
                    let b1 = buf + dec_digits(s[0] as nat) + seq![46u8];
                    let r1 = s.drop_first();
                    lemma_dotted_step(s);
                    if r1.len() == 0 {
                        assert((b1 + dotted_each(r1)).drop_last() =~= buf + dotted(s));
                    } else {
                        Self::lemma_dotted_each(r1);
                        assert((b1 + dotted_each(r1)).drop_last() =~= buf + dotted(s));
                    }
                } else {
                    if s.len() == 0 {
                        assert((buf + dotted_each(s)).drop_last() =~= buf.drop_last());
                    } else {
                        Self::lemma_dotted_each(s);
                        assert((buf + dotted_each(s)).drop_last() =~= buf + dotted(s));
                    }
                }
            },
        }
    }

    /// The recursive tree walk behind `sprint_objid`, over `objid[lo..hi]`.
    ///
    /// Returns the deepest node matched, or `None` once the OID leaves the
    /// tree, in which case `end_of_known` records where the names stopped.
    fn get_symbol(
        &self,
        objid: &[u32],
        lo: usize,
        hi: usize,
        subtree: &Vec<NodeId>,
        buf: &mut Vec<u8>,
        in_dices: Option<&Vec<Index>>,
        end_of_known: &mut Option<usize>,
        numeric: bool,
    ) -> (r: Option<NodeId>)
        requires
            self.wf(),
            lo <= hi <= objid@.len(),
            forall|k: int| 0 <= k < subtree@.len() ==> #[trigger] subtree@[k] < self.size(),
            old(buf)@.len() >= 1,
            old(buf)@.last() == 46,
        ensures
            r matches Some(id) ==> id < self.size(),
            ({
                let d = self.symbol(
                    old(buf)@,
                    objid@.subrange(lo as int, hi as int),
                    subtree@,
                    opt_view(in_dices),
                    numeric,
                );
                &&& final(buf)@ == d.0
                &&& r == d.1
                &&& *final(end_of_known) == match d.2 {
                    Some(p) => Some(p),
                    None => *old(end_of_known),
                }
            }),
        decreases hi - lo, if in_dices is Some {
            2int
        } else {
            0int
        }, 0int,
    {
        let ghost sub = objid@.subrange(lo as int, hi as int);
        if lo < hi {
            let mut k: usize = 0;
            assert(subtree@.skip(0) =~= subtree@);
            while k < subtree.len()
                invariant
                    self.wf(),
                    lo < hi <= objid@.len(),
                    k <= subtree@.len(),
                    forall|m: int| 0 <= m < subtree@.len() ==> #[trigger] subtree@[m] < self.size(),
                    self.first_with_subid(subtree@, objid@[lo as int]) == self.first_with_subid(
                        subtree@.skip(k as int),
                        objid@[lo as int],
                    ),
                    buf@ == old(buf)@,
                    *end_of_known == *old(end_of_known),
                    sub == objid@.subrange(lo as int, hi as int),
                decreases subtree@.len() - k,
            {
                let id = subtree[k];
                proof {
                    assert(subtree@.skip(k as int)[0] == id);
                    assert(subtree@.skip(k as int).drop_first() =~= subtree@.skip(k + 1));
                }
                if self.nodes[id].subid == objid[lo] {
                    proof {
                        assert(node_wf(self.nodes@, id as int));
                        assert(sub[0] == objid@[lo as int]);
                    }
                    let node = &self.nodes[id];
                    let idx = self.indexes_of(id);
                    let nested = if idx.is_some() {
                        idx
                    } else {
                        in_dices
                    };
                    if node.anonymous || numeric {
                        push_dec(buf, node.subid as u64);
                    } else {
                        push_all(buf, node.label.as_slice());
                    }
                    if hi - lo > 1 {
                        buf.push(46);
                        let deeper = self.get_symbol(
                            objid,
                            lo + 1,
                            hi,
                            &node.children,
                            buf,
                            nested,
                            end_of_known,
                            numeric,
                        );
                        proof {
                            assert(sub.drop_first() =~= objid@.subrange(lo + 1, hi as int));
                        }
                        if deeper.is_some() {
                            return deeper;
                        }
                    }
                    return Some(id);
                }
                k += 1;
            }
            assert(subtree@.skip(k as int).len() == 0);
        }
        *end_of_known = Some(buf.len());

        let mut rest = lo;
        let ghost b0 = buf@;

        // A row entry's own sub-identifier is not part of any index.
        if subtree.len() > 0 && in_dices.is_some() && rest < hi {
            push_dec(buf, objid[rest] as u64);
            buf.push(46);
            rest = rest + 1;
            assert(sub.drop_first() =~= objid@.subrange(rest as int, hi as int));
        }
        assert(objid@.subrange(rest as int, hi as int) =~= (if subtree@.len() > 0
            && opt_view(in_dices) is Some && sub.len() > 0 {
            sub.drop_first()
        } else {
            sub
        }));
        let ghost b_first = buf@;
        let ghost r_first = objid@.subrange(rest as int, hi as int);
        if !numeric {
            if let Some(indices) = in_dices {
                rest = self.format_indexes(indices, objid, rest, hi, buf);
            }
        }
        let ghost d = match opt_view(in_dices) {
            Some(v) => if !numeric {
                self.indexes_text(b_first, v, r_first)
            } else {
                (b_first, r_first)
            },
            None => (b_first, r_first),
        };
        assert(d == (buf@, objid@.subrange(rest as int, hi as int)));
        // Anything left over prints as bare numbers.

        if buf.len() == 0 || buf[buf.len() - 1] != 46 {
            buf.push(46);
        }
        let ghost b1 = buf@;
        let start = rest;
        while rest < hi
            invariant
                start <= rest <= hi <= objid@.len(),
                buf@.len() >= 1,
                buf@ == b1 + dotted_each(objid@.subrange(start as int, rest as int)),
            decreases hi - rest,
        {
            proof {
                let t = objid@.subrange(start as int, rest as int + 1);
                assert(t.drop_last() =~= objid@.subrange(start as int, rest as int));
            }
            push_dec(buf, objid[rest] as u64);
            buf.push(46);
            rest += 1;
            assert(buf@ =~= b1 + dotted_each(objid@.subrange(start as int, rest as int)));
        }
        buf.pop();
        proof {
            assert(objid@.subrange(start as int, hi as int) == d.1);
            assert(self.first_with_subid(subtree@, sub[0]) is None || sub.len() == 0);
            assert(b1 == (if d.0.len() == 0 || d.0.last() != 46 {
                d.0.push(46)
            } else {
                d.0
            }));
            assert(buf@ == (b1 + dotted_each(d.1)).drop_last());
            let take_first = subtree@.len() > 0 && opt_view(in_dices) is Some && sub.len() > 0;
            assert(b_first == (if take_first {
                old(buf)@ + dec_digits(sub[0] as nat) + seq![46u8]
            } else {
                old(buf)@
            }));
            assert(r_first == (if take_first {
                sub.drop_first()
            } else {
                sub
            }));
            let e = self.symbol(old(buf)@, sub, subtree@, opt_view(in_dices), numeric);
            assert(e.1 is None);
            assert(e.2 == Some(old(buf)@.len() as usize));
            assert(e.0 == buf@);
        }
        None
    }

    /// Render as many index values as `objid[lo..hi]` allows, returning where
    /// the unconsumed sub-identifiers start.
    fn format_indexes(
        &self,
        indices: &Vec<Index>,
        objid: &[u32],
        lo: usize,
        hi: usize,
        buf: &mut Vec<u8>,
    ) -> (r: usize)
        requires
            self.wf(),
            lo <= hi <= objid@.len(),
            old(buf)@.len() >= 1,
            old(buf)@.last() == 46,
        ensures
            lo <= r <= hi,
            (final(buf)@, objid@.subrange(r as int, hi as int)) == self.indexes_text(
                old(buf)@,
                indices@,
                objid@.subrange(lo as int, hi as int),
            ),
        decreases hi - lo, 1int, 1int,
    {
        let ghost res = self.indexes_text(old(buf)@, indices@, objid@.subrange(lo as int, hi as int));
        let mut pos = lo;
        let mut k: usize = 0;
        assert(indices@.skip(0) =~= indices@);
        while k < indices.len()
            invariant_except_break
                res == self.indexes_text(
                    buf@,
                    indices@.skip(k as int),
                    objid@.subrange(pos as int, hi as int),
                ),
            invariant
                self.wf(),
                lo <= pos <= hi <= objid@.len(),
                k <= indices@.len(),
                buf@.len() >= 1,
                buf@.last() == 46,
                res == self.indexes_text(old(buf)@, indices@, objid@.subrange(lo as int, hi as int)),
            ensures
                lo <= pos <= hi,
                res == (buf@, objid@.subrange(pos as int, hi as int)),
            decreases indices@.len() - k,
        {
            let index = &indices[k];
            proof {
                assert(indices@.skip(k as int)[0] == indices@[k as int]);
                assert(indices@.skip(k as int).drop_first() =~= indices@.skip(k + 1));
            }
            if pos >= hi {
                break ;
            }
            let tp = match self.find_by_label(index.label.as_slice()) {
                Some(t) => t,
                None => break ,
            };
            let (next, more) = self.format_index(index, &self.nodes[tp].syntax, objid, pos, hi, buf);
            pos = next;
            if !more {
                break ;
            }
            buf.push(46);
            k += 1;
        }
        pos
    }

    /// Render one index value from `objid[pos..hi]`: where the rest starts,
    /// and whether the next index follows.
    fn format_index(
        &self,
        index: &Index,
        syntax: &Syntax,
        objid: &[u32],
        pos: usize,
        hi: usize,
        buf: &mut Vec<u8>,
    ) -> (r: (usize, bool))
        requires
            self.wf(),
            pos < hi <= objid@.len(),
            old(buf)@.len() >= 1,
            old(buf)@.last() == 46,
        ensures
            pos <= r.0 <= hi,
            (final(buf)@, objid@.subrange(r.0 as int, hi as int), r.1) == self.index_piece(
                old(buf)@,
                *index,
                *syntax,
                objid@.subrange(pos as int, hi as int),
            ),
            r.1 ==> r.0 - pos <= hi - pos,
        decreases hi - pos, 1int, 0int,
    {
        let ghost rem = objid@.subrange(pos as int, hi as int);
        let ghost b0 = buf@;
        let left = hi - pos;
        if syntax.base == BaseType::OctetStr {
            format_string_index(index, syntax, objid, pos, hi, buf)
        } else if syntax.base.is_integerish() || syntax.base == BaseType::TimeTicks {
            format_number_index(syntax, objid, pos, hi, buf)
        } else if syntax.base == BaseType::ObjId {
            let n: u64 = if index.implied {
                left as u64
            } else {
                objid[pos] as u64 + 1
            };
            if n > left as u64 {
                return (pos, false);
            }
            let n = n as usize;
            let mut ignored: Option<usize> = None;
            self.get_symbol(objid, pos, pos + n, &self.roots, buf, None, &mut ignored, false);
            assert(rem.take(n as int) =~= objid@.subrange(pos as int, pos + n));
            assert(rem.skip(n as int) =~= objid@.subrange(pos + n, hi as int));
            (pos + n, true)
        } else if syntax.base == BaseType::IpAddr || syntax.base == BaseType::NetAddr {
            format_address_index(syntax, objid, pos, hi, buf)
        } else {
            (pos, false)
        }
    }
}

/// Render an integer index value from `objid[pos..hi]`.
fn format_number_index(syntax: &Syntax, objid: &[u32], pos: usize, hi: usize, buf: &mut Vec<u8>) -> (r: (
    usize,
    bool,
))
    requires
        integerish(syntax.base) || syntax.base == BaseType::TimeTicks,
        pos < hi <= objid@.len(),
    ensures
        pos <= r.0 <= hi,
        (final(buf)@, objid@.subrange(r.0 as int, hi as int), r.1) == number_piece(
            old(buf)@,
            *syntax,
            objid@.subrange(pos as int, hi as int),
        ),
{
    let ghost rem = objid@.subrange(pos as int, hi as int);
    if syntax.base == BaseType::TimeTicks {
        push_dec(buf, objid[pos] as u64);
    } else {
        let v = objid[pos] as i64;
        match find_enum_label(&syntax.enums, v) {
            Some(e) => push_all(buf, syntax.enums[e].0.as_slice()),
            None => push_dec(buf, objid[pos] as u64),
        }
    }
    assert(rem.drop_first() =~= objid@.subrange(pos + 1, hi as int));
    (pos + 1, true)
}

/// Append `objid[p..p + 4]` as a dotted quad.
fn push_quad(objid: &[u32], p: usize, buf: &mut Vec<u8>)
    requires
        p + 4 <= objid@.len(),
    ensures
        final(buf)@ == old(buf)@ + quad(objid@.subrange(p as int, p + 4)),
{
    let ghost q = objid@.subrange(p as int, p + 4);
    push_dec(buf, objid[p] as u64);
    buf.push(46);
    push_dec(buf, objid[p + 1] as u64);
    buf.push(46);
    push_dec(buf, objid[p + 2] as u64);
    buf.push(46);
    push_dec(buf, objid[p + 3] as u64);
    assert(q[0] == objid@[p as int] && q[1] == objid@[p + 1] && q[2] == objid@[p + 2] && q[3]
        == objid@[p + 3]);
    assert(final(buf)@ =~= old(buf)@ + quad(q));
}

/// Render an address index value from `objid[pos..hi]`.
fn format_address_index(syntax: &Syntax, objid: &[u32], pos: usize, hi: usize, buf: &mut Vec<u8>) -> (r: (
    usize,
    bool,
))
    requires
        syntax.base == BaseType::IpAddr || syntax.base == BaseType::NetAddr,
        pos < hi <= objid@.len(),
    ensures
        pos <= r.0 <= hi,
        (final(buf)@, objid@.subrange(r.0 as int, hi as int), r.1) == address_piece(
            old(buf)@,
            *syntax,
            objid@.subrange(pos as int, hi as int),
        ),
{
    let ghost rem = objid@.subrange(pos as int, hi as int);
    let left = hi - pos;
    if syntax.base == BaseType::IpAddr {
        if left < 4 {
            return (pos, false);
        }
        push_quad(objid, pos, buf);
        assert(quad(rem) == quad(objid@.subrange(pos as int, pos + 4)));
        assert(rem.skip(4) =~= objid@.subrange(pos + 4, hi as int));
        (pos + 4, true)
    } else {
        let ntype = objid[pos];
        push_dec(buf, ntype as u64);
        buf.push(46);
        let p1 = pos + 1;
        let ghost o = rem.drop_first();
        assert(o =~= objid@.subrange(p1 as int, hi as int));
        if ntype == 1 && hi - p1 >= 4 {
            push_quad(objid, p1, buf);
            assert(quad(o) == quad(objid@.subrange(p1 as int, p1 + 4)));
            assert(o.skip(4) =~= objid@.subrange(p1 + 4, hi as int));
            (p1 + 4, true)
        } else {
            (p1, false)
        }
    }
}

/// Render a string index value from `objid[pos..hi]`: where the rest
/// starts, and whether the next index follows.
#[verifier::spinoff_prover]
fn format_string_index(
    index: &Index,
    syntax: &Syntax,
    objid: &[u32],
    pos: usize,
    hi: usize,
    buf: &mut Vec<u8>,
) -> (r: (usize, bool))
    requires
        syntax.base == BaseType::OctetStr,
        pos < hi <= objid@.len(),
    ensures
        pos <= r.0 <= hi,
        (final(buf)@, objid@.subrange(r.0 as int, hi as int), r.1) == string_piece(
            old(buf)@,
            *index,
            *syntax,
            objid@.subrange(pos as int, hi as int),
        ),
{
    let ghost rem = objid@.subrange(pos as int, hi as int);
    let ghost b0 = buf@;
    let left = hi - pos;
    let fixed: Option<u64> = if syntax.ranges.len() == 1 && syntax.ranges[0].0
        == syntax.ranges[0].1 {
        Some(syntax.ranges[0].0 as u64)
    } else {
        None
    };
    assert(fixed == fixed_size(syntax.ranges@));
    if index.implied {
        dump_oid_to_string(objid, pos, hi, buf, 39);
        assert(objid@.subrange(hi as int, hi as int) =~= Seq::<u32>::empty());
        (hi, true)
    } else if let Some(n) = fixed {
        if n > left as u64 {
            return (pos, false);
        }
        let n = n as usize;
        dump_oid_to_string(objid, pos, pos + n, buf, 39);
        assert(rem.take(n as int) =~= objid@.subrange(pos as int, pos + n));
        assert(rem.skip(n as int) =~= objid@.subrange(pos + n, hi as int));
        (pos + n, true)
    } else {
        let n = objid[pos] as u64 + 1;
        if n > left as u64 {
            return (pos, false);
        }
        let n = n as usize;
        if n == 1 {
            buf.push(34);
            buf.push(34);
            assert(buf@ =~= b0 + seq![34u8, 34u8]);
        } else {
            dump_oid_to_string(objid, pos + 1, pos + n, buf, 34);
            assert(rem.subrange(1, n as int) =~= objid@.subrange(pos + 1, pos + n));
        }
        assert(rem.skip(n as int) =~= objid@.subrange(pos + n, hi as int));
        (pos + n, true)
    }
}

/// The position of the first enumeration entry whose value is `v`.
pub(crate) fn find_enum_label(enums: &Vec<(Vec<u8>, i64)>, v: i64) -> (r: Option<usize>)
    ensures
        match r {
            Some(e) => e < enums@.len() && enum_label(enums@, v) == Some(enums@[e as int].0@),
            None => enum_label(enums@, v) is None,
        },
{
    let mut k: usize = 0;
    assert(enums@.skip(0) =~= enums@);
    while k < enums.len()
        invariant
            k <= enums@.len(),
            enum_label(enums@, v) == enum_label(enums@.skip(k as int), v),
        decreases enums@.len() - k,
    {
        proof {
            assert(enums@.skip(k as int)[0] == enums@[k as int]);
            assert(enums@.skip(k as int).drop_first() =~= enums@.skip(k + 1));
        }
        if enums[k].1 == v {
            return Some(k);
        }
        k += 1;
    }
    assert(enums@.skip(k as int).len() == 0);
    None
}

proof fn lemma_dotted_snoc(t: Seq<u32>)
    requires
        t.len() >= 1,
    ensures
        t.len() == 1 ==> dotted(t) == dec_digits(t.last() as nat),
        t.len() > 1 ==> dotted(t) == dotted(t.drop_last()) + seq![46u8] + dec_digits(
            t.last() as nat,
        ),
    decreases t.len(),
{
    if t.len() > 1 {
        let d = t.drop_first();
        lemma_dotted_snoc(d);
        assert(d.drop_last() =~= t.drop_last().drop_first());
        if d.len() > 1 {
            assert(dotted(t.drop_last()) == dec_digits(t[0] as nat) + seq![46u8] + dotted(
                t.drop_last().drop_first(),
            ));
        } else {
            assert(t.drop_last() =~= seq![t[0]]);
        }
        assert(d.last() == t.last());
    }
}

proof fn lemma_dec_digits_ascii(n: nat)
    ensures
        forall|i: int| 0 <= i < dec_digits(n).len() ==> #[trigger] dec_digits(n)[i] < 128,
    decreases n,
{
    if n >= 10 {
        lemma_dec_digits_ascii(n / 10);
        let a = dec_digits(n / 10);
        let b = seq![((n % 10) + 48) as u8];
        assert(dec_digits(n) == a + b);
        assert forall|i: int| 0 <= i < dec_digits(n).len() implies #[trigger] dec_digits(n)[i]
            < 128 by {
            if i < a.len() {
                assert(dec_digits(n)[i] == a[i]);
            } else {
                assert(dec_digits(n)[i] == b[i - a.len()]);
            }
        }
    }
}

proof fn lemma_dotted_ascii(s: Seq<u32>)
    ensures
        crate::text::all_ascii(dotted(s)),
    decreases s.len(),
{
    if s.len() >= 1 {
        lemma_dec_digits_ascii(s[0] as nat);
        if s.len() > 1 {
            lemma_dotted_ascii(s.drop_first());
        }
    }
}

proof fn lemma_numeric_text_ascii(s: Seq<u32>)
    ensures
        vstd::utf8::valid_utf8(numeric_text(s)),
{
    lemma_dotted_ascii(s);
    let b = numeric_text(s);
    assert(crate::text::all_ascii(b));
    assert forall|i: int| 0 <= i < b.len() implies #[trigger] vstd::utf8::is_leading_byte_width_1(
        b[i],
    ) by {
        assert(b[i] < 128);
    }
    assert(b.subrange(0, 0) =~= Seq::<u8>::empty());
    vstd::utf8::partial_valid_utf8_extend_ascii_block(b, 0, b.len() as int);
    assert(b.subrange(0, b.len() as int) =~= b);
}

} // verus!
