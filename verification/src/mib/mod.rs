//! A self-contained SMIv1/SMIv2 MIB reader.
//!
//! Turns MIB modules into an OID tree, resolves object names (with table
//! index suffixes) to numeric OIDs, and renders numeric OIDs back to the
//! symbolic form used in DOCSIS text config files.
use vstd::prelude::*;
use crate::text::{bytes_eq, copy_bytes};
use model::{
    ensured, fresh_node, kids_of, label_slot, node_labelled, node_view, pushed, recorded, seeded,
    with_label, with_subid, MibSpec, NodeSpec,
};

pub mod lexer;
pub mod model;
pub mod oidstr;
pub mod order;
pub mod paths;
pub mod parse;
pub mod render;
pub mod resolve;

verus! {

/// The base ASN.1 type an object resolves to once textual conventions and
/// type aliases have been followed.
#[derive(Clone, Copy, PartialEq, Eq, Debug, Structural)]
pub enum BaseType {
    Other,
    ObjId,
    OctetStr,
    Integer,
    NetAddr,
    IpAddr,
    Counter,
    Gauge,
    TimeTicks,
    Opaque,
    Null,
    Counter64,
    BitString,
    Uinteger,
    Unsigned32,
    Integer32,
}

/// Whether an index of this type occupies one sub-identifier holding a plain
/// number.
pub open spec fn integerish(b: BaseType) -> bool {
    b == BaseType::Integer || b == BaseType::Integer32 || b == BaseType::Uinteger || b
        == BaseType::Unsigned32 || b == BaseType::Gauge
}

impl BaseType {
    /// Whether an index of this type occupies one sub-identifier holding a
    /// plain number, which several code paths treat alike.
    pub fn is_integerish(self) -> (r: bool)
        ensures
            r == integerish(self),
    {
        match self {
            BaseType::Integer | BaseType::Integer32 | BaseType::Uinteger | BaseType::Unsigned32
            | BaseType::Gauge => true,
            _ => false,
        }
    }
}

#[derive(Clone, Debug)]
pub struct Syntax {
    pub base: BaseType,
    /// Named values from `INTEGER { up(1), down(2) }` or a `BITS` clause.
    pub enums: Vec<(Vec<u8>, i64)>,
    /// Value ranges, or SIZE ranges when `base` is `OctetStr`.
    pub ranges: Vec<(i64, i64)>,
    /// The textual convention's DISPLAY-HINT, if it had one.
    pub hint: Option<Vec<u8>>,
}

impl Syntax {
    /// A syntax with nothing known about it.
    pub fn empty() -> (r: Syntax)
        ensures
            r.base == BaseType::Other,
            r.enums@.len() == 0,
            r.ranges@.len() == 0,
            r.hint is None,
    {
        Syntax { base: BaseType::Other, enums: Vec::new(), ranges: Vec::new(), hint: None }
    }
}

#[derive(Clone, Debug)]
pub struct Index {
    pub label: Vec<u8>,
    pub implied: bool,
}

pub type NodeId = usize;

#[derive(Clone, Debug)]
pub struct Node {
    pub label: Vec<u8>,
    pub subid: u32,
    pub parent: Option<NodeId>,
    pub children: Vec<NodeId>,
    pub syntax: Syntax,
    /// INDEX clause of a table row entry.
    pub indexes: Vec<Index>,
    /// AUGMENTS clause: this row's indexes come from another table's entry.
    pub augments: Option<Vec<u8>>,
    /// True for the placeholder nodes invented for unnamed OID arcs.
    pub anonymous: bool,
}

pub struct Mib {
    /// Every node, each after its parent.
    pub nodes: Vec<Node>,
    /// The top-level nodes.
    pub roots: Vec<NodeId>,
    /// Each label with the first node that bore it.
    pub by_label: Vec<(Vec<u8>, NodeId)>,
}

/// Whether the node at `i` is linked into the tree consistently: its parent
/// comes before it, and its children come after it and name it as parent.
pub open spec fn node_wf(nodes: Seq<Node>, i: int) -> bool {
    &&& lexer::label_text(nodes[i].label@)
    &&& (nodes[i].parent matches Some(p) ==> 0 <= p < i)
    &&& forall|k: int|
        0 <= k < nodes[i].children@.len() ==> {
            let c = #[trigger] nodes[i].children@[k];
            i < c < nodes.len() && nodes[c as int].parent == Some(i as usize)
        }
}

impl Mib {
    /// The tree's structural invariant, and how it is linked: each node is
    /// listed below its parent or at the top level, and no two nodes listed
    /// together share a sub-identifier.
    pub open spec fn wf(&self) -> bool {
        self.nodes_wf() && paths::tree_linked(self.model())
    }

    /// The tree's structural invariant: parents come before their children,
    /// children name their parent, top-level nodes have none, and every
    /// label names a node.
    pub open spec fn nodes_wf(&self) -> bool {
        &&& forall|i: int| 0 <= i < self.nodes@.len() ==> #[trigger] node_wf(self.nodes@, i)
        &&& forall|k: int|
            0 <= k < self.roots@.len() ==> {
                let r = #[trigger] self.roots@[k];
                r < self.nodes@.len() && self.nodes@[r as int].parent is None
            }
        &&& forall|k: int|
            0 <= k < self.by_label@.len() ==> (#[trigger] self.by_label@[k]).1
                < self.nodes@.len()
    }

    /// How many nodes the tree holds.
    pub open spec fn size(&self) -> nat {
        self.nodes@.len()
    }

    /// The node with id `i`.
    pub open spec fn node_at(&self, i: int) -> Node {
        self.nodes@[i]
    }

    /// The node the label table gives for `label`: the first recorded.
    pub open spec fn labelled(&self, label: Seq<u8>, id: NodeId) -> bool {
        exists|k: int|
            0 <= k < self.by_label@.len() && (#[trigger] self.by_label@[k]).0@ == label
                && self.by_label@[k].1 == id && forall|m: int|
                0 <= m < k ==> (#[trigger] self.by_label@[m]).0@ != label
    }

    /// Whether some node has been recorded under `label`.
    pub open spec fn has_label(&self, label: Seq<u8>) -> bool {
        exists|k: int| 0 <= k < self.by_label@.len() && (#[trigger] self.by_label@[k]).0@ == label
    }

    /// The nodes directly below `cur`, or the roots when `cur` is `None`.
    pub open spec fn kids(&self, cur: Option<NodeId>) -> Seq<NodeId> {
        match cur {
            Some(id) => self.nodes@[id as int].children@,
            None => self.roots@,
        }
    }

    /// The first node of `list` whose sub-identifier is `v`.
    pub open spec fn first_with_subid(&self, list: Seq<NodeId>, v: u32) -> Option<NodeId>
        decreases list.len(),
    {
        if list.len() == 0 {
            None
        } else if self.nodes@[list[0] as int].subid == v {
            Some(list[0])
        } else {
            self.first_with_subid(list.drop_first(), v)
        }
    }

    /// The first node of `list` whose label is `l`.
    pub open spec fn first_with_label(&self, list: Seq<NodeId>, l: Seq<u8>) -> Option<NodeId>
        decreases list.len(),
    {
        if list.len() == 0 {
            None
        } else if self.nodes@[list[0] as int].label@ == l {
            Some(list[0])
        } else {
            self.first_with_label(list.drop_first(), l)
        }
    }

    /// The node the label table gives for `l`, if any.
    pub open spec fn label_node(&self, l: Seq<u8>) -> Option<NodeId> {
        if self.has_label(l) {
            Some(choose|id: NodeId| self.labelled(l, id))
        } else {
            None
        }
    }

    /// The deepest node reached by following `oid` down from `cur`, where
    /// `last` is the node reached so far.
    pub open spec fn walk(&self, cur: Option<NodeId>, oid: Seq<u32>, last: Option<NodeId>) -> Option<
        NodeId,
    >
        decreases oid.len(),
    {
        if oid.len() == 0 {
            last
        } else {
            match self.first_with_subid(self.kids(cur), oid[0]) {
                Some(id) => self.walk(Some(id), oid.drop_first(), Some(id)),
                None => last,
            }
        }
    }

    /// The INDEX list of the row entry `id`: its own, or else that of the
    /// entry its AUGMENTS clause names.
    pub open spec fn row_indexes(&self, id: NodeId) -> Option<Seq<Index>> {
        let n = self.nodes@[id as int];
        if n.indexes@.len() > 0 {
            Some(n.indexes@)
        } else {
            match n.augments {
                Some(aug) => match self.label_node(aug@) {
                    Some(o) => if self.nodes@[o as int].indexes@.len() > 0 {
                        Some(self.nodes@[o as int].indexes@)
                    } else {
                        None
                    },
                    None => None,
                },
                None => None,
            }
        }
    }

    /// A label names at most one node in the label table.
    pub proof fn lemma_labelled_unique(&self, l: Seq<u8>, a: NodeId, b: NodeId)
        requires
            self.labelled(l, a),
            self.labelled(l, b),
        ensures
            a == b,
    {
        let ka = choose|k: int|
            0 <= k < self.by_label@.len() && (#[trigger] self.by_label@[k]).0@ == l
                && self.by_label@[k].1 == a && forall|m: int|
                0 <= m < k ==> (#[trigger] self.by_label@[m]).0@ != l;
        let kb = choose|k: int|
            0 <= k < self.by_label@.len() && (#[trigger] self.by_label@[k]).0@ == l
                && self.by_label@[k].1 == b && forall|m: int|
                0 <= m < k ==> (#[trigger] self.by_label@[m]).0@ != l;
        if ka < kb {
            assert(self.by_label@[ka].0@ != l);
        } else if kb < ka {
            assert(self.by_label@[kb].0@ != l);
        }
    }

    pub fn new() -> (r: Mib)
        ensures
            r.wf(),
            r.size() == 0,
            r.roots@.len() == 0,
            r.by_label@.len() == 0,
            r.model() == (MibSpec { nodes: Seq::empty(), roots: Seq::empty(), labels: Seq::empty() }),
    {
        let r = Mib { nodes: Vec::new(), roots: Vec::new(), by_label: Vec::new() };
        assert(r.model().nodes =~= Seq::<NodeSpec>::empty());
        assert(r.model().labels =~= Seq::<(Seq<u8>, NodeId)>::empty());
        proof {
            paths::lemma_empty_linked();
        }
        r
    }

    pub fn node_count(&self) -> (r: usize)
        ensures
            r == self.size(),
    {
        self.nodes.len()
    }

    pub fn node(&self, id: NodeId) -> (r: &Node)
        requires
            id < self.size(),
        ensures
            *r == self.node_at(id as int),
    {
        &self.nodes[id]
    }

    /// Register the three ASN.1 roots.
    pub fn seed_roots(&mut self)
        requires
            old(self).nodes_wf(),
            old(self).size() + 3 < usize::MAX,
        ensures
            final(self).nodes_wf(),
            old(self).wf() && (forall|k: int|
                0 <= k < old(self).roots@.len() ==> old(self).nodes@[#[trigger] old(self).roots@[k] as int].subid
                    > 2) ==> final(self).wf(),
            final(self).size() == old(self).size() + 3,
            final(self).roots@.len() >= 3,
            final(self).model() == seeded(old(self).model()),
    {
        proof {
            lemma_seed_labels();
        }
        let a = self.push_node(vec![99u8, 99, 105, 116, 116], 0, None);
        self.roots.push(a);
        let b = self.push_node(vec![105u8, 115, 111], 1, None);
        self.roots.push(b);
        let c = self.push_node(
            vec![106u8, 111, 105, 110, 116, 45, 105, 115, 111, 45, 99, 99, 105, 116, 116],
            2,
            None,
        );
        self.roots.push(c);
        proof {
            if old(self).wf() && (forall|k: int|
                0 <= k < old(self).roots@.len() ==> old(self).nodes@[#[trigger] old(self).roots@[k] as int].subid
                    > 2) {
                paths::lemma_seeded_linked(old(self).model(), *old(self));
            }
        }
    }

    /// Record `label` for `id` unless the label already names a node.
    fn record_label(&mut self, label: &Vec<u8>, id: NodeId)
        requires
            old(self).nodes_wf(),
            id < old(self).size(),
        ensures
            final(self).nodes_wf(),
            final(self).nodes == old(self).nodes,
            final(self).roots == old(self).roots,
            final(self).has_label(label@),
            final(self).model() == recorded(old(self).model(), label@, id),
    {
        if self.find_label_slot(label).is_none() {
            let ghost before = self.model();
            self.by_label.push((copy_bytes(label.as_slice()), id));
            proof {
                let k = (self.by_label@.len() - 1) as int;
                assert(self.by_label@[k].0@ == label@);
                assert(self.model().labels =~= before.labels.push((label@, id)));
            }
        }
    }

    /// The position in the label table of the first entry for `label`.
    fn find_label_slot(&self, label: &[u8]) -> (r: Option<usize>)
        ensures
            match r {
                Some(k) => k < self.by_label@.len() && self.by_label@[k as int].0@ == label@
                    && forall|m: int|
                    0 <= m < k ==> (#[trigger] self.by_label@[m]).0@ != label@,
                None => !self.has_label(label@),
            },
            match r {
                Some(k) => label_slot(self.model().labels, label@, 0) == Some(k as int),
                None => label_slot(self.model().labels, label@, 0) is None,
            },
    {
        let ghost labels = self.model().labels;
        let mut k: usize = 0;
        while k < self.by_label.len()
            invariant
                k <= self.by_label@.len(),
                labels == self.model().labels,
                forall|m: int| 0 <= m < k ==> (#[trigger] self.by_label@[m]).0@ != label@,
                label_slot(labels, label@, 0) == label_slot(labels, label@, k as int),
            decreases self.by_label@.len() - k,
        {
            if bytes_eq(self.by_label[k].0.as_slice(), label) {
                assert(labels[k as int].0 == label@);
                return Some(k);
            }
            assert(labels[k as int].0 != label@);
            k = k + 1;
        }
        None
    }

    /// Add a node under `parent` (or as a detached root when `None`).
    pub(crate) fn push_node(&mut self, label: Vec<u8>, subid: u32, parent: Option<NodeId>) -> (r:
        NodeId)
        requires
            old(self).nodes_wf(),
            lexer::label_text(label@),
            parent matches Some(p) ==> p < old(self).size(),
            old(self).size() < usize::MAX,
        ensures
            final(self).nodes_wf(),
            r == old(self).size(),
            final(self).size() == old(self).size() + 1,
            final(self).nodes@[r as int].label@ == label@,
            final(self).nodes@[r as int].subid == subid,
            final(self).nodes@[r as int].parent == parent,
            final(self).nodes@[r as int].children@.len() == 0,
            final(self).roots == old(self).roots,
            forall|i: int|
                0 <= i < old(self).size() && Some(i as usize) != parent ==> #[trigger] final(self).nodes@[i] == old(self).nodes@[i],
            parent matches Some(p) ==> final(self).nodes@[p as int].children@ == old(
                self,
            ).nodes@[p as int].children@.push(r),
            final(self).model() == pushed(old(self).model(), label@, subid, parent),
    {
        let anonymous = label.len() == 0;
        let id = self.nodes.len();
        let ghost old_self = *self;
        self.nodes.push(
            Node {
                label: copy_bytes(label.as_slice()),
                subid,
                parent,
                children: Vec::new(),
                syntax: Syntax::empty(),
                indexes: Vec::new(),
                augments: None,
                anonymous,
            },
        );
        if let Some(p) = parent {
            self.nodes[p].children.push(id);
        }
        proof {
            assert forall|i: int| 0 <= i < self.nodes@.len() implies #[trigger] node_wf(
                self.nodes@,
                i,
            ) by {
                if i < id {
                    assert(node_wf(old_self.nodes@, i));
                    assert forall|k: int| 0 <= k < self.nodes@[i].children@.len() implies {
                        let c = #[trigger] self.nodes@[i].children@[k];
                        i < c < self.nodes@.len() && self.nodes@[c as int].parent == Some(
                            i as usize,
                        )
                    } by {
                        if parent == Some(i as usize) && k == self.nodes@[i].children@.len() - 1 {
                        } else {
                            assert(self.nodes@[i].children@[k] == old_self.nodes@[i].children@[k]);
                        }
                    }
                }
            }
            let fresh = fresh_node(label@, subid, parent);
            let n = self.nodes@[id as int];
            model::lemma_enums_view_empty(n.syntax.enums@);
            assert(n.syntax.ranges@ =~= Seq::<(i64, i64)>::empty());
            assert(parse::indexes_view(n.indexes@) =~= Seq::<(Seq<u8>, bool)>::empty());
            assert(node_view(n) == fresh);
            let nodes = old_self.model().nodes.push(fresh);
            let linked = match parent {
                Some(p) => nodes.update(
                    p as int,
                    NodeSpec { children: nodes[p as int].children.push(id), ..nodes[p as int] },
                ),
                None => nodes,
            };
            assert forall|i: int| 0 <= i < self.nodes@.len() implies node_view(
                #[trigger] self.nodes@[i],
            ) == linked[i] by {
                if i < id && Some(i as usize) != parent {
                    assert(self.nodes@[i] == old_self.nodes@[i]);
                }
            }
            assert(self.model().nodes =~= linked);
        }
        if !anonymous {
            self.record_label(&label, id);
        }
        id
    }

    /// The child of `parent` (or the root) whose sub-identifier is `subid`.
    pub(crate) fn find_child(&self, parent: Option<NodeId>, subid: u32) -> (r: Option<NodeId>)
        requires
            self.wf(),
            parent matches Some(p) ==> p < self.size(),
        ensures
            r matches Some(c) ==> c < self.size() && self.nodes@[c as int].subid == subid && (
            parent matches Some(p) ==> self.nodes@[c as int].parent == Some(p)),
            r == self.first_with_subid(self.kids(parent), subid),
            r == with_subid(self.model(), kids_of(self.model(), parent), subid),
    {
        let list = match parent {
            Some(p) => &self.nodes[p].children,
            None => &self.roots,
        };
        let mut k: usize = 0;
        assert(list@.skip(0) =~= list@);
        assert(list@ == kids_of(self.model(), parent));
        while k < list.len()
            invariant
                self.wf(),
                k <= list@.len(),
                list@ == self.kids(parent),
                parent matches Some(p) ==> p < self.size() && list == &self.nodes@[p as int].children,
                parent is None ==> list == &self.roots,
                self.first_with_subid(list@, subid) == self.first_with_subid(list@.skip(k as int), subid),
                list@ == kids_of(self.model(), parent),
                with_subid(self.model(), list@, subid) == with_subid(self.model(), list@.skip(k as int), subid),
            decreases list@.len() - k,
        {
            let c = list[k];
            proof {
                if let Some(p) = parent {
                    assert(node_wf(self.nodes@, p as int));
                }
                assert(list@.skip(k as int)[0] == c);
                assert(list@.skip(k as int).drop_first() =~= list@.skip(k + 1));
                if let Some(p) = parent {
                    assert(c < self.size());
                } else {
                    assert(c < self.size());
                }
                assert(self.model().nodes[c as int].subid == self.nodes@[c as int].subid);
            }
            if self.nodes[c].subid == subid {
                return Some(c);
            }
            k = k + 1;
        }
        proof {
            assert(list@.skip(k as int).len() == 0);
        }
        None
    }

    /// The child of `parent` (or the root) whose label is `label`.
    pub(crate) fn find_child_by_label(&self, parent: Option<NodeId>, label: &[u8]) -> (r: Option<
        NodeId,
    >)
        requires
            self.wf(),
            parent matches Some(p) ==> p < self.size(),
        ensures
            r matches Some(c) ==> c < self.size() && self.nodes@[c as int].label@ == label@ && (
            parent matches Some(p) ==> self.nodes@[c as int].parent == Some(p)),
            r == with_label(self.model(), kids_of(self.model(), parent), label@),
    {
        let list = match parent {
            Some(p) => &self.nodes[p].children,
            None => &self.roots,
        };
        let mut k: usize = 0;
        assert(list@.skip(0) =~= list@);
        assert(list@ == kids_of(self.model(), parent));
        while k < list.len()
            invariant
                self.wf(),
                k <= list@.len(),
                parent matches Some(p) ==> p < self.size() && list == &self.nodes@[p as int].children,
                parent is None ==> list == &self.roots,
                list@ == kids_of(self.model(), parent),
                with_label(self.model(), list@, label@) == with_label(self.model(), list@.skip(k as int), label@),
            decreases list@.len() - k,
        {
            let c = list[k];
            proof {
                if let Some(p) = parent {
                    assert(node_wf(self.nodes@, p as int));
                }
                assert(list@.skip(k as int)[0] == c);
                assert(list@.skip(k as int).drop_first() =~= list@.skip(k + 1));
                assert(c < self.size());
                assert(self.model().nodes[c as int].label == self.nodes@[c as int].label@);
            }
            if bytes_eq(self.nodes[c].label.as_slice(), label) {
                return Some(c);
            }
            k = k + 1;
        }
        proof {
            assert(list@.skip(k as int).len() == 0);
        }
        None
    }

    /// Find or create the node at `parent.subid`, naming it if it was anonymous.
    pub(crate) fn ensure_child(&mut self, parent: Option<NodeId>, subid: u32, label: &[u8]) -> (r:
        NodeId)
        requires
            lexer::label_text(label@),
            old(self).wf(),
            parent matches Some(p) ==> p < old(self).size(),
            old(self).size() < usize::MAX,
        ensures
            final(self).wf(),
            r < final(self).size(),
            final(self).size() <= old(self).size() + 1,
            final(self).size() >= old(self).size(),
            final(self).nodes@[r as int].subid == subid,
            parent matches Some(p) ==> final(self).nodes@[r as int].parent == Some(p),
            (final(self).model(), r) == ensured(old(self).model(), parent, subid, label@),
    {
        proof {
            paths::law_ensure_child(self.model(), parent, subid, label@, label@);
        }
        if let Some(id) = self.find_child(parent, subid) {
            let lv = copy_bytes(label);
            if label.len() > 0 && self.nodes[id].anonymous {
                let ghost old_self = *self;
                self.nodes[id].label = copy_bytes(lv.as_slice());
                self.nodes[id].anonymous = false;
                proof {
                    let m = old_self.model();
                    let upd = m.nodes.update(
                        id as int,
                        NodeSpec { label: label@, anonymous: false, ..m.nodes[id as int] },
                    );
                    assert forall|i: int| 0 <= i < self.nodes@.len() implies node_view(
                        #[trigger] self.nodes@[i],
                    ) == upd[i] by {
                        if i != id {
                            assert(self.nodes@[i] == old_self.nodes@[i]);
                        }
                    }
                    assert(self.model().nodes =~= upd);
                    assert forall|i: int| 0 <= i < self.nodes@.len() implies #[trigger] node_wf(
                        self.nodes@,
                        i,
                    ) by {
                        assert(node_wf(old_self.nodes@, i));
                        assert forall|k: int| 0 <= k < self.nodes@[i].children@.len() implies {
                            let c = #[trigger] self.nodes@[i].children@[k];
                            i < c < self.nodes@.len() && self.nodes@[c as int].parent == Some(
                                i as usize,
                            )
                        } by {
                            assert(self.nodes@[i].children@[k] == old_self.nodes@[i].children@[k]);
                        }
                    }
                }
                self.record_label(&lv, id);
            } else if label.len() > 0 {
                self.record_label(&lv, id);
            }
            return id;
        }
        let id = self.push_node(copy_bytes(label), subid, parent);
        if parent.is_none() {
            self.roots.push(id);
        }
        id
    }

    /// Look up a node by its bare object name.
    pub fn find_by_label(&self, label: &[u8]) -> (r: Option<NodeId>)
        requires
            self.wf(),
        ensures
            match r {
                Some(id) => id < self.size() && self.labelled(label@, id),
                None => !self.has_label(label@),
            },
            r == self.label_node(label@),
            r == node_labelled(self.model(), label@),
    {
        match self.find_label_slot(label) {
            Some(k) => {
                let id = self.by_label[k].1;
                proof {
                    assert(self.labelled(label@, id));
                    let c = choose|c: NodeId| self.labelled(label@, c);
                    self.lemma_labelled_unique(label@, id, c);
                }
                Some(id)
            },
            None => None,
        }
    }

    /// The numeric OID of a node.
    pub fn oid_of(&self, id: NodeId) -> (r: Vec<u32>)
        requires
            self.wf(),
            id < self.size(),
        ensures
            r@ == oid_path(self.nodes@, id as int),
            r@.len() >= 1,
        decreases id,
    {
        proof {
            assert(node_wf(self.nodes@, id as int));
        }
        match self.nodes[id].parent {
            Some(p) => {
                let mut v = self.oid_of(p);
                v.push(self.nodes[id].subid);
                v
            },
            None => {
                let mut v: Vec<u32> = Vec::new();
                v.push(self.nodes[id].subid);
                assert(v@ =~= seq![self.nodes@[id as int].subid]);
                v
            },
        }
    }

    /// Walk as far down the tree as `oid` goes, returning the deepest node
    /// reached.  Equivalent to net-snmp's `get_tree`.
    pub fn get_tree(&self, oid: &[u32]) -> (r: Option<NodeId>)
        requires
            self.wf(),
        ensures
            r matches Some(id) ==> id < self.size(),
            oid@.len() == 0 ==> r is None,
            r == self.walk(None, oid@, None),
    {
        let mut parent: Option<NodeId> = None;
        let mut last: Option<NodeId> = None;
        let mut i: usize = 0;
        assert(oid@.skip(0) =~= oid@);
        while i < oid.len()
            invariant
                self.wf(),
                i <= oid@.len(),
                i == 0 ==> last is None,
                last matches Some(id) ==> id < self.size(),
                parent matches Some(id) ==> id < self.size(),
                self.walk(None, oid@, None) == self.walk(parent, oid@.skip(i as int), last),
            decreases oid@.len() - i,
        {
            proof {
                assert(oid@.skip(i as int)[0] == oid@[i as int]);
                assert(oid@.skip(i as int).drop_first() =~= oid@.skip(i + 1));
            }
            match self.find_child(parent, oid[i]) {
                Some(id) => {
                    last = Some(id);
                    parent = Some(id);
                },
                None => {
                    return last;
                },
            }
            i = i + 1;
        }
        proof {
            assert(oid@.skip(i as int).len() == 0);
        }
        last
    }

    /// The INDEX list that applies to a row entry, following AUGMENTS.
    pub(crate) fn indexes_of(&self, id: NodeId) -> (r: Option<&Vec<Index>>)
        requires
            self.wf(),
            id < self.size(),
        ensures
            match r {
                Some(v) => self.row_indexes(id) == Some(v@),
                None => self.row_indexes(id) is None,
            },
    {
        let n = &self.nodes[id];
        if n.indexes.len() > 0 {
            return Some(&n.indexes);
        }
        if let Some(aug) = &n.augments {
            let other = match self.find_by_label(aug.as_slice()) {
                Some(o) => o,
                None => return None,
            };
            if self.nodes[other].indexes.len() > 0 {
                return Some(&self.nodes[other].indexes);
            }
        }
        None
    }
}

/// The sub-identifiers on the path from a root down to node `i`.
pub open spec fn oid_path(nodes: Seq<Node>, i: int) -> Seq<u32>
    decreases i,
{
    if i < 0 || i >= nodes.len() {
        Seq::empty()
    } else {
        match nodes[i].parent {
            Some(p) => if 0 <= p < i {
                oid_path(nodes, p as int).push(nodes[i].subid)
            } else {
                seq![nodes[i].subid]
            },
            None => seq![nodes[i].subid],
        }
    }
}

/// Skip build scaffolding that happens to sit next to the MIB files.
pub fn is_ignored_file(name: &[u8]) -> (r: bool)
    ensures
        r == ignored_name(name@),
{
    (name.len() > 0 && name[0] == 46) || crate::text::starts_with(
        name,
        &[77u8, 97, 107, 101, 102, 105, 108, 101],
    ) || ends_with(name, &[46u8, 97, 109]) || ends_with(name, &[46u8, 105, 110]) || ends_with(
        name,
        &[46u8, 111],
    ) || ends_with(name, &[46u8, 103, 122]) || ends_with(name, &[46u8, 98, 122, 50])
}

/// Whether `s` ends with `suffix`.
pub open spec fn has_suffix(s: Seq<u8>, suffix: Seq<u8>) -> bool {
    suffix.len() <= s.len() && s.skip(s.len() - suffix.len()) == suffix
}

/// Whether a file name in a MIB directory is build scaffolding: a dot file, a
/// Makefile, or an `.am`, `.in`, `.o`, `.gz` or `.bz2` file.
pub open spec fn ignored_name(n: Seq<u8>) -> bool {
    (n.len() > 0 && n[0] == 46) || (8 <= n.len() && n.take(8) == seq![
        77u8,
        97,
        107,
        101,
        102,
        105,
        108,
        101,
    ]) || has_suffix(n, seq![46u8, 97, 109]) || has_suffix(n, seq![46u8, 105, 110]) || has_suffix(
        n,
        seq![46u8, 111],
    ) || has_suffix(n, seq![46u8, 103, 122]) || has_suffix(n, seq![46u8, 98, 122, 50])
}

/// Whether `s` ends with `suffix`.
pub fn ends_with(s: &[u8], suffix: &[u8]) -> (r: bool)
    ensures
        r == has_suffix(s@, suffix@),
{
    if suffix.len() > s.len() {
        return false;
    }
    let n = s.len();
    let off = n - suffix.len();
    let mut i: usize = 0;
    while i < suffix.len()
        invariant
            n == s@.len(),
            off + suffix@.len() == s@.len(),
            i <= suffix@.len(),
            forall|k: int| 0 <= k < i ==> s@[off + k] == suffix@[k],
        decreases suffix@.len() - i,
    {
        if s[off + i] != suffix[i] {
            assert(s@.skip(off as int)[i as int] != suffix@[i as int]);
            return false;
        }
        i = i + 1;
    }
    assert(s@.skip(off as int) =~= suffix@);
    true
}

/// The labels of the three top-level arcs are words.
proof fn lemma_seed_labels()
    ensures
        lexer::label_text(seq![99u8, 99, 105, 116, 116]),
        lexer::label_text(seq![105u8, 115, 111]),
        lexer::label_text(
            seq![106u8, 111, 105, 110, 116, 45, 105, 115, 111, 45, 99, 99, 105, 116, 116],
        ),
{
    let a = seq![99u8, 99, 105, 116, 116];
    let b = seq![105u8, 115, 111];
    let c = seq![106u8, 111, 105, 110, 116, 45, 105, 115, 111, 45, 99, 99, 105, 116, 116];
    assert forall|k: int| 0 <= k < a.len() implies lexer::label_byte(#[trigger] a[k]) by {
        assert(a[k] == 99 || a[k] == 105 || a[k] == 116);
    }
    assert forall|k: int| 0 <= k < b.len() implies lexer::label_byte(#[trigger] b[k]) by {
        assert(b[k] == 105 || b[k] == 115 || b[k] == 111);
    }
    assert forall|k: int| 0 <= k < c.len() implies lexer::label_byte(#[trigger] c[k]) by {
        assert(c[k] == 106 || c[k] == 111 || c[k] == 105 || c[k] == 110 || c[k] == 116 || c[k]
            == 45 || c[k] == 115 || c[k] == 99);
    }
}

} // verus!
