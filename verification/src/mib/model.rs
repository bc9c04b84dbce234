//! The OID tree as plain values, and what each step of building it does.
use vstd::prelude::*;
use super::parse::{enums_view, indexes_view, opt_bytes, DefSpec, ElemSpec, SyntaxSpec};
use super::resolve::{resolve_spec, resolved_view, ResolvedSpec};
use super::{BaseType, Mib, Node, NodeId};

verus! {

/// A node as plain values.
pub struct NodeSpec {
    pub label: Seq<u8>,
    pub subid: u32,
    pub parent: Option<NodeId>,
    pub children: Seq<NodeId>,
    pub syntax: ResolvedSpec,
    pub indexes: Seq<(Seq<u8>, bool)>,
    pub augments: Option<Seq<u8>>,
    pub anonymous: bool,
}

/// The tree as plain values: its nodes, its top-level nodes, and each label
/// with the first node that bore it.
pub struct MibSpec {
    pub nodes: Seq<NodeSpec>,
    pub roots: Seq<NodeId>,
    pub labels: Seq<(Seq<u8>, NodeId)>,
}

/// The plain values of a node.
pub open spec fn node_view(n: Node) -> NodeSpec {
    NodeSpec {
        label: n.label@,
        subid: n.subid,
        parent: n.parent,
        children: n.children@,
        syntax: resolved_view(n.syntax),
        indexes: indexes_view(n.indexes@),
        augments: opt_bytes(n.augments),
        anonymous: n.anonymous,
    }
}

impl Mib {
    /// The tree as plain values.
    pub open spec fn model(&self) -> MibSpec {
        MibSpec {
            nodes: self.nodes@.map_values(|n: Node| node_view(n)),
            roots: self.roots@,
            labels: self.by_label@.map_values(|e: (Vec<u8>, NodeId)| (e.0@, e.1)),
        }
    }
}

/// An empty enumeration has no named values.
pub proof fn lemma_enums_view_empty(e: Seq<(Vec<u8>, i64)>)
    requires
        e.len() == 0,
    ensures
        enums_view(e) == Seq::<(Seq<u8>, i64)>::empty(),
{
    assert(enums_view(e) =~= Seq::<(Seq<u8>, i64)>::empty());
}

/// The syntax of a node that nothing has been said about.
pub open spec fn unknown_syntax() -> ResolvedSpec {
    ResolvedSpec { base: BaseType::Other, enums: Seq::empty(), ranges: Seq::empty(), hint: None }
}

/// The first entry from `k` on for label `l`.
pub open spec fn label_slot(labels: Seq<(Seq<u8>, NodeId)>, l: Seq<u8>, k: int) -> Option<int>
    decreases labels.len() - k,
{
    if k < 0 || k >= labels.len() {
        None
    } else if labels[k].0 == l {
        Some(k)
    } else {
        label_slot(labels, l, k + 1)
    }
}

/// The node recorded for label `l`.
pub open spec fn node_labelled(m: MibSpec, l: Seq<u8>) -> Option<NodeId> {
    match label_slot(m.labels, l, 0) {
        Some(k) => Some(m.labels[k].1),
        None => None,
    }
}

/// `m` with `l` recorded for node `id`, unless `l` already names a node.
pub open spec fn recorded(m: MibSpec, l: Seq<u8>, id: NodeId) -> MibSpec {
    if label_slot(m.labels, l, 0) is Some {
        m
    } else {
        MibSpec { labels: m.labels.push((l, id)), ..m }
    }
}

/// A node just made.
pub open spec fn fresh_node(label: Seq<u8>, subid: u32, parent: Option<NodeId>) -> NodeSpec {
    NodeSpec {
        label,
        subid,
        parent,
        children: Seq::empty(),
        syntax: unknown_syntax(),
        indexes: Seq::empty(),
        augments: None,
        anonymous: label.len() == 0,
    }
}

/// `m` with a new last node under `parent` (detached when `None`); a label
/// it bears is recorded.
pub open spec fn pushed(m: MibSpec, label: Seq<u8>, subid: u32, parent: Option<NodeId>) -> MibSpec {
    let id = m.nodes.len() as usize;
    let nodes = m.nodes.push(fresh_node(label, subid, parent));
    let linked = match parent {
        Some(p) => nodes.update(p as int, NodeSpec { children: nodes[p as int].children.push(id), ..nodes[p as int] }),
        None => nodes,
    };
    let m2 = MibSpec { nodes: linked, ..m };
    if label.len() > 0 {
        recorded(m2, label, id)
    } else {
        m2
    }
}

/// The nodes directly below `cur`, or the roots when `cur` is `None`.
pub open spec fn kids_of(m: MibSpec, cur: Option<NodeId>) -> Seq<NodeId> {
    match cur {
        Some(id) => m.nodes[id as int].children,
        None => m.roots,
    }
}

/// The first node of `list` whose sub-identifier is `v`.
pub open spec fn with_subid(m: MibSpec, list: Seq<NodeId>, v: u32) -> Option<NodeId>
    decreases list.len(),
{
    if list.len() == 0 {
        None
    } else if m.nodes[list[0] as int].subid == v {
        Some(list[0])
    } else {
        with_subid(m, list.drop_first(), v)
    }
}

/// The first node of `list` whose label is `l`.
pub open spec fn with_label(m: MibSpec, list: Seq<NodeId>, l: Seq<u8>) -> Option<NodeId>
    decreases list.len(),
{
    if list.len() == 0 {
        None
    } else if m.nodes[list[0] as int].label == l {
        Some(list[0])
    } else {
        with_label(m, list.drop_first(), l)
    }
}

/// Finding or making the node at `parent.subid`: an anonymous node found is
/// given `label`, and a label given is recorded.  Also the node's id.
pub open spec fn ensured(m: MibSpec, parent: Option<NodeId>, subid: u32, label: Seq<u8>) -> (
    MibSpec,
    NodeId,
) {
    match with_subid(m, kids_of(m, parent), subid) {
        Some(id) => if label.len() > 0 && m.nodes[id as int].anonymous {
            (
                recorded(
                    MibSpec {
                        nodes: m.nodes.update(
                            id as int,
                            NodeSpec { label, anonymous: false, ..m.nodes[id as int] },
                        ),
                        ..m
                    },
                    label,
                    id,
                ),
                id,
            )
        } else if label.len() > 0 {
            (recorded(m, label, id), id)
        } else {
            (m, id)
        },
        None => {
            let id = m.nodes.len() as usize;
            let m2 = pushed(m, label, subid, parent);
            (
                if parent is None {
                    MibSpec { roots: m2.roots.push(id), ..m2 }
                } else {
                    m2
                },
                id,
            )
        },
    }
}

/// Placing the elements of `def` from `idx` on below `cur`: the node of
/// its last element, or `None` when a name cannot be found (or the tree is
/// full), with the nodes made on the way.
pub open spec fn place_from(m: MibSpec, def: DefSpec, idx: int, cur: Option<NodeId>) -> (
    MibSpec,
    Option<NodeId>,
)
    decreases def.elems.len() - idx,
{
    if idx < 0 || idx >= def.elems.len() {
        (m, cur)
    } else if m.nodes.len() >= usize::MAX - 2 {
        (m, None)
    } else {
        let last = idx == def.elems.len() - 1;
        match def.elems[idx] {
            ElemSpec::Num(v) => {
                let (m2, id) = ensured(
                    m,
                    cur,
                    v,
                    if last {
                        def.name
                    } else {
                        Seq::empty()
                    },
                );
                place_from(m2, def, idx + 1, Some(id))
            },
            ElemSpec::NamedNum(name, v) => {
                let (m2, id) = ensured(m, cur, v, name);
                let m3 = if last && def.name.len() > 0 {
                    ensured(m2, cur, v, def.name).0
                } else {
                    m2
                };
                place_from(m3, def, idx + 1, Some(id))
            },
            ElemSpec::Name(name) => {
                let found = if idx == 0 {
                    node_labelled(m, name)
                } else {
                    with_label(m, kids_of(m, cur), name)
                };
                match found {
                    Some(id) => place_from(m, def, idx + 1, Some(id)),
                    None => (m, None),
                }
            },
        }
    }
}

/// Placing a definition's OID value in the tree.
pub open spec fn placed(m: MibSpec, def: DefSpec) -> (MibSpec, Option<NodeId>) {
    if def.elems.len() == 0 {
        (m, None)
    } else {
        place_from(m, def, 0, None)
    }
}

/// `m` with the syntax, INDEX and AUGMENTS of `def` given to node `id`
/// where the node has none yet.  A syntax counts only when it gives a base
/// type or an enumeration.
pub open spec fn attached(
    m: MibSpec,
    id: NodeId,
    def: DefSpec,
    types: Seq<(Seq<u8>, SyntaxSpec)>,
) -> MibSpec {
    let n = m.nodes[id as int];
    let syntax = match def.syntax {
        Some(sr) => {
            let s = resolve_spec(sr, types, 0);
            let unset = n.syntax.base == BaseType::Other && n.syntax.enums.len() == 0
                && n.syntax.ranges.len() == 0 && n.syntax.hint is None;
            if unset && (s.base != BaseType::Other || s.enums.len() > 0) {
                s
            } else {
                n.syntax
            }
        },
        None => n.syntax,
    };
    let indexes = if def.indexes.len() > 0 && n.indexes.len() == 0 {
        def.indexes
    } else {
        n.indexes
    };
    let augments = if def.augments is Some && n.augments is None {
        def.augments
    } else {
        n.augments
    };
    MibSpec { nodes: m.nodes.update(id as int, NodeSpec { syntax, indexes, augments, ..n }), ..m }
}

/// One pass over `pending` from `k` on: each definition that can be placed
/// is, and gets its clauses; the others are kept, in order, in `deferred`.
pub open spec fn install_pass(
    m: MibSpec,
    pending: Seq<DefSpec>,
    k: int,
    deferred: Seq<DefSpec>,
    types: Seq<(Seq<u8>, SyntaxSpec)>,
) -> (MibSpec, Seq<DefSpec>)
    decreases pending.len() - k,
{
    if k < 0 || k >= pending.len() {
        (m, deferred)
    } else {
        let (m2, r) = placed(m, pending[k]);
        match r {
            Some(id) => install_pass(attached(m2, id, pending[k], types), pending, k + 1, deferred, types),
            None => install_pass(m2, pending, k + 1, deferred.push(pending[k]), types),
        }
    }
}

pub proof fn lemma_install_pass(
    m: MibSpec,
    pending: Seq<DefSpec>,
    k: int,
    deferred: Seq<DefSpec>,
    types: Seq<(Seq<u8>, SyntaxSpec)>,
)
    requires
        0 <= k <= pending.len(),
    ensures
        install_pass(m, pending, k, deferred, types).1.len() <= deferred.len() + pending.len() - k,
    decreases pending.len() - k,
{
    if k < pending.len() {
        let (m2, r) = placed(m, pending[k]);
        match r {
            Some(id) => lemma_install_pass(attached(m2, id, pending[k], types), pending, k + 1, deferred, types),
            None => lemma_install_pass(m2, pending, k + 1, deferred.push(pending[k]), types),
        }
    }
}

/// Installing definitions: passes repeat while a pass places some but not
/// all of what is left.
pub open spec fn installed(m: MibSpec, pending: Seq<DefSpec>, types: Seq<(Seq<u8>, SyntaxSpec)>) -> MibSpec
    decreases pending.len(),
{
    let (m2, deferred) = install_pass(m, pending, 0, Seq::empty(), types);
    if deferred.len() == pending.len() || deferred.len() == 0 {
        m2
    } else {
        proof {
            lemma_install_pass(m, pending, 0, Seq::empty(), types);
        }
        installed(m2, deferred, types)
    }
}

/// The empty tree with the three top-level arcs `ccitt(0)`, `iso(1)` and
/// `joint-iso-ccitt(2)`.
pub open spec fn seeded(m: MibSpec) -> MibSpec {
    let a = m.nodes.len() as usize;
    let m1 = pushed(m, seq![99u8, 99, 105, 116, 116], 0, None);
    let m1 = MibSpec { roots: m1.roots.push(a), ..m1 };
    let b = m1.nodes.len() as usize;
    let m2 = pushed(m1, seq![105u8, 115, 111], 1, None);
    let m2 = MibSpec { roots: m2.roots.push(b), ..m2 };
    let c = m2.nodes.len() as usize;
    let m3 = pushed(
        m2,
        seq![106u8, 111, 105, 110, 116, 45, 105, 115, 111, 45, 99, 99, 105, 116, 116],
        2,
        None,
    );
    MibSpec { roots: m3.roots.push(c), ..m3 }
}

} // verus!
