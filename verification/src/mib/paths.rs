//! How the tree is linked, and that the path of every node leads back to
//! it.
use vstd::prelude::*;
use super::model::{
    attached, ensured, kids_of, label_slot, node_labelled, pushed, recorded, seeded, with_subid,
    MibSpec,
};
use super::parse::{DefSpec, SyntaxSpec};
use super::{oid_path, Index, Mib, NodeId};
use super::render::{dot_start, letter_end, OidFormat};
use crate::text::{dec_digits, is_alpha};

verus! {

/// Whether no two nodes of `list` share a sub-identifier.
pub open spec fn distinct_subids(m: MibSpec, list: Seq<NodeId>) -> bool {
    forall|a: int, b: int|
        0 <= a < b < list.len() ==> m.nodes[list[a] as int].subid != m.nodes[list[b] as int].subid
}

/// Whether the nodes of `list` are all in the tree.
pub open spec fn ids_in(m: MibSpec, list: Seq<NodeId>) -> bool {
    forall|k: int| 0 <= k < list.len() ==> #[trigger] list[k] < m.nodes.len()
}

/// How the tree is linked: each node is listed below its parent (or among
/// the top-level nodes when it has none), each node listed below another
/// names it as parent, no two nodes listed together share a
/// sub-identifier, and every label names a node of the tree.
pub closed spec fn tree_linked(m: MibSpec) -> bool {
    &&& forall|i: int|
        0 <= i < m.nodes.len() ==> match #[trigger] m.nodes[i].parent {
            Some(p) => p < i && m.nodes[p as int].children.contains(i as NodeId),
            None => m.roots.contains(i as NodeId),
        }
    &&& ids_in(m, m.roots)
    &&& forall|k: int| 0 <= k < m.roots.len() ==> m.nodes[#[trigger] m.roots[k] as int].parent is None
    &&& forall|i: int|
        0 <= i < m.nodes.len() ==> {
            &&& ids_in(m, #[trigger] m.nodes[i].children)
            &&& forall|k: int|
                0 <= k < m.nodes[i].children.len() ==> m.nodes[#[trigger] m.nodes[i].children[k] as int].parent
                    == Some(i as NodeId)
        }
    &&& distinct_subids(m, m.roots)
    &&& forall|i: int| 0 <= i < m.nodes.len() ==> distinct_subids(m, #[trigger] m.nodes[i].children)
    &&& forall|k: int| 0 <= k < m.labels.len() ==> (#[trigger] m.labels[k]).1 < m.nodes.len()
}

/// Two trees with the same nodes, top-level nodes and links, and the same
/// sub-identifiers.
pub open spec fn same_shape(m: MibSpec, m2: MibSpec) -> bool {
    &&& m2.nodes.len() == m.nodes.len()
    &&& m2.roots == m.roots
    &&& forall|i: int|
        0 <= i < m.nodes.len() ==> {
            &&& (#[trigger] m2.nodes[i]).subid == m.nodes[i].subid
            &&& m2.nodes[i].parent == m.nodes[i].parent
            &&& m2.nodes[i].children == m.nodes[i].children
        }
}

proof fn lemma_same_shape(m: MibSpec, m2: MibSpec)
    requires
        tree_linked(m),
        same_shape(m, m2),
        forall|k: int| 0 <= k < m2.labels.len() ==> (#[trigger] m2.labels[k]).1 < m2.nodes.len(),
    ensures
        tree_linked(m2),
{
    assert forall|i: int| 0 <= i < m2.nodes.len() implies distinct_subids(
        m2,
        #[trigger] m2.nodes[i].children,
    ) by {
        assert(distinct_subids(m, m.nodes[i].children));
        assert(ids_in(m, m.nodes[i].children));
        let c = m.nodes[i].children;
        assert forall|a: int, b: int| 0 <= a < b < c.len() implies m2.nodes[c[a] as int].subid
            != m2.nodes[c[b] as int].subid by {
            assert(c[a] < m.nodes.len());
            assert(c[b] < m.nodes.len());
        }
    }
    assert forall|i: int| 0 <= i < m2.nodes.len() implies {
        &&& ids_in(m2, #[trigger] m2.nodes[i].children)
        &&& forall|k: int|
            0 <= k < m2.nodes[i].children.len() ==> m2.nodes[#[trigger] m2.nodes[i].children[k] as int].parent
                == Some(i as NodeId)
    } by {
        assert(ids_in(m, m.nodes[i].children));
        assert forall|k: int| 0 <= k < m2.nodes[i].children.len() implies m2.nodes[#[trigger] m2.nodes[i].children[k] as int].parent
            == Some(i as NodeId) by {
            assert(m.nodes[i].children[k] < m.nodes.len());
        }
    }
    let r = m.roots;
    assert forall|a: int, b: int| 0 <= a < b < r.len() implies m2.nodes[r[a] as int].subid
        != m2.nodes[r[b] as int].subid by {
        assert(r[a] < m.nodes.len());
        assert(r[b] < m.nodes.len());
    }
    assert forall|k: int| 0 <= k < r.len() implies m2.nodes[#[trigger] r[k] as int].parent is None by {
        assert(r[k] < m.nodes.len());
    }
    assert forall|i: int| 0 <= i < m2.nodes.len() implies match #[trigger] m2.nodes[i].parent {
        Some(p) => p < i && m2.nodes[p as int].children.contains(i as NodeId),
        None => m2.roots.contains(i as NodeId),
    } by {
        assert(m.nodes[i].parent == m2.nodes[i].parent);
    }
}

proof fn lemma_label_slot(labels: Seq<(Seq<u8>, NodeId)>, l: Seq<u8>, k: int)
    ensures
        label_slot(labels, l, k) matches Some(j) ==> 0 <= j < labels.len(),
    decreases labels.len() - k,
{
    if 0 <= k < labels.len() && labels[k].0 != l {
        lemma_label_slot(labels, l, k + 1);
    }
}

proof fn lemma_recorded(m: MibSpec, l: Seq<u8>, id: NodeId)
    requires
        tree_linked(m),
        id < m.nodes.len(),
    ensures
        tree_linked(recorded(m, l, id)),
        recorded(m, l, id).nodes == m.nodes,
        recorded(m, l, id).roots == m.roots,
{
    let m2 = recorded(m, l, id);
    assert forall|k: int| 0 <= k < m2.labels.len() implies (#[trigger] m2.labels[k]).1
        < m2.nodes.len() by {
        if k < m.labels.len() {
            assert(m2.labels[k] == m.labels[k]);
        }
    }
    lemma_same_shape(m, m2);
}

/// The first node of `list` with sub-identifier `v`: one of `list`, with
/// that sub-identifier; when there is none, no node of `list` has it.
proof fn lemma_with_subid(m: MibSpec, list: Seq<NodeId>, v: u32)
    ensures
        with_subid(m, list, v) matches Some(id) ==> list.contains(id) && m.nodes[id as int].subid == v,
        with_subid(m, list, v) is None ==> forall|k: int|
            0 <= k < list.len() ==> m.nodes[#[trigger] list[k] as int].subid != v,
    decreases list.len(),
{
    if list.len() > 0 && m.nodes[list[0] as int].subid != v {
        lemma_with_subid(m, list.drop_first(), v);
        match with_subid(m, list, v) {
            Some(id) => {
                let j = choose|j: int| 0 <= j < list.drop_first().len() && list.drop_first()[j] == id;
                assert(list[j + 1] == id);
            },
            None => {},
        }
        assert forall|k: int| 0 <= k < list.len() && with_subid(m, list, v) is None implies m.nodes[#[trigger] list[k] as int].subid
            != v by {
            if k > 0 {
                assert(list[k] == list.drop_first()[k - 1]);
            }
        }
    } else if list.len() > 0 {
        assert(list[0] == list[0]);
    }
}

/// A node of `list` whose sub-identifier no other shares is the first
/// with it.
proof fn lemma_with_subid_found(m: MibSpec, list: Seq<NodeId>, j: int)
    requires
        0 <= j < list.len(),
        distinct_subids(m, list),
    ensures
        with_subid(m, list, m.nodes[list[j] as int].subid) == Some(list[j]),
    decreases list.len(),
{
    if j > 0 {
        let t = list.drop_first();
        assert(m.nodes[list[0] as int].subid != m.nodes[list[j] as int].subid);
        assert forall|a: int, b: int| 0 <= a < b < t.len() implies m.nodes[t[a] as int].subid
            != m.nodes[t[b] as int].subid by {
            assert(t[a] == list[a + 1]);
            assert(t[b] == list[b + 1]);
        }
        assert(t[j - 1] == list[j]);
        lemma_with_subid_found(m, t, j - 1);
    }
}

/// `m3` is `m` with one more node, `id == m.nodes.len()`, with
/// sub-identifier `subid`, listed below `parent` (or at the top level).
pub open spec fn grew(m: MibSpec, m3: MibSpec, subid: u32, parent: Option<NodeId>) -> bool {
    let n = m.nodes.len();
    let id = n as NodeId;
    &&& n < usize::MAX
    &&& m3.nodes.len() == n + 1
    &&& m3.nodes[n as int].subid == subid
    &&& m3.nodes[n as int].parent == parent
    &&& m3.nodes[n as int].children.len() == 0
    &&& forall|i: int|
        0 <= i < n ==> (#[trigger] m3.nodes[i]).subid == m.nodes[i].subid && m3.nodes[i].parent
            == m.nodes[i].parent && (Some(i as NodeId) != parent ==> m3.nodes[i].children
            == m.nodes[i].children)
    &&& match parent {
        Some(p) => p < n && m3.nodes[p as int].children == m.nodes[p as int].children.push(id)
            && m3.roots == m.roots,
        None => m3.roots == m.roots.push(id),
    }
    &&& forall|k: int| 0 <= k < m3.labels.len() ==> (#[trigger] m3.labels[k]).1 < m3.nodes.len()
}

proof fn lemma_grew_links(m: MibSpec, m3: MibSpec, subid: u32, parent: Option<NodeId>)
    requires
        tree_linked(m),
        grew(m, m3, subid, parent),
    ensures
        forall|i: int|
            0 <= i < m3.nodes.len() ==> match #[trigger] m3.nodes[i].parent {
                Some(p) => p < i && m3.nodes[p as int].children.contains(i as NodeId),
                None => m3.roots.contains(i as NodeId),
            },
        ids_in(m3, m3.roots),
        forall|k: int| 0 <= k < m3.roots.len() ==> m3.nodes[#[trigger] m3.roots[k] as int].parent is None,
{
    let n = m.nodes.len();
    let id = n as NodeId;
    assert forall|i: int| 0 <= i < m3.nodes.len() implies match #[trigger] m3.nodes[i].parent {
        Some(p) => p < i && m3.nodes[p as int].children.contains(i as NodeId),
        None => m3.roots.contains(i as NodeId),
    } by {
        if i == n {
            match parent {
                Some(p) => assert(m3.nodes[p as int].children[m.nodes[p as int].children.len() as int] == id),
                None => assert(m3.roots[m.roots.len() as int] == id),
            }
        } else {
            assert(m3.nodes[i].parent == m.nodes[i].parent);
            match m.nodes[i].parent {
                Some(p) => {
                    assert(m.nodes[p as int].children.contains(i as NodeId));
                    let j = choose|j: int| 0 <= j < m.nodes[p as int].children.len() && m.nodes[p as int].children[j] == i as NodeId;
                    assert(m3.nodes[p as int].children[j] == i as NodeId);
                },
                None => {
                    assert(m.roots.contains(i as NodeId));
                    let j = choose|j: int| 0 <= j < m.roots.len() && m.roots[j] == i as NodeId;
                    assert(m3.roots[j] == i as NodeId);
                },
            }
        }
    }
    assert(ids_in(m, m.roots));
    assert forall|k: int| 0 <= k < m3.roots.len() implies #[trigger] m3.roots[k] < m3.nodes.len() by {
        if k < m.roots.len() {
            assert(m3.roots[k] == m.roots[k]);
        }
    }
    assert forall|k: int| 0 <= k < m3.roots.len() implies m3.nodes[#[trigger] m3.roots[k] as int].parent is None by {
        if k < m.roots.len() {
            let r = m.roots[k];
            assert(m3.roots[k] == r);
            assert(r < n);
            assert(m.nodes[r as int].parent is None);
            assert(m3.nodes[r as int].parent == m.nodes[r as int].parent);
        } else {
            assert(parent is None);
            assert(m3.roots[k] == id);
        }
    }
}

proof fn lemma_grew_children(m: MibSpec, m3: MibSpec, subid: u32, parent: Option<NodeId>)
    requires
        tree_linked(m),
        grew(m, m3, subid, parent),
    ensures
        forall|i: int|
            0 <= i < m3.nodes.len() ==> {
                &&& ids_in(m3, #[trigger] m3.nodes[i].children)
                &&& forall|k: int|
                    0 <= k < m3.nodes[i].children.len() ==> m3.nodes[#[trigger] m3.nodes[i].children[k] as int].parent
                        == Some(i as NodeId)
            },
{
    let n = m.nodes.len();
    assert forall|i: int| 0 <= i < m3.nodes.len() implies {
        &&& ids_in(m3, #[trigger] m3.nodes[i].children)
        &&& forall|k: int|
            0 <= k < m3.nodes[i].children.len() ==> m3.nodes[#[trigger] m3.nodes[i].children[k] as int].parent
                == Some(i as NodeId)
    } by {
        if i < n {
            let o = m.nodes[i].children;
            let c = m3.nodes[i].children;
            assert(ids_in(m, o));
            if parent == Some(i as NodeId) {
                assert(c == o.push(n as NodeId));
            } else {
                assert(c == o);
            }
            assert forall|k: int| 0 <= k < c.len() implies #[trigger] c[k] < m3.nodes.len()
                && m3.nodes[c[k] as int].parent == Some(i as NodeId) by {
                if k < o.len() {
                    assert(c[k] == o[k]);
                    assert(o[k] < n);
                    assert(m.nodes[o[k] as int].parent == Some(i as NodeId));
                    assert(m3.nodes[o[k] as int].parent == m.nodes[o[k] as int].parent);
                } else {
                    assert(c[k] == n);
                }
            }
        }
    }
}

proof fn lemma_grew_subids(m: MibSpec, m3: MibSpec, subid: u32, parent: Option<NodeId>)
    requires
        tree_linked(m),
        grew(m, m3, subid, parent),
        parent matches Some(p) ==> forall|k: int|
            0 <= k < m.nodes[p as int].children.len() ==> m.nodes[#[trigger] m.nodes[p as int].children[k] as int].subid
                != subid,
        parent is None ==> forall|k: int|
            0 <= k < m.roots.len() ==> m.nodes[#[trigger] m.roots[k] as int].subid != subid,
    ensures
        distinct_subids(m3, m3.roots),
        forall|i: int| 0 <= i < m3.nodes.len() ==> distinct_subids(m3, #[trigger] m3.nodes[i].children),
{
    let n = m.nodes.len();
    assert(ids_in(m, m.roots));
    assert forall|a: int, b: int| 0 <= a < b < m3.roots.len() implies m3.nodes[m3.roots[a] as int].subid
        != m3.nodes[m3.roots[b] as int].subid by {
        assert(m3.roots[a] == m.roots[a]);
        assert(m.roots[a] < n);
        assert(m3.nodes[m.roots[a] as int].subid == m.nodes[m.roots[a] as int].subid);
        if b < m.roots.len() {
            assert(m3.roots[b] == m.roots[b]);
            assert(m.roots[b] < n);
            assert(m3.nodes[m.roots[b] as int].subid == m.nodes[m.roots[b] as int].subid);
        } else {
            assert(parent is None);
            assert(m3.roots[b] == n);
        }
    }
    assert forall|i: int| 0 <= i < m3.nodes.len() implies distinct_subids(m3, #[trigger] m3.nodes[i].children) by {
        if i < n {
            let c = m3.nodes[i].children;
            let o = m.nodes[i].children;
            assert(ids_in(m, o));
            assert(distinct_subids(m, o));
            if parent == Some(i as NodeId) {
                assert(c == o.push(n as NodeId));
            } else {
                assert(c == o);
            }
            assert forall|a: int, b: int| 0 <= a < b < c.len() implies m3.nodes[c[a] as int].subid
                != m3.nodes[c[b] as int].subid by {
                assert(c[a] == o[a]);
                assert(o[a] < n);
                assert(m3.nodes[o[a] as int].subid == m.nodes[o[a] as int].subid);
                if b < o.len() {
                    assert(c[b] == o[b]);
                    assert(o[b] < n);
                    assert(m3.nodes[o[b] as int].subid == m.nodes[o[b] as int].subid);
                } else {
                    assert(c[b] == n);
                    assert(parent == Some(i as NodeId));
                }
            }
        }
    }
}

proof fn lemma_pushed(m: MibSpec, label: Seq<u8>, subid: u32, parent: Option<NodeId>)
    requires
        tree_linked(m),
        m.nodes.len() < usize::MAX,
        parent matches Some(p) ==> p < m.nodes.len(),
        parent matches Some(p) ==> with_subid(m, m.nodes[p as int].children, subid) is None,
        parent is None ==> with_subid(m, m.roots, subid) is None,
    ensures
        ({
            let id = m.nodes.len() as NodeId;
            let m2 = pushed(m, label, subid, parent);
            let m3 = if parent is None {
                MibSpec { roots: m2.roots.push(id), ..m2 }
            } else {
                m2
            };
            &&& tree_linked(m3)
            &&& m3.nodes.len() == m.nodes.len() + 1
            &&& m3.nodes[id as int].subid == subid
        }),
{
    let id = m.nodes.len() as NodeId;
    let n = m.nodes.len();
    let m2 = pushed(m, label, subid, parent);
    let m3 = if parent is None {
        MibSpec { roots: m2.roots.push(id), ..m2 }
    } else {
        m2
    };
    match parent {
        Some(p) => lemma_with_subid(m, m.nodes[p as int].children, subid),
        None => lemma_with_subid(m, m.roots, subid),
    }
    assert forall|k: int| 0 <= k < m3.labels.len() implies (#[trigger] m3.labels[k]).1 < m3.nodes.len() by {
        if k < m.labels.len() {
            assert(m3.labels[k] == m.labels[k]);
        } else {
            assert(m3.labels[k].1 == id);
        }
    }
    assert(grew(m, m3, subid, parent));
    lemma_grew_links(m, m3, subid, parent);
    lemma_grew_children(m, m3, subid, parent);
    lemma_grew_subids(m, m3, subid, parent);
}

proof fn lemma_with_subid_none(m: MibSpec, list: Seq<NodeId>, v: u32)
    requires
        forall|k: int| 0 <= k < list.len() ==> m.nodes[#[trigger] list[k] as int].subid != v,
    ensures
        with_subid(m, list, v) is None,
    decreases list.len(),
{
    if list.len() > 0 {
        assert(m.nodes[list[0] as int].subid != v);
        assert forall|k: int| 0 <= k < list.drop_first().len() implies m.nodes[#[trigger] list.drop_first()[k] as int].subid
            != v by {
            assert(list.drop_first()[k] == list[k + 1]);
        }
        lemma_with_subid_none(m, list.drop_first(), v);
    }
}

proof fn lemma_ensured(m: MibSpec, parent: Option<NodeId>, subid: u32, label: Seq<u8>)
    requires
        tree_linked(m),
        m.nodes.len() < usize::MAX,
        parent matches Some(p) ==> p < m.nodes.len(),
    ensures
        tree_linked(ensured(m, parent, subid, label).0),
        ensured(m, parent, subid, label).1 < ensured(m, parent, subid, label).0.nodes.len(),
        m.nodes.len() <= ensured(m, parent, subid, label).0.nodes.len() <= m.nodes.len() + 1,
{
    let kids = kids_of(m, parent);
    lemma_with_subid(m, kids, subid);
    match parent {
        Some(p) => assert(ids_in(m, m.nodes[p as int].children)),
        None => assert(ids_in(m, m.roots)),
    }
    match with_subid(m, kids, subid) {
        Some(id) => {
            let j = choose|j: int| 0 <= j < kids.len() && kids[j] == id;
            assert(kids[j] < m.nodes.len());
            if label.len() > 0 && m.nodes[id as int].anonymous {
                let mu = MibSpec {
                    nodes: m.nodes.update(
                        id as int,
                        super::model::NodeSpec { label, anonymous: false, ..m.nodes[id as int] },
                    ),
                    ..m
                };
                assert(same_shape(m, mu));
                lemma_same_shape(m, mu);
                lemma_recorded(mu, label, id);
            } else if label.len() > 0 {
                lemma_recorded(m, label, id);
            }
        },
        None => {
            lemma_pushed(m, label, subid, parent);
        },
    }
}

pub(crate) proof fn lemma_attached(m: MibSpec, id: NodeId, def: DefSpec, types: Seq<(Seq<u8>, SyntaxSpec)>)
    requires
        tree_linked(m),
        id < m.nodes.len(),
    ensures
        tree_linked(attached(m, id, def, types)),
        attached(m, id, def, types).nodes.len() == m.nodes.len(),
{
    let m2 = attached(m, id, def, types);
    assert(same_shape(m, m2));
    lemma_same_shape(m, m2);
}

/// The three top-level arcs, seeded in a linked tree whose top-level nodes
/// bear none of their numbers, leave it linked.
proof fn lemma_seeded_spec(m0: MibSpec)
    requires
        tree_linked(m0),
        m0.nodes.len() + 3 < usize::MAX,
        forall|k: int| 0 <= k < m0.roots.len() ==> m0.nodes[#[trigger] m0.roots[k] as int].subid > 2,
    ensures
        tree_linked(seeded(m0)),
{
    let n = m0.nodes.len();
    assert(ids_in(m0, m0.roots));
    lemma_with_subid_none(m0, m0.roots, 0);
    lemma_pushed(m0, seq![99u8, 99, 105, 116, 116], 0, None);
    let m1 = pushed(m0, seq![99u8, 99, 105, 116, 116], 0, None);
    let m1 = MibSpec { roots: m1.roots.push(n as NodeId), ..m1 };
    assert forall|k: int| 0 <= k < m1.roots.len() implies m1.nodes[#[trigger] m1.roots[k] as int].subid
        != 1 by {
        if k < m0.roots.len() {
            assert(m1.roots[k] == m0.roots[k]);
            assert(m0.roots[k] < n);
            assert(m1.nodes[m0.roots[k] as int].subid == m0.nodes[m0.roots[k] as int].subid);
        } else {
            assert(m1.roots[k] == n);
        }
    }
    lemma_with_subid_none(m1, m1.roots, 1);
    lemma_pushed(m1, seq![105u8, 115, 111], 1, None);
    let m2 = pushed(m1, seq![105u8, 115, 111], 1, None);
    let m2 = MibSpec { roots: m2.roots.push((n + 1) as NodeId), ..m2 };
    assert forall|k: int| 0 <= k < m2.roots.len() implies m2.nodes[#[trigger] m2.roots[k] as int].subid
        != 2 by {
        if k < m0.roots.len() {
            assert(m2.roots[k] == m0.roots[k]);
            assert(m0.roots[k] < n);
            assert(m2.nodes[m0.roots[k] as int].subid == m0.nodes[m0.roots[k] as int].subid);
        } else if k == m0.roots.len() {
            assert(m2.roots[k] == n);
        } else {
            assert(m2.roots[k] == n + 1);
        }
    }
    lemma_with_subid_none(m2, m2.roots, 2);
    lemma_pushed(
        m2,
        seq![106u8, 111, 105, 110, 116, 45, 105, 115, 111, 45, 99, 99, 105, 116, 116],
        2,
        None,
    );
}

/// Seeding the three top-level arcs in a well-formed tree whose top-level
/// nodes bear none of their numbers leaves it linked.
pub proof fn lemma_seeded_linked(m: MibSpec, mib: Mib)
    requires
        m == mib.model(),
        mib.wf(),
        mib.size() + 3 < usize::MAX,
        forall|k: int| 0 <= k < mib.roots@.len() ==> mib.nodes@[#[trigger] mib.roots@[k] as int].subid > 2,
    ensures
        tree_linked(seeded(m)),
{
    assert forall|k: int| 0 <= k < m.roots.len() implies m.nodes[#[trigger] m.roots[k] as int].subid > 2 by {
        assert(mib.roots@[k] < mib.nodes@.len());
        assert(m.nodes[m.roots[k] as int] == super::model::node_view(mib.nodes@[mib.roots@[k] as int]));
        assert(mib.nodes@[mib.roots@[k] as int].subid > 2);
    }
    lemma_seeded_spec(m);
}

proof fn lemma_first_with_subid_model(m: Mib, list: Seq<NodeId>, v: u32)
    requires
        forall|k: int| 0 <= k < list.len() ==> #[trigger] list[k] < m.nodes@.len(),
    ensures
        m.first_with_subid(list, v) == with_subid(m.model(), list, v),
    decreases list.len(),
{
    if list.len() > 0 {
        assert(list[0] < m.nodes@.len());
        assert(m.model().nodes[list[0] as int].subid == m.nodes@[list[0] as int].subid);
        assert forall|k: int| 0 <= k < list.drop_first().len() implies #[trigger] list.drop_first()[k]
            < m.nodes@.len() by {
            assert(list.drop_first()[k] == list[k + 1]);
        }
        lemma_first_with_subid_model(m, list.drop_first(), v);
    }
}

/// Where a node is listed: below its parent, or at the top level.
pub open spec fn listed_under(m: Mib, id: NodeId) -> Option<NodeId> {
    m.nodes@[id as int].parent
}

/// A node is the first of those listed with it to bear its sub-identifier.
proof fn lemma_found_below(m: Mib, id: NodeId)
    requires
        m.wf(),
        id < m.size(),
    ensures
        m.first_with_subid(m.kids(listed_under(m, id)), m.nodes@[id as int].subid) == Some(id),
{
    let mm = m.model();
    let nodes = m.nodes@;
    let sub = nodes[id as int].subid;
    assert(mm.nodes[id as int] == super::model::node_view(nodes[id as int]));
    assert(mm.nodes[id as int].parent == nodes[id as int].parent);
    let list = m.kids(listed_under(m, id));
    match nodes[id as int].parent {
        Some(p) => {
            assert(super::node_wf(nodes, id as int));
            assert(mm.nodes[p as int] == super::model::node_view(nodes[p as int]));
            assert(mm.nodes[p as int].children == list);
            assert(ids_in(mm, list));
            assert(distinct_subids(mm, list));
            assert(list.contains(id));
        },
        None => {
            assert(mm.roots == list);
            assert(ids_in(mm, list));
            assert(distinct_subids(mm, list));
            assert(list.contains(id));
        },
    }
    let j = choose|j: int| 0 <= j < list.len() && list[j] == id;
    assert(mm.nodes[id as int].subid == sub);
    lemma_with_subid_found(mm, list, j);
    assert forall|k: int| 0 <= k < list.len() implies #[trigger] list[k] < m.nodes@.len() by {
        assert(list[k] < mm.nodes.len());
    }
    lemma_first_with_subid_model(m, list, sub);
}

/// Walking a node's path, and then `t`, is walking `t` from the node.
proof fn lemma_walk_path(m: Mib, id: NodeId, t: Seq<u32>)
    requires
        m.wf(),
        id < m.size(),
    ensures
        m.walk(None, oid_path(m.nodes@, id as int) + t, None) == m.walk(Some(id), t, Some(id)),
    decreases id,
{
    let nodes = m.nodes@;
    assert(super::node_wf(nodes, id as int));
    let sub = nodes[id as int].subid;
    let start = listed_under(m, id);
    lemma_found_below(m, id);
    let t2 = seq![sub] + t;
    assert(t2.drop_first() =~= t);
    assert(m.walk(start, t2, start) == m.walk(Some(id), t, Some(id)));
    match nodes[id as int].parent {
        Some(p) => {
            lemma_walk_path(m, p, t2);
            assert(oid_path(nodes, id as int) == oid_path(nodes, p as int).push(sub));
            assert(oid_path(nodes, id as int) + t =~= oid_path(nodes, p as int) + t2);
        },
        None => {
            assert(oid_path(nodes, id as int) == seq![sub]);
            assert(oid_path(nodes, id as int) + t =~= t2);
        },
    }
}

/// The path of every node leads back to it: walking the
/// sub-identifiers of `oid_of(id)` down from the top finds `id`, and the
/// path ends with the node's own sub-identifier.
pub proof fn law_path_leads_back(m: Mib, id: NodeId)
    requires
        m.wf(),
        id < m.size(),
    ensures
        m.walk(None, oid_path(m.nodes@, id as int), None) == Some(id),
        oid_path(m.nodes@, id as int).last() == m.nodes@[id as int].subid,
{
    lemma_walk_path(m, id, Seq::empty());
    assert(oid_path(m.nodes@, id as int) + Seq::<u32>::empty() =~= oid_path(m.nodes@, id as int));
    assert(super::node_wf(m.nodes@, id as int));
}

/// How a node is named in the rendering of a path: its label, or its
/// number when it has none.
pub open spec fn shown_name(m: Mib, id: int) -> Seq<u8> {
    if m.nodes@[id].anonymous {
        dec_digits(m.nodes@[id].subid as nat)
    } else {
        m.nodes@[id].label@
    }
}

/// The names on the path down to node `id`, separated by dots.
pub open spec fn path_text(m: Mib, id: int) -> Seq<u8>
    decreases id,
{
    if id < 0 || id >= m.nodes@.len() {
        Seq::empty()
    } else {
        match m.nodes@[id].parent {
            Some(p) => if 0 <= p < id {
                path_text(m, p as int) + seq![46u8] + shown_name(m, id)
            } else {
                shown_name(m, id)
            },
            None => shown_name(m, id),
        }
    }
}

/// The index objects in force below node `id`: those of the nearest row
/// entry on its path.
pub open spec fn indexes_in_force(m: Mib, id: int) -> Option<Seq<Index>>
    decreases id,
{
    if id < 0 || id >= m.nodes@.len() {
        None
    } else {
        match m.row_indexes(id as NodeId) {
            Some(v) => Some(v),
            None => match m.nodes@[id].parent {
                Some(p) => if 0 <= p < id {
                    indexes_in_force(m, p as int)
                } else {
                    None
                },
                None => None,
            },
        }
    }
}

/// One step of the rendering: the first sub-identifier is that of `id`,
/// found among `list`.
proof fn lemma_symbol_step(
    m: Mib,
    id: NodeId,
    buf: Seq<u8>,
    t2: Seq<u32>,
    list: Seq<NodeId>,
    ix: Option<Seq<Index>>,
)
    requires
        t2.len() > 0,
        m.first_with_subid(list, t2[0]) == Some(id),
    ensures
        ({
            let nested = match m.row_indexes(id) {
                Some(v) => Some(v),
                None => ix,
            };
            let b1 = buf + shown_name(m, id as int);
            m.symbol(buf, t2, list, ix, false) == (if t2.len() == 1 {
                (b1, Some(id), None)
            } else {
                let d = m.symbol(b1.push(46), t2.drop_first(), m.nodes@[id as int].children@, nested, false);
                (d.0, if d.1 is Some {
                    d.1
                } else {
                    Some(id)
                }, d.2)
            })
        }),
{
}

/// Rendering a node's path, and then `t`, names the path and renders `t`
/// from the node.
proof fn lemma_symbol_path(m: Mib, id: NodeId, buf: Seq<u8>, t: Seq<u32>)
    requires
        m.wf(),
        id < m.size(),
    ensures
        m.symbol(buf, oid_path(m.nodes@, id as int) + t, m.roots@, None, false) == (if t.len()
            == 0 {
            (buf + path_text(m, id as int), Some(id), None)
        } else {
            let d = m.symbol(
                buf + path_text(m, id as int) + seq![46u8],
                t,
                m.nodes@[id as int].children@,
                indexes_in_force(m, id as int),
                false,
            );
            (d.0, if d.1 is Some {
                d.1
            } else {
                Some(id)
            }, d.2)
        }),
    decreases id,
{
    let nodes = m.nodes@;
    assert(super::node_wf(nodes, id as int));
    let sub = nodes[id as int].subid;
    lemma_found_below(m, id);
    let t2 = seq![sub] + t;
    assert(t2.drop_first() =~= t);
    assert(t2[0] == sub);
    match nodes[id as int].parent {
        Some(p) => {
            lemma_symbol_path(m, p, buf, t2);
            assert(oid_path(nodes, id as int) == oid_path(nodes, p as int).push(sub));
            assert(oid_path(nodes, id as int) + t =~= oid_path(nodes, p as int) + t2);
            let b0 = buf + path_text(m, p as int) + seq![46u8];
            let ix_p = indexes_in_force(m, p as int);
            assert(indexes_in_force(m, id as int) == match m.row_indexes(id) {
                Some(v) => Some(v),
                None => ix_p,
            });
            let b1 = b0 + shown_name(m, id as int);
            assert(b1 =~= buf + path_text(m, id as int));
            assert(b1.push(46) =~= buf + path_text(m, id as int) + seq![46u8]);
            lemma_symbol_step(m, id, b0, t2, nodes[p as int].children@, ix_p);
            assert(m.kids(listed_under(m, id)) == nodes[p as int].children@);
            let d = m.symbol(b0, t2, nodes[p as int].children@, ix_p, false);
            assert(m.symbol(buf, oid_path(nodes, id as int) + t, m.roots@, None, false) == (d.0, if d.1 is Some {
                d.1
            } else {
                Some(p)
            }, d.2));
        },
        None => {
            assert(oid_path(nodes, id as int) == seq![sub]);
            assert(oid_path(nodes, id as int) + t =~= t2);
            assert(buf + shown_name(m, id as int) =~= buf + path_text(m, id as int));
            assert(indexes_in_force(m, id as int) == match m.row_indexes(id) {
                Some(v) => Some(v),
                None => None::<Seq<Index>>,
            });
            assert((buf + shown_name(m, id as int)).push(46) =~= buf + path_text(m, id as int) + seq![46u8]);
            assert(m.kids(listed_under(m, id)) == m.roots@);
            lemma_symbol_step(m, id, buf, t2, m.roots@, None);
        },
    }
}

proof fn lemma_letter_end_after(a: Seq<u8>, l: Seq<u8>, k: int)
    requires
        0 <= k < l.len(),
        is_alpha(l[k]),
    ensures
        a.len() + k < letter_end(a + l) <= a.len() + l.len(),
    decreases l.len(),
{
    let s = a + l;
    if is_alpha(s.last()) {
    } else {
        assert(k < l.len() - 1) by {
            if k == l.len() - 1 {
                assert(s.last() == l[k]);
            }
        }
        assert(s.drop_last() =~= a + l.drop_last());
        lemma_letter_end_after(a, l.drop_last(), k);
    }
}

proof fn lemma_dot_start_after(b: Seq<u8>, start: int, mark: int)
    requires
        1 <= start <= mark <= b.len(),
        b[start - 1] == 46,
        forall|i: int| start <= i < mark ==> b[i] != 46,
    ensures
        dot_start(b, mark) == start,
    decreases mark,
{
    if mark > start {
        lemma_dot_start_after(b, start, mark - 1);
    }
}

/// A named node whose label holds a letter, and is the node the label
/// table gives for that label, is printed in the suffix form as its label
/// (valid UTF-8, being made of label characters, so `sprint_objid` gives it
/// as a string), and that text reads back, through `get_node`, as the
/// node's path.
pub proof fn law_suffix_name_leads_back(m: Mib, id: NodeId)
    requires
        m.wf(),
        id < m.size(),
        !m.nodes@[id as int].anonymous,
        m.label_node(m.nodes@[id as int].label@) == Some(id),
        exists|k: int|
            0 <= k < m.nodes@[id as int].label@.len() && is_alpha(
                #[trigger] m.nodes@[id as int].label@[k],
            ),
    ensures
        vstd::utf8::valid_utf8(m.nodes@[id as int].label@),
        m.sprint(oid_path(m.nodes@, id as int), OidFormat::Suffix) == m.nodes@[id as int].label@,
        m.node_value(m.sprint(oid_path(m.nodes@, id as int), OidFormat::Suffix)) == Some(
            oid_path(m.nodes@, id as int),
        ),
{
    let nodes = m.nodes@;
    let label = nodes[id as int].label@;
    let path = oid_path(nodes, id as int);
    assert(super::node_wf(nodes, id as int));
    assert(super::lexer::label_text(label));
    assert forall|k: int| 0 <= k < label.len() implies #[trigger] label[k] != 46 && label[k] != 58 by {
        assert(super::lexer::label_byte(label[k]));
    }
    assert forall|i: int| 0 <= i < label.len() implies #[trigger] vstd::utf8::is_leading_byte_width_1(
        label[i],
    ) by {
        assert(super::lexer::label_byte(label[i]));
    }
    assert(label.subrange(0, 0) =~= Seq::<u8>::empty());
    vstd::utf8::partial_valid_utf8_extend_ascii_block(label, 0, label.len() as int);
    assert(label.subrange(0, label.len() as int) =~= label);
    lemma_symbol_path(m, id, seq![46u8], Seq::empty());
    assert(path + Seq::<u32>::empty() =~= path);
    let b = seq![46u8] + path_text(m, id as int);
    assert(super::node_wf(nodes, id as int));
    // The text ends with the label, after a dot.
    let a: Seq<u8> = match nodes[id as int].parent {
        Some(p) => seq![46u8] + path_text(m, p as int) + seq![46u8],
        None => seq![46u8],
    };
    assert(b =~= a + label);
    let k = choose|k: int| 0 <= k < label.len() && is_alpha(#[trigger] label[k]);
    lemma_letter_end_after(a, label, k);
    let mark = letter_end(b);
    assert forall|i: int| a.len() <= i < mark implies b[i] != 46 by {
        assert(b[i] == label[i - a.len()]);
    }
    assert(b[a.len() - 1] == 46);
    lemma_dot_start_after(b, a.len() as int, mark);
    assert(b.skip(a.len() as int) =~= label);
    // Reading the label back.
    crate::mib::oidstr::lemma_last_index(label, 58, -1);
    crate::text::lemma_sep_index(label, 46, label.len() as int);
    assert(label.skip(0) =~= label);
    assert(label.subrange(0, label.len() as int) =~= label);
}

proof fn lemma_label_slot_prefix(labels: Seq<(Seq<u8>, NodeId)>, more: Seq<(Seq<u8>, NodeId)>, l: Seq<u8>, k: int)
    requires
        0 <= k,
        label_slot(labels, l, k) is Some,
    ensures
        label_slot(labels + more, l, k) == label_slot(labels, l, k),
    decreases labels.len() - k,
{
    if k < labels.len() && labels[k].0 != l {
        lemma_label_slot_prefix(labels, more, l, k + 1);
    }
}

proof fn lemma_label_slot_last(labels: Seq<(Seq<u8>, NodeId)>, e: (Seq<u8>, NodeId), k: int)
    requires
        0 <= k <= labels.len(),
        label_slot(labels, e.0, k) is None,
    ensures
        label_slot(labels.push(e), e.0, k) == Some(labels.len() as int),
    decreases labels.len() - k,
{
    if k < labels.len() {
        assert(labels.push(e)[k] == labels[k]);
        lemma_label_slot_last(labels, e, k + 1);
    } else {
        assert(labels.push(e)[k] == e);
    }
}

/// After `recorded`, the label names a node, and a label that named one
/// names the same one.
proof fn lemma_recorded_labels(m: MibSpec, l: Seq<u8>, id: NodeId, x: Seq<u8>)
    ensures
        node_labelled(recorded(m, l, id), l) is Some,
        node_labelled(m, x) is Some ==> node_labelled(recorded(m, l, id), x) == node_labelled(m, x),
        recorded(m, l, id).labels.len() >= m.labels.len(),
{
    if label_slot(m.labels, l, 0) is None {
        lemma_label_slot_last(m.labels, (l, id), 0);
        if label_slot(m.labels, x, 0) is Some {
            lemma_label_slot_prefix(m.labels, seq![(l, id)], x, 0);
            assert(m.labels + seq![(l, id)] =~= m.labels.push((l, id)));
            lemma_label_slot(m.labels, x, 0);
            let j = label_slot(m.labels, x, 0)->0;
            assert(m.labels.push((l, id))[j] == m.labels[j]);
        }
    }
}

/// Finding or making the child of `parent` with sub-identifier `subid`
/// keeps the tree linked, gives a node with that sub-identifier below
/// `parent`, removes no node and changes no node's place or
/// sub-identifier, records a non-empty label, and leaves every label
/// already recorded naming the node it named.
pub proof fn law_ensure_child(m: MibSpec, parent: Option<NodeId>, subid: u32, label: Seq<u8>, x: Seq<u8>)
    requires
        tree_linked(m),
        m.nodes.len() < usize::MAX,
        parent matches Some(p) ==> p < m.nodes.len(),
    ensures
        ({
            let (m2, id) = ensured(m, parent, subid, label);
            &&& tree_linked(m2)
            &&& id < m2.nodes.len()
            &&& m2.nodes[id as int].subid == subid
            &&& m2.nodes[id as int].parent == parent
            &&& m.nodes.len() <= m2.nodes.len()
            &&& forall|i: int|
                0 <= i < m.nodes.len() ==> (#[trigger] m2.nodes[i]).subid == m.nodes[i].subid
                    && m2.nodes[i].parent == m.nodes[i].parent
            &&& label.len() > 0 ==> node_labelled(m2, label) is Some
            &&& node_labelled(m, x) is Some ==> node_labelled(m2, x) == node_labelled(m, x)
        }),
{
    lemma_ensured(m, parent, subid, label);
    let kids = kids_of(m, parent);
    lemma_with_subid(m, kids, subid);
    match parent {
        Some(p) => assert(ids_in(m, m.nodes[p as int].children)),
        None => assert(ids_in(m, m.roots)),
    }
    match with_subid(m, kids, subid) {
        Some(id) => {
            let j = choose|j: int| 0 <= j < kids.len() && kids[j] == id;
            assert(kids[j] < m.nodes.len());
            match parent {
                Some(p) => assert(m.nodes[m.nodes[p as int].children[j] as int].parent == Some(p)),
                None => assert(m.nodes[m.roots[j] as int].parent is None),
            }
            if label.len() > 0 && m.nodes[id as int].anonymous {
                let mu = MibSpec {
                    nodes: m.nodes.update(
                        id as int,
                        super::model::NodeSpec { label, anonymous: false, ..m.nodes[id as int] },
                    ),
                    ..m
                };
                lemma_recorded_labels(mu, label, id, x);
                assert(node_labelled(mu, x) == node_labelled(m, x));
            } else if label.len() > 0 {
                lemma_recorded_labels(m, label, id, x);
            }
        },
        None => {
            let id = m.nodes.len() as NodeId;
            let nodes = m.nodes.push(super::model::fresh_node(label, subid, parent));
            let linked = match parent {
                Some(p) => nodes.update(
                    p as int,
                    super::model::NodeSpec { children: nodes[p as int].children.push(id), ..nodes[p as int] },
                ),
                None => nodes,
            };
            let m1 = MibSpec { nodes: linked, ..m };
            if label.len() > 0 {
                lemma_recorded_labels(m1, label, id, x);
            }
            assert(node_labelled(m1, x) == node_labelled(m, x));
        },
    }
}

/// The empty tree is linked.
pub proof fn lemma_empty_linked()
    ensures
        tree_linked(MibSpec { nodes: Seq::empty(), roots: Seq::empty(), labels: Seq::empty() }),
{
}

} // verus!
