//! The order in which the modules of one directory are read: by file name,
//! octet by octet, so that the result does not depend on how the file
//! system lists the directory.
use vstd::prelude::*;
use vstd::relations::{sorted_by, total_ordering};

verus! {

/// Whether file name `x` comes no later than `y`: the octets compared in
/// turn, a name before every longer name it begins.
pub open spec fn name_le(x: Seq<u8>, y: Seq<u8>) -> bool
    decreases x.len(),
{
    if x.len() == 0 {
        true
    } else if y.len() == 0 {
        false
    } else if x[0] != y[0] {
        x[0] < y[0]
    } else {
        name_le(x.drop_first(), y.drop_first())
    }
}

/// The order of file names, as a relation.
pub open spec fn name_order() -> spec_fn(Seq<u8>, Seq<u8>) -> bool {
    |x: Seq<u8>, y: Seq<u8>| name_le(x, y)
}

/// The texts of file names.
pub open spec fn name_texts(v: Seq<Vec<u8>>) -> Seq<Seq<u8>> {
    Seq::new(v.len(), |i: int| v[i]@)
}

proof fn lemma_name_le_reflexive(x: Seq<u8>)
    ensures
        name_le(x, x),
    decreases x.len(),
{
    if x.len() > 0 {
        lemma_name_le_reflexive(x.drop_first());
    }
}

proof fn lemma_name_le_antisymmetric(x: Seq<u8>, y: Seq<u8>)
    requires
        name_le(x, y),
        name_le(y, x),
    ensures
        x == y,
    decreases x.len(),
{
    if x.len() > 0 && y.len() > 0 {
        lemma_name_le_antisymmetric(x.drop_first(), y.drop_first());
        assert(x =~= seq![x[0]] + x.drop_first());
        assert(y =~= seq![y[0]] + y.drop_first());
    }
}

proof fn lemma_name_le_transitive(x: Seq<u8>, y: Seq<u8>, z: Seq<u8>)
    requires
        name_le(x, y),
        name_le(y, z),
    ensures
        name_le(x, z),
    decreases x.len(),
{
    if x.len() > 0 && y.len() > 0 && z.len() > 0 && x[0] == y[0] && y[0] == z[0] {
        lemma_name_le_transitive(x.drop_first(), y.drop_first(), z.drop_first());
    }
}

proof fn lemma_name_le_total(x: Seq<u8>, y: Seq<u8>)
    ensures
        name_le(x, y) || name_le(y, x),
    decreases x.len(),
{
    if x.len() > 0 && y.len() > 0 && x[0] == y[0] {
        lemma_name_le_total(x.drop_first(), y.drop_first());
    }
}

/// File names are totally ordered.
pub proof fn lemma_name_order_total()
    ensures
        total_ordering(name_order()),
{
    assert forall|x: Seq<u8>| #[trigger] name_order()(x, x) by {
        lemma_name_le_reflexive(x);
    }
    assert forall|x: Seq<u8>, y: Seq<u8>|
        #[trigger] name_order()(x, y) && #[trigger] name_order()(y, x) implies x == y by {
        lemma_name_le_antisymmetric(x, y);
    }
    assert forall|x: Seq<u8>, y: Seq<u8>, z: Seq<u8>|
        #[trigger] name_order()(x, y) && #[trigger] name_order()(y, z) implies name_order()(
        x,
        z,
    ) by {
        lemma_name_le_transitive(x, y, z);
    }
    assert forall|x: Seq<u8>, y: Seq<u8>|
        #[trigger] name_order()(x, y) || #[trigger] name_order()(y, x) by {
        lemma_name_le_total(x, y);
    }
}

/// Whether file name `x` comes no later than `y`.
pub fn name_before(x: &[u8], y: &[u8]) -> (r: bool)
    ensures
        r == name_le(x@, y@),
{
    let mut i: usize = 0;
    assert(x@.skip(0) =~= x@);
    assert(y@.skip(0) =~= y@);
    while i < x.len() && i < y.len() && x[i] == y[i]
        invariant
            i <= x@.len(),
            i <= y@.len(),
            name_le(x@, y@) == name_le(x@.skip(i as int), y@.skip(i as int)),
        decreases x@.len() - i,
    {
        assert(x@.skip(i as int).drop_first() =~= x@.skip(i as int + 1));
        assert(y@.skip(i as int).drop_first() =~= y@.skip(i as int + 1));
        i += 1;
    }
    if i == x.len() {
        true
    } else if i == y.len() {
        false
    } else {
        x[i] < y[i]
    }
}

/// Put the file names of one directory in the order their modules are
/// read.
pub fn module_order(names: Vec<Vec<u8>>) -> (r: Vec<Vec<u8>>)
    ensures
        name_texts(r@) == name_texts(names@).sort_by(name_order()),
{
    broadcast use vstd::seq_lib::group_to_multiset_ensures;

    let ghost all = name_texts(names@);
    let mut rest = names;
    let mut out: Vec<Vec<u8>> = Vec::new();
    proof {
        lemma_name_order_total();
        assert(name_texts(out@) =~= Seq::<Seq<u8>>::empty());
        assert(name_texts(rest@) =~= all);
    }
    while rest.len() > 0
        invariant
            total_ordering(name_order()),
            sorted_by(name_texts(out@), name_order()),
            name_texts(out@).to_multiset().add(name_texts(rest@).to_multiset())
                == all.to_multiset(),
        decreases rest@.len(),
    {
        let ghost before = name_texts(rest@);
        let x = rest.pop().unwrap();
        proof {
            assert(before =~= name_texts(rest@).push(x@));
        }
        let mut p: usize = 0;
        while p < out.len() && name_before(out[p].as_slice(), x.as_slice())
            invariant
                p <= out@.len(),
                forall|k: int| 0 <= k < p ==> name_le(#[trigger] out@[k]@, x@),
            decreases out@.len() - p,
        {
            p += 1;
        }
        let ghost o = name_texts(out@);
        let ghost xv = x@;
        out.insert(p, x);
        proof {
            let n = name_texts(out@);
            assert(n =~= o.insert(p as int, xv));
            if p < o.len() {
                assert(!name_le(o[p as int], xv));
                lemma_name_le_total(o[p as int], xv);
            }
            assert forall|i: int, j: int| 0 <= i < j < n.len() implies #[trigger] name_order()(
                n[i],
                n[j],
            ) by {
                if j < p {
                    assert(name_order()(o[i], o[j]));
                } else if j == p {
                    assert(name_le(o[i], xv));
                } else if i == p {
                    assert(name_order()(xv, o[p as int]));
                    if j - 1 > p {
                        assert(name_order()(o[p as int], o[j - 1]));
                    }
                } else if i < p {
                    assert(name_order()(o[i], o[j - 1]));
                } else {
                    assert(name_order()(o[i - 1], o[j - 1]));
                }
            }
            vstd::seq_lib::to_multiset_insert(o, p as int, xv);
            vstd::seq_lib::to_multiset_build(name_texts(rest@), xv);
            assert(o.insert(p as int, xv).to_multiset() == o.to_multiset().insert(xv));
            assert(name_texts(rest@).push(xv).to_multiset() == name_texts(rest@).to_multiset().insert(
                xv,
            ));
            assert(n.to_multiset().add(name_texts(rest@).to_multiset()) =~= all.to_multiset());
        }
    }
    proof {
        assert(name_texts(rest@) =~= Seq::<Seq<u8>>::empty());
        assert(name_texts(out@).to_multiset() =~= all.to_multiset());
        all.lemma_sort_by_ensures(name_order());
        vstd::seq_lib::lemma_sorted_unique(name_texts(out@), all.sort_by(name_order()), name_order());
    }
    out
}

/// The modules of a directory are read in the same order however the file
/// system lists its files: two listings of the same names give one order.
pub proof fn law_module_order_independent(a: Seq<Seq<u8>>, b: Seq<Seq<u8>>)
    requires
        a.to_multiset() == b.to_multiset(),
    ensures
        a.sort_by(name_order()) == b.sort_by(name_order()),
        sorted_by(a.sort_by(name_order()), name_order()),
{
    lemma_name_order_total();
    a.lemma_sort_by_ensures(name_order());
    b.lemma_sort_by_ensures(name_order());
    vstd::seq_lib::lemma_sorted_unique(a.sort_by(name_order()), b.sort_by(name_order()), name_order());
}

} // verus!
