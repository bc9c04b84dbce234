//! Places parsed definitions into the OID tree and resolves their syntax.
//!
//! Modules reference parents defined in other modules, so placement runs in
//! repeated passes until a pass makes no further progress.
use vstd::prelude::*;
use super::lexer::{lexes, Tok};
use super::model::{
    attached, install_pass, installed, lemma_install_pass, node_view, place_from, placed, seeded,
    MibSpec,
};
use super::parse::{
    def_words, defs_words, elem_words, lemma_module_words,
    def_view, defs_view, elem_view, elems_view, enums_view, indexes_view, module_from, opt_bytes,
    syntax_view, tok_bound, type_of, Def, DefSpec, OidElem, SyntaxRef, SyntaxSpec, TypeTable,
};
use crate::text::copy_bytes;
use super::{BaseType, Index, Mib, NodeId, Syntax};

verus! {

/// The definitions and named types that reading the modules `mods` in
/// order adds to `defs` and `types`; a module too large to index is
/// skipped.
pub open spec fn modules_read(
    mods: Seq<Seq<Tok>>,
    defs: Seq<DefSpec>,
    types: Seq<(Seq<u8>, SyntaxSpec)>,
) -> (Seq<DefSpec>, Seq<(Seq<u8>, SyntaxSpec)>)
    decreases mods.len(),
{
    if mods.len() == 0 {
        (defs, types)
    } else {
        let (d, t) = modules_read(mods.drop_last(), defs, types);
        if tok_bound(mods.last()) {
            module_from(mods.last(), 0, d, t)
        } else {
            (d, t)
        }
    }
}

/// The tree that the modules `mods` build: their definitions installed in
/// the seeded tree.
pub open spec fn loaded(mods: Seq<Seq<Tok>>) -> MibSpec {
    let (defs, types) = modules_read(mods, Seq::empty(), Seq::empty());
    installed(
        seeded(MibSpec { nodes: Seq::empty(), roots: Seq::empty(), labels: Seq::empty() }),
        defs,
        types,
    )
}

impl Mib {
    /// Build a tree from the text of MIB modules, read in the order given.
    /// Constructs that are not understood are skipped, as are modules too
    /// large to index, so that malformed vendor MIBs never fail the rest.
    pub fn load_sources(sources: &Vec<Vec<u8>>) -> (r: Mib)
        ensures
            r.wf(),
            r.size() >= 3,
            exists|mods: Seq<Seq<Tok>>|
                {
                    &&& mods.len() == sources@.len()
                    &&& forall|k: int|
                        0 <= k < mods.len() ==> lexes(#[trigger] sources@[k]@, 0, mods[k])
                    &&& r.model() == loaded(mods)
                },
    {
        let mut mib = Mib::new();
        mib.seed_roots();
        let mut defs: Vec<Def> = Vec::new();
        let mut types = TypeTable::new();
        let mut k: usize = 0;
        let ghost mut mods: Seq<Seq<Tok>> = Seq::empty();
        assert(defs_view(defs@) =~= Seq::<DefSpec>::empty());
        assert(types.view_entries() =~= Seq::<(Seq<u8>, SyntaxSpec)>::empty());
        while k < sources.len()
            invariant
                types.wf(),
                k <= sources@.len(),
                mib.wf(),
                mib.size() >= 3,
                mib.model() == seeded(
                    MibSpec { nodes: Seq::empty(), roots: Seq::empty(), labels: Seq::empty() },
                ),
                mods.len() == k,
                forall|j: int| 0 <= j < k ==> lexes(#[trigger] sources@[j]@, 0, mods[j]),
                (defs_view(defs@), types.view_entries()) == modules_read(
                    mods,
                    Seq::empty(),
                    Seq::empty(),
                ),
                defs_words(defs_view(defs@)),
            decreases sources@.len() - k,
        {
            let toks = super::lexer::tokenize(sources[k].as_slice());
            proof {
                let next = mods.push(toks@);
                assert(next.drop_last() =~= mods);
                mods = next;
            }
            if toks.len() <= usize::MAX / 4 {
                proof {
                    lemma_module_words(toks@, 0, defs_view(defs@), types.view_entries());
                }
                super::parse::parse_module(toks.as_slice(), &mut defs, &mut types);
            }
            k += 1;
        }
        mib.install(defs, &types);
        proof {
            assert(mib.model() == loaded(mods));
        }
        mib
    }

    /// Place every definition whose parent can be found, repeating until a
    /// pass places nothing more.
    pub fn install(&mut self, defs: Vec<Def>, types: &TypeTable)
        requires
            old(self).wf(),
            defs_words(defs_view(defs@)),
        ensures
            final(self).wf(),
            final(self).size() >= old(self).size(),
            final(self).model() == installed(
                old(self).model(),
                defs_view(defs@),
                types.view_entries(),
            ),
    {
        let ghost tv = types.view_entries();
        let ghost goal = installed(self.model(), defs_view(defs@), tv);
        let mut pending = defs;
        loop
            invariant_except_break
                goal == installed(self.model(), defs_view(pending@), tv),
            invariant
                self.wf(),
                self.size() >= old(self).size(),
                tv == types.view_entries(),
                goal == installed(old(self).model(), defs_view(defs@), tv),
                defs_words(defs_view(pending@)),
            ensures
                self.model() == goal,
            decreases pending@.len(),
        {
            let before = pending.len();
            let mut deferred: Vec<Def> = Vec::new();
            let mut k: usize = 0;
            let ghost pass = install_pass(self.model(), defs_view(pending@), 0, Seq::empty(), tv);
            assert(defs_view(deferred@) =~= Seq::<DefSpec>::empty());
            while k < pending.len()
                invariant
                    self.wf(),
                    self.size() >= old(self).size(),
                    k <= pending@.len(),
                    deferred@.len() <= k,
                    defs_words(defs_view(pending@)),
                    defs_words(defs_view(deferred@)),
                    before == pending@.len(),
                    tv == types.view_entries(),
                    pass == install_pass(
                        self.model(),
                        defs_view(pending@),
                        k as int,
                        defs_view(deferred@),
                        tv,
                    ),
                decreases pending@.len() - k,
            {
                let def = &pending[k];
                let ghost dv = defs_view(deferred@);
                assert(defs_view(pending@)[k as int] == def_view(*def));
                assert(def_words(def_view(*def)));
                match self.place(def) {
                    Some(id) => self.attach(id, def, types),
                    None => {
                        deferred.push(copy_def(def));
                        assert(defs_view(deferred@) =~= dv.push(def_view(*def)));
                        assert forall|j: int| 0 <= j < defs_view(deferred@).len() implies def_words(
                            #[trigger] defs_view(deferred@)[j],
                        ) by {
                            if j < dv.len() {
                                assert(defs_view(deferred@)[j] == dv[j]);
                            }
                        }
                    },
                }
                k = k + 1;
            }
            assert(deferred@.len() == defs_view(deferred@).len());
            if deferred.len() == before || deferred.len() == 0 {
                break ;
            }
            proof {
                lemma_install_pass(self.model(), defs_view(pending@), 0, Seq::empty(), tv);
            }
            pending = deferred;
        }
    }

    /// Resolve a definition's OID value to a node, creating arcs as needed.
    pub(crate) fn place(&mut self, def: &Def) -> (r: Option<NodeId>)
        requires
            old(self).wf(),
            def_words(def_view(*def)),
        ensures
            final(self).wf(),
            final(self).size() >= old(self).size(),
            r matches Some(id) ==> id < final(self).size(),
            (final(self).model(), r) == placed(old(self).model(), def_view(*def)),
    {
        if def.elems.len() == 0 {
            return None;
        }
        let ghost dv = def_view(*def);
        let ghost goal = placed(self.model(), dv);
        let mut cur: Option<NodeId> = None;
        let last = def.elems.len() - 1;
        let mut idx: usize = 0;
        while idx < def.elems.len()
            invariant
                self.wf(),
                self.size() >= old(self).size(),
                last + 1 == def.elems@.len(),
                cur matches Some(c) ==> c < self.size(),
                idx > 0 ==> cur is Some,
                dv == def_view(*def),
                def_words(dv),
                goal == placed(old(self).model(), dv),
                goal == place_from(self.model(), dv, idx as int, cur),
            decreases def.elems@.len() - idx,
        {
            if self.nodes.len() >= usize::MAX - 2 {
                return None;
            }
            assert(dv.elems[idx as int] == elem_view(def.elems@[idx as int]));
            // Only the final arc carries the definition's own name.
            let empty: Vec<u8> = Vec::new();
            let label: &[u8] = if idx == last {
                def.name.as_slice()
            } else {
                empty.as_slice()
            };
            assert(label@ == (if idx == last { dv.name } else { Seq::<u8>::empty() }));
            assert(elem_words(dv.elems[idx as int]));
            let next = match &def.elems[idx] {
                OidElem::Num(v) => self.ensure_child(cur, *v, label),
                OidElem::NamedNum(name, v) => {
                    let id = self.ensure_child(cur, *v, name.as_slice());
                    if idx == last && def.name.len() > 0 {
                        self.ensure_child(cur, *v, def.name.as_slice());
                    }
                    id
                },
                OidElem::Name(name) => {
                    if idx == 0 {
                        match self.find_by_label(name.as_slice()) {
                            Some(id) => id,
                            None => return None,
                        }
                    } else {
                        // A bare name deeper in the value must already exist
                        // as a child; otherwise its number is unknowable.
                        match self.find_child_by_label(cur, name.as_slice()) {
                            Some(id) => id,
                            None => return None,
                        }
                    }
                },
            };
            cur = Some(next);
            idx = idx + 1;
        }
        cur
    }

    /// Attach a definition's syntax and indexes to a node.
    ///
    /// Two modules can define the same OID differently - the bundled
    /// PacketCable MIBs do exactly that.  net-snmp keeps both as peers but
    /// resolves lookups to the one loaded first, so the first definition to
    /// reach a node here is the one that sticks.
    pub(crate) fn attach(&mut self, id: NodeId, def: &Def, types: &TypeTable)
        requires
            old(self).wf(),
            id < old(self).size(),
        ensures
            final(self).wf(),
            final(self).size() == old(self).size(),
            final(self).model() == attached(
                old(self).model(),
                id,
                def_view(*def),
                types.view_entries(),
            ),
    {
        let ghost old_self = *self;
        proof {
            super::paths::lemma_attached(self.model(), id, def_view(*def), types.view_entries());
        }
        if let Some(sr) = &def.syntax {
            let syntax = resolve_syntax(sr, types, 0);
            let existing = &self.nodes[id].syntax;
            let unset = existing.base == BaseType::Other && existing.enums.len() == 0
                && existing.ranges.len() == 0 && existing.hint.is_none();
            if unset && (syntax.base != BaseType::Other || syntax.enums.len() > 0) {
                self.nodes[id].syntax = syntax;
            }
        }
        if def.indexes.len() > 0 && self.nodes[id].indexes.len() == 0 {
            self.nodes[id].indexes = copy_indexes(&def.indexes);
        }
        if def.augments.is_some() && self.nodes[id].augments.is_none() {
            self.nodes[id].augments = copy_opt(&def.augments);
        }
        proof {
            assert forall|i: int| 0 <= i < self.nodes@.len() implies #[trigger] super::node_wf(
                self.nodes@,
                i,
            ) by {
                assert(super::node_wf(old_self.nodes@, i));
                assert(self.nodes@[i].parent == old_self.nodes@[i].parent);
                assert(self.nodes@[i].children == old_self.nodes@[i].children);
                assert forall|k: int| 0 <= k < self.nodes@[i].children@.len() implies {
                    let c = #[trigger] self.nodes@[i].children@[k];
                    i < c < self.nodes@.len() && self.nodes@[c as int].parent == Some(i as usize)
                } by {
                    let c = self.nodes@[i].children@[k];
                    assert(self.nodes@[c as int].parent == old_self.nodes@[c as int].parent);
                }
            }
            let m = old_self.model();
            let want = attached(m, id, def_view(*def), types.view_entries());
            assert forall|i: int| 0 <= i < self.nodes@.len() implies node_view(
                #[trigger] self.nodes@[i],
            ) == want.nodes[i] by {
                if i != id {
                    assert(self.nodes@[i] == old_self.nodes@[i]);
                }
            }
            assert(self.model().nodes =~= want.nodes);
        }
    }
}

/// A copy of a list of index clauses.
fn copy_indexes(v: &Vec<Index>) -> (r: Vec<Index>)
    ensures
        indexes_view(r@) == indexes_view(v@),
{
    let mut out: Vec<Index> = Vec::new();
    let mut k: usize = 0;
    while k < v.len()
        invariant
            k <= v@.len(),
            indexes_view(out@) == indexes_view(v@.take(k as int)),
        decreases v@.len() - k,
    {
        let ghost before = indexes_view(out@);
        out.push(Index { label: copy_bytes(v[k].label.as_slice()), implied: v[k].implied });
        assert(indexes_view(out@) =~= before.push((v@[k as int].label@, v@[k as int].implied)));
        assert(v@.take(k + 1) =~= v@.take(k as int).push(v@[k as int]));
        assert(indexes_view(v@.take(k + 1)) =~= indexes_view(v@.take(k as int)).push(
            (v@[k as int].label@, v@[k as int].implied),
        ));
        k += 1;
    }
    assert(v@.take(v@.len() as int) =~= v@);
    out
}

/// A copy of an OID value's elements.
fn copy_elems(v: &Vec<OidElem>) -> (r: Vec<OidElem>)
    ensures
        elems_view(r@) == elems_view(v@),
{
    let mut out: Vec<OidElem> = Vec::new();
    let mut k: usize = 0;
    while k < v.len()
        invariant
            k <= v@.len(),
            elems_view(out@) == elems_view(v@.take(k as int)),
        decreases v@.len() - k,
    {
        let ghost before = elems_view(out@);
        let e = match &v[k] {
            OidElem::Num(n) => OidElem::Num(*n),
            OidElem::Name(w) => OidElem::Name(copy_bytes(w.as_slice())),
            OidElem::NamedNum(w, n) => OidElem::NamedNum(copy_bytes(w.as_slice()), *n),
        };
        out.push(e);
        assert(elems_view(out@) =~= before.push(elem_view(v@[k as int])));
        assert(v@.take(k + 1) =~= v@.take(k as int).push(v@[k as int]));
        assert(elems_view(v@.take(k + 1)) =~= elems_view(v@.take(k as int)).push(
            elem_view(v@[k as int]),
        ));
        k += 1;
    }
    assert(v@.take(v@.len() as int) =~= v@);
    out
}

/// A copy of an unresolved syntax clause.
fn copy_syntax_ref(s: &SyntaxRef) -> (r: SyntaxRef)
    ensures
        syntax_view(r) == syntax_view(*s),
{
    SyntaxRef {
        named: copy_opt(&s.named),
        base: s.base,
        enums: copy_enums(&s.enums),
        ranges: copy_ranges(&s.ranges),
        hint: copy_opt(&s.hint),
    }
}

/// A copy of a definition.
fn copy_def(d: &Def) -> (r: Def)
    ensures
        def_view(r) == def_view(*d),
{
    Def {
        name: copy_bytes(d.name.as_slice()),
        elems: copy_elems(&d.elems),
        syntax: match &d.syntax {
            Some(s) => Some(copy_syntax_ref(s)),
            None => None,
        },
        indexes: copy_indexes(&d.indexes),
        augments: copy_opt(&d.augments),
    }
}

/// A resolved syntax as plain values.
pub struct ResolvedSpec {
    pub base: BaseType,
    pub enums: Seq<(Seq<u8>, i64)>,
    pub ranges: Seq<(i64, i64)>,
    pub hint: Option<Seq<u8>>,
}

/// The plain values of a resolved syntax.
pub open spec fn resolved_view(s: Syntax) -> ResolvedSpec {
    ResolvedSpec {
        base: s.base,
        enums: enums_view(s.enums@),
        ranges: s.ranges@,
        hint: opt_bytes(s.hint),
    }
}

/// A syntax with named types followed through `types`, at most 16 deep: the
/// base type comes from the end of the chain, and the enumeration, ranges
/// and display hint from the outermost clause that has them.
pub open spec fn resolve_spec(
    sr: SyntaxSpec,
    types: Seq<(Seq<u8>, SyntaxSpec)>,
    depth: u32,
) -> ResolvedSpec
    decreases 16 - depth,
{
    let out = ResolvedSpec {
        base: match sr.base {
            Some(b) => b,
            None => BaseType::Other,
        },
        enums: sr.enums,
        ranges: sr.ranges,
        hint: sr.hint,
    };
    match sr.named {
        Some(name) => if depth < 16 {
            match type_of(types, name) {
                Some(td) => {
                    let inner = resolve_spec(td, types, (depth + 1) as u32);
                    ResolvedSpec {
                        base: inner.base,
                        enums: if out.enums.len() == 0 {
                            inner.enums
                        } else {
                            out.enums
                        },
                        ranges: if out.ranges.len() == 0 {
                            inner.ranges
                        } else {
                            out.ranges
                        },
                        hint: if out.hint is None {
                            inner.hint
                        } else {
                            out.hint
                        },
                    }
                },
                None => out,
            }
        } else {
            out
        },
        None => out,
    }
}

/// A copy of an enumeration.
fn copy_enums(v: &Vec<(Vec<u8>, i64)>) -> (r: Vec<(Vec<u8>, i64)>)
    ensures
        enums_view(r@) == enums_view(v@),
{
    let mut out: Vec<(Vec<u8>, i64)> = Vec::new();
    let mut k: usize = 0;
    while k < v.len()
        invariant
            k <= v@.len(),
            enums_view(out@) == enums_view(v@.take(k as int)),
        decreases v@.len() - k,
    {
        let ghost before = enums_view(out@);
        out.push((copy_bytes(v[k].0.as_slice()), v[k].1));
        assert(enums_view(out@) =~= before.push((v@[k as int].0@, v@[k as int].1)));
        assert(v@.take(k + 1) =~= v@.take(k as int).push(v@[k as int]));
        assert(enums_view(v@.take(k + 1)) =~= enums_view(v@.take(k as int)).push(
            (v@[k as int].0@, v@[k as int].1),
        ));
        k += 1;
    }
    assert(v@.take(v@.len() as int) =~= v@);
    out
}

/// A copy of a list of ranges.
fn copy_ranges(v: &Vec<(i64, i64)>) -> (r: Vec<(i64, i64)>)
    ensures
        r@ == v@,
{
    let mut out: Vec<(i64, i64)> = Vec::new();
    let mut k: usize = 0;
    while k < v.len()
        invariant
            k <= v@.len(),
            out@ == v@.take(k as int),
        decreases v@.len() - k,
    {
        out.push((v[k].0, v[k].1));
        assert(v@.take(k + 1) =~= v@.take(k as int).push(v@[k as int]));
        k += 1;
    }
    assert(v@.take(v@.len() as int) =~= v@);
    out
}

/// A copy of optional octets.
fn copy_opt(v: &Option<Vec<u8>>) -> (r: Option<Vec<u8>>)
    ensures
        opt_bytes(r) == opt_bytes(*v),
{
    match v {
        Some(b) => Some(copy_bytes(b.as_slice())),
        None => None,
    }
}

/// Follow named types through textual conventions to a base type, keeping the
/// most specific constraint and enumeration seen along the way.
pub fn resolve_syntax(sr: &SyntaxRef, types: &TypeTable, depth: u32) -> (r: Syntax)
    ensures
        resolved_view(r) == resolve_spec(syntax_view(*sr), types.view_entries(), depth),
    decreases 16 - depth,
{
    let mut out = Syntax {
        base: match sr.base {
            Some(b) => b,
            None => BaseType::Other,
        },
        enums: copy_enums(&sr.enums),
        ranges: copy_ranges(&sr.ranges),
        hint: copy_opt(&sr.hint),
    };
    if let Some(name) = &sr.named {
        if depth < 16 {
            if let Some(td) = types.get(name.as_slice()) {
                let inner = resolve_syntax(&td.syntax, types, depth + 1);
                out.base = inner.base;
                if out.enums.len() == 0 {
                    out.enums = inner.enums;
                }
                // An outer constraint narrows the convention's own range.
                if out.ranges.len() == 0 {
                    out.ranges = inner.ranges;
                }
                if out.hint.is_none() {
                    out.hint = inner.hint;
                }
            }
        }
    }
    out
}

} // verus!
