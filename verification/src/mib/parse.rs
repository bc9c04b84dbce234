//! Turns a tokenized MIB module into unresolved OID definitions and type
//! definitions.  Nothing here touches the OID tree; placement happens later,
//! once every module has been read, because modules routinely forward-reference
//! parents defined in a file that has not been loaded yet.
use vstd::prelude::*;
use vstd::string::StringSliceAdditionalSpecFns;
use super::lexer::Tok;
use super::{BaseType, Index};
use crate::text::{bytes_eq, copy_bytes};

verus! {

/// One element of an OID value such as `{ iso org(3) dod(6) 1 }`.
#[derive(Clone, Debug)]
pub enum OidElem {
    Num(u32),
    Name(Vec<u8>),
    NamedNum(Vec<u8>, u32),
}

/// A syntax clause before textual conventions have been resolved.
#[derive(Clone, Debug)]
pub struct SyntaxRef {
    /// A type name still to be looked up, e.g. `SnmpAdminString`.
    pub named: Option<Vec<u8>>,
    pub base: Option<BaseType>,
    pub enums: Vec<(Vec<u8>, i64)>,
    pub ranges: Vec<(i64, i64)>,
    pub hint: Option<Vec<u8>>,
}

impl SyntaxRef {
    pub fn empty() -> (r: SyntaxRef)
        ensures
            syntax_view(r) == empty_syntax(),
    {
        let r = SyntaxRef { named: None, base: None, enums: Vec::new(), ranges: Vec::new(), hint: None };
        assert(enums_view(r.enums@) =~= Seq::<(Seq<u8>, i64)>::empty());
        assert(r.ranges@ =~= Seq::<(i64, i64)>::empty());
        r
    }
}

#[derive(Clone, Debug)]
pub struct TypeDef {
    pub syntax: SyntaxRef,
}

#[derive(Clone, Debug)]
pub struct Def {
    pub name: Vec<u8>,
    pub elems: Vec<OidElem>,
    pub syntax: Option<SyntaxRef>,
    pub indexes: Vec<Index>,
    pub augments: Option<Vec<u8>>,
}

/// An OID element as plain values.
pub enum ElemSpec {
    Num(u32),
    Name(Seq<u8>),
    NamedNum(Seq<u8>, u32),
}

/// An unresolved syntax clause as plain values.
pub struct SyntaxSpec {
    pub named: Option<Seq<u8>>,
    pub base: Option<BaseType>,
    pub enums: Seq<(Seq<u8>, i64)>,
    pub ranges: Seq<(i64, i64)>,
    pub hint: Option<Seq<u8>>,
}

/// A definition as plain values; an index is its label and whether it is
/// IMPLIED.
pub struct DefSpec {
    pub name: Seq<u8>,
    pub elems: Seq<ElemSpec>,
    pub syntax: Option<SyntaxSpec>,
    pub indexes: Seq<(Seq<u8>, bool)>,
    pub augments: Option<Seq<u8>>,
}

pub open spec fn opt_bytes(o: Option<Vec<u8>>) -> Option<Seq<u8>> {
    match o {
        Some(v) => Some(v@),
        None => None,
    }
}

pub open spec fn elem_view(e: OidElem) -> ElemSpec {
    match e {
        OidElem::Num(v) => ElemSpec::Num(v),
        OidElem::Name(w) => ElemSpec::Name(w@),
        OidElem::NamedNum(w, v) => ElemSpec::NamedNum(w@, v),
    }
}

pub open spec fn elems_view(es: Seq<OidElem>) -> Seq<ElemSpec> {
    es.map_values(|e: OidElem| elem_view(e))
}

pub open spec fn enums_view(es: Seq<(Vec<u8>, i64)>) -> Seq<(Seq<u8>, i64)> {
    es.map_values(|e: (Vec<u8>, i64)| (e.0@, e.1))
}

pub open spec fn indexes_view(xs: Seq<Index>) -> Seq<(Seq<u8>, bool)> {
    xs.map_values(|x: Index| (x.label@, x.implied))
}

pub open spec fn syntax_view(s: SyntaxRef) -> SyntaxSpec {
    SyntaxSpec {
        named: opt_bytes(s.named),
        base: s.base,
        enums: enums_view(s.enums@),
        ranges: s.ranges@,
        hint: opt_bytes(s.hint),
    }
}

pub open spec fn opt_syntax_view(s: Option<SyntaxRef>) -> Option<SyntaxSpec> {
    match s {
        Some(x) => Some(syntax_view(x)),
        None => None,
    }
}

pub open spec fn def_view(d: Def) -> DefSpec {
    DefSpec {
        name: d.name@,
        elems: elems_view(d.elems@),
        syntax: opt_syntax_view(d.syntax),
        indexes: indexes_view(d.indexes@),
        augments: opt_bytes(d.augments),
    }
}

pub open spec fn defs_view(ds: Seq<Def>) -> Seq<DefSpec> {
    ds.map_values(|d: Def| def_view(d))
}

/// The syntax that names nothing yet.
pub open spec fn empty_syntax() -> SyntaxSpec {
    SyntaxSpec {
        named: None,
        base: None,
        enums: Seq::empty(),
        ranges: Seq::empty(),
        hint: None,
    }
}

/// The first entry from `k` on whose name is `name`.
pub open spec fn slot_from(es: Seq<(Seq<u8>, SyntaxSpec)>, name: Seq<u8>, k: int) -> Option<int>
    decreases es.len() - k,
{
    if k < 0 || k >= es.len() {
        None
    } else if es[k].0 == name {
        Some(k)
    } else {
        slot_from(es, name, k + 1)
    }
}

/// The named types after defining `name` as `syn`: an earlier definition of
/// the name is replaced in place, a new one goes last.
pub open spec fn type_insert(es: Seq<(Seq<u8>, SyntaxSpec)>, name: Seq<u8>, syn: SyntaxSpec) -> Seq<
    (Seq<u8>, SyntaxSpec),
> {
    match slot_from(es, name, 0) {
        Some(k) => es.update(k, (name, syn)),
        None => es.push((name, syn)),
    }
}

/// The definition of `name` among the named types.
pub open spec fn type_of(es: Seq<(Seq<u8>, SyntaxSpec)>, name: Seq<u8>) -> Option<SyntaxSpec> {
    match slot_from(es, name, 0) {
        Some(k) => Some(es[k].1),
        None => None,
    }
}

pub proof fn lemma_slot_from(es: Seq<(Seq<u8>, SyntaxSpec)>, name: Seq<u8>, k: int)
    requires
        0 <= k <= es.len(),
    ensures
        match slot_from(es, name, k) {
            Some(j) => k <= j < es.len() && es[j].0 == name && forall|m: int|
                k <= m < j ==> (#[trigger] es[m]).0 != name,
            None => forall|m: int| k <= m < es.len() ==> (#[trigger] es[m]).0 != name,
        },
    decreases es.len() - k,
{
    if k < es.len() && es[k].0 != name {
        lemma_slot_from(es, name, k + 1);
    }
}

/// A name defined last reads back as what it was defined as.
pub proof fn law_type_insert_get(es: Seq<(Seq<u8>, SyntaxSpec)>, name: Seq<u8>, syn: SyntaxSpec)
    ensures
        type_of(type_insert(es, name, syn), name) == Some(syn),
{
    lemma_slot_from(es, name, 0);
    let es2 = type_insert(es, name, syn);
    lemma_slot_from(es2, name, 0);
    match slot_from(es, name, 0) {
        Some(k) => {
            assert(es2[k].0 == name);
            match slot_from(es2, name, 0) {
                Some(j) => {
                    if j < k {
                        assert(es2[j] == es[j]);
                    }
                },
                None => {},
            }
        },
        None => {
            let n = es.len() as int;
            assert(es2[n].0 == name);
            match slot_from(es2, name, 0) {
                Some(j) => {
                    if j < n {
                        assert(es2[j] == es[j]);
                    }
                },
                None => {},
            }
        },
    }
}

/// Defining one name leaves what every other name reads as.
pub proof fn law_type_insert_other(
    es: Seq<(Seq<u8>, SyntaxSpec)>,
    name: Seq<u8>,
    syn: SyntaxSpec,
    other: Seq<u8>,
)
    requires
        other != name,
    ensures
        type_of(type_insert(es, name, syn), other) == type_of(es, other),
{
    lemma_slot_from(es, other, 0);
    lemma_slot_from(es, name, 0);
    let es2 = type_insert(es, name, syn);
    lemma_slot_from(es2, other, 0);
    assert forall|m: int| 0 <= m < es.len() implies (#[trigger] es2[m]).0 == other <==> es[m].0 == other by {
        match slot_from(es, name, 0) {
            Some(k) => {
                if m != k {
                    assert(es2[m] == es[m]);
                }
            },
            None => {
                assert(es2[m] == es[m]);
            },
        }
    }
    match slot_from(es, other, 0) {
        Some(j) => {
            assert(es2[j].0 == other);
            match slot_from(es2, other, 0) {
                Some(i) => {
                    if i < j {
                        assert(es2[i].0 == other);
                    }
                    if j < i {
                        assert(es2[j].0 == other);
                    }
                    match slot_from(es, name, 0) {
                        Some(k) => {
                            if j != k {
                                assert(es2[j] == es[j]);
                            }
                        },
                        None => {
                            assert(es2[j] == es[j]);
                        },
                    }
                },
                None => {},
            }
        },
        None => {
            match slot_from(es2, other, 0) {
                Some(i) => {
                    if i < es.len() {
                        assert(es2[i].0 == other);
                    }
                },
                None => {},
            }
        },
    }
}

/// Named types, the latest definition of a name replacing earlier ones.
pub struct TypeTable {
    pub entries: Vec<(Vec<u8>, TypeDef)>,
}

impl TypeTable {
    pub fn new() -> (r: TypeTable)
        ensures
            r.entries@.len() == 0,
            r.wf(),
    {
        TypeTable { entries: Vec::new() }
    }

    /// The entries as plain values.
    pub open spec fn view_entries(&self) -> Seq<(Seq<u8>, SyntaxSpec)> {
        self.entries@.map_values(|e: (Vec<u8>, TypeDef)| (e.0@, syntax_view(e.1.syntax)))
    }

    /// Whether no two entries share a name.
    pub open spec fn wf(&self) -> bool {
        forall|a: int, b: int|
            0 <= a < b < self.entries@.len() ==> (#[trigger] self.entries@[a]).0@
                != (#[trigger] self.entries@[b]).0@
    }

    fn slot(&self, name: &[u8]) -> (r: Option<usize>)
        ensures
            match r {
                Some(k) => k < self.entries@.len() && self.entries@[k as int].0@ == name@,
                None => forall|k: int|
                    0 <= k < self.entries@.len() ==> (#[trigger] self.entries@[k]).0@ != name@,
            },
            match r {
                Some(k) => slot_from(self.view_entries(), name@, 0) == Some(k as int),
                None => slot_from(self.view_entries(), name@, 0) is None,
            },
    {
        let ghost es = self.view_entries();
        let mut k: usize = 0;
        while k < self.entries.len()
            invariant
                k <= self.entries@.len(),
                es == self.view_entries(),
                forall|m: int| 0 <= m < k ==> (#[trigger] self.entries@[m]).0@ != name@,
                slot_from(es, name@, 0) == slot_from(es, name@, k as int),
            decreases self.entries@.len() - k,
        {
            if bytes_eq(self.entries[k].0.as_slice(), name) {
                assert(es[k as int].0 == name@);
                return Some(k);
            }
            assert(es[k as int].0 != name@);
            k = k + 1;
        }
        None
    }

    /// Define `name`, replacing any earlier definition.
    pub fn insert(&mut self, name: Vec<u8>, def: TypeDef)
        requires
            old(self).wf(),
        ensures
            final(self).wf(),
            final(self).view_entries() == type_insert(
                old(self).view_entries(),
                name@,
                syntax_view(def.syntax),
            ),
    {
        let ghost es = self.view_entries();
        let ghost item = (name@, syntax_view(def.syntax));
        match self.slot(name.as_slice()) {
            Some(k) => {
                let ghost old_entries = self.entries@;
                self.entries.set(k, (name, def));
                assert(self.entries@[k as int].0@ == old_entries[k as int].0@);
                assert forall|a: int, b: int|
                    0 <= a < b < self.entries@.len() implies (#[trigger] self.entries@[a]).0@
                    != (#[trigger] self.entries@[b]).0@ by {
                    assert(old_entries[a].0@ != old_entries[b].0@);
                }
                assert(self.view_entries() =~= es.update(k as int, item));
            },
            None => {
                self.entries.push((name, def));
                assert(self.entries@[self.entries@.len() - 1].0@ == name@);
                assert(self.view_entries() =~= es.push(item));
            },
        }
    }

    /// The definition of `name`, if there is one.
    pub fn get(&self, name: &[u8]) -> (r: Option<&TypeDef>)
        ensures
            match type_of(self.view_entries(), name@) {
                Some(syn) => r matches Some(d) && syntax_view(d.syntax) == syn,
                None => r is None,
            },
    {
        match self.slot(name) {
            Some(k) => Some(&self.entries[k].1),
            None => None,
        }
    }
}

/// A token vector small enough that positions a few past its end do not
/// overflow; every vector of tokens in memory is.
pub open spec fn tok_bound(toks: Seq<Tok>) -> bool {
    toks.len() <= usize::MAX / 4
}

/// Whether `t` is the word `w`.
pub open spec fn tok_is_word(t: Tok, w: Seq<u8>) -> bool {
    t matches Tok::Word(x) && x@ == w
}

/// Whether token `i` exists and is the word `w`.
pub open spec fn word_at(toks: Seq<Tok>, i: int, w: Seq<u8>) -> bool {
    0 <= i < toks.len() && tok_is_word(toks[i], w)
}

fn is_word(toks: &[Tok], i: usize, w: &[u8]) -> (r: bool)
    ensures
        r == word_at(toks@, i as int, w@),
{
    if i < toks.len() {
        match &toks[i] {
            Tok::Word(x) => bytes_eq(x.as_slice(), w),
            _ => false,
        }
    } else {
        false
    }
}

fn is_assign(toks: &[Tok], i: usize) -> (r: bool)
    ensures
        r == (i < toks@.len() && toks@[i as int] is Assign),
{
    i < toks.len() && matches!(toks[i], Tok::Assign)
}

fn is_lbrace(toks: &[Tok], i: usize) -> (r: bool)
    ensures
        r == (i < toks@.len() && toks@[i as int] is LBrace),
{
    i < toks.len() && matches!(toks[i], Tok::LBrace)
}

fn is_rbrace(toks: &[Tok], i: usize) -> (r: bool)
    ensures
        r == (i < toks@.len() && toks@[i as int] is RBrace),
{
    i < toks.len() && matches!(toks[i], Tok::RBrace)
}

fn is_lparen(toks: &[Tok], i: usize) -> (r: bool)
    ensures
        r == (i < toks@.len() && toks@[i as int] is LParen),
{
    i < toks.len() && matches!(toks[i], Tok::LParen)
}

fn is_semi(toks: &[Tok], i: usize) -> (r: bool)
    ensures
        r == (i < toks@.len() && toks@[i as int] is Semi),
{
    i < toks.len() && matches!(toks[i], Tok::Semi)
}

/// Macro names whose invocations end in `::= { oid }` and therefore name a node.
pub open spec fn oid_macro(w: Seq<u8>) -> bool {
    w == "OBJECT-TYPE".spec_bytes() || w == "MODULE-IDENTITY".spec_bytes() || w
        == "OBJECT-IDENTITY".spec_bytes() || w == "NOTIFICATION-TYPE".spec_bytes() || w
        == "OBJECT-GROUP".spec_bytes() || w == "NOTIFICATION-GROUP".spec_bytes() || w
        == "MODULE-COMPLIANCE".spec_bytes() || w == "AGENT-CAPABILITIES".spec_bytes()
}

fn is_oid_macro(w: &[u8]) -> (r: bool)
    ensures
        r == oid_macro(w@),
{
    bytes_eq(w, "OBJECT-TYPE".as_bytes()) || bytes_eq(w, "MODULE-IDENTITY".as_bytes())
        || bytes_eq(w, "OBJECT-IDENTITY".as_bytes()) || bytes_eq(
        w,
        "NOTIFICATION-TYPE".as_bytes(),
    ) || bytes_eq(w, "OBJECT-GROUP".as_bytes()) || bytes_eq(w, "NOTIFICATION-GROUP".as_bytes())
        || bytes_eq(w, "MODULE-COMPLIANCE".as_bytes()) || bytes_eq(
        w,
        "AGENT-CAPABILITIES".as_bytes(),
    )
}

/// The first `;` from `i` on, or the end of the tokens.
pub open spec fn semi_from(toks: Seq<Tok>, i: int) -> int
    decreases toks.len() - i,
{
    if 0 <= i < toks.len() && !(toks[i] is Semi) {
        semi_from(toks, i + 1)
    } else {
        i
    }
}

/// The first `BEGIN` from `i` on, or the end of the tokens.
pub open spec fn begin_from(toks: Seq<Tok>, i: int) -> int
    decreases toks.len() - i,
{
    if 0 <= i < toks.len() && !word_at(toks, i, "BEGIN".spec_bytes()) {
        begin_from(toks, i + 1)
    } else {
        i
    }
}

pub proof fn lemma_semi_from(toks: Seq<Tok>, i: int)
    requires
        0 <= i <= toks.len(),
    ensures
        i <= semi_from(toks, i) <= toks.len(),
    decreases toks.len() - i,
{
    if i < toks.len() && !(toks[i] is Semi) {
        lemma_semi_from(toks, i + 1);
    }
}

pub proof fn lemma_begin_from(toks: Seq<Tok>, i: int)
    requires
        0 <= i <= toks.len(),
    ensures
        i <= begin_from(toks, i) <= toks.len(),
    decreases toks.len() - i,
{
    if i < toks.len() && !word_at(toks, i, "BEGIN".spec_bytes()) {
        lemma_begin_from(toks, i + 1);
    }
}

/// Just past a stop found at `j`, or `j` at the end of the tokens.
pub open spec fn past(toks: Seq<Tok>, j: int) -> int {
    if j < toks.len() {
        j + 1
    } else {
        j
    }
}

/// A definition with its name, OID value and clauses.
pub open spec fn def_of(name: Seq<u8>, elems: Seq<ElemSpec>, c: Clauses) -> DefSpec {
    DefSpec { name, elems, syntax: c.0, indexes: c.1, augments: c.2 }
}

/// The clauses of nothing.
pub open spec fn no_clauses() -> Clauses {
    (None, Seq::empty(), None)
}

/// The definitions and named types that reading a module from `i` adds to
/// `defs` and `types`.
pub open spec fn module_from(
    toks: Seq<Tok>,
    i: int,
    defs: Seq<DefSpec>,
    types: Seq<(Seq<u8>, SyntaxSpec)>,
) -> (Seq<DefSpec>, Seq<(Seq<u8>, SyntaxSpec)>)
    decreases toks.len() + 16 - i,
{
    let n = toks.len() as int;
    if i < 0 || i >= n {
        (defs, types)
    } else if word_at(toks, i, "IMPORTS".spec_bytes()) || word_at(toks, i, "EXPORTS".spec_bytes()) {
        proof {
            lemma_semi_from(toks, i);
        }
        module_from(toks, past(toks, semi_from(toks, i)), defs, types)
    } else if i + 1 < n && word_at(toks, i + 1, "DEFINITIONS".spec_bytes()) {
        proof {
            lemma_begin_from(toks, i);
        }
        module_from(toks, past(toks, begin_from(toks, i)), defs, types)
    } else if !(toks[i] is Word) {
        module_from(toks, i + 1, defs, types)
    } else {
        let name = toks[i]->Word_0@;
        if n - i > 3 && word_at(toks, i + 1, "OBJECT".spec_bytes()) && word_at(
            toks,
            i + 2,
            "IDENTIFIER".spec_bytes(),
        ) && toks[i + 3] is Assign {
            match oid_value_at(toks, i + 4) {
                Some((elems, next)) => {
                    proof {
                        lemma_elems_from(toks, i + 5, Seq::empty());
                    }
                    module_from(toks, next, defs.push(def_of(name, elems, no_clauses())), types)
                },
                None => module_from(toks, i + 4, defs, types),
            }
        } else if i + 1 < n && toks[i + 1] is Word && oid_macro(toks[i + 1]->Word_0@) {
            proof {
                lemma_assign_from(toks, i + 2);
            }
            let at = assign_end(toks, i + 2);
            let c = if toks[i + 1]->Word_0@ == "OBJECT-TYPE".spec_bytes() {
                clauses_from(toks, i + 2, at, no_clauses())
            } else {
                no_clauses()
            };
            match oid_value_at(toks, at + 1) {
                Some((elems, next)) => {
                    proof {
                        lemma_elems_from(toks, at + 2, Seq::empty());
                    }
                    module_from(toks, next, defs.push(def_of(name, elems, c)), types)
                },
                None => module_from(toks, at + 1, defs, types),
            }
        } else if i + 1 < n && toks[i + 1] is Assign {
            if word_at(toks, i + 2, "BEGIN".spec_bytes()) {
                module_from(toks, i + 3, defs, types)
            } else if word_at(toks, i + 2, "TEXTUAL-CONVENTION".spec_bytes()) {
                proof {
                    lemma_tc_from(toks, i + 3, i + 3, None);
                }
                let (syn, next) = tc_from(toks, i + 3, i + 3, None);
                module_from(toks, next, defs, type_insert(types, name, syn))
            } else {
                proof {
                    lemma_type_at(toks, i + 2);
                }
                let (syn, next) = type_at(toks, i + 2);
                module_from(
                    toks,
                    next,
                    defs,
                    if syn.base is Some || syn.named is Some {
                        type_insert(types, name, syn)
                    } else {
                        types
                    },
                )
            }
        } else {
            module_from(toks, i + 1, defs, types)
        }
    }
}

/// Whether the names an OID element carries are words.
pub open spec fn elem_words(e: ElemSpec) -> bool {
    match e {
        ElemSpec::Name(n) => super::lexer::label_text(n),
        ElemSpec::NamedNum(n, _) => super::lexer::label_text(n),
        ElemSpec::Num(_) => true,
    }
}

/// Whether a definition's name and the names in its OID value are words.
pub open spec fn def_words(d: DefSpec) -> bool {
    &&& super::lexer::label_text(d.name)
    &&& forall|k: int| 0 <= k < d.elems.len() ==> elem_words(#[trigger] d.elems[k])
}

/// Whether every definition of `ds` names only words.
pub open spec fn defs_words(ds: Seq<DefSpec>) -> bool {
    forall|k: int| 0 <= k < ds.len() ==> def_words(#[trigger] ds[k])
}

proof fn lemma_elems_words(toks: Seq<Tok>, i: int, out: Seq<ElemSpec>)
    requires
        super::lexer::words_wf(toks),
        forall|k: int| 0 <= k < out.len() ==> elem_words(#[trigger] out[k]),
    ensures
        forall|k: int|
            0 <= k < elems_from(toks, i, out).0.len() ==> elem_words(
                #[trigger] elems_from(toks, i, out).0[k],
            ),
    decreases toks.len() - i,
{
    if 0 <= i < toks.len() && !(toks[i] is RBrace) {
        if toks[i] is Word {
            let w = toks[i]->Word_0@;
            assert(toks[i] matches Tok::Word(x) ==> x@.len() > 0 && super::lexer::label_text(x@));
            if toks.len() - i > 2 && toks[i + 1] is LParen && toks[i + 2] is Num {
                let next = if i + 4 > toks.len() {
                    toks.len() as int
                } else {
                    i + 4
                };
                let o2 = out.push(ElemSpec::NamedNum(w, toks[i + 2]->Num_0 as u32));
                assert forall|k: int| 0 <= k < o2.len() implies elem_words(#[trigger] o2[k]) by {
                    if k < out.len() {
                        assert(o2[k] == out[k]);
                    }
                }
                lemma_elems_words(toks, next, o2);
                assert(elems_from(toks, i, out) == elems_from(toks, next, o2));
            } else {
                let o2 = out.push(ElemSpec::Name(w));
                assert forall|k: int| 0 <= k < o2.len() implies elem_words(#[trigger] o2[k]) by {
                    if k < out.len() {
                        assert(o2[k] == out[k]);
                    }
                }
                lemma_elems_words(toks, i + 1, o2);
                assert(elems_from(toks, i, out) == elems_from(toks, i + 1, o2));
            }
        } else if toks[i] is Num {
            let o2 = out.push(ElemSpec::Num(toks[i]->Num_0 as u32));
            assert forall|k: int| 0 <= k < o2.len() implies elem_words(#[trigger] o2[k]) by {
                if k < out.len() {
                    assert(o2[k] == out[k]);
                }
            }
            lemma_elems_words(toks, i + 1, o2);
            assert(elems_from(toks, i, out) == elems_from(toks, i + 1, o2));
        } else {
            lemma_elems_words(toks, i + 1, out);
            assert(elems_from(toks, i, out) == elems_from(toks, i + 1, out));
        }
    }
}

proof fn lemma_defs_words_push(ds: Seq<DefSpec>, d: DefSpec)
    requires
        defs_words(ds),
        def_words(d),
    ensures
        defs_words(ds.push(d)),
{
    assert forall|k: int| 0 <= k < ds.push(d).len() implies def_words(#[trigger] ds.push(d)[k]) by {
        if k < ds.len() {
            assert(ds.push(d)[k] == ds[k]);
        }
    }
}

/// The definitions read from tokens whose words are made of label
/// characters name only words.
pub proof fn lemma_module_words(
    toks: Seq<Tok>,
    i: int,
    defs: Seq<DefSpec>,
    types: Seq<(Seq<u8>, SyntaxSpec)>,
)
    requires
        super::lexer::words_wf(toks),
        defs_words(defs),
    ensures
        defs_words(module_from(toks, i, defs, types).0),
    decreases toks.len() + 16 - i,
{
    let n = toks.len() as int;
    if 0 <= i < n {
        if word_at(toks, i, "IMPORTS".spec_bytes()) || word_at(toks, i, "EXPORTS".spec_bytes()) {
            lemma_semi_from(toks, i);
            lemma_module_words(toks, past(toks, semi_from(toks, i)), defs, types);
        } else if i + 1 < n && word_at(toks, i + 1, "DEFINITIONS".spec_bytes()) {
            lemma_begin_from(toks, i);
            lemma_module_words(toks, past(toks, begin_from(toks, i)), defs, types);
        } else if !(toks[i] is Word) {
            lemma_module_words(toks, i + 1, defs, types);
        } else {
            let name = toks[i]->Word_0@;
            assert(toks[i] matches Tok::Word(x) ==> x@.len() > 0 && super::lexer::label_text(x@));
            if n - i > 3 && word_at(toks, i + 1, "OBJECT".spec_bytes()) && word_at(
                toks,
                i + 2,
                "IDENTIFIER".spec_bytes(),
            ) && toks[i + 3] is Assign {
                match oid_value_at(toks, i + 4) {
                    Some((elems, next)) => {
                        lemma_elems_from(toks, i + 5, Seq::empty());
                        lemma_elems_words(toks, i + 5, Seq::empty());
                        lemma_defs_words_push(defs, def_of(name, elems, no_clauses()));
                        lemma_module_words(
                            toks,
                            next,
                            defs.push(def_of(name, elems, no_clauses())),
                            types,
                        );
                    },
                    None => lemma_module_words(toks, i + 4, defs, types),
                }
            } else if i + 1 < n && toks[i + 1] is Word && oid_macro(toks[i + 1]->Word_0@) {
                lemma_assign_from(toks, i + 2);
                let at = assign_end(toks, i + 2);
                let c = if toks[i + 1]->Word_0@ == "OBJECT-TYPE".spec_bytes() {
                    clauses_from(toks, i + 2, at, no_clauses())
                } else {
                    no_clauses()
                };
                match oid_value_at(toks, at + 1) {
                    Some((elems, next)) => {
                        lemma_elems_from(toks, at + 2, Seq::empty());
                        lemma_elems_words(toks, at + 2, Seq::empty());
                        lemma_defs_words_push(defs, def_of(name, elems, c));
                        lemma_module_words(toks, next, defs.push(def_of(name, elems, c)), types);
                    },
                    None => lemma_module_words(toks, at + 1, defs, types),
                }
            } else if i + 1 < n && toks[i + 1] is Assign {
                if word_at(toks, i + 2, "BEGIN".spec_bytes()) {
                    lemma_module_words(toks, i + 3, defs, types);
                } else if word_at(toks, i + 2, "TEXTUAL-CONVENTION".spec_bytes()) {
                    lemma_tc_from(toks, i + 3, i + 3, None);
                    let (syn, next) = tc_from(toks, i + 3, i + 3, None);
                    lemma_module_words(toks, next, defs, type_insert(types, name, syn));
                } else {
                    lemma_type_at(toks, i + 2);
                    let (syn, next) = type_at(toks, i + 2);
                    lemma_module_words(
                        toks,
                        next,
                        defs,
                        if syn.base is Some || syn.named is Some {
                            type_insert(types, name, syn)
                        } else {
                            types
                        },
                    );
                }
            } else {
                lemma_module_words(toks, i + 1, defs, types);
            }
        }
    }
}

/// Read the definitions of one module, adding to what earlier modules gave.
pub fn parse_module(toks: &[Tok], defs: &mut Vec<Def>, types: &mut TypeTable)
    requires
        old(types).wf(),
        tok_bound(toks@),
    ensures
        final(types).wf(),
        (defs_view(final(defs)@), final(types).view_entries()) == module_from(
            toks@,
            0,
            defs_view(old(defs)@),
            old(types).view_entries(),
        ),
{
    let n = toks.len();
    let mut i: usize = 0;
    let ghost goal = module_from(toks@, 0, defs_view(defs@), types.view_entries());

    while i < n
        invariant
            n == toks@.len(),
            tok_bound(toks@),
            i <= n + 12,
            types.wf(),
            goal == module_from(toks@, 0, defs_view(old(defs)@), old(types).view_entries()),
            goal == module_from(toks@, i as int, defs_view(defs@), types.view_entries()),
        decreases n + 16 - i,
    {
        let ghost before = defs_view(defs@);
        // IMPORTS/EXPORTS lists look like definitions; skip them wholesale.
        if is_word(toks, i, "IMPORTS".as_bytes()) || is_word(toks, i, "EXPORTS".as_bytes()) {
            let i0 = i;
            while i < n && !is_semi(toks, i)
                invariant
                    i0 <= i <= n,
                    i0 < n,
                    n == toks@.len(),
                    semi_from(toks@, i0 as int) == semi_from(toks@, i as int),
                decreases n - i,
            {
                i += 1;
            }
            if i < n {
                i += 1;
            }
            continue;
        }
        // "<Module> DEFINITIONS ::= BEGIN"

        if i + 1 < n && is_word(toks, i + 1, "DEFINITIONS".as_bytes()) {
            let i0 = i;
            while i < n && !is_word(toks, i, "BEGIN".as_bytes())
                invariant
                    i0 <= i <= n,
                    i0 < n,
                    n == toks@.len(),
                    begin_from(toks@, i0 as int) == begin_from(toks@, i as int),
                decreases n - i,
            {
                i += 1;
            }
            if i < n {
                i += 1;
            }
            continue;
        }
        let name: Vec<u8> = match &toks[i] {
            Tok::Word(w) => copy_bytes(w.as_slice()),
            _ => {
                i += 1;
                continue;
            },
        };

        // "<name> OBJECT IDENTIFIER ::= { ... }"
        if n - i > 3 && is_word(toks, i + 1, "OBJECT".as_bytes()) && is_word(
            toks,
            i + 2,
            "IDENTIFIER".as_bytes(),
        ) && is_assign(toks, i + 3) {
            match parse_oid_value(toks, i + 4) {
                Some((elems, next)) => {
                    let d = Def { name, elems, syntax: None, indexes: Vec::new(), augments: None };
                    assert(indexes_view(d.indexes@) =~= Seq::<(Seq<u8>, bool)>::empty());
                    defs.push(d);
                    assert(defs_view(defs@) =~= before.push(def_view(d)));
                    i = next;
                    continue;
                },
                None => {},
            }
            i += 4;
            continue;
        }
        // "<name> <MACRO> ... ::= { ... }"

        let macro_name: Option<Vec<u8>> = if i + 1 < n {
            match &toks[i + 1] {
                Tok::Word(m) => if is_oid_macro(m.as_slice()) {
                    Some(copy_bytes(m.as_slice()))
                } else {
                    None
                },
                _ => None,
            }
        } else {
            None
        };
        if let Some(m) = macro_name {
            let is_object_type = bytes_eq(m.as_slice(), "OBJECT-TYPE".as_bytes());
            let (body, assign_at) = scan_to_assign(toks, i + 2);
            let mut def = Def {
                name,
                elems: Vec::new(),
                syntax: None,
                indexes: Vec::new(),
                augments: None,
            };
            assert(indexes_view(def.indexes@) =~= Seq::<(Seq<u8>, bool)>::empty());
            if is_object_type {
                collect_object_clauses(toks, body, assign_at, &mut def);
            }
            match parse_oid_value(toks, assign_at + 1) {
                Some((elems, next)) => {
                    def.elems = elems;
                    defs.push(def);
                    assert(defs_view(defs@) =~= before.push(def_view(def)));
                    i = next;
                },
                // SMIv1 TRAP-TYPE and friends end in "::= <number>".
                None => i = assign_at + 1,
            }
            continue;
        }
        // "<Name> ::= <type>" - a textual convention or plain type alias.

        if i + 1 < n && is_assign(toks, i + 1) {
            if is_word(toks, i + 2, "BEGIN".as_bytes()) {
                i += 3;
                continue;
            }
            if is_word(toks, i + 2, "TEXTUAL-CONVENTION".as_bytes()) {
                let (syntax, next) = parse_textual_convention(toks, i + 3);
                types.insert(name, TypeDef { syntax });
                i = next;
                continue;
            }
            let (syntax, next) = parse_type(toks, i + 2);
            if syntax.base.is_some() || syntax.named.is_some() {
                types.insert(name, TypeDef { syntax });
            }
            i = next;
            continue;
        }
        i += 1;
    }
}

/// The first `::=` from `i` on, or the end of the tokens.
pub open spec fn assign_from(toks: Seq<Tok>, i: int) -> int
    decreases toks.len() - i,
{
    if 0 <= i < toks.len() && !(toks[i] is Assign) {
        assign_from(toks, i + 1)
    } else {
        i
    }
}

/// The `::=` that ends a macro invocation whose body starts at `start`,
/// kept within the tokens.
pub open spec fn assign_end(toks: Seq<Tok>, start: int) -> int {
    let i = assign_from(toks, start);
    let last = toks.len() - 1;
    if i < last {
        i
    } else {
        last
    }
}

pub proof fn lemma_assign_from(toks: Seq<Tok>, i: int)
    requires
        0 <= i,
    ensures
        i <= assign_from(toks, i),
    decreases toks.len() - i,
{
    if i < toks.len() && !(toks[i] is Assign) {
        lemma_assign_from(toks, i + 1);
    }
}

/// Find the `::=` that terminates a macro invocation, returning the body span.
fn scan_to_assign(toks: &[Tok], start: usize) -> (r: (usize, usize))
    requires
        toks@.len() >= 1,
        tok_bound(toks@),
        start <= toks@.len() + 2,
    ensures
        r.0 == start,
        r.1 == assign_end(toks@, start as int),
        r.1 < toks@.len(),
        r.1 >= start || r.1 == toks@.len() - 1,
{
    let mut i = start;
    while i < toks.len() && !is_assign(toks, i)
        invariant
            start <= i,
            assign_from(toks@, start as int) == assign_from(toks@, i as int),
        decreases toks@.len() - i,
    {
        i += 1;
    }
    let last = toks.len() - 1;
    (start, if i < last {
        i
    } else {
        last
    })
}

/// The end of the run of tokens from `i` up to `end` before a `}`.
pub open spec fn rbrace_from(toks: Seq<Tok>, i: int, end: int) -> int
    decreases end - i,
{
    if i >= end || i >= toks.len() || rbrace_at(toks, i) {
        i
    } else {
        rbrace_from(toks, i + 1, end)
    }
}

/// The index labels listed from `i` up to `end` or a `}`, added to `idx`;
/// `implied` marks the next label IMPLIED.  Also where the list stops.
pub open spec fn index_list(
    toks: Seq<Tok>,
    i: int,
    end: int,
    idx: Seq<(Seq<u8>, bool)>,
    implied: bool,
) -> (Seq<(Seq<u8>, bool)>, int)
    decreases end - i,
{
    if i >= end || i >= toks.len() || rbrace_at(toks, i) {
        (idx, i)
    } else if 0 <= i && toks[i] is Word {
        let w = toks[i]->Word_0@;
        if w == "IMPLIED".spec_bytes() {
            index_list(toks, i + 1, end, idx, true)
        } else {
            index_list(toks, i + 1, end, idx.push((w, implied)), false)
        }
    } else {
        index_list(toks, i + 1, end, idx, implied)
    }
}

pub proof fn lemma_rbrace_from(toks: Seq<Tok>, i: int, end: int)
    ensures
        i <= rbrace_from(toks, i, end),
        rbrace_from(toks, i, end) <= i || rbrace_from(toks, i, end) <= toks.len(),
    decreases end - i,
{
    if !(i >= end || i >= toks.len() || rbrace_at(toks, i)) {
        lemma_rbrace_from(toks, i + 1, end);
    }
}

pub proof fn lemma_index_list(
    toks: Seq<Tok>,
    i: int,
    end: int,
    idx: Seq<(Seq<u8>, bool)>,
    implied: bool,
)
    ensures
        i <= index_list(toks, i, end, idx, implied).1,
        index_list(toks, i, end, idx, implied).1 <= i || index_list(toks, i, end, idx, implied).1
            <= toks.len(),
    decreases end - i,
{
    if !(i >= end || i >= toks.len() || rbrace_at(toks, i)) {
        if 0 <= i && toks[i] is Word {
            let w = toks[i]->Word_0@;
            if w == "IMPLIED".spec_bytes() {
                lemma_index_list(toks, i + 1, end, idx, true);
            } else {
                lemma_index_list(toks, i + 1, end, idx.push((w, implied)), false);
            }
        } else {
            lemma_index_list(toks, i + 1, end, idx, implied);
        }
    }
}

/// What the clauses of an OBJECT-TYPE give: its syntax, its INDEX labels
/// and the row it AUGMENTS.
pub type Clauses = (Option<SyntaxSpec>, Seq<(Seq<u8>, bool)>, Option<Seq<u8>>);

/// The clauses of an OBJECT-TYPE body read from `i` up to `end`, added to
/// `c`.  Only the first SYNTAX counts.
pub open spec fn clauses_from(toks: Seq<Tok>, i: int, end: int, c: Clauses) -> Clauses
    decreases toks.len() + 13 - i,
{
    if i >= end || i < 0 || i >= toks.len() {
        c
    } else if word_at(toks, i, "SYNTAX".spec_bytes()) && c.0 is None {
        proof {
            lemma_type_at(toks, i + 1);
        }
        let (syn, next) = type_at(toks, i + 1);
        clauses_from(toks, next, end, (Some(syn), c.1, c.2))
    } else if word_at(toks, i, "INDEX".spec_bytes()) {
        let j = i + 1;
        if lbrace_at(toks, j) {
            proof {
                lemma_index_list(toks, j + 1, end, c.1, false);
            }
            let (idx, k) = index_list(toks, j + 1, end, c.1, false);
            clauses_from(toks, k + 1, end, (c.0, idx, c.2))
        } else {
            clauses_from(toks, j, end, c)
        }
    } else if word_at(toks, i, "AUGMENTS".spec_bytes()) {
        let j = i + 1;
        if lbrace_at(toks, j) {
            let first = j + 1;
            let aug = if first < toks.len() && toks[first] is Word {
                Some(toks[first]->Word_0@)
            } else {
                c.2
            };
            proof {
                lemma_rbrace_from(toks, first, end);
            }
            let k = rbrace_from(toks, first, end);
            clauses_from(toks, k + 1, end, (c.0, c.1, aug))
        } else {
            clauses_from(toks, j, end, c)
        }
    } else {
        clauses_from(toks, i + 1, end, c)
    }
}

/// What a definition's clauses hold so far.
pub open spec fn clauses_of(d: Def) -> Clauses {
    (opt_syntax_view(d.syntax), indexes_view(d.indexes@), opt_bytes(d.augments))
}

/// Pull SYNTAX, INDEX and AUGMENTS out of an OBJECT-TYPE body.
fn collect_object_clauses(toks: &[Tok], start: usize, end: usize, def: &mut Def)
    requires
        start <= toks@.len() + 2,
        end < toks@.len(),
        tok_bound(toks@),
    ensures
        final(def).name == old(def).name,
        final(def).elems == old(def).elems,
        clauses_of(*final(def)) == clauses_from(toks@, start as int, end as int, clauses_of(*old(def))),
{
    let ghost goal = clauses_from(toks@, start as int, end as int, clauses_of(*def));
    let mut i = start;
    while i < end
        invariant
            end < toks@.len(),
            tok_bound(toks@),
            i <= toks@.len() + 12,
            def.name == old(def).name,
            def.elems == old(def).elems,
            goal == clauses_from(toks@, start as int, end as int, clauses_of(*old(def))),
            goal == clauses_from(toks@, i as int, end as int, clauses_of(*def)),
        decreases toks@.len() + 13 - i,
    {
        if is_word(toks, i, "SYNTAX".as_bytes()) && def.syntax.is_none() {
            let (syntax, next) = parse_type(toks, i + 1);
            def.syntax = Some(syntax);
            i = next;
        } else if is_word(toks, i, "INDEX".as_bytes()) {
            i += 1;
            if is_lbrace(toks, i) {
                i += 1;
                let i1 = i;
                let mut implied = false;
                let ghost list = index_list(toks@, i1 as int, end as int, indexes_view(def.indexes@), false);
                let ghost syn0 = def.syntax;
                let ghost aug0 = def.augments;
                while i < end && !is_rbrace(toks, i)
                    invariant
                        end < toks@.len(),
                        tok_bound(toks@),
                        i1 <= i,
                        i <= end + 1,
                        def.name == old(def).name,
                        def.elems == old(def).elems,
                        def.syntax == syn0,
                        def.augments == aug0,
                        list == index_list(toks@, i as int, end as int, indexes_view(def.indexes@), implied),
                    decreases end - i,
                {
                    match &toks[i] {
                        Tok::Word(w) => {
                            if bytes_eq(w.as_slice(), "IMPLIED".as_bytes()) {
                                implied = true;
                            } else {
                                let ghost before = indexes_view(def.indexes@);
                                let x = Index { label: copy_bytes(w.as_slice()), implied };
                                def.indexes.push(x);
                                assert(indexes_view(def.indexes@) =~= before.push((w@, implied)));
                                implied = false;
                            }
                        },
                        _ => {},
                    }
                    i += 1;
                }
                i += 1;
            }
        } else if is_word(toks, i, "AUGMENTS".as_bytes()) {
            i += 1;
            if is_lbrace(toks, i) {
                i += 1;
                let i1 = i;
                if i < toks.len() {
                    match &toks[i] {
                        Tok::Word(w) => {
                            def.augments = Some(copy_bytes(w.as_slice()));
                        },
                        _ => {},
                    }
                }
                let ghost stop = rbrace_from(toks@, i1 as int, end as int);
                while i < end && !is_rbrace(toks, i)
                    invariant
                        end < toks@.len(),
                        tok_bound(toks@),
                        i1 <= i,
                        i <= end + 2,
                        stop == rbrace_from(toks@, i as int, end as int),
                    decreases end - i,
                {
                    i += 1;
                }
                i += 1;
            }
        } else {
            i += 1;
        }
    }
}

/// The syntax a textual convention's clauses from `i` give, `hint` the
/// DISPLAY-HINT seen so far, and where it ends.  The search for SYNTAX stops
/// 400 tokens after `start`.
pub open spec fn tc_from(toks: Seq<Tok>, start: int, i: int, hint: Option<Seq<u8>>) -> (
    SyntaxSpec,
    int,
)
    decreases start + 403 - i,
{
    if !(0 <= i < toks.len() && i <= start + 400) {
        (SyntaxSpec { hint, ..empty_syntax() }, i)
    } else if word_at(toks, i, "DISPLAY-HINT".spec_bytes()) {
        let h = if i + 1 < toks.len() && toks[i + 1] is Str {
            Some(toks[i + 1]->Str_0@)
        } else {
            hint
        };
        tc_from(toks, start, i + 2, h)
    } else if word_at(toks, i, "SYNTAX".spec_bytes()) {
        let (syn, next) = type_at(toks, i + 1);
        (
            if syn.hint is None {
                SyntaxSpec { hint, ..syn }
            } else {
                syn
            },
            next,
        )
    } else {
        tc_from(toks, start, i + 1, hint)
    }
}

pub proof fn lemma_tc_from(toks: Seq<Tok>, start: int, i: int, hint: Option<Seq<u8>>)
    requires
        0 <= start <= i,
        i <= toks.len() + 8,
    ensures
        i <= tc_from(toks, start, i, hint).1 <= toks.len() + 12,
    decreases start + 403 - i,
{
    if 0 <= i < toks.len() && i <= start + 400 {
        if word_at(toks, i, "DISPLAY-HINT".spec_bytes()) {
            let h = if i + 1 < toks.len() && toks[i + 1] is Str {
                Some(toks[i + 1]->Str_0@)
            } else {
                hint
            };
            lemma_tc_from(toks, start, i + 2, h);
        } else if word_at(toks, i, "SYNTAX".spec_bytes()) {
            lemma_type_at(toks, i + 1);
        } else {
            lemma_tc_from(toks, start, i + 1, hint);
        }
    }
}

fn parse_textual_convention(toks: &[Tok], start: usize) -> (r: (SyntaxRef, usize))
    requires
        tok_bound(toks@),
        start <= toks@.len() + 8,
    ensures
        (syntax_view(r.0), r.1 as int) == tc_from(toks@, start as int, start as int, None),
        start <= r.1 <= toks@.len() + 12,
{
    proof {
        lemma_tc_from(toks@, start as int, start as int, None);
    }
    let ghost goal = tc_from(toks@, start as int, start as int, None);
    let mut hint: Option<Vec<u8>> = None;
    let mut i = start;
    // Walk the TC's clauses until SYNTAX, which is always last.
    while i < toks.len() && i <= start + 400
        invariant
            start <= i <= start + 402,
            i <= toks@.len() + 8,
            tok_bound(toks@),
            start <= toks@.len() + 8,
            goal == tc_from(toks@, start as int, start as int, None),
            goal == tc_from(toks@, start as int, i as int, opt_bytes(hint)),
        decreases start + 403 - i,
    {
        if is_word(toks, i, "DISPLAY-HINT".as_bytes()) {
            if i + 1 < toks.len() {
                match &toks[i + 1] {
                    Tok::Str(s) => {
                        hint = Some(copy_bytes(s.as_slice()));
                    },
                    _ => {},
                }
            }
            i += 2;
        } else if is_word(toks, i, "SYNTAX".as_bytes()) {
            let (mut syntax, next) = parse_type(toks, i + 1);
            if syntax.hint.is_none() {
                syntax.hint = hint;
            }
            return (syntax, next);
        } else {
            i += 1;
        }
        // A malformed TC should not swallow the rest of the file: the loop
        // stops once it has gone 400 tokens without finding SYNTAX.
    }
    let mut out = SyntaxRef::empty();
    out.hint = hint;
    (out, i)
}

/// Whether token `i` exists and is `{`.
pub open spec fn lbrace_at(toks: Seq<Tok>, i: int) -> bool {
    0 <= i < toks.len() && toks[i] is LBrace
}

/// Whether token `i` exists and is `}`.
pub open spec fn rbrace_at(toks: Seq<Tok>, i: int) -> bool {
    0 <= i < toks.len() && toks[i] is RBrace
}

/// Whether token `i` exists and is `(`.
pub open spec fn lparen_at(toks: Seq<Tok>, i: int) -> bool {
    0 <= i < toks.len() && toks[i] is LParen
}

/// Just past the `}` that closes the braces open to depth `depth` at `i`;
/// the end of the tokens if it never comes.
pub open spec fn close_brace(toks: Seq<Tok>, i: int, depth: int) -> int
    decreases toks.len() - i,
{
    if i < 0 || i >= toks.len() {
        toks.len() as int
    } else if toks[i] is LBrace {
        close_brace(toks, i + 1, depth + 1)
    } else if toks[i] is RBrace {
        if depth - 1 == 0 {
            i + 1
        } else {
            close_brace(toks, i + 1, depth - 1)
        }
    } else {
        close_brace(toks, i + 1, depth)
    }
}

/// The `)` that closes the parentheses open to depth `depth` at `i`; the end
/// of the tokens if it never comes.
pub open spec fn close_paren(toks: Seq<Tok>, i: int, depth: int) -> int
    decreases toks.len() - i,
{
    if i < 0 || i >= toks.len() {
        toks.len() as int
    } else if toks[i] is LParen {
        close_paren(toks, i + 1, depth + 1)
    } else if toks[i] is RParen {
        if depth - 1 == 0 {
            i
        } else {
            close_paren(toks, i + 1, depth - 1)
        }
    } else {
        close_paren(toks, i + 1, depth)
    }
}

pub proof fn lemma_close_brace(toks: Seq<Tok>, i: int, depth: int)
    requires
        0 <= i <= toks.len(),
    ensures
        i <= close_brace(toks, i, depth) <= toks.len(),
    decreases toks.len() - i,
{
    if i < toks.len() {
        if toks[i] is LBrace {
            lemma_close_brace(toks, i + 1, depth + 1);
        } else if toks[i] is RBrace {
            if depth - 1 != 0 {
                lemma_close_brace(toks, i + 1, depth - 1);
            }
        } else {
            lemma_close_brace(toks, i + 1, depth);
        }
    }
}

pub proof fn lemma_close_paren(toks: Seq<Tok>, i: int, depth: int)
    requires
        0 <= i <= toks.len(),
    ensures
        i <= close_paren(toks, i, depth) <= toks.len(),
    decreases toks.len() - i,
{
    if i < toks.len() {
        if toks[i] is LParen {
            lemma_close_paren(toks, i + 1, depth + 1);
        } else if toks[i] is RParen {
            if depth - 1 != 0 {
                lemma_close_paren(toks, i + 1, depth - 1);
            }
        } else {
            lemma_close_paren(toks, i + 1, depth);
        }
    }
}

/// The named values of `{ a(1), b(2) }` from `i` on, `out` read so far, and
/// the position just past the `}`.
pub open spec fn enums_from(toks: Seq<Tok>, i: int, out: Seq<(Seq<u8>, i64)>) -> (
    Seq<(Seq<u8>, i64)>,
    int,
)
    decreases toks.len() - i,
{
    if i < 0 || i >= toks.len() || toks[i] is RBrace {
        (out, i + 1)
    } else if toks.len() - i > 2 && toks[i] is Word && toks[i + 1] is LParen && toks[i + 2] is Num {
        let next = if i + 4 > toks.len() {
            toks.len() as int
        } else {
            i + 4
        };
        enums_from(toks, next, out.push((toks[i]->Word_0@, toks[i + 2]->Num_0)))
    } else {
        enums_from(toks, i + 1, out)
    }
}

pub proof fn lemma_enums_from(toks: Seq<Tok>, i: int, out: Seq<(Seq<u8>, i64)>)
    requires
        0 <= i <= toks.len(),
    ensures
        i < enums_from(toks, i, out).1 <= toks.len() + 1,
    decreases toks.len() - i,
{
    if i < toks.len() && !(toks[i] is RBrace) {
        if toks.len() - i > 2 && toks[i] is Word && toks[i + 1] is LParen && toks[i + 2] is Num {
            let next = if i + 4 > toks.len() {
                toks.len() as int
            } else {
                i + 4
            };
            lemma_enums_from(toks, next, out.push((toks[i]->Word_0@, toks[i + 2]->Num_0)));
        } else {
            lemma_enums_from(toks, i + 1, out);
        }
    }
}

/// The value ranges listed from `i` up to `end`, `out` read so far.
pub open spec fn ranges_from(toks: Seq<Tok>, i: int, end: int, out: Seq<(i64, i64)>) -> Seq<
    (i64, i64),
>
    decreases end + 3 - i,
{
    if i >= end || i < 0 || i >= toks.len() {
        out
    } else if toks[i] is Num {
        let a = toks[i]->Num_0;
        if i + 1 < toks.len() && toks[i + 1] is DotDot {
            let more = if i + 2 < toks.len() && toks[i + 2] is Num {
                out.push((a, toks[i + 2]->Num_0))
            } else {
                out
            };
            ranges_from(toks, i + 3, end, more)
        } else {
            ranges_from(toks, i + 1, end, out.push((a, a)))
        }
    } else {
        ranges_from(toks, i + 1, end, out)
    }
}

/// Where the ranges of a constraint opening at `start` begin: past `SIZE (`
/// when there is one.
pub open spec fn ranges_start(toks: Seq<Tok>, start: int) -> int {
    let i = start + 1;
    if word_at(toks, i, "SIZE".spec_bytes()) {
        if lparen_at(toks, i + 1) {
            i + 2
        } else {
            i + 1
        }
    } else {
        i
    }
}

/// The ranges of the constraint opening at `start`, and the position just
/// past its closing `)` (the end of the tokens when it is not closed).
pub open spec fn constraint_at(toks: Seq<Tok>, start: int) -> (Seq<(i64, i64)>, int) {
    let end = close_paren(toks, start, 0);
    (
        ranges_from(toks, ranges_start(toks, start), end, Seq::empty()),
        if end < toks.len() {
            end + 1
        } else {
            end
        },
    )
}

/// The type a built-in type name other than the ASN.1 keywords stands for.
pub open spec fn builtin_type_of(w: Seq<u8>) -> Option<BaseType> {
    if w == "Integer32".spec_bytes() {
        Some(BaseType::Integer32)
    } else if w == "Unsigned32".spec_bytes() {
        Some(BaseType::Unsigned32)
    } else if w == "Gauge".spec_bytes() || w == "Gauge32".spec_bytes() {
        Some(BaseType::Gauge)
    } else if w == "Counter".spec_bytes() || w == "Counter32".spec_bytes() {
        Some(BaseType::Counter)
    } else if w == "Counter64".spec_bytes() {
        Some(BaseType::Counter64)
    } else if w == "TimeTicks".spec_bytes() {
        Some(BaseType::TimeTicks)
    } else if w == "IpAddress".spec_bytes() {
        Some(BaseType::IpAddr)
    } else if w == "NetworkAddress".spec_bytes() {
        Some(BaseType::NetAddr)
    } else if w == "Opaque".spec_bytes() {
        Some(BaseType::Opaque)
    } else if w == "UInteger32".spec_bytes() {
        Some(BaseType::Uinteger)
    } else {
        None
    }
}

/// `out` with the enumeration or constraint that follows at `i`, if any,
/// and the position after it.
pub open spec fn type_tail(toks: Seq<Tok>, out: SyntaxSpec, i: int) -> (SyntaxSpec, int) {
    if lbrace_at(toks, i) {
        let (enums, next) = enums_from(toks, i + 1, Seq::empty());
        (SyntaxSpec { enums, ..out }, next)
    } else if lparen_at(toks, i) {
        let (ranges, next) = constraint_at(toks, i);
        (SyntaxSpec { ranges, ..out }, next)
    } else {
        (out, i)
    }
}

/// The syntax with only a base type.
pub open spec fn based(b: BaseType) -> SyntaxSpec {
    SyntaxSpec { base: Some(b), ..empty_syntax() }
}

/// The type reference at `start`, and the position just past it.
pub open spec fn type_at(toks: Seq<Tok>, start: int) -> (SyntaxSpec, int) {
    let i = start;
    if word_at(toks, i, "INTEGER".spec_bytes()) {
        type_tail(toks, based(BaseType::Integer), i + 1)
    } else if word_at(toks, i, "OCTET".spec_bytes()) && word_at(toks, i + 1, "STRING".spec_bytes()) {
        type_tail(toks, based(BaseType::OctetStr), i + 2)
    } else if word_at(toks, i, "OBJECT".spec_bytes()) && word_at(
        toks,
        i + 1,
        "IDENTIFIER".spec_bytes(),
    ) {
        type_tail(toks, based(BaseType::ObjId), i + 2)
    } else if word_at(toks, i, "BITS".spec_bytes()) {
        type_tail(toks, based(BaseType::BitString), i + 1)
    } else if word_at(toks, i, "NULL".spec_bytes()) {
        type_tail(toks, based(BaseType::Null), i + 1)
    } else if word_at(toks, i, "SEQUENCE".spec_bytes()) {
        let j = i + 1;
        if word_at(toks, j, "OF".spec_bytes()) {
            (empty_syntax(), j + 2)
        } else if lbrace_at(toks, j) {
            (empty_syntax(), close_brace(toks, j, 0))
        } else {
            (empty_syntax(), j)
        }
    } else if 0 <= i < toks.len() && toks[i] is Word {
        let w = toks[i]->Word_0@;
        let out = match builtin_type_of(w) {
            Some(b) => based(b),
            None => SyntaxSpec { named: Some(w), ..empty_syntax() },
        };
        type_tail(toks, out, i + 1)
    } else {
        (empty_syntax(), i + 1)
    }
}

pub proof fn lemma_type_at(toks: Seq<Tok>, start: int)
    requires
        0 <= start,
    ensures
        start < type_at(toks, start).1,
        type_at(toks, start).1 <= toks.len() + 12 || type_at(toks, start).1 == start + 1,
        start >= toks.len() ==> type_at(toks, start) == (empty_syntax(), start + 1),
{
    let i = start;
    if word_at(toks, i, "SEQUENCE".spec_bytes()) {
        if !word_at(toks, i + 1, "OF".spec_bytes()) && lbrace_at(toks, i + 1) {
            lemma_close_brace(toks, i + 2, 1);
        }
    }
    // The enumeration or constraint after a base type of one or two words.
    if lbrace_at(toks, i + 1) {
        lemma_enums_from(toks, i + 2, Seq::empty());
    }
    if lparen_at(toks, i + 1) {
        lemma_close_paren(toks, i + 2, 1);
    }
    if lbrace_at(toks, i + 2) {
        lemma_enums_from(toks, i + 3, Seq::empty());
    }
    if lparen_at(toks, i + 2) {
        lemma_close_paren(toks, i + 3, 1);
    }
}

/// Parse a type reference, returning the syntax and the index just past it.
pub fn parse_type(toks: &[Tok], start: usize) -> (r: (SyntaxRef, usize))
    requires
        tok_bound(toks@),
        start < usize::MAX,
    ensures
        (syntax_view(r.0), r.1 as int) == type_at(toks@, start as int),
        start < r.1,
        r.1 <= toks@.len() + 12 || r.1 == start + 1,
        start >= toks@.len() ==> syntax_view(r.0) == empty_syntax() && r.1 == start + 1,
{
    proof {
        lemma_type_at(toks@, start as int);
    }
    let mut out = SyntaxRef::empty();
    let mut i = start;

    if is_word(toks, i, "INTEGER".as_bytes()) {
        out.base = Some(BaseType::Integer);
        i += 1;
    } else if is_word(toks, i, "OCTET".as_bytes()) && is_word(toks, i + 1, "STRING".as_bytes()) {
        out.base = Some(BaseType::OctetStr);
        i += 2;
    } else if is_word(toks, i, "OBJECT".as_bytes()) && is_word(
        toks,
        i + 1,
        "IDENTIFIER".as_bytes(),
    ) {
        out.base = Some(BaseType::ObjId);
        i += 2;
    } else if is_word(toks, i, "BITS".as_bytes()) {
        out.base = Some(BaseType::BitString);
        i += 1;
    } else if is_word(toks, i, "NULL".as_bytes()) {
        out.base = Some(BaseType::Null);
        i += 1;
    } else if is_word(toks, i, "SEQUENCE".as_bytes()) {
        i += 1;
        if is_word(toks, i, "OF".as_bytes()) {
            i += 2;
        } else if is_lbrace(toks, i) {
            i = skip_braces(toks, i);
        }
        return (out, i);
    } else if i < toks.len() {
        match &toks[i] {
            Tok::Word(w) => {
                match builtin_type(w.as_slice()) {
                    Some(b) => {
                        out.base = Some(b);
                    },
                    None => {
                        out.named = Some(copy_bytes(w.as_slice()));
                    },
                }
                i += 1;
            },
            _ => {
                return (out, i + 1);
            },
        }
    } else {
        return (out, i + 1);
    }
    // An optional enumeration or constraint follows the base type.
    let ghost head = syntax_view(out);
    assert(type_at(toks@, start as int) == type_tail(toks@, head, i as int));
    if is_lbrace(toks, i) {
        let (enums, next) = parse_enums(toks, i);
        out.enums = enums;
        i = next;
    } else if is_lparen(toks, i) {
        let (ranges, next) = parse_constraint(toks, i);
        out.ranges = ranges;
        i = next;
    }
    (out, i)
}

fn builtin_type(w: &[u8]) -> (r: Option<BaseType>)
    ensures
        r == builtin_type_of(w@),
{
    if bytes_eq(w, "Integer32".as_bytes()) {
        Some(BaseType::Integer32)
    } else if bytes_eq(w, "Unsigned32".as_bytes()) {
        Some(BaseType::Unsigned32)
    } else if bytes_eq(w, "Gauge".as_bytes()) || bytes_eq(w, "Gauge32".as_bytes()) {
        Some(BaseType::Gauge)
    } else if bytes_eq(w, "Counter".as_bytes()) || bytes_eq(w, "Counter32".as_bytes()) {
        Some(BaseType::Counter)
    } else if bytes_eq(w, "Counter64".as_bytes()) {
        Some(BaseType::Counter64)
    } else if bytes_eq(w, "TimeTicks".as_bytes()) {
        Some(BaseType::TimeTicks)
    } else if bytes_eq(w, "IpAddress".as_bytes()) {
        Some(BaseType::IpAddr)
    } else if bytes_eq(w, "NetworkAddress".as_bytes()) {
        Some(BaseType::NetAddr)
    } else if bytes_eq(w, "Opaque".as_bytes()) {
        Some(BaseType::Opaque)
    } else if bytes_eq(w, "UInteger32".as_bytes()) {
        Some(BaseType::Uinteger)
    } else {
        None
    }
}

fn parse_enums(toks: &[Tok], start: usize) -> (r: (Vec<(Vec<u8>, i64)>, usize))
    requires
        start < toks@.len(),
        tok_bound(toks@),
    ensures
        (enums_view(r.0@), r.1 as int) == enums_from(toks@, start + 1, Seq::empty()),
        start < r.1 <= toks@.len() + 1,
{
    let mut out: Vec<(Vec<u8>, i64)> = Vec::new();
    let mut i = start + 1;
    let ghost goal = enums_from(toks@, start + 1, Seq::empty());
    assert(enums_view(out@) =~= Seq::<(Seq<u8>, i64)>::empty());
    while i < toks.len() && !is_rbrace(toks, i)
        invariant
            start < i <= toks@.len(),
            tok_bound(toks@),
            goal == enums_from(toks@, start + 1, Seq::empty()),
            goal == enums_from(toks@, i as int, enums_view(out@)),
        decreases toks@.len() - i,
    {
        if toks.len() - i > 2 {
            match (&toks[i], &toks[i + 1], &toks[i + 2]) {
                (Tok::Word(label), Tok::LParen, Tok::Num(v)) => {
                    let ghost before = enums_view(out@);
                    out.push((copy_bytes(label.as_slice()), *v));
                    assert(enums_view(out@) =~= before.push((label@, *v)));
                    i += 4;  // label ( value )
                    if i > toks.len() {
                        i = toks.len();
                    }
                    continue;
                },
                _ => {},
            }
        }
        i += 1;
    }
    (out, i + 1)
}

/// Parse `(0..255)`, `(SIZE (1..32))`, `(SIZE(0|4|16))` and unions thereof.
fn parse_constraint(toks: &[Tok], start: usize) -> (r: (Vec<(i64, i64)>, usize))
    requires
        start < toks@.len(),
        tok_bound(toks@),
        toks@[start as int] is LParen,
    ensures
        (r.0@, r.1 as int) == constraint_at(toks@, start as int),
        start < r.1 <= toks@.len(),
{
    let end = skip_parens(toks, start);
    let past = if end < toks.len() {
        end + 1
    } else {
        end
    };
    let mut out: Vec<(i64, i64)> = Vec::new();
    let mut i = start + 1;

    if is_word(toks, i, "SIZE".as_bytes()) {
        i += 1;
        if is_lparen(toks, i) {
            i += 1;
        }
    }
    let ghost goal = constraint_at(toks@, start as int).0;
    assert(out@ =~= Seq::<(i64, i64)>::empty());
    while i < end
        invariant
            end <= toks@.len(),
            tok_bound(toks@),
            i <= end + 3,
            goal == constraint_at(toks@, start as int).0,
            goal == ranges_from(toks@, i as int, end as int, out@),
        decreases end + 3 - i,
    {
        match &toks[i] {
            Tok::Num(a) => {
                if i + 1 < toks.len() && matches!(toks[i + 1], Tok::DotDot) {
                    if i + 2 < toks.len() {
                        match &toks[i + 2] {
                            Tok::Num(b) => {
                                out.push((*a, *b));
                            },
                            _ => {},
                        }
                    }
                    i += 3;
                } else {
                    out.push((*a, *a));
                    i += 1;
                }
            },
            // A named upper bound or anything else that cannot be evaluated.
            _ => i += 1,
        }
    }
    (out, past)
}

fn skip_braces(toks: &[Tok], start: usize) -> (r: usize)
    requires
        start < toks@.len(),
        toks@[start as int] is LBrace,
    ensures
        r == close_brace(toks@, start as int, 0),
        start < r <= toks@.len(),
{
    proof {
        lemma_close_brace(toks@, start + 1, 1);
    }
    let mut depth: usize = 0;
    let mut i = start;
    while i < toks.len()
        invariant
            start <= i <= toks@.len(),
            toks@[start as int] is LBrace,
            i > start ==> depth >= 1,
            i == start ==> depth == 0,
            depth <= i - start,
            close_brace(toks@, start as int, 0) == close_brace(toks@, i as int, depth as int),
        decreases toks@.len() - i,
    {
        match toks[i] {
            Tok::LBrace => depth += 1,
            Tok::RBrace => {
                depth -= 1;
                if depth == 0 {
                    return i + 1;
                }
            },
            _ => {},
        }
        i += 1;
    }
    i
}

fn skip_parens(toks: &[Tok], start: usize) -> (r: usize)
    requires
        start < toks@.len(),
        toks@[start as int] is LParen,
    ensures
        r == close_paren(toks@, start as int, 0),
        start < r <= toks@.len(),
{
    proof {
        lemma_close_paren(toks@, start + 1, 1);
    }
    let mut depth: usize = 0;
    let mut i = start;
    while i < toks.len()
        invariant
            start <= i <= toks@.len(),
            toks@[start as int] is LParen,
            i > start ==> depth >= 1,
            i == start ==> depth == 0,
            depth <= i - start,
            close_paren(toks@, start as int, 0) == close_paren(toks@, i as int, depth as int),
        decreases toks@.len() - i,
    {
        match toks[i] {
            Tok::LParen => depth += 1,
            Tok::RParen => {
                depth -= 1;
                if depth == 0 {
                    return i;
                }
            },
            _ => {},
        }
        i += 1;
    }
    i
}

/// The elements of an OID value from `i` on, `out` read so far, and the
/// position just past the closing `}`.
pub open spec fn elems_from(toks: Seq<Tok>, i: int, out: Seq<ElemSpec>) -> (Seq<ElemSpec>, int)
    decreases toks.len() - i,
{
    if i < 0 || i >= toks.len() || toks[i] is RBrace {
        (out, i + 1)
    } else if toks[i] is Word {
        let w = toks[i]->Word_0@;
        if toks.len() - i > 2 && toks[i + 1] is LParen && toks[i + 2] is Num {
            let next = if i + 4 > toks.len() {
                toks.len() as int
            } else {
                i + 4
            };
            elems_from(toks, next, out.push(ElemSpec::NamedNum(w, toks[i + 2]->Num_0 as u32)))
        } else {
            elems_from(toks, i + 1, out.push(ElemSpec::Name(w)))
        }
    } else if toks[i] is Num {
        elems_from(toks, i + 1, out.push(ElemSpec::Num(toks[i]->Num_0 as u32)))
    } else {
        elems_from(toks, i + 1, out)
    }
}

/// The OID value `{ ... }` at `start`, and the position just past it.
pub open spec fn oid_value_at(toks: Seq<Tok>, start: int) -> Option<(Seq<ElemSpec>, int)> {
    if lbrace_at(toks, start) {
        Some(elems_from(toks, start + 1, Seq::empty()))
    } else {
        None
    }
}

pub proof fn lemma_elems_from(toks: Seq<Tok>, i: int, out: Seq<ElemSpec>)
    requires
        0 <= i <= toks.len(),
    ensures
        i < elems_from(toks, i, out).1 <= toks.len() + 1,
    decreases toks.len() - i,
{
    if i < toks.len() && !(toks[i] is RBrace) {
        if toks[i] is Word {
            let w = toks[i]->Word_0@;
            if toks.len() - i > 2 && toks[i + 1] is LParen && toks[i + 2] is Num {
                let next = if i + 4 > toks.len() {
                    toks.len() as int
                } else {
                    i + 4
                };
                lemma_elems_from(
                    toks,
                    next,
                    out.push(ElemSpec::NamedNum(w, toks[i + 2]->Num_0 as u32)),
                );
            } else {
                lemma_elems_from(toks, i + 1, out.push(ElemSpec::Name(w)));
            }
        } else if toks[i] is Num {
            lemma_elems_from(toks, i + 1, out.push(ElemSpec::Num(toks[i]->Num_0 as u32)));
        } else {
            lemma_elems_from(toks, i + 1, out);
        }
    }
}

/// Parse `{ parent name(3) 6 1 }` into its elements.
fn parse_oid_value(toks: &[Tok], start: usize) -> (r: Option<(Vec<OidElem>, usize)>)
    requires
        tok_bound(toks@),
    ensures
        match oid_value_at(toks@, start as int) {
            Some((elems, next)) => r matches Some((v, j)) && elems_view(v@) == elems && j == next,
            None => r is None,
        },
        r matches Some((_, next)) ==> start < next <= toks@.len() + 1,
{
    if !is_lbrace(toks, start) {
        return None;
    }
    proof {
        lemma_elems_from(toks@, start + 1, Seq::empty());
    }
    let mut out: Vec<OidElem> = Vec::new();
    let mut i = start + 1;
    let ghost goal = elems_from(toks@, start + 1, Seq::empty());
    assert(elems_view(out@) =~= Seq::<ElemSpec>::empty());
    while i < toks.len() && !is_rbrace(toks, i)
        invariant
            start < i <= toks@.len(),
            tok_bound(toks@),
            goal == elems_from(toks@, start + 1, Seq::empty()),
            goal == elems_from(toks@, i as int, elems_view(out@)),
        decreases toks@.len() - i,
    {
        let ghost before = elems_view(out@);
        match &toks[i] {
            Tok::Word(w) => {
                if toks.len() - i > 2 && matches!(toks[i + 1], Tok::LParen) {
                    match &toks[i + 2] {
                        Tok::Num(v) => {
                            let e = OidElem::NamedNum(copy_bytes(w.as_slice()), *v as u32);
                            out.push(e);
                            assert(elems_view(out@) =~= before.push(elem_view(e)));
                            i += 4;
                            if i > toks.len() {
                                i = toks.len();
                            }
                            continue;
                        },
                        _ => {},
                    }
                }
                let e = OidElem::Name(copy_bytes(w.as_slice()));
                out.push(e);
                assert(elems_view(out@) =~= before.push(elem_view(e)));
                i += 1;
            },
            Tok::Num(v) => {
                let e = OidElem::Num(*v as u32);
                out.push(e);
                assert(elems_view(out@) =~= before.push(elem_view(e)));
                i += 1;
            },
            _ => i += 1,
        }
    }
    Some((out, i + 1))
}

} // verus!
