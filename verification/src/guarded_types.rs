//! Guarded-formula atoms over terms as a theory writes them: a variable
//! leaf is either bound, by a De Bruijn index into the enclosing binder
//! list (`Bound(0)` is the innermost binder), or free, a written variable.
use vstd::prelude::*;
use crate::surface::{
    sterms_m, strings_m, varspecs_m, STermM, SurfaceAtom, SurfaceFact, SurfaceTerm, SAtomM, SFactM, group_sterm_lemmas,
};
use crate::term::LSort;
use crate::vars::{VarSpec, VarSpecM};

verus! {

broadcast use vstd::std_specs::vec::group_vec_axioms;

/// A variable leaf: bound by a De Bruijn index, or free.
#[derive(Debug, PartialEq, Eq)]
pub enum BVar {
    Bound(u32),
    Free(VarSpec),
}

/// The model of a [`BVar`].
pub enum GBVarM {
    Bound(u32),
    Free(VarSpecM),
}

impl BVar {
    pub open spec fn view(&self) -> GBVarM {
        match self {
            BVar::Bound(n) => GBVarM::Bound(*n),
            BVar::Free(v) => GBVarM::Free(v@),
        }
    }
}

/// A binder: a name and a sort; its identity is its position in the
/// binder list.
#[derive(Debug, PartialEq, Eq)]
pub struct GBinding {
    pub name: String,
    pub sort: LSort,
}

/// A written term whose variable leaves are [`BVar`]s.
#[derive(Debug, PartialEq, Eq)]
pub enum GTerm {
    Var(BVar),
    PubLit(String),
    FreshLit(String),
    NatLit(String),
    Number(u64),
    NumberOne,
    NatOne,
    DhNeutral,
    App(String, Vec<GTerm>),
    AlgApp(String, Box<GTerm>, Box<GTerm>),
    Pair(Vec<GTerm>),
    Diff(Box<GTerm>, Box<GTerm>),
    BinOp(String, Box<GTerm>, Box<GTerm>),
    PatMatch(Box<GTerm>),
}

/// The model of a [`GTerm`].
pub enum GTermM {
    Var(GBVarM),
    PubLit(Seq<char>),
    FreshLit(Seq<char>),
    NatLit(Seq<char>),
    Number(u64),
    NumberOne,
    NatOne,
    DhNeutral,
    App(Seq<char>, Seq<GTermM>),
    AlgApp(Seq<char>, Box<GTermM>, Box<GTermM>),
    Pair(Seq<GTermM>),
    Diff(Box<GTermM>, Box<GTermM>),
    BinOp(Seq<char>, Box<GTermM>, Box<GTermM>),
    PatMatch(Box<GTermM>),
}

/// The models of a sequence of terms.
pub open spec fn gterms_m(ts: Seq<GTerm>) -> Seq<GTermM>
    decreases ts, 1nat,
{
    Seq::new(ts.len(), |i: int| if 0 <= i < ts.len() { ts[i].view() } else { GTermM::NumberOne })
}

pub broadcast proof fn lemma_gterms_m_len(ts: Seq<GTerm>)
    ensures
        #[trigger] gterms_m(ts).len() == ts.len(),
{
}

pub broadcast proof fn lemma_gterms_m_index(ts: Seq<GTerm>, j: int)
    requires
        0 <= j < ts.len(),
    ensures
        #[trigger] gterms_m(ts)[j] == ts[j]@,
{
}

pub broadcast group group_gterm_lemmas {
    lemma_gterms_m_len,
    lemma_gterms_m_index,
}

impl GTerm {
    pub open spec fn view(&self) -> GTermM
        decreases self, 0nat,
    {
        match self {
            GTerm::Var(v) => GTermM::Var(v@),
            GTerm::PubLit(s) => GTermM::PubLit(s@),
            GTerm::FreshLit(s) => GTermM::FreshLit(s@),
            GTerm::NatLit(s) => GTermM::NatLit(s@),
            GTerm::Number(n) => GTermM::Number(*n),
            GTerm::NumberOne => GTermM::NumberOne,
            GTerm::NatOne => GTermM::NatOne,
            GTerm::DhNeutral => GTermM::DhNeutral,
            GTerm::App(n, args) => GTermM::App(n@, gterms_m(args@)),
            GTerm::AlgApp(n, a, b) => GTermM::AlgApp(n@, Box::new(a.view()), Box::new(b.view())),
            GTerm::Pair(items) => GTermM::Pair(gterms_m(items@)),
            GTerm::Diff(a, b) => GTermM::Diff(Box::new(a.view()), Box::new(b.view())),
            GTerm::BinOp(op, a, b) => GTermM::BinOp(op@, Box::new(a.view()), Box::new(b.view())),
            GTerm::PatMatch(a) => GTermM::PatMatch(Box::new(a.view())),
        }
    }
}

/// The number of nodes of a term.
pub open spec fn gsize(t: GTermM) -> nat
    decreases t,
{
    match t {
        GTermM::App(_, args) => 1 + gsizes(args),
        GTermM::Pair(items) => 1 + gsizes(items),
        GTermM::AlgApp(_, a, b) => 1 + gsize(*a) + gsize(*b),
        GTermM::Diff(a, b) => 1 + gsize(*a) + gsize(*b),
        GTermM::BinOp(_, a, b) => 1 + gsize(*a) + gsize(*b),
        GTermM::PatMatch(a) => 1 + gsize(*a),
        _ => 1,
    }
}

/// The number of nodes of a sequence of terms.
pub open spec fn gsizes(s: Seq<GTermM>) -> nat
    decreases s,
{
    if s.len() == 0 {
        0
    } else {
        gsizes(s.subrange(0, s.len() - 1)) + gsize(s[s.len() - 1])
    }
}

pub proof fn lemma_gsizes_concat(a: Seq<GTermM>, b: Seq<GTermM>)
    ensures
        gsizes(a + b) == gsizes(a) + gsizes(b),
    decreases b.len(),
{
    if b.len() > 0 {
        let b2 = b.subrange(0, b.len() - 1);
        lemma_gsizes_concat(a, b2);
        assert((a + b).subrange(0, (a + b).len() - 1) =~= a + b2);
        assert((a + b)[(a + b).len() - 1] == b[b.len() - 1]);
    } else {
        assert(a + b =~= a);
    }
}

/// What a tuple's item list becomes once every trailing tuple is spliced
/// into it: while the last item is itself a tuple, it is replaced by its
/// items.
pub open spec fn splice_tail_pairs(items: Seq<GTermM>) -> Seq<GTermM>
    decreases gsizes(items),
{
    if items.len() > 0 && items[items.len() - 1] is Pair {
        let rest = items.subrange(0, items.len() - 1);
        let inner = items[items.len() - 1]->Pair_0;
        proof {
            lemma_gsizes_concat(rest, inner);
            assert(items[items.len() - 1] == GTermM::Pair(inner));
            assert(gsize(items[items.len() - 1]) == 1 + gsizes(inner));
            assert(gsizes(items) == gsizes(rest) + gsize(items[items.len() - 1]));
        }
        splice_tail_pairs(rest + inner)
    } else {
        items
    }
}

/// A tuple of the items, with a trailing tuple spliced in as often as the
/// last item is itself a tuple, so that `<a, <b, c>>` and `<a, b, c>` are
/// one term; a tuple in another position stays (`<<a, b>, c>` is another
/// term).
pub fn mk_gpair(items: Vec<GTerm>) -> (r: GTerm)
    ensures
        r@ == GTermM::Pair(splice_tail_pairs(gterms_m(items@))),
{
    broadcast use group_gterm_lemmas;

    let ghost goal = splice_tail_pairs(gterms_m(items@));
    let mut items = items;
    loop
        invariant
            splice_tail_pairs(gterms_m(items@)) == goal,
        ensures
            splice_tail_pairs(gterms_m(items@)) == goal,
            !(items@.len() > 0 && gterms_m(items@)[items@.len() - 1] is Pair),
        decreases gsizes(gterms_m(items@)),
    {
        let n = items.len();
        if n == 0 {
            break;
        }
        let last_is_pair = match &items[n - 1] {
            GTerm::Pair(_) => true,
            _ => false,
        };
        if !last_is_pair {
            break;
        }
        let ghost before = gterms_m(items@);
        let popped = items.pop();
        match popped {
            Some(GTerm::Pair(inner)) => {
                let mut inner = inner;
                let ghost inner_m = gterms_m(inner@);
                items.append(&mut inner);
                proof {
                    let rest = before.subrange(0, before.len() - 1);
                    assert(before[before.len() - 1] == GTermM::Pair(inner_m));
                    assert(gterms_m(items@) =~= rest + inner_m);
                    lemma_gsizes_concat(rest, inner_m);
                    assert(gsizes(before) == gsizes(rest) + gsize(before[before.len() - 1]));
                }
            },
            _ => {
                proof {
                    assert(false);
                }
            },
        }
    }
    let ghost fin = gterms_m(items@);
    assert(splice_tail_pairs(fin) == fin);
    GTerm::Pair(items)
}

// ---------------------------------------------------------------------------
// Facts and atoms
// ---------------------------------------------------------------------------

/// A written fact whose terms are [`GTerm`]s.
#[derive(Debug, PartialEq, Eq)]
pub struct GFact {
    pub persistent: bool,
    pub name: String,
    pub args: Vec<GTerm>,
    pub annotations: Vec<String>,
}

/// The model of a [`GFact`].
pub struct GFactM {
    pub persistent: bool,
    pub name: Seq<char>,
    pub args: Seq<GTermM>,
    pub annotations: Seq<Seq<char>>,
}

impl GFact {
    pub open spec fn view(&self) -> GFactM {
        GFactM {
            persistent: self.persistent,
            name: self.name@,
            args: gterms_m(self.args@),
            annotations: strings_m(self.annotations@),
        }
    }
}

/// A written atom whose terms are [`GTerm`]s.
#[derive(Debug, PartialEq, Eq)]
pub enum GAtom {
    Eq(GTerm, GTerm),
    Less(GTerm, GTerm),
    LessMset(GTerm, GTerm),
    Subterm(GTerm, GTerm),
    Action(GFact, GTerm),
    Last(GTerm),
    Pred(GFact),
}

/// The model of a [`GAtom`].
pub enum GAtomM {
    Eq(GTermM, GTermM),
    Less(GTermM, GTermM),
    LessMset(GTermM, GTermM),
    Subterm(GTermM, GTermM),
    Action(GFactM, GTermM),
    Last(GTermM),
    Pred(GFactM),
}

impl GAtom {
    pub open spec fn view(&self) -> GAtomM {
        match self {
            GAtom::Eq(x, y) => GAtomM::Eq(x@, y@),
            GAtom::Less(x, y) => GAtomM::Less(x@, y@),
            GAtom::LessMset(x, y) => GAtomM::LessMset(x@, y@),
            GAtom::Subterm(x, y) => GAtomM::Subterm(x@, y@),
            GAtom::Action(f, t) => GAtomM::Action(f@, t@),
            GAtom::Last(t) => GAtomM::Last(t@),
            GAtom::Pred(f) => GAtomM::Pred(f@),
        }
    }
}

// ---------------------------------------------------------------------------
// Lifting written terms (every variable free) and lowering them back
// ---------------------------------------------------------------------------

/// The arguments of an application, or the items of a tuple, each lifted
/// (empty for any other term).
pub open spec fn lift_args_m(t: STermM) -> Seq<GTermM>
    decreases t, 0nat,
{
    match t {
        STermM::App(_, args) => Seq::new(
            args.len(),
            |i: int| if 0 <= i < args.len() { lift_m(args[i]) } else { GTermM::NumberOne },
        ),
        STermM::Pair(items) => Seq::new(
            items.len(),
            |i: int| if 0 <= i < items.len() { lift_m(items[i]) } else { GTermM::NumberOne },
        ),
        _ => Seq::empty(),
    }
}

/// A written term with every variable free; tuples have their trailing
/// tuples spliced in (see [`splice_tail_pairs`]).
pub open spec fn lift_m(t: STermM) -> GTermM
    decreases t, 1nat,
{
    match t {
        STermM::Var(v) => GTermM::Var(GBVarM::Free(v)),
        STermM::PubLit(s) => GTermM::PubLit(s),
        STermM::FreshLit(s) => GTermM::FreshLit(s),
        STermM::NatLit(s) => GTermM::NatLit(s),
        STermM::Number(n) => GTermM::Number(n),
        STermM::NumberOne => GTermM::NumberOne,
        STermM::NatOne => GTermM::NatOne,
        STermM::DhNeutral => GTermM::DhNeutral,
        STermM::App(n, _) => GTermM::App(n, lift_args_m(t)),
        STermM::AlgApp(n, a, b) => GTermM::AlgApp(n, Box::new(lift_m(*a)), Box::new(lift_m(*b))),
        STermM::Pair(_) => GTermM::Pair(splice_tail_pairs(lift_args_m(t))),
        STermM::Diff(a, b) => GTermM::Diff(Box::new(lift_m(*a)), Box::new(lift_m(*b))),
        STermM::BinOp(op, a, b) => GTermM::BinOp(op, Box::new(lift_m(*a)), Box::new(lift_m(*b))),
        STermM::PatMatch(a) => GTermM::PatMatch(Box::new(lift_m(*a))),
    }
}

/// Does the term hold no bound variable?
pub open spec fn no_bound(g: GTermM) -> bool
    decreases g,
{
    match g {
        GTermM::Var(GBVarM::Bound(_)) => false,
        GTermM::App(_, args) => forall|i: int| 0 <= i < args.len() ==> no_bound(#[trigger] args[i]),
        GTermM::Pair(items) => forall|i: int| 0 <= i < items.len() ==> no_bound(#[trigger] items[i]),
        GTermM::AlgApp(_, a, b) => no_bound(*a) && no_bound(*b),
        GTermM::Diff(a, b) => no_bound(*a) && no_bound(*b),
        GTermM::BinOp(_, a, b) => no_bound(*a) && no_bound(*b),
        GTermM::PatMatch(a) => no_bound(*a),
        _ => true,
    }
}

/// The arguments of an application, or the items of a tuple, each lowered
/// (empty for any other term).
pub open spec fn lower_args_m(g: GTermM) -> Seq<STermM>
    decreases g, 0nat,
{
    match g {
        GTermM::App(_, args) => Seq::new(
            args.len(),
            |i: int| if 0 <= i < args.len() { lower_m(args[i]) } else { STermM::NumberOne },
        ),
        GTermM::Pair(items) => Seq::new(
            items.len(),
            |i: int| if 0 <= i < items.len() { lower_m(items[i]) } else { STermM::NumberOne },
        ),
        _ => Seq::empty(),
    }
}

/// The children of an application or a tuple (empty for any other term).
pub open spec fn gchildren(g: GTermM) -> Seq<GTermM> {
    match g {
        GTermM::App(_, args) => args,
        GTermM::Pair(items) => items,
        _ => Seq::empty(),
    }
}

proof fn lemma_no_bound_children(g: GTermM)
    requires
        no_bound(g),
    ensures
        forall|i: int| 0 <= i < gchildren(g).len() ==> no_bound(#[trigger] gchildren(g)[i]),
{
}

/// The written term of a term without bound variables.
pub open spec fn lower_m(g: GTermM) -> STermM
    decreases g, 1nat,
{
    match g {
        GTermM::Var(GBVarM::Free(v)) => STermM::Var(v),
        GTermM::Var(GBVarM::Bound(_)) => STermM::NumberOne,
        GTermM::PubLit(s) => STermM::PubLit(s),
        GTermM::FreshLit(s) => STermM::FreshLit(s),
        GTermM::NatLit(s) => STermM::NatLit(s),
        GTermM::Number(n) => STermM::Number(n),
        GTermM::NumberOne => STermM::NumberOne,
        GTermM::NatOne => STermM::NatOne,
        GTermM::DhNeutral => STermM::DhNeutral,
        GTermM::App(n, _) => STermM::App(n, lower_args_m(g)),
        GTermM::AlgApp(n, a, b) => STermM::AlgApp(n, Box::new(lower_m(*a)), Box::new(lower_m(*b))),
        GTermM::Pair(_) => STermM::Pair(lower_args_m(g)),
        GTermM::Diff(a, b) => STermM::Diff(Box::new(lower_m(*a)), Box::new(lower_m(*b))),
        GTermM::BinOp(op, a, b) => STermM::BinOp(op, Box::new(lower_m(*a)), Box::new(lower_m(*b))),
        GTermM::PatMatch(a) => STermM::PatMatch(Box::new(lower_m(*a))),
    }
}

/// A written fact lifted argument by argument.
pub open spec fn lift_fact_m(f: SFactM) -> GFactM {
    GFactM {
        persistent: f.persistent,
        name: f.name,
        args: Seq::new(f.args.len(), |i: int| lift_m(f.args[i])),
        annotations: f.annotations,
    }
}

/// A written atom lifted term by term.
pub open spec fn lift_atom_m(a: SAtomM) -> GAtomM {
    match a {
        SAtomM::Eq(x, y) => GAtomM::Eq(lift_m(x), lift_m(y)),
        SAtomM::Less(x, y) => GAtomM::Less(lift_m(x), lift_m(y)),
        SAtomM::LessMset(x, y) => GAtomM::LessMset(lift_m(x), lift_m(y)),
        SAtomM::Subterm(x, y) => GAtomM::Subterm(lift_m(x), lift_m(y)),
        SAtomM::Action(f, t) => GAtomM::Action(lift_fact_m(f), lift_m(t)),
        SAtomM::Last(t) => GAtomM::Last(lift_m(t)),
        SAtomM::Pred(f) => GAtomM::Pred(lift_fact_m(f)),
    }
}

/// Does the fact hold no bound variable?
pub open spec fn no_bound_fact(f: GFactM) -> bool {
    forall|i: int| 0 <= i < f.args.len() ==> no_bound(#[trigger] f.args[i])
}

/// Does the atom hold no bound variable?
pub open spec fn no_bound_atom(a: GAtomM) -> bool {
    match a {
        GAtomM::Eq(x, y) => no_bound(x) && no_bound(y),
        GAtomM::Less(x, y) => no_bound(x) && no_bound(y),
        GAtomM::LessMset(x, y) => no_bound(x) && no_bound(y),
        GAtomM::Subterm(x, y) => no_bound(x) && no_bound(y),
        GAtomM::Action(f, t) => no_bound_fact(f) && no_bound(t),
        GAtomM::Last(t) => no_bound(t),
        GAtomM::Pred(f) => no_bound_fact(f),
    }
}

/// A fact lowered argument by argument.
pub open spec fn lower_fact_m(f: GFactM) -> SFactM {
    SFactM {
        persistent: f.persistent,
        name: f.name,
        args: Seq::new(f.args.len(), |i: int| lower_m(f.args[i])),
        annotations: f.annotations,
    }
}

/// An atom lowered term by term.
pub open spec fn lower_atom_m(a: GAtomM) -> SAtomM {
    match a {
        GAtomM::Eq(x, y) => SAtomM::Eq(lower_m(x), lower_m(y)),
        GAtomM::Less(x, y) => SAtomM::Less(lower_m(x), lower_m(y)),
        GAtomM::LessMset(x, y) => SAtomM::LessMset(lower_m(x), lower_m(y)),
        GAtomM::Subterm(x, y) => SAtomM::Subterm(lower_m(x), lower_m(y)),
        GAtomM::Action(f, t) => SAtomM::Action(lower_fact_m(f), lower_m(t)),
        GAtomM::Last(t) => SAtomM::Last(lower_m(t)),
        GAtomM::Pred(f) => SAtomM::Pred(lower_fact_m(f)),
    }
}

// ---------------------------------------------------------------------------
// The conversions
// ---------------------------------------------------------------------------

/// A term boxed as the child of a node.
pub fn ga(t: GTerm) -> (r: Box<GTerm>)
    ensures
        *r == t,
{
    Box::new(t)
}

/// A binder's name and sort.
pub fn lvar_to_binding(v: &VarSpec) -> (r: GBinding)
    ensures
        r.name@ == v.name@,
        r.sort == v.sort,
{
    GBinding { name: v.name.clone(), sort: v.sort }
}

/// Each term lifted.
fn lift_all(ts: &Vec<SurfaceTerm>) -> (r: Vec<GTerm>)
    ensures
        r@.len() == ts@.len(),
        forall|i: int| 0 <= i < ts@.len() ==> (#[trigger] r@[i])@ == lift_m(ts@[i]@),
    decreases ts,
{
    let mut out: Vec<GTerm> = Vec::new();
    let mut i: usize = 0;
    while i < ts.len()
        invariant
            i <= ts@.len(),
            out@.len() == i,
            forall|j: int| 0 <= j < i ==> (#[trigger] out@[j])@ == lift_m(ts@[j]@),
        decreases ts.len() - i,
    {
        out.push(term_to_gterm_free(&ts[i]));
        i += 1;
    }
    out
}

/// The written term with every variable free (see [`lift_m`]).
pub fn term_to_gterm_free(t: &SurfaceTerm) -> (r: GTerm)
    ensures
        r@ == lift_m(t@),
        no_bound(r@),
    decreases t,
{
    broadcast use group_sterm_lemmas, group_gterm_lemmas;

    proof {
        lifting_binds_nothing(t@);
    }

    match t {
        SurfaceTerm::Var(v) => GTerm::Var(BVar::Free(v.copy())),
        SurfaceTerm::PubLit(s) => GTerm::PubLit(s.clone()),
        SurfaceTerm::FreshLit(s) => GTerm::FreshLit(s.clone()),
        SurfaceTerm::NatLit(s) => GTerm::NatLit(s.clone()),
        SurfaceTerm::Number(n) => GTerm::Number(*n),
        SurfaceTerm::NumberOne => GTerm::NumberOne,
        SurfaceTerm::NatOne => GTerm::NatOne,
        SurfaceTerm::DhNeutral => GTerm::DhNeutral,
        SurfaceTerm::App(n, args) => {
            let a2 = lift_all(args);
            assert forall|i: int| 0 <= i < args@.len() implies #[trigger] gterms_m(a2@)[i] == lift_args_m(t@)[i] by {
                assert(sterms_m(args@)[i] == args@[i]@);
            }
            assert(gterms_m(a2@) =~= lift_args_m(t@));
            GTerm::App(n.clone(), a2)
        },
        SurfaceTerm::AlgApp(n, a, b) => GTerm::AlgApp(
            n.clone(),
            Box::new(term_to_gterm_free(a)),
            Box::new(term_to_gterm_free(b)),
        ),
        SurfaceTerm::Pair(items) => {
            let a2 = lift_all(items);
            assert forall|i: int| 0 <= i < items@.len() implies #[trigger] gterms_m(a2@)[i] == lift_args_m(t@)[i] by {
                assert(sterms_m(items@)[i] == items@[i]@);
            }
            assert(gterms_m(a2@) =~= lift_args_m(t@));
            mk_gpair(a2)
        },
        SurfaceTerm::Diff(a, b) => GTerm::Diff(Box::new(term_to_gterm_free(a)), Box::new(term_to_gterm_free(b))),
        SurfaceTerm::BinOp(op, a, b) => GTerm::BinOp(
            op.clone(),
            Box::new(term_to_gterm_free(a)),
            Box::new(term_to_gterm_free(b)),
        ),
        SurfaceTerm::PatMatch(a) => GTerm::PatMatch(Box::new(term_to_gterm_free(a))),
    }
}

/// The written fact with every variable free.
pub fn fact_to_gfact_free(f: &SurfaceFact) -> (r: GFact)
    ensures
        r@ == lift_fact_m(f@),
        no_bound_fact(r@),
{
    broadcast use group_sterm_lemmas, group_gterm_lemmas;

    let args = lift_all(&f.args);
    let r = GFact {
        persistent: f.persistent,
        name: f.name.clone(),
        args,
        annotations: crate::surface::copy_strings(&f.annotations),
    };
    assert(r@.args =~= lift_fact_m(f@).args);
    assert forall|i: int| 0 <= i < r@.args.len() implies no_bound(#[trigger] r@.args[i]) by {
        lifting_binds_nothing(f@.args[i]);
    }
    r
}

/// The written atom with every variable free.
pub fn atom_to_gatom_free(a: &SurfaceAtom) -> (r: GAtom)
    ensures
        r@ == lift_atom_m(a@),
        no_bound_atom(r@),
{
    match a {
        SurfaceAtom::Eq(s, t) => GAtom::Eq(term_to_gterm_free(s), term_to_gterm_free(t)),
        SurfaceAtom::Less(s, t) => GAtom::Less(term_to_gterm_free(s), term_to_gterm_free(t)),
        SurfaceAtom::LessMset(s, t) => GAtom::LessMset(term_to_gterm_free(s), term_to_gterm_free(t)),
        SurfaceAtom::Subterm(s, t) => GAtom::Subterm(term_to_gterm_free(s), term_to_gterm_free(t)),
        SurfaceAtom::Action(f, t) => GAtom::Action(fact_to_gfact_free(f), term_to_gterm_free(t)),
        SurfaceAtom::Last(t) => GAtom::Last(term_to_gterm_free(t)),
        SurfaceAtom::Pred(f) => GAtom::Pred(fact_to_gfact_free(f)),
    }
}

/// Each term lowered.
fn lower_all(ts: &Vec<GTerm>) -> (r: Vec<SurfaceTerm>)
    requires
        forall|i: int| 0 <= i < ts@.len() ==> no_bound(#[trigger] ts@[i]@),
    ensures
        r@.len() == ts@.len(),
        forall|i: int| 0 <= i < ts@.len() ==> (#[trigger] r@[i])@ == lower_m(ts@[i]@),
    decreases ts,
{
    let mut out: Vec<SurfaceTerm> = Vec::new();
    let mut i: usize = 0;
    while i < ts.len()
        invariant
            i <= ts@.len(),
            out@.len() == i,
            forall|k: int| 0 <= k < ts@.len() ==> no_bound(#[trigger] ts@[k]@),
            forall|j: int| 0 <= j < i ==> (#[trigger] out@[j])@ == lower_m(ts@[j]@),
        decreases ts.len() - i,
    {
        out.push(gterm_to_term(&ts[i]));
        i += 1;
    }
    out
}

/// The written term of a term with no bound variable left.
pub fn gterm_to_term(g: &GTerm) -> (r: SurfaceTerm)
    requires
        no_bound(g@),
    ensures
        r@ == lower_m(g@),
    decreases g,
{
    broadcast use group_sterm_lemmas, group_gterm_lemmas;

    match g {
        GTerm::Var(BVar::Free(v)) => SurfaceTerm::Var(v.copy()),
        GTerm::Var(BVar::Bound(_)) => {
            proof {
                assert(false);
            }
            SurfaceTerm::NumberOne
        },
        GTerm::PubLit(s) => SurfaceTerm::PubLit(s.clone()),
        GTerm::FreshLit(s) => SurfaceTerm::FreshLit(s.clone()),
        GTerm::NatLit(s) => SurfaceTerm::NatLit(s.clone()),
        GTerm::Number(n) => SurfaceTerm::Number(*n),
        GTerm::NumberOne => SurfaceTerm::NumberOne,
        GTerm::NatOne => SurfaceTerm::NatOne,
        GTerm::DhNeutral => SurfaceTerm::DhNeutral,
        GTerm::App(n, args) => {
            proof {
                lemma_no_bound_children(g@);
                assert forall|i: int| 0 <= i < args@.len() implies no_bound(#[trigger] args@[i]@) by {
                    assert(gterms_m(args@)[i] == args@[i]@);
                    assert(gchildren(g@)[i] == gterms_m(args@)[i]);
                }
            }
            let a2 = lower_all(args);
            assert(sterms_m(a2@) =~= lower_args_m(g@));
            SurfaceTerm::App(n.clone(), a2)
        },
        GTerm::AlgApp(n, a, b) => SurfaceTerm::AlgApp(
            n.clone(),
            Box::new(gterm_to_term(a)),
            Box::new(gterm_to_term(b)),
        ),
        GTerm::Pair(items) => {
            proof {
                lemma_no_bound_children(g@);
                assert forall|i: int| 0 <= i < items@.len() implies no_bound(#[trigger] items@[i]@) by {
                    assert(gterms_m(items@)[i] == items@[i]@);
                    assert(gchildren(g@)[i] == gterms_m(items@)[i]);
                }
            }
            let a2 = lower_all(items);
            assert(sterms_m(a2@) =~= lower_args_m(g@));
            SurfaceTerm::Pair(a2)
        },
        GTerm::Diff(a, b) => SurfaceTerm::Diff(Box::new(gterm_to_term(a)), Box::new(gterm_to_term(b))),
        GTerm::BinOp(op, a, b) => SurfaceTerm::BinOp(
            op.clone(),
            Box::new(gterm_to_term(a)),
            Box::new(gterm_to_term(b)),
        ),
        GTerm::PatMatch(a) => SurfaceTerm::PatMatch(Box::new(gterm_to_term(a))),
    }
}

/// The written fact of a fact with no bound variable left.
pub fn gfact_to_fact(g: &GFact) -> (r: SurfaceFact)
    requires
        no_bound_fact(g@),
    ensures
        r@ == lower_fact_m(g@),
{
    broadcast use group_sterm_lemmas, group_gterm_lemmas;

    proof {
        assert forall|i: int| 0 <= i < g.args@.len() implies no_bound(#[trigger] g.args@[i]@) by {
            assert(g@.args[i] == g.args@[i]@);
        }
    }
    let args = lower_all(&g.args);
    let r = SurfaceFact {
        persistent: g.persistent,
        name: g.name.clone(),
        args,
        annotations: crate::surface::copy_strings(&g.annotations),
    };
    assert(r@.args =~= lower_fact_m(g@).args);
    r
}

/// The written atom of an atom with no bound variable left.
pub fn gatom_to_atom(a: &GAtom) -> (r: SurfaceAtom)
    requires
        no_bound_atom(a@),
    ensures
        r@ == lower_atom_m(a@),
{
    match a {
        GAtom::Eq(s, t) => SurfaceAtom::Eq(gterm_to_term(s), gterm_to_term(t)),
        GAtom::Less(s, t) => SurfaceAtom::Less(gterm_to_term(s), gterm_to_term(t)),
        GAtom::LessMset(s, t) => SurfaceAtom::LessMset(gterm_to_term(s), gterm_to_term(t)),
        GAtom::Subterm(s, t) => SurfaceAtom::Subterm(gterm_to_term(s), gterm_to_term(t)),
        GAtom::Action(f, t) => SurfaceAtom::Action(gfact_to_fact(f), gterm_to_term(t)),
        GAtom::Last(t) => SurfaceAtom::Last(gterm_to_term(t)),
        GAtom::Pred(f) => SurfaceAtom::Pred(gfact_to_fact(f)),
    }
}

// ---------------------------------------------------------------------------
// Closing (free to bound) and opening (bound to free)
// ---------------------------------------------------------------------------

/// Do two written variables denote the same variable: name, index and
/// sort equal?
pub open spec fn same_var(a: VarSpecM, b: VarSpecM) -> bool {
    a.name == b.name && a.idx == b.idx && a.sort == b.sort
}

/// The index the first entry of `s` for `v` gives.
pub open spec fn free_lookup(s: Seq<(VarSpecM, u32)>, v: VarSpecM) -> Option<u32>
    decreases s.len(),
{
    if s.len() == 0 {
        None
    } else if same_var(s[0].0, v) {
        Some(s[0].1)
    } else {
        free_lookup(s.drop_first(), v)
    }
}

/// The variable the first entry of `s` whose index, shifted by `depth`, is
/// `n` gives.
pub open spec fn bound_lookup(s: Seq<(u32, VarSpecM)>, n: u32, depth: u32) -> Option<VarSpecM>
    decreases s.len(),
{
    if s.len() == 0 {
        None
    } else if s[0].0 + depth == n {
        Some(s[0].1)
    } else {
        bound_lookup(s.drop_first(), n, depth)
    }
}

/// A term with every variable leaf mapped by `f`, its other nodes kept.
pub open spec fn map_vars_m(t: GTermM, f: spec_fn(GBVarM) -> GBVarM) -> GTermM
    decreases t, 1nat,
{
    match t {
        GTermM::Var(v) => GTermM::Var(f(v)),
        GTermM::App(n, _) => GTermM::App(n, map_vars_args_m(t, f)),
        GTermM::AlgApp(n, a, b) => GTermM::AlgApp(n, Box::new(map_vars_m(*a, f)), Box::new(map_vars_m(*b, f))),
        GTermM::Pair(_) => GTermM::Pair(map_vars_args_m(t, f)),
        GTermM::Diff(a, b) => GTermM::Diff(Box::new(map_vars_m(*a, f)), Box::new(map_vars_m(*b, f))),
        GTermM::BinOp(op, a, b) => GTermM::BinOp(op, Box::new(map_vars_m(*a, f)), Box::new(map_vars_m(*b, f))),
        GTermM::PatMatch(a) => GTermM::PatMatch(Box::new(map_vars_m(*a, f))),
        _ => t,
    }
}

/// The children of an application or a tuple with their variable leaves
/// mapped by `f`.
pub open spec fn map_vars_args_m(t: GTermM, f: spec_fn(GBVarM) -> GBVarM) -> Seq<GTermM>
    decreases t, 0nat,
{
    match t {
        GTermM::App(_, args) => Seq::new(
            args.len(),
            |i: int| if 0 <= i < args.len() { map_vars_m(args[i], f) } else { GTermM::NumberOne },
        ),
        GTermM::Pair(items) => Seq::new(
            items.len(),
            |i: int| if 0 <= i < items.len() { map_vars_m(items[i], f) } else { GTermM::NumberOne },
        ),
        _ => Seq::empty(),
    }
}

/// A fact with every variable leaf of its arguments mapped by `f`.
pub open spec fn map_vars_fact_m(g: GFactM, f: spec_fn(GBVarM) -> GBVarM) -> GFactM {
    GFactM { args: Seq::new(g.args.len(), |i: int| map_vars_m(g.args[i], f)), ..g }
}

/// An atom with every variable leaf mapped by `f`.
pub open spec fn map_vars_atom_m(a: GAtomM, f: spec_fn(GBVarM) -> GBVarM) -> GAtomM {
    match a {
        GAtomM::Eq(x, y) => GAtomM::Eq(map_vars_m(x, f), map_vars_m(y, f)),
        GAtomM::Less(x, y) => GAtomM::Less(map_vars_m(x, f), map_vars_m(y, f)),
        GAtomM::LessMset(x, y) => GAtomM::LessMset(map_vars_m(x, f), map_vars_m(y, f)),
        GAtomM::Subterm(x, y) => GAtomM::Subterm(map_vars_m(x, f), map_vars_m(y, f)),
        GAtomM::Action(g, t) => GAtomM::Action(map_vars_fact_m(g, f), map_vars_m(t, f)),
        GAtomM::Last(t) => GAtomM::Last(map_vars_m(t, f)),
        GAtomM::Pred(g) => GAtomM::Pred(map_vars_fact_m(g, f)),
    }
}

/// Closing: a free variable with an entry in `s` becomes bound, at its
/// entry's index shifted by `depth`; every other leaf stays.
pub open spec fn close_var(s: Seq<(VarSpecM, u32)>, depth: u32) -> spec_fn(GBVarM) -> GBVarM {
    |v: GBVarM| match v {
        GBVarM::Free(x) => match free_lookup(s, x) {
            Some(db) => GBVarM::Bound((db + depth) as u32),
            None => v,
        },
        GBVarM::Bound(_) => v,
    }
}

/// Opening: a bound index with an entry in `s` (shifted by `depth`)
/// becomes its entry's free variable; every other leaf stays.
pub open spec fn open_var(s: Seq<(u32, VarSpecM)>, depth: u32) -> spec_fn(GBVarM) -> GBVarM {
    |v: GBVarM| match v {
        GBVarM::Bound(n) => match bound_lookup(s, n, depth) {
            Some(x) => GBVarM::Free(x),
            None => v,
        },
        GBVarM::Free(_) => v,
    }
}

/// The model of a closing substitution.
pub open spec fn close_subst_m(s: Seq<(VarSpec, u32)>) -> Seq<(VarSpecM, u32)> {
    Seq::new(s.len(), |i: int| (s[i].0@, s[i].1))
}

/// The model of an opening substitution.
pub open spec fn open_subst_m(s: Seq<(u32, VarSpec)>) -> Seq<(u32, VarSpecM)> {
    Seq::new(s.len(), |i: int| (s[i].0, s[i].1@))
}

/// Can every entry's index be shifted by `depth` within a `u32`?
pub open spec fn shift_fits(s: Seq<(VarSpecM, u32)>, depth: u32) -> bool {
    forall|k: int| 0 <= k < s.len() ==> #[trigger] s[k].1 + depth <= u32::MAX
}

proof fn lemma_free_lookup_in(s: Seq<(VarSpecM, u32)>, v: VarSpecM)
    ensures
        free_lookup(s, v) matches Some(db) ==> exists|k: int| 0 <= k < s.len() && #[trigger] s[k].1 == db,
    decreases s.len(),
{
    if s.len() > 0 && !same_var(s[0].0, v) {
        lemma_free_lookup_in(s.drop_first(), v);
        if let Some(db) = free_lookup(s, v) {
            let k = choose|k: int| 0 <= k < s.drop_first().len() && #[trigger] s.drop_first()[k].1 == db;
            assert(s[k + 1] == s.drop_first()[k]);
        }
    } else if s.len() > 0 {
        assert(s[0].1 == s[0].1);
    }
}

/// The first entry of `s` for `v`, looked up.
fn free_lookup_exec(s: &Vec<(VarSpec, u32)>, v: &VarSpec) -> (r: Option<u32>)
    ensures
        r == free_lookup(close_subst_m(s@), v@),
{
    let ghost sm = close_subst_m(s@);
    let mut i: usize = 0;
    assert(sm.subrange(0, sm.len() as int) =~= sm);
    while i < s.len()
        invariant
            i <= s@.len(),
            sm == close_subst_m(s@),
            free_lookup(sm, v@) == free_lookup(sm.subrange(i as int, sm.len() as int), v@),
        decreases s.len() - i,
    {
        let ghost rest = sm.subrange(i as int, sm.len() as int);
        assert(rest[0] == sm[i as int]);
        assert(rest.drop_first() =~= sm.subrange(i + 1, sm.len() as int));
        let lv = &s[i].0;
        if lv.name == v.name && lv.idx == v.idx && lv.sort == v.sort {
            return Some(s[i].1);
        }
        i += 1;
    }
    None
}

/// The first entry of `s` whose index, shifted by `depth`, is `n`.
fn bound_lookup_exec<'a>(s: &'a Vec<(u32, VarSpec)>, n: u32, depth: u32) -> (r: Option<&'a VarSpec>)
    ensures
        match r {
            Some(x) => bound_lookup(open_subst_m(s@), n, depth) == Some(x@),
            None => bound_lookup(open_subst_m(s@), n, depth) is None,
        },
{
    let ghost sm = open_subst_m(s@);
    let mut i: usize = 0;
    assert(sm.subrange(0, sm.len() as int) =~= sm);
    while i < s.len()
        invariant
            i <= s@.len(),
            sm == open_subst_m(s@),
            bound_lookup(sm, n, depth) == bound_lookup(sm.subrange(i as int, sm.len() as int), n, depth),
        decreases s.len() - i,
    {
        let ghost rest = sm.subrange(i as int, sm.len() as int);
        assert(rest[0] == sm[i as int]);
        assert(rest.drop_first() =~= sm.subrange(i + 1, sm.len() as int));
        match s[i].0.checked_add(depth) {
            Some(target) => {
                if target == n {
                    return Some(&s[i].1);
                }
            },
            None => {},
        }
        i += 1;
    }
    None
}

impl GTerm {
    /// A deep copy of the term.
    pub fn copy(&self) -> (r: GTerm)
        ensures
            r@ == self@,
        decreases self,
    {
        broadcast use group_gterm_lemmas;

        match self {
            GTerm::Var(BVar::Bound(n)) => GTerm::Var(BVar::Bound(*n)),
            GTerm::Var(BVar::Free(v)) => GTerm::Var(BVar::Free(v.copy())),
            GTerm::PubLit(s) => GTerm::PubLit(s.clone()),
            GTerm::FreshLit(s) => GTerm::FreshLit(s.clone()),
            GTerm::NatLit(s) => GTerm::NatLit(s.clone()),
            GTerm::Number(n) => GTerm::Number(*n),
            GTerm::NumberOne => GTerm::NumberOne,
            GTerm::NatOne => GTerm::NatOne,
            GTerm::DhNeutral => GTerm::DhNeutral,
            GTerm::App(n, args) => GTerm::App(n.clone(), copy_gterms(args)),
            GTerm::AlgApp(n, a, b) => GTerm::AlgApp(n.clone(), Box::new((**a).copy()), Box::new((**b).copy())),
            GTerm::Pair(items) => GTerm::Pair(copy_gterms(items)),
            GTerm::Diff(a, b) => GTerm::Diff(Box::new((**a).copy()), Box::new((**b).copy())),
            GTerm::BinOp(op, a, b) => GTerm::BinOp(op.clone(), Box::new((**a).copy()), Box::new((**b).copy())),
            GTerm::PatMatch(a) => GTerm::PatMatch(Box::new((**a).copy())),
        }
    }
}

/// A deep copy of a list of terms.
pub fn copy_gterms(ts: &Vec<GTerm>) -> (r: Vec<GTerm>)
    ensures
        gterms_m(r@) == gterms_m(ts@),
    decreases ts,
{
    let mut out: Vec<GTerm> = Vec::new();
    let mut i: usize = 0;
    while i < ts.len()
        invariant
            i <= ts.len(),
            out@.len() == i,
            forall|j: int| 0 <= j < i ==> #[trigger] out@[j]@ == ts@[j]@,
        decreases ts.len() - i,
    {
        out.push(ts[i].copy());
        i += 1;
    }
    assert(gterms_m(out@) =~= gterms_m(ts@)) by {
        broadcast use group_gterm_lemmas;
    }
    out
}

/// What happens to the variable leaves: closing under a substitution, or
/// opening under one, at a depth.
enum Leaves<'a> {
    Close(&'a Vec<(VarSpec, u32)>, u32),
    Open(&'a Vec<(u32, VarSpec)>, u32),
}

spec fn leaves_fn(l: Leaves) -> spec_fn(GBVarM) -> GBVarM {
    match l {
        Leaves::Close(s, d) => close_var(close_subst_m(s@), d),
        Leaves::Open(s, d) => open_var(open_subst_m(s@), d),
    }
}

spec fn leaves_ok(l: Leaves) -> bool {
    match l {
        Leaves::Close(s, d) => shift_fits(close_subst_m(s@), d),
        Leaves::Open(_, _) => true,
    }
}

fn map_leaf(v: &BVar, l: &Leaves) -> (r: BVar)
    requires
        leaves_ok(*l),
    ensures
        r@ == (leaves_fn(*l))(v@),
{
    match l {
        Leaves::Close(s, d) => match v {
            BVar::Free(x) => match free_lookup_exec(s, x) {
                Some(db) => {
                    proof {
                        lemma_free_lookup_in(close_subst_m(s@), x@);
                    }
                    BVar::Bound(db + *d)
                },
                None => BVar::Free(x.copy()),
            },
            BVar::Bound(n) => BVar::Bound(*n),
        },
        Leaves::Open(s, d) => match v {
            BVar::Bound(n) => match bound_lookup_exec(s, *n, *d) {
                Some(x) => BVar::Free(x.copy()),
                None => BVar::Bound(*n),
            },
            BVar::Free(x) => BVar::Free(x.copy()),
        },
    }
}

fn map_leaves_all(ts: &Vec<GTerm>, l: &Leaves) -> (r: Vec<GTerm>)
    requires
        leaves_ok(*l),
    ensures
        r@.len() == ts@.len(),
        forall|i: int| 0 <= i < ts@.len() ==> (#[trigger] r@[i])@ == map_vars_m(ts@[i]@, leaves_fn(*l)),
    decreases ts,
{
    let mut out: Vec<GTerm> = Vec::new();
    let mut i: usize = 0;
    while i < ts.len()
        invariant
            i <= ts@.len(),
            out@.len() == i,
            leaves_ok(*l),
            forall|j: int| 0 <= j < i ==> (#[trigger] out@[j])@ == map_vars_m(ts@[j]@, leaves_fn(*l)),
        decreases ts.len() - i,
    {
        out.push(map_leaves(&ts[i], l));
        i += 1;
    }
    out
}

fn map_leaves(t: &GTerm, l: &Leaves) -> (r: GTerm)
    requires
        leaves_ok(*l),
    ensures
        r@ == map_vars_m(t@, leaves_fn(*l)),
    decreases t,
{
    broadcast use group_gterm_lemmas;

    match t {
        GTerm::Var(v) => GTerm::Var(map_leaf(v, l)),
        GTerm::App(n, args) => {
            let a2 = map_leaves_all(args, l);
            assert forall|i: int| 0 <= i < args@.len() implies #[trigger] gterms_m(a2@)[i] == map_vars_args_m(
                t@,
                leaves_fn(*l),
            )[i] by {
                assert(gterms_m(args@)[i] == args@[i]@);
            }
            assert(gterms_m(a2@) =~= map_vars_args_m(t@, leaves_fn(*l)));
            GTerm::App(n.clone(), a2)
        },
        GTerm::Pair(items) => {
            let a2 = map_leaves_all(items, l);
            assert forall|i: int| 0 <= i < items@.len() implies #[trigger] gterms_m(a2@)[i] == map_vars_args_m(
                t@,
                leaves_fn(*l),
            )[i] by {
                assert(gterms_m(items@)[i] == items@[i]@);
            }
            assert(gterms_m(a2@) =~= map_vars_args_m(t@, leaves_fn(*l)));
            GTerm::Pair(a2)
        },
        GTerm::AlgApp(n, a, b) => GTerm::AlgApp(n.clone(), Box::new(map_leaves(a, l)), Box::new(map_leaves(b, l))),
        GTerm::Diff(a, b) => GTerm::Diff(Box::new(map_leaves(a, l)), Box::new(map_leaves(b, l))),
        GTerm::BinOp(op, a, b) => GTerm::BinOp(op.clone(), Box::new(map_leaves(a, l)), Box::new(map_leaves(b, l))),
        GTerm::PatMatch(a) => GTerm::PatMatch(Box::new(map_leaves(a, l))),
        _ => t.copy(),
    }
}

fn map_leaves_fact(f: &GFact, l: &Leaves) -> (r: GFact)
    requires
        leaves_ok(*l),
    ensures
        r@ == map_vars_fact_m(f@, leaves_fn(*l)),
{
    broadcast use group_gterm_lemmas;

    let r = GFact {
        persistent: f.persistent,
        name: f.name.clone(),
        args: map_leaves_all(&f.args, l),
        annotations: crate::surface::copy_strings(&f.annotations),
    };
    assert(r@.args =~= map_vars_fact_m(f@, leaves_fn(*l)).args);
    r
}

fn map_leaves_atom(a: &GAtom, l: &Leaves) -> (r: GAtom)
    requires
        leaves_ok(*l),
    ensures
        r@ == map_vars_atom_m(a@, leaves_fn(*l)),
{
    match a {
        GAtom::Eq(x, y) => GAtom::Eq(map_leaves(x, l), map_leaves(y, l)),
        GAtom::Less(x, y) => GAtom::Less(map_leaves(x, l), map_leaves(y, l)),
        GAtom::LessMset(x, y) => GAtom::LessMset(map_leaves(x, l), map_leaves(y, l)),
        GAtom::Subterm(x, y) => GAtom::Subterm(map_leaves(x, l), map_leaves(y, l)),
        GAtom::Action(f, t) => GAtom::Action(map_leaves_fact(f, l), map_leaves(t, l)),
        GAtom::Last(t) => GAtom::Last(map_leaves(t, l)),
        GAtom::Pred(f) => GAtom::Pred(map_leaves_fact(f, l)),
    }
}

/// Closing a term: each free variable with an entry `(v, i)` in `s` (the
/// first such entry) becomes `Bound(i + depth)`; the rest stays.
pub fn subst_free_term_at_depth(t: &GTerm, s: &Vec<(VarSpec, u32)>, depth: u32) -> (r: GTerm)
    requires
        shift_fits(close_subst_m(s@), depth),
    ensures
        r@ == map_vars_m(t@, close_var(close_subst_m(s@), depth)),
{
    map_leaves(t, &Leaves::Close(s, depth))
}

/// Closing a fact argument by argument.
pub fn subst_free_fact_at_depth(f: &GFact, s: &Vec<(VarSpec, u32)>, depth: u32) -> (r: GFact)
    requires
        shift_fits(close_subst_m(s@), depth),
    ensures
        r@ == map_vars_fact_m(f@, close_var(close_subst_m(s@), depth)),
{
    map_leaves_fact(f, &Leaves::Close(s, depth))
}

/// Closing an atom term by term.
pub fn subst_free_atom_at_depth(a: &GAtom, s: &Vec<(VarSpec, u32)>, depth: u32) -> (r: GAtom)
    requires
        shift_fits(close_subst_m(s@), depth),
    ensures
        r@ == map_vars_atom_m(a@, close_var(close_subst_m(s@), depth)),
{
    map_leaves_atom(a, &Leaves::Close(s, depth))
}

/// Opening a term: each `Bound(n)` with an entry `(i, v)` in `s` such that
/// `i + depth == n` (the first such entry) becomes the free `v`; the rest
/// stays.
pub fn subst_bound_term_at_depth(t: &GTerm, s: &Vec<(u32, VarSpec)>, depth: u32) -> (r: GTerm)
    ensures
        r@ == map_vars_m(t@, open_var(open_subst_m(s@), depth)),
{
    map_leaves(t, &Leaves::Open(s, depth))
}

/// Opening a fact argument by argument.
pub fn subst_bound_fact_at_depth(f: &GFact, s: &Vec<(u32, VarSpec)>, depth: u32) -> (r: GFact)
    ensures
        r@ == map_vars_fact_m(f@, open_var(open_subst_m(s@), depth)),
{
    map_leaves_fact(f, &Leaves::Open(s, depth))
}

/// Opening an atom term by term.
pub fn subst_bound_atom_at_depth(a: &GAtom, s: &Vec<(u32, VarSpec)>, depth: u32) -> (r: GAtom)
    ensures
        r@ == map_vars_atom_m(a@, open_var(open_subst_m(s@), depth)),
{
    map_leaves_atom(a, &Leaves::Open(s, depth))
}

/// The closing substitution of binders `vs` (outermost first): entry `j`
/// maps the `j`-th binder from the inside to index `j`.
pub open spec fn close_subst_spec(vs: Seq<VarSpecM>) -> Seq<(VarSpecM, u32)> {
    Seq::new(vs.len(), |j: int| (vs[vs.len() - 1 - j], j as u32))
}

/// The opening substitution of variables `xs` (binder order): entry `j`
/// maps index `j` to the `j`-th of them from the end.
pub open spec fn open_subst_spec(xs: Seq<VarSpecM>) -> Seq<(u32, VarSpecM)> {
    Seq::new(xs.len(), |j: int| (j as u32, xs[xs.len() - 1 - j]))
}

/// The closing substitution of a binder list (outermost first): the
/// innermost binder gets index 0, the outermost the highest.
pub fn close_subst(vs: &Vec<VarSpec>) -> (r: Vec<(VarSpec, u32)>)
    ensures
        close_subst_m(r@) == close_subst_spec(varspecs_m(vs@)),
{
    let k = vs.len();
    let mut out: Vec<(VarSpec, u32)> = Vec::new();
    let mut j: usize = 0;
    while j < k
        invariant
            k == vs@.len(),
            j <= k,
            out@.len() == j,
            forall|m: int| 0 <= m < j ==> (#[trigger] out@[m]).0@ == vs@[k - 1 - m]@ && out@[m].1 == m as u32,
        decreases k - j,
    {
        out.push((vs[k - 1 - j].copy(), j as u32));
        j += 1;
    }
    assert(close_subst_m(out@) =~= close_subst_spec(varspecs_m(vs@)));
    out
}

/// The opening substitution of a list of fresh variables (binder order):
/// index 0 opens to the last of them, the highest index to the first.
pub fn open_subst(xs: &Vec<VarSpec>) -> (r: Vec<(u32, VarSpec)>)
    ensures
        open_subst_m(r@) == open_subst_spec(varspecs_m(xs@)),
{
    let k = xs.len();
    let mut out: Vec<(u32, VarSpec)> = Vec::new();
    let mut j: usize = 0;
    while j < k
        invariant
            k == xs@.len(),
            j <= k,
            out@.len() == j,
            forall|m: int| 0 <= m < j ==> (#[trigger] out@[m]).0 == m as u32 && out@[m].1@ == xs@[k - 1 - m]@,
        decreases k - j,
    {
        out.push((j as u32, xs[k - 1 - j].copy()));
        j += 1;
    }
    assert(open_subst_m(out@) =~= open_subst_spec(varspecs_m(xs@)));
    out
}

// ---------------------------------------------------------------------------
// Free variables
// ---------------------------------------------------------------------------

/// The free variables of a term in tree order, duplicates kept.
pub open spec fn gfrees(t: GTermM) -> Seq<VarSpecM>
    decreases t,
{
    match t {
        GTermM::Var(GBVarM::Free(v)) => seq![v],
        GTermM::App(_, args) => gfrees_seq(args),
        GTermM::Pair(items) => gfrees_seq(items),
        GTermM::AlgApp(_, a, b) => gfrees(*a) + gfrees(*b),
        GTermM::Diff(a, b) => gfrees(*a) + gfrees(*b),
        GTermM::BinOp(_, a, b) => gfrees(*a) + gfrees(*b),
        GTermM::PatMatch(a) => gfrees(*a),
        _ => Seq::empty(),
    }
}

/// The free variables of a sequence of terms, in order.
pub open spec fn gfrees_seq(s: Seq<GTermM>) -> Seq<VarSpecM>
    decreases s,
{
    if s.len() == 0 {
        Seq::empty()
    } else {
        gfrees_seq(s.drop_last()) + gfrees(s.last())
    }
}

/// The free variables of an atom in order: its terms left to right, a
/// fact's arguments before the timepoint of an action.
pub open spec fn gatom_frees(a: GAtomM) -> Seq<VarSpecM> {
    match a {
        GAtomM::Eq(x, y) => gfrees(x) + gfrees(y),
        GAtomM::Less(x, y) => gfrees(x) + gfrees(y),
        GAtomM::LessMset(x, y) => gfrees(x) + gfrees(y),
        GAtomM::Subterm(x, y) => gfrees(x) + gfrees(y),
        GAtomM::Action(f, t) => gfrees_seq(f.args) + gfrees(t),
        GAtomM::Last(t) => gfrees(t),
        GAtomM::Pred(f) => gfrees_seq(f.args),
    }
}

/// Push the free variables of each term onto `out`, in order.
fn collect_free_terms(ts: &Vec<GTerm>, out: &mut Vec<VarSpec>)
    ensures
        varspecs_m(final(out)@) == varspecs_m(old(out)@) + gfrees_seq(gterms_m(ts@)),
    decreases ts,
{
    broadcast use group_gterm_lemmas;

    let ghost out0 = varspecs_m(out@);
    let ghost sm = gterms_m(ts@);
    let mut i: usize = 0;
    assert(sm.take(0) =~= Seq::<GTermM>::empty());
    assert(out0 =~= out0 + Seq::<VarSpecM>::empty());
    while i < ts.len()
        invariant
            i <= ts@.len(),
            sm == gterms_m(ts@),
            varspecs_m(out@) == out0 + gfrees_seq(sm.take(i as int)),
        decreases ts.len() - i,
    {
        assert(sm.take(i + 1).drop_last() =~= sm.take(i as int));
        assert(sm.take(i + 1).last() == ts@[i as int]@);
        collect_free_term(&ts[i], out);
        assert(varspecs_m(out@) =~= out0 + gfrees_seq(sm.take(i + 1)));
        i += 1;
    }
    assert(sm.take(ts.len() as int) =~= sm);
}

/// Push every free variable of a term onto `out`, in tree order; bound
/// variables are skipped.
pub fn collect_free_term(t: &GTerm, out: &mut Vec<VarSpec>)
    ensures
        varspecs_m(final(out)@) == varspecs_m(old(out)@) + gfrees(t@),
    decreases t,
{
    let ghost out0 = varspecs_m(out@);
    match t {
        GTerm::Var(BVar::Free(v)) => {
            out.push(v.copy());
            assert(varspecs_m(out@) =~= out0 + gfrees(t@));
        },
        GTerm::App(_, args) | GTerm::Pair(args) => collect_free_terms(args, out),
        GTerm::AlgApp(_, a, b) | GTerm::Diff(a, b) | GTerm::BinOp(_, a, b) => {
            collect_free_term(a, out);
            collect_free_term(b, out);
            assert(varspecs_m(out@) =~= out0 + gfrees(t@));
        },
        GTerm::PatMatch(a) => collect_free_term(a, out),
        _ => {
            assert(varspecs_m(out@) =~= out0 + gfrees(t@));
        },
    }
}

/// Push every free variable of an atom onto `out` (see [`gatom_frees`]).
pub fn collect_free_atom(a: &GAtom, out: &mut Vec<VarSpec>)
    ensures
        varspecs_m(final(out)@) == varspecs_m(old(out)@) + gatom_frees(a@),
{
    let ghost out0 = varspecs_m(out@);
    match a {
        GAtom::Eq(x, y) | GAtom::Less(x, y) | GAtom::LessMset(x, y) | GAtom::Subterm(x, y) => {
            collect_free_term(x, out);
            collect_free_term(y, out);
        },
        GAtom::Action(f, t) => {
            collect_free_terms(&f.args, out);
            collect_free_term(t, out);
        },
        GAtom::Last(t) => collect_free_term(t, out),
        GAtom::Pred(f) => collect_free_terms(&f.args, out),
    }
    assert(varspecs_m(out@) =~= out0 + gatom_frees(a@));
}

// ---------------------------------------------------------------------------
// Renaming free variables
// ---------------------------------------------------------------------------

/// `u` is `t` with each variable leaf related to its counterpart by `rel`,
/// every other node the same.
pub open spec fn leaves_related(t: GTermM, u: GTermM, rel: spec_fn(GBVarM, GBVarM) -> bool) -> bool
    decreases t,
{
    match (t, u) {
        (GTermM::Var(v), GTermM::Var(w)) => rel(v, w),
        (GTermM::App(n, xs), GTermM::App(m, ys)) => n == m && xs.len() == ys.len() && forall|i: int|
            0 <= i < xs.len() ==> leaves_related(#[trigger] xs[i], ys[i], rel),
        (GTermM::Pair(xs), GTermM::Pair(ys)) => xs.len() == ys.len() && forall|i: int|
            0 <= i < xs.len() ==> leaves_related(#[trigger] xs[i], ys[i], rel),
        (GTermM::AlgApp(n, a, b), GTermM::AlgApp(m, c, d)) => n == m && leaves_related(*a, *c, rel)
            && leaves_related(*b, *d, rel),
        (GTermM::Diff(a, b), GTermM::Diff(c, d)) => leaves_related(*a, *c, rel) && leaves_related(*b, *d, rel),
        (GTermM::BinOp(o, a, b), GTermM::BinOp(o2, c, d)) => o == o2 && leaves_related(*a, *c, rel)
            && leaves_related(*b, *d, rel),
        (GTermM::PatMatch(a), GTermM::PatMatch(c)) => leaves_related(*a, *c, rel),
        _ => t == u && !(t is Var || t is App || t is Pair || t is AlgApp || t is Diff || t is BinOp || t is PatMatch),
    }
}

/// `g` is `f` with its arguments' leaves related by `rel`; persistence,
/// name and annotations stay.
pub open spec fn fact_leaves_related(f: GFactM, g: GFactM, rel: spec_fn(GBVarM, GBVarM) -> bool) -> bool {
    &&& g.persistent == f.persistent
    &&& g.name == f.name
    &&& g.annotations == f.annotations
    &&& g.args.len() == f.args.len()
    &&& forall|i: int| 0 <= i < f.args.len() ==> leaves_related(#[trigger] f.args[i], g.args[i], rel)
}

/// `b` is the atom `a` with every leaf related by `rel`.
pub open spec fn atom_leaves_related(a: GAtomM, b: GAtomM, rel: spec_fn(GBVarM, GBVarM) -> bool) -> bool {
    match (a, b) {
        (GAtomM::Eq(x, y), GAtomM::Eq(x2, y2)) => leaves_related(x, x2, rel) && leaves_related(y, y2, rel),
        (GAtomM::Less(x, y), GAtomM::Less(x2, y2)) => leaves_related(x, x2, rel) && leaves_related(y, y2, rel),
        (GAtomM::LessMset(x, y), GAtomM::LessMset(x2, y2)) => leaves_related(x, x2, rel) && leaves_related(
            y,
            y2,
            rel,
        ),
        (GAtomM::Subterm(x, y), GAtomM::Subterm(x2, y2)) => leaves_related(x, x2, rel) && leaves_related(y, y2, rel),
        (GAtomM::Action(f, t), GAtomM::Action(f2, t2)) => fact_leaves_related(f, f2, rel) && leaves_related(
            t,
            t2,
            rel,
        ),
        (GAtomM::Last(t), GAtomM::Last(t2)) => leaves_related(t, t2, rel),
        (GAtomM::Pred(f), GAtomM::Pred(f2)) => fact_leaves_related(f, f2, rel),
        _ => false,
    }
}

/// A bound leaf stays; a free variable becomes one that `f` may return
/// for it.
pub open spec fn renames_free_by<F: Fn(&VarSpec) -> VarSpec>(f: F) -> spec_fn(GBVarM, GBVarM) -> bool {
    |v: GBVarM, w: GBVarM|
        match (v, w) {
            (GBVarM::Bound(i), GBVarM::Bound(j)) => i == j,
            (GBVarM::Free(x), GBVarM::Free(y)) => exists|a: VarSpec, b: VarSpec|
                a@ == x && b@ == y && #[trigger] f.ensures((&a,), b),
            _ => false,
        }
}

fn map_free_terms<F: Fn(&VarSpec) -> VarSpec>(ts: &Vec<GTerm>, f: &F) -> (r: Vec<GTerm>)
    requires
        forall|v: &VarSpec| #[trigger] f.requires((v,)),
    ensures
        r@.len() == ts@.len(),
        forall|i: int| 0 <= i < ts@.len() ==> leaves_related(#[trigger] ts@[i]@, r@[i]@, renames_free_by(*f)),
    decreases ts,
{
    let mut out: Vec<GTerm> = Vec::new();
    let mut i: usize = 0;
    while i < ts.len()
        invariant
            i <= ts@.len(),
            out@.len() == i,
            forall|v: &VarSpec| #[trigger] f.requires((v,)),
            forall|j: int| 0 <= j < i ==> leaves_related(#[trigger] ts@[j]@, out@[j]@, renames_free_by(*f)),
        decreases ts.len() - i,
    {
        out.push(map_free_term(&ts[i], f));
        i += 1;
    }
    out
}

/// A term with `f` applied to every free variable; bound variables and
/// every other node stay.
pub fn map_free_term<F: Fn(&VarSpec) -> VarSpec>(t: &GTerm, f: &F) -> (r: GTerm)
    requires
        forall|v: &VarSpec| #[trigger] f.requires((v,)),
    ensures
        leaves_related(t@, r@, renames_free_by(*f)),
    decreases t,
{
    broadcast use group_gterm_lemmas;

    match t {
        GTerm::Var(BVar::Free(v)) => {
            let w = f(v);
            assert((renames_free_by(*f))(GBVarM::Free(v@), GBVarM::Free(w@)));
            let r = GTerm::Var(BVar::Free(w));
            assert(leaves_related(t@, r@, renames_free_by(*f)));
            r
        },
        GTerm::Var(BVar::Bound(n)) => GTerm::Var(BVar::Bound(*n)),
        GTerm::App(n, args) => {
            let a2 = map_free_terms(args, f);
            let r = GTerm::App(n.clone(), a2);
            assert(gterms_m(r->App_1@).len() == gterms_m(args@).len());
            assert(t@ == GTermM::App(n@, gterms_m(args@)));
            assert forall|i: int| 0 <= i < args@.len() implies leaves_related(
                #[trigger] gterms_m(args@)[i],
                gterms_m(a2@)[i],
                renames_free_by(*f),
            ) by {
                assert(leaves_related(args@[i]@, a2@[i]@, renames_free_by(*f)));
            }
            assert(leaves_related(t@, r@, renames_free_by(*f)));
            r
        },
        GTerm::Pair(items) => {
            let a2 = map_free_terms(items, f);
            let r = GTerm::Pair(a2);
            assert(gterms_m(r->Pair_0@).len() == gterms_m(items@).len());
            assert(t@ == GTermM::Pair(gterms_m(items@)));
            assert forall|i: int| 0 <= i < items@.len() implies leaves_related(
                #[trigger] gterms_m(items@)[i],
                gterms_m(a2@)[i],
                renames_free_by(*f),
            ) by {
                assert(leaves_related(items@[i]@, a2@[i]@, renames_free_by(*f)));
            }
            assert(leaves_related(t@, r@, renames_free_by(*f)));
            r
        },
        GTerm::AlgApp(n, a, b) => GTerm::AlgApp(n.clone(), Box::new(map_free_term(a, f)), Box::new(map_free_term(b, f))),
        GTerm::Diff(a, b) => GTerm::Diff(Box::new(map_free_term(a, f)), Box::new(map_free_term(b, f))),
        GTerm::BinOp(op, a, b) => GTerm::BinOp(op.clone(), Box::new(map_free_term(a, f)), Box::new(map_free_term(b, f))),
        GTerm::PatMatch(a) => GTerm::PatMatch(Box::new(map_free_term(a, f))),
        _ => {
            let r = t.copy();
            assert(leaves_related(t@, r@, renames_free_by(*f)));
            r
        },
    }
}

/// A fact with `f` applied to every free variable of its arguments.
pub fn map_free_fact<F: Fn(&VarSpec) -> VarSpec>(g: &GFact, f: &F) -> (r: GFact)
    requires
        forall|v: &VarSpec| #[trigger] f.requires((v,)),
    ensures
        fact_leaves_related(g@, r@, renames_free_by(*f)),
{
    broadcast use group_gterm_lemmas;

    let args = map_free_terms(&g.args, f);
    let r = GFact {
        persistent: g.persistent,
        name: g.name.clone(),
        args,
        annotations: crate::surface::copy_strings(&g.annotations),
    };
    assert forall|i: int| 0 <= i < g@.args.len() implies leaves_related(#[trigger] g@.args[i], r@.args[i], renames_free_by(*f)) by {
        assert(leaves_related(g.args@[i]@, r.args@[i]@, renames_free_by(*f)));
    }
    r
}

/// An atom with `f` applied to every free variable.
pub fn map_free_atom<F: Fn(&VarSpec) -> VarSpec>(a: &GAtom, f: &F) -> (r: GAtom)
    requires
        forall|v: &VarSpec| #[trigger] f.requires((v,)),
    ensures
        atom_leaves_related(a@, r@, renames_free_by(*f)),
{
    match a {
        GAtom::Eq(x, y) => GAtom::Eq(map_free_term(x, f), map_free_term(y, f)),
        GAtom::Less(x, y) => GAtom::Less(map_free_term(x, f), map_free_term(y, f)),
        GAtom::LessMset(x, y) => GAtom::LessMset(map_free_term(x, f), map_free_term(y, f)),
        GAtom::Subterm(x, y) => GAtom::Subterm(map_free_term(x, f), map_free_term(y, f)),
        GAtom::Action(g, t) => GAtom::Action(map_free_fact(g, f), map_free_term(t, f)),
        GAtom::Last(t) => GAtom::Last(map_free_term(t, f)),
        GAtom::Pred(g) => GAtom::Pred(map_free_fact(g, f)),
    }
}

// ---------------------------------------------------------------------------
// Laws
// ---------------------------------------------------------------------------

/// Is no tuple in the written term one whose last item is itself a tuple?
/// (The form [`mk_gpair`] gives every tuple.)
pub open spec fn pairs_canonical(t: STermM) -> bool
    decreases t,
{
    match t {
        STermM::App(_, args) => forall|i: int| 0 <= i < args.len() ==> pairs_canonical(#[trigger] args[i]),
        STermM::Pair(items) => !(items.len() > 0 && items[items.len() - 1] is Pair) && forall|i: int|
            0 <= i < items.len() ==> pairs_canonical(#[trigger] items[i]),
        STermM::AlgApp(_, a, b) => pairs_canonical(*a) && pairs_canonical(*b),
        STermM::Diff(a, b) => pairs_canonical(*a) && pairs_canonical(*b),
        STermM::BinOp(_, a, b) => pairs_canonical(*a) && pairs_canonical(*b),
        STermM::PatMatch(a) => pairs_canonical(*a),
        _ => true,
    }
}

proof fn lemma_splice_no_bound(items: Seq<GTermM>)
    requires
        forall|i: int| 0 <= i < items.len() ==> no_bound(#[trigger] items[i]),
    ensures
        forall|i: int| 0 <= i < splice_tail_pairs(items).len() ==> no_bound(#[trigger] splice_tail_pairs(items)[i]),
    decreases gsizes(items),
{
    if items.len() > 0 && items[items.len() - 1] is Pair {
        let rest = items.subrange(0, items.len() - 1);
        let last = items[items.len() - 1];
        let inner = last->Pair_0;
        lemma_gsizes_concat(rest, inner);
        assert(gsize(last) == 1 + gsizes(inner));
        assert(gsizes(items) == gsizes(rest) + gsize(last));
        lemma_no_bound_children(last);
        assert(gchildren(last) == inner);
        let joined = rest + inner;
        assert forall|i: int| 0 <= i < joined.len() implies no_bound(#[trigger] joined[i]) by {
            if i < rest.len() {
                assert(joined[i] == items[i]);
            } else {
                assert(joined[i] == inner[i - rest.len()]);
            }
        }
        lemma_splice_no_bound(joined);
        assert(splice_tail_pairs(items) == splice_tail_pairs(joined));
    }
}

/// Lifting gives a term without bound variables.
pub proof fn lifting_binds_nothing(t: STermM)
    ensures
        no_bound(lift_m(t)),
    decreases t,
{
    match t {
        STermM::App(_, args) => {
            let l = lift_args_m(t);
            assert forall|i: int| 0 <= i < l.len() implies no_bound(#[trigger] l[i]) by {
                lifting_binds_nothing(args[i]);
            }
        },
        STermM::Pair(items) => {
            let l = lift_args_m(t);
            assert forall|i: int| 0 <= i < l.len() implies no_bound(#[trigger] l[i]) by {
                lifting_binds_nothing(items[i]);
            }
            lemma_splice_no_bound(l);
        },
        STermM::AlgApp(_, a, b) | STermM::Diff(a, b) | STermM::BinOp(_, a, b) => {
            lifting_binds_nothing(*a);
            lifting_binds_nothing(*b);
        },
        STermM::PatMatch(a) => lifting_binds_nothing(*a),
        _ => {},
    }
}

/// Lowering a lifted term gives the written term back, for a term whose
/// tuples are in the form lifting keeps (no tuple ends in a tuple).
pub proof fn lowering_inverts_lifting(t: STermM)
    requires
        pairs_canonical(t),
    ensures
        lower_m(lift_m(t)) == t,
    decreases t,
{
    match t {
        STermM::App(_, args) => {
            let l = lift_args_m(t);
            let back = lower_args_m(lift_m(t));
            assert forall|i: int| 0 <= i < args.len() implies #[trigger] back[i] == args[i] by {
                lowering_inverts_lifting(args[i]);
            }
            assert(back =~= args);
        },
        STermM::Pair(items) => {
            let l = lift_args_m(t);
            if items.len() > 0 {
                let last = items[items.len() - 1];
                assert(l[items.len() - 1] == lift_m(last));
                assert(!(lift_m(last) is Pair));
            }
            assert(splice_tail_pairs(l) == l);
            let back = lower_args_m(lift_m(t));
            assert forall|i: int| 0 <= i < items.len() implies #[trigger] back[i] == items[i] by {
                lowering_inverts_lifting(items[i]);
            }
            assert(back =~= items);
        },
        STermM::AlgApp(_, a, b) | STermM::Diff(a, b) | STermM::BinOp(_, a, b) => {
            lowering_inverts_lifting(*a);
            lowering_inverts_lifting(*b);
        },
        STermM::PatMatch(a) => lowering_inverts_lifting(*a),
        _ => {},
    }
}

/// Does `p` hold of every variable leaf of the term?
pub open spec fn all_leaves(t: GTermM, p: spec_fn(GBVarM) -> bool) -> bool
    decreases t,
{
    match t {
        GTermM::Var(v) => p(v),
        GTermM::App(_, args) => forall|i: int| 0 <= i < args.len() ==> all_leaves(#[trigger] args[i], p),
        GTermM::Pair(items) => forall|i: int| 0 <= i < items.len() ==> all_leaves(#[trigger] items[i], p),
        GTermM::AlgApp(_, a, b) => all_leaves(*a, p) && all_leaves(*b, p),
        GTermM::Diff(a, b) => all_leaves(*a, p) && all_leaves(*b, p),
        GTermM::BinOp(_, a, b) => all_leaves(*a, p) && all_leaves(*b, p),
        GTermM::PatMatch(a) => all_leaves(*a, p),
        _ => true,
    }
}

/// Does `p` hold of every variable leaf of the atom?
pub open spec fn all_leaves_atom(a: GAtomM, p: spec_fn(GBVarM) -> bool) -> bool {
    match a {
        GAtomM::Eq(x, y) => all_leaves(x, p) && all_leaves(y, p),
        GAtomM::Less(x, y) => all_leaves(x, p) && all_leaves(y, p),
        GAtomM::LessMset(x, y) => all_leaves(x, p) && all_leaves(y, p),
        GAtomM::Subterm(x, y) => all_leaves(x, p) && all_leaves(y, p),
        GAtomM::Action(f, t) => (forall|i: int| 0 <= i < f.args.len() ==> all_leaves(#[trigger] f.args[i], p))
            && all_leaves(t, p),
        GAtomM::Last(t) => all_leaves(t, p),
        GAtomM::Pred(f) => forall|i: int| 0 <= i < f.args.len() ==> all_leaves(#[trigger] f.args[i], p),
    }
}

proof fn lemma_all_leaves_children(t: GTermM, p: spec_fn(GBVarM) -> bool)
    requires
        all_leaves(t, p),
    ensures
        forall|i: int| 0 <= i < gchildren(t).len() ==> all_leaves(#[trigger] gchildren(t)[i], p),
{
}

proof fn lemma_map_vars_inverse(t: GTermM, f: spec_fn(GBVarM) -> GBVarM, g: spec_fn(GBVarM) -> GBVarM)
    requires
        all_leaves(t, |w: GBVarM| g(f(w)) == w),
    ensures
        map_vars_m(map_vars_m(t, f), g) == t,
    decreases t,
{
    let p = |w: GBVarM| g(f(w)) == w;
    match t {
        GTermM::App(_, args) | GTermM::Pair(args) => {
            lemma_all_leaves_children(t, p);
            let inner = map_vars_args_m(t, f);
            let outer = map_vars_args_m(map_vars_m(t, f), g);
            assert forall|i: int| 0 <= i < args.len() implies #[trigger] outer[i] == args[i] by {
                assert(gchildren(t)[i] == args[i]);
                lemma_map_vars_inverse(args[i], f, g);
            }
            assert(outer =~= args);
        },
        GTermM::AlgApp(_, a, b) | GTermM::Diff(a, b) | GTermM::BinOp(_, a, b) => {
            lemma_map_vars_inverse(*a, f, g);
            lemma_map_vars_inverse(*b, f, g);
        },
        GTermM::PatMatch(a) => lemma_map_vars_inverse(*a, f, g),
        _ => {},
    }
}

proof fn lemma_free_lookup_first(s: Seq<(VarSpecM, u32)>, v: VarSpecM)
    ensures
        match free_lookup(s, v) {
            Some(db) => exists|p: int|
                0 <= p < s.len() && same_var(#[trigger] s[p].0, v) && s[p].1 == db,
            None => forall|p: int| 0 <= p < s.len() ==> !same_var(#[trigger] s[p].0, v),
        },
    decreases s.len(),
{
    if s.len() > 0 && !same_var(s[0].0, v) {
        lemma_free_lookup_first(s.drop_first(), v);
        match free_lookup(s.drop_first(), v) {
            Some(db) => {
                let p = choose|p: int| 0 <= p < s.drop_first().len() && same_var(#[trigger] s.drop_first()[p].0, v)
                    && s.drop_first()[p].1 == db;
                assert(s[p + 1] == s.drop_first()[p]);
            },
            None => {
                assert forall|p: int| 0 <= p < s.len() implies !same_var(#[trigger] s[p].0, v) by {
                    if p > 0 {
                        assert(s[p] == s.drop_first()[p - 1]);
                    }
                }
            },
        }
    } else if s.len() > 0 {
        assert(same_var(s[0].0, v));
    }
}

proof fn lemma_bound_lookup_first(s: Seq<(u32, VarSpecM)>, n: u32, d: u32)
    ensures
        match bound_lookup(s, n, d) {
            Some(x) => exists|p: int| 0 <= p < s.len() && #[trigger] s[p].0 + d == n && s[p].1 == x,
            None => forall|p: int| 0 <= p < s.len() ==> #[trigger] s[p].0 + d != n,
        },
    decreases s.len(),
{
    if s.len() > 0 && s[0].0 + d != n {
        lemma_bound_lookup_first(s.drop_first(), n, d);
        match bound_lookup(s.drop_first(), n, d) {
            Some(x) => {
                let p = choose|p: int| 0 <= p < s.drop_first().len() && #[trigger] s.drop_first()[p].0 + d == n
                    && s.drop_first()[p].1 == x;
                assert(s[p + 1] == s.drop_first()[p]);
            },
            None => {
                assert forall|p: int| 0 <= p < s.len() implies #[trigger] s[p].0 + d != n by {
                    if p > 0 {
                        assert(s[p] == s.drop_first()[p - 1]);
                    }
                }
            },
        }
    } else if s.len() > 0 {
        assert(s[0].0 + d == n);
    }
}

/// A leaf that closing over binders `vs` at `depth` and opening again
/// gives back: a bound index below `depth` (bound inside), or a free
/// variable equal to every binder it has the name, index and sort of.
pub open spec fn closable_leaf(vs: Seq<VarSpecM>, depth: u32) -> spec_fn(GBVarM) -> bool {
    |v: GBVarM|
        match v {
            GBVarM::Bound(n) => n < depth,
            GBVarM::Free(x) => forall|b: int| 0 <= b < vs.len() && #[trigger] same_var(vs[b], x) ==> vs[b] == x,
        }
}

proof fn lemma_close_open_leaf(vs: Seq<VarSpecM>, depth: u32, v: GBVarM)
    requires
        vs.len() + depth <= 0x1_0000_0000,
        (closable_leaf(vs, depth))(v),
    ensures
        (open_var(open_subst_spec(vs), depth))((close_var(close_subst_spec(vs), depth))(v)) == v,
{
    let cs = close_subst_spec(vs);
    let os = open_subst_spec(vs);
    let k = vs.len();
    match v {
        GBVarM::Free(x) => {
            lemma_free_lookup_first(cs, x);
            if let Some(db) = free_lookup(cs, x) {
                let p = choose|p: int| 0 <= p < cs.len() && same_var(#[trigger] cs[p].0, x) && cs[p].1 == db;
                assert(cs[p] == (vs[k - 1 - p], p as u32));
                assert(db == p);
                let n = (db + depth) as u32;
                lemma_bound_lookup_first(os, n, depth);
                assert(os[p] == (p as u32, vs[k - 1 - p]));
                assert(os[p].0 + depth == n);
                match bound_lookup(os, n, depth) {
                    Some(w) => {
                        let q = choose|q: int| 0 <= q < os.len() && #[trigger] os[q].0 + depth == n && os[q].1 == w;
                        assert(os[q] == (q as u32, vs[k - 1 - q]));
                        assert(q == p);
                        assert(same_var(vs[k - 1 - p], x));
                    },
                    None => {
                        assert(false);
                    },
                }
            }
        },
        GBVarM::Bound(n) => {
            lemma_bound_lookup_first(os, n, depth);
            if let Some(w) = bound_lookup(os, n, depth) {
                let q = choose|q: int| 0 <= q < os.len() && #[trigger] os[q].0 + depth == n && os[q].1 == w;
                assert(false);
            }
        },
    }
}

proof fn lemma_all_leaves_weaken(t: GTermM, p: spec_fn(GBVarM) -> bool, q: spec_fn(GBVarM) -> bool)
    requires
        all_leaves(t, p),
        forall|v: GBVarM| #[trigger] p(v) ==> q(v),
    ensures
        all_leaves(t, q),
    decreases t,
{
    match t {
        GTermM::App(_, args) | GTermM::Pair(args) => {
            lemma_all_leaves_children(t, p);
            assert forall|i: int| 0 <= i < args.len() implies all_leaves(#[trigger] args[i], q) by {
                assert(gchildren(t)[i] == args[i]);
                lemma_all_leaves_weaken(args[i], p, q);
            }
        },
        GTermM::AlgApp(_, a, b) | GTermM::Diff(a, b) | GTermM::BinOp(_, a, b) => {
            lemma_all_leaves_weaken(*a, p, q);
            lemma_all_leaves_weaken(*b, p, q);
        },
        GTermM::PatMatch(a) => lemma_all_leaves_weaken(*a, p, q),
        _ => {},
    }
}

/// Opening with the binders a term was closed over gives the term back,
/// when every bound index in it points inside the binders closed over
/// (below `depth`) and every free variable equals the binders it matches
/// (see [`closable_leaf`]).
pub proof fn opening_inverts_closing(vs: Seq<VarSpecM>, depth: u32, t: GTermM)
    requires
        vs.len() + depth <= 0x1_0000_0000,
        all_leaves(t, closable_leaf(vs, depth)),
    ensures
        map_vars_m(map_vars_m(t, close_var(close_subst_spec(vs), depth)), open_var(open_subst_spec(vs), depth)) == t,
{
    let f = close_var(close_subst_spec(vs), depth);
    let g = open_var(open_subst_spec(vs), depth);
    assert forall|v: GBVarM| #[trigger] (closable_leaf(vs, depth))(v) implies (|w: GBVarM| g(f(w)) == w)(v) by {
        lemma_close_open_leaf(vs, depth, v);
    }
    lemma_all_leaves_weaken(t, closable_leaf(vs, depth), |w: GBVarM| g(f(w)) == w);
    lemma_map_vars_inverse(t, f, g);
}

proof fn lemma_close_open_fact(vs: Seq<VarSpecM>, depth: u32, fa: GFactM)
    requires
        vs.len() + depth <= 0x1_0000_0000,
        forall|i: int| 0 <= i < fa.args.len() ==> all_leaves(#[trigger] fa.args[i], closable_leaf(vs, depth)),
    ensures
        map_vars_fact_m(
            map_vars_fact_m(fa, close_var(close_subst_spec(vs), depth)),
            open_var(open_subst_spec(vs), depth),
        ) == fa,
{
    let f = close_var(close_subst_spec(vs), depth);
    let g = open_var(open_subst_spec(vs), depth);
    let back = map_vars_fact_m(map_vars_fact_m(fa, f), g);
    assert forall|i: int| 0 <= i < fa.args.len() implies #[trigger] back.args[i] == fa.args[i] by {
        opening_inverts_closing(vs, depth, fa.args[i]);
    }
    assert(back.args =~= fa.args);
}

/// [`opening_inverts_closing`] for an atom: closing each term over the
/// binders and opening it again gives the atom back.
pub proof fn opening_inverts_closing_atom(vs: Seq<VarSpecM>, depth: u32, a: GAtomM)
    requires
        vs.len() + depth <= 0x1_0000_0000,
        all_leaves_atom(a, closable_leaf(vs, depth)),
    ensures
        map_vars_atom_m(
            map_vars_atom_m(a, close_var(close_subst_spec(vs), depth)),
            open_var(open_subst_spec(vs), depth),
        ) == a,
{
    match a {
        GAtomM::Eq(x, y) | GAtomM::Less(x, y) | GAtomM::LessMset(x, y) | GAtomM::Subterm(x, y) => {
            opening_inverts_closing(vs, depth, x);
            opening_inverts_closing(vs, depth, y);
        },
        GAtomM::Action(fa, t) => {
            lemma_close_open_fact(vs, depth, fa);
            opening_inverts_closing(vs, depth, t);
        },
        GAtomM::Last(t) => opening_inverts_closing(vs, depth, t),
        GAtomM::Pred(fa) => lemma_close_open_fact(vs, depth, fa),
    }
}

/// A tuple [`mk_gpair`] builds never ends in a tuple: the splicing goes on
/// while the last item is a tuple.
pub proof fn spliced_tuples_never_end_in_a_tuple(items: Seq<GTermM>)
    ensures
        !(splice_tail_pairs(items).len() > 0 && splice_tail_pairs(items)[splice_tail_pairs(items).len() - 1] is Pair),
    decreases gsizes(items),
{
    if items.len() > 0 && items[items.len() - 1] is Pair {
        let rest = items.subrange(0, items.len() - 1);
        let inner = items[items.len() - 1]->Pair_0;
        lemma_gsizes_concat(rest, inner);
        assert(items[items.len() - 1] == GTermM::Pair(inner));
        assert(gsize(items[items.len() - 1]) == 1 + gsizes(inner));
        assert(gsizes(items) == gsizes(rest) + gsize(items[items.len() - 1]));
        spliced_tuples_never_end_in_a_tuple(rest + inner);
    }
}

/// Does no tuple in the term end in a tuple?
pub open spec fn gpairs_canonical(g: GTermM) -> bool
    decreases g,
{
    match g {
        GTermM::App(_, args) => forall|i: int| 0 <= i < args.len() ==> gpairs_canonical(#[trigger] args[i]),
        GTermM::Pair(items) => !(items.len() > 0 && items[items.len() - 1] is Pair) && forall|i: int|
            0 <= i < items.len() ==> gpairs_canonical(#[trigger] items[i]),
        GTermM::AlgApp(_, a, b) => gpairs_canonical(*a) && gpairs_canonical(*b),
        GTermM::Diff(a, b) => gpairs_canonical(*a) && gpairs_canonical(*b),
        GTermM::BinOp(_, a, b) => gpairs_canonical(*a) && gpairs_canonical(*b),
        GTermM::PatMatch(a) => gpairs_canonical(*a),
        _ => true,
    }
}

proof fn lemma_canonical_children(g: GTermM)
    requires
        gpairs_canonical(g),
    ensures
        forall|i: int| 0 <= i < gchildren(g).len() ==> gpairs_canonical(#[trigger] gchildren(g)[i]),
{
}

proof fn lemma_splice_canonical(items: Seq<GTermM>)
    requires
        forall|i: int| 0 <= i < items.len() ==> gpairs_canonical(#[trigger] items[i]),
    ensures
        forall|i: int|
            0 <= i < splice_tail_pairs(items).len() ==> gpairs_canonical(#[trigger] splice_tail_pairs(items)[i]),
    decreases gsizes(items),
{
    if items.len() > 0 && items[items.len() - 1] is Pair {
        let rest = items.subrange(0, items.len() - 1);
        let last = items[items.len() - 1];
        let inner = last->Pair_0;
        lemma_gsizes_concat(rest, inner);
        assert(gsize(last) == 1 + gsizes(inner));
        assert(gsizes(items) == gsizes(rest) + gsize(last));
        lemma_canonical_children(last);
        assert(gchildren(last) == inner);
        let joined = rest + inner;
        assert forall|i: int| 0 <= i < joined.len() implies gpairs_canonical(#[trigger] joined[i]) by {
            if i < rest.len() {
                assert(joined[i] == items[i]);
            } else {
                assert(joined[i] == inner[i - rest.len()]);
            }
        }
        lemma_splice_canonical(joined);
        assert(splice_tail_pairs(items) == splice_tail_pairs(joined));
    }
}

/// Lifting a written term puts every tuple in it into the form
/// [`mk_gpair`] gives: no tuple ends in a tuple, so the two spellings of
/// one tuple lift to one term.
pub proof fn lifted_tuples_never_end_in_a_tuple(t: STermM)
    ensures
        gpairs_canonical(lift_m(t)),
    decreases t,
{
    match t {
        STermM::App(_, args) => {
            let l = lift_args_m(t);
            assert forall|i: int| 0 <= i < l.len() implies gpairs_canonical(#[trigger] l[i]) by {
                lifted_tuples_never_end_in_a_tuple(args[i]);
            }
        },
        STermM::Pair(items) => {
            let l = lift_args_m(t);
            assert forall|i: int| 0 <= i < l.len() implies gpairs_canonical(#[trigger] l[i]) by {
                lifted_tuples_never_end_in_a_tuple(items[i]);
            }
            lemma_splice_canonical(l);
            spliced_tuples_never_end_in_a_tuple(l);
        },
        STermM::AlgApp(_, a, b) | STermM::Diff(a, b) | STermM::BinOp(_, a, b) => {
            lifted_tuples_never_end_in_a_tuple(*a);
            lifted_tuples_never_end_in_a_tuple(*b);
        },
        STermM::PatMatch(a) => lifted_tuples_never_end_in_a_tuple(*a),
        _ => {},
    }
}

} // verus!
