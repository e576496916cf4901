//! Guarded formulas: the fragment in which every quantified variable is
//! bound by an action or equality atom, their smart constructors, negation,
//! induction, substitution of bound for free variables and back, opening and
//! closing of binders, normalisation, and the conversion of a formula into
//! the fragment.
use vstd::prelude::*;
use crate::term::{Atom, AtomM, Binder, BinderM, LSort, LVar, LVarM, Term, TermM, BVar, BVarM, Fact, FactM, atoms_m, binders_m, terms_m, lvars_m, copy_atoms, copy_binders, same_atoms, same_binders, atom_frees, atoms_frees, collect_atom_frees, collect_atoms_frees, lemma_lvars_m_push, map_atom_leaves, map_atom, map_leaves, atom_has_bound, atom_has_bound_exec, Name, NameM, FunSym, FunSymM, copy_terms, map_terms, map_leaves_seq, term_frees, terms_frees, collect_term_frees, has_bound, term_has_bound, Subst, subst_leaf, map_term, image_of};
use crate::fresh::{FreshState, draw_all, room, next_of, draw, seeded, lemma_draw_all_room, binder_names, opened_vars};
use crate::formula::{Quantifier, Connective, atom_renamed_by, rename_atom, atom_renamed_canon_by, rename_atom_canon};
use crate::canon::{
    cmap_atom, cmap_term, cmap_atom_exec, cmap_term_exec, keep_leaf, lemma_canon_atom_fixed, pmap_atom, pmap_atom_exec, all_leaves, atom_canon, var_valued, free_leaf,
    lemma_no_bound_leaves, lemma_leaves_weaken, lemma_canon_atom_no_bound, lemma_cmap_atom_round_trip, lemma_cmap_atom_canon,
};

verus! {

broadcast use vstd::std_specs::vec::group_vec_axioms;

/// A guarded formula.  A variable leaf inside an atom is either a De Bruijn
/// index into the binders of the enclosing `GGuarded` nodes or a free
/// variable.  `GGuarded { qua: All, .. }` reads `All vars. guards ==> body`,
/// `GGuarded { qua: Ex, .. }` reads `Ex vars. guards & body`.
#[derive(Debug, Hash)]
pub enum Guarded {
    Atom(Atom),
    Disj(Vec<Guarded>),
    Conj(Vec<Guarded>),
    GGuarded { qua: Quantifier, vars: Vec<Binder>, guards: Vec<Atom>, body: Box<Guarded> },
}

/// The model of a guarded formula.
pub enum GuardedM {
    Atom(AtomM),
    Disj(Seq<GuardedM>),
    Conj(Seq<GuardedM>),
    GGuarded { qua: Quantifier, vars: Seq<BinderM>, guards: Seq<AtomM>, body: Box<GuardedM> },
}

/// The models of a sequence of guarded formulas.
pub open spec fn guardeds_m(xs: Seq<Guarded>) -> Seq<GuardedM>
    decreases xs, 1nat,
{
    Seq::new(
        xs.len(),
        |i: int| if 0 <= i < xs.len() { xs[i].view() } else { GuardedM::Disj(Seq::empty()) },
    )
}

pub broadcast proof fn lemma_guardeds_m_len(xs: Seq<Guarded>)
    ensures
        #[trigger] guardeds_m(xs).len() == xs.len(),
{
}

pub broadcast proof fn lemma_guardeds_m_index(xs: Seq<Guarded>, j: int)
    requires
        0 <= j < xs.len(),
    ensures
        #[trigger] guardeds_m(xs)[j] == xs[j]@,
{
}

pub broadcast group group_guarded_lemmas {
    lemma_guardeds_m_len,
    lemma_guardeds_m_index,
}

impl Guarded {
    pub open spec fn view(&self) -> GuardedM
        decreases self, 0nat,
    {
        match self {
            Guarded::Atom(a) => GuardedM::Atom(a@),
            Guarded::Disj(xs) => GuardedM::Disj(guardeds_m(xs@)),
            Guarded::Conj(xs) => GuardedM::Conj(guardeds_m(xs@)),
            Guarded::GGuarded { qua, vars, guards, body } => GuardedM::GGuarded {
                qua: *qua,
                vars: binders_m(vars@),
                guards: atoms_m(guards@),
                body: Box::new(body.view()),
            },
        }
    }

    /// A deep copy.
    pub fn copy(&self) -> (r: Guarded)
        ensures
            r@ == self@,
        decreases self,
    {
        match self {
            Guarded::Atom(a) => Guarded::Atom(a.copy()),
            Guarded::Disj(xs) => Guarded::Disj(copy_guardeds(xs)),
            Guarded::Conj(xs) => Guarded::Conj(copy_guardeds(xs)),
            Guarded::GGuarded { qua, vars, guards, body } => Guarded::GGuarded {
                qua: *qua,
                vars: copy_binders(vars),
                guards: copy_atoms(guards),
                body: Box::new((**body).copy()),
            },
        }
    }

    /// Structural equality.
    pub fn same(&self, other: &Guarded) -> (r: bool)
        ensures
            r == (self@ == other@),
        decreases self,
    {
        match (self, other) {
            (Guarded::Atom(a), Guarded::Atom(b)) => a.same(b),
            (Guarded::Disj(xs), Guarded::Disj(ys)) => same_guardeds(xs, ys),
            (Guarded::Conj(xs), Guarded::Conj(ys)) => same_guardeds(xs, ys),
            (
                Guarded::GGuarded { qua: q1, vars: v1, guards: g1, body: b1 },
                Guarded::GGuarded { qua: q2, vars: v2, guards: g2, body: b2 },
            ) => {
                *q1 == *q2 && same_binders(v1, v2) && same_atoms(g1, g2) && (**b1).same(&**b2)
            },
            _ => false,
        }
    }
}

impl PartialEq for Guarded {
    fn eq(&self, other: &Guarded) -> (r: bool) {
        self.same(other)
    }
}

impl vstd::std_specs::cmp::PartialEqSpecImpl for Guarded {
    open spec fn obeys_eq_spec() -> bool {
        true
    }

    open spec fn eq_spec(&self, other: &Guarded) -> bool {
        self@ == other@
    }
}

/// A deep copy of a list of guarded formulas.
#[verifier::loop_isolation(false)]
pub fn copy_guardeds(xs: &Vec<Guarded>) -> (r: Vec<Guarded>)
    ensures
        guardeds_m(r@) == guardeds_m(xs@),
    decreases xs,
{
    broadcast use group_guarded_lemmas;

    let mut out: Vec<Guarded> = Vec::new();
    let mut i: usize = 0;
    while i < xs.len()
        invariant
            i <= xs.len(),
            out@.len() == i,
            forall|j: int| 0 <= j < i ==> #[trigger] out@[j]@ == xs@[j]@,
        decreases xs.len() - i,
    {
        out.push(xs[i].copy());
        i += 1;
    }
    assert(guardeds_m(out@) =~= guardeds_m(xs@));
    out
}

/// Elementwise equality of two lists of guarded formulas.
#[verifier::loop_isolation(false)]
pub fn same_guardeds(xs: &Vec<Guarded>, ys: &Vec<Guarded>) -> (r: bool)
    ensures
        r == (guardeds_m(xs@) == guardeds_m(ys@)),
    decreases xs,
{
    broadcast use group_guarded_lemmas;

    if xs.len() != ys.len() {
        assert(guardeds_m(xs@).len() != guardeds_m(ys@).len());
        return false;
    }
    let mut i: usize = 0;
    while i < xs.len()
        invariant
            i <= xs.len(),
            xs.len() == ys.len(),
            forall|j: int| 0 <= j < i ==> #[trigger] xs@[j]@ == ys@[j]@,
        decreases xs.len() - i,
    {
        if !xs[i].same(&ys[i]) {
            assert(guardeds_m(xs@)[i as int] != guardeds_m(ys@)[i as int]);
            return false;
        }
        i += 1;
    }
    assert(guardeds_m(xs@) =~= guardeds_m(ys@));
    true
}

// ---------------------------------------------------------------------------
// The model of the smart constructors
// ---------------------------------------------------------------------------

/// `true`: the empty conjunction.
pub open spec fn gtrue_m() -> GuardedM {
    GuardedM::Conj(Seq::empty())
}

/// `false`: the empty disjunction.
pub open spec fn gfalse_m() -> GuardedM {
    GuardedM::Disj(Seq::empty())
}

pub open spec fn gtf_m(b: bool) -> GuardedM {
    if b {
        gtrue_m()
    } else {
        gfalse_m()
    }
}

/// The sequence without its later duplicates: the first occurrence of each
/// element, in order.
pub open spec fn nub<A>(s: Seq<A>) -> Seq<A>
    decreases s.len(),
{
    if s.len() == 0 {
        s
    } else {
        let r = nub(s.drop_last());
        if r.contains(s.last()) {
            r
        } else {
            r.push(s.last())
        }
    }
}

/// Does flattening the conjunction meet a `false` (at any nesting level)?
pub open spec fn conj_absorbs(s: Seq<GuardedM>) -> bool
    decreases s,
{
    if s.len() == 0 {
        false
    } else {
        conj_absorbs(s.drop_last()) || match s.last() {
            GuardedM::Conj(inner) => conj_absorbs(inner),
            x => x == gfalse_m(),
        }
    }
}

/// The conjuncts after flattening every level of nested conjunction.
pub open spec fn conj_flat(s: Seq<GuardedM>) -> Seq<GuardedM>
    decreases s,
{
    if s.len() == 0 {
        Seq::empty()
    } else {
        conj_flat(s.drop_last()) + match s.last() {
            GuardedM::Conj(inner) => conj_flat(inner),
            x => seq![x],
        }
    }
}

/// Does flattening the disjunction meet a `true` (at any nesting level)?
pub open spec fn disj_absorbs(s: Seq<GuardedM>) -> bool
    decreases s,
{
    if s.len() == 0 {
        false
    } else {
        disj_absorbs(s.drop_last()) || match s.last() {
            GuardedM::Disj(inner) => disj_absorbs(inner),
            x => x == gtrue_m(),
        }
    }
}

/// The disjuncts after flattening every level of nested disjunction.
/// (`false`, the empty disjunction, contributes nothing.)
pub open spec fn disj_flat(s: Seq<GuardedM>) -> Seq<GuardedM>
    decreases s,
{
    if s.len() == 0 {
        Seq::empty()
    } else {
        disj_flat(s.drop_last()) + match s.last() {
            GuardedM::Disj(inner) => disj_flat(inner),
            x => seq![x],
        }
    }
}

/// Smart conjunction: flatten nested conjunctions at every level, `false`
/// absorbs, duplicates are dropped (first occurrence kept), and a single
/// conjunct stands alone.
pub open spec fn gconj_m(items: Seq<GuardedM>) -> GuardedM {
    if conj_absorbs(items) {
        gfalse_m()
    } else {
        let d = nub(conj_flat(items));
        if d.len() == 1 {
            d[0]
        } else {
            GuardedM::Conj(d)
        }
    }
}

/// Smart disjunction: flatten nested disjunctions at every level, `true`
/// absorbs, `false` is dropped, duplicates are dropped (first occurrence
/// kept), a single disjunct stands alone, and the empty result is `false`.
pub open spec fn gdisj_m(items: Seq<GuardedM>) -> GuardedM {
    if disj_absorbs(items) {
        gtrue_m()
    } else {
        let d = nub(disj_flat(items));
        if d.len() == 1 {
            d[0]
        } else if d.len() == 0 {
            gfalse_m()
        } else {
            GuardedM::Disj(d)
        }
    }
}

/// Smart existential: no binders makes it the conjunction of the guards and
/// the body; a `false` body makes it `false`.
pub open spec fn gex_m(vars: Seq<BinderM>, guards: Seq<AtomM>, body: GuardedM) -> GuardedM {
    if vars.len() == 0 {
        gconj_m(Seq::new(guards.len(), |i: int| GuardedM::Atom(guards[i])).push(body))
    } else if body == gfalse_m() {
        gfalse_m()
    } else {
        GuardedM::GGuarded { qua: Quantifier::Ex, vars, guards, body: Box::new(body) }
    }
}

/// Smart universal: no guards makes it the body; a `true` body makes it
/// `true`.
pub open spec fn gall_m(vars: Seq<BinderM>, guards: Seq<AtomM>, body: GuardedM) -> GuardedM {
    if guards.len() == 0 {
        body
    } else if body == gtrue_m() {
        gtrue_m()
    } else {
        GuardedM::GGuarded { qua: Quantifier::All, vars, guards, body: Box::new(body) }
    }
}

/// The negation of an atom: `All []. a ==> false`.
pub open spec fn gnot_atom_m(a: AtomM) -> GuardedM {
    GuardedM::GGuarded {
        qua: Quantifier::All,
        vars: Seq::empty(),
        guards: seq![a],
        body: Box::new(gfalse_m()),
    }
}

/// The negations of a sequence of guarded formulas.
pub open spec fn gnot_seq_m(xs: Seq<GuardedM>) -> Seq<GuardedM>
    decreases xs,
{
    Seq::new(xs.len(), |i: int| if 0 <= i < xs.len() { gnot_m(xs[i]) } else { gtrue_m() })
}

/// Structural negation through the smart constructors.
pub open spec fn gnot_m(g: GuardedM) -> GuardedM
    decreases g,
{
    match g {
        GuardedM::Atom(a) => gnot_atom_m(a),
        GuardedM::Disj(xs) => gconj_m(gnot_seq_m(xs)),
        GuardedM::Conj(xs) => gdisj_m(gnot_seq_m(xs)),
        GuardedM::GGuarded { qua: Quantifier::All, vars, guards, body } => gex_m(
            vars,
            guards,
            gnot_m(*body),
        ),
        GuardedM::GGuarded { qua: Quantifier::Ex, vars, guards, body } => gall_m(
            vars,
            guards,
            gnot_m(*body),
        ),
    }
}

// ---------------------------------------------------------------------------
// Lemmas on the models
// ---------------------------------------------------------------------------

pub proof fn lemma_guardeds_m_push(xs: Seq<Guarded>, x: Guarded)
    ensures
        guardeds_m(xs.push(x)) == guardeds_m(xs).push(x@),
{
    broadcast use group_guarded_lemmas;

    assert(guardeds_m(xs.push(x)) =~= guardeds_m(xs).push(x@));
}

proof fn lemma_conj_absorbs_prefix(s: Seq<GuardedM>, k: int)
    requires
        0 <= k <= s.len(),
        conj_absorbs(s.take(k)),
    ensures
        conj_absorbs(s),
    decreases s.len(),
{
    if k < s.len() {
        assert(s.drop_last().take(k) =~= s.take(k));
        lemma_conj_absorbs_prefix(s.drop_last(), k);
    } else {
        assert(s.take(k) =~= s);
    }
}

proof fn lemma_disj_absorbs_prefix(s: Seq<GuardedM>, k: int)
    requires
        0 <= k <= s.len(),
        disj_absorbs(s.take(k)),
    ensures
        disj_absorbs(s),
    decreases s.len(),
{
    if k < s.len() {
        assert(s.drop_last().take(k) =~= s.take(k));
        lemma_disj_absorbs_prefix(s.drop_last(), k);
    } else {
        assert(s.take(k) =~= s);
    }
}

// ---------------------------------------------------------------------------
// Smart constructors
// ---------------------------------------------------------------------------

/// `true`, the empty conjunction.
pub fn gtrue() -> (r: Guarded)
    ensures
        r@ == gtrue_m(),
{
    let r = Guarded::Conj(Vec::new());
    assert(r@ =~= gtrue_m()) by {
        broadcast use group_guarded_lemmas;
        assert(guardeds_m(Seq::<Guarded>::empty()) =~= Seq::<GuardedM>::empty());
    }
    r
}

/// `false`, the empty disjunction.
pub fn gfalse() -> (r: Guarded)
    ensures
        r@ == gfalse_m(),
{
    let r = Guarded::Disj(Vec::new());
    assert(r@ =~= gfalse_m()) by {
        broadcast use group_guarded_lemmas;
        assert(guardeds_m(Seq::<Guarded>::empty()) =~= Seq::<GuardedM>::empty());
    }
    r
}

/// The truth value as a guarded formula.
pub fn gtf(b: bool) -> (r: Guarded)
    ensures
        r@ == gtf_m(b),
{
    if b {
        gtrue()
    } else {
        gfalse()
    }
}

/// Is the formula `true` (the empty conjunction)?
pub fn is_gtrue(g: &Guarded) -> (r: bool)
    ensures
        r == (g@ == gtrue_m()),
{
    broadcast use group_guarded_lemmas;

    match g {
        Guarded::Conj(xs) => {
            if xs.len() == 0 {
                assert(guardeds_m(xs@) =~= Seq::<GuardedM>::empty());
                true
            } else {
                assert(guardeds_m(xs@).len() != 0);
                false
            }
        },
        _ => false,
    }
}

/// Is the formula `false` (the empty disjunction)?
pub fn is_gfalse(g: &Guarded) -> (r: bool)
    ensures
        r == (g@ == gfalse_m()),
{
    broadcast use group_guarded_lemmas;

    match g {
        Guarded::Disj(xs) => {
            if xs.len() == 0 {
                assert(guardeds_m(xs@) =~= Seq::<GuardedM>::empty());
                true
            } else {
                assert(guardeds_m(xs@).len() != 0);
                false
            }
        },
        _ => false,
    }
}

/// Is `x` among the stored formulas `v` (content equality)?
pub fn stores_contains(v: &Vec<Guarded>, x: &Guarded) -> (r: bool)
    ensures
        r == guardeds_m(v@).contains(x@),
{
    broadcast use group_guarded_lemmas;

    let mut i: usize = 0;
    while i < v.len()
        invariant
            i <= v.len(),
            forall|j: int| 0 <= j < i ==> #[trigger] v@[j]@ != x@,
        decreases v.len() - i,
    {
        if v[i].same(x) {
            assert(guardeds_m(v@)[i as int] == x@);
            return true;
        }
        i += 1;
    }
    assert(!guardeds_m(v@).contains(x@));
    false
}

/// The list without its later duplicates.
fn nub_guardeds(xs: &Vec<Guarded>) -> (r: Vec<Guarded>)
    ensures
        guardeds_m(r@) == nub(guardeds_m(xs@)),
{
    broadcast use group_guarded_lemmas;

    let ghost s = guardeds_m(xs@);
    let mut out: Vec<Guarded> = Vec::new();
    let mut i: usize = 0;
    assert(s.take(0) =~= Seq::<GuardedM>::empty());
    assert(guardeds_m(out@) =~= Seq::<GuardedM>::empty());
    while i < xs.len()
        invariant
            i <= xs.len(),
            s == guardeds_m(xs@),
            guardeds_m(out@) == nub(s.take(i as int)),
        decreases xs.len() - i,
    {
        assert(s.take(i + 1).drop_last() =~= s.take(i as int));
        assert(s.take(i + 1).last() == xs@[i as int]@);
        if !stores_contains(&out, &xs[i]) {
            proof {
                lemma_guardeds_m_push(out@, xs@[i as int]);
            }
            out.push(xs[i].copy());
        }
        i += 1;
    }
    assert(s.take(xs.len() as int) =~= s);
    out
}

/// Push the flattened conjuncts of `items` onto `out`; `true` when a
/// `false` is met (the conjunction is then `false`).
#[verifier::loop_isolation(false)]
fn flatten_conj(items: &Vec<Guarded>, out: &mut Vec<Guarded>) -> (absorbed: bool)
    ensures
        absorbed == conj_absorbs(guardeds_m(items@)),
        !absorbed ==> guardeds_m(final(out)@) == guardeds_m(old(out)@) + conj_flat(
            guardeds_m(items@),
        ),
    decreases items,
{
    broadcast use group_guarded_lemmas;

    let ghost s = guardeds_m(items@);
    let ghost out0 = guardeds_m(out@);
    let mut i: usize = 0;
    assert(s.take(0) =~= Seq::<GuardedM>::empty());
    assert(out0 + Seq::<GuardedM>::empty() =~= out0);
    while i < items.len()
        invariant
            i <= items.len(),
            !conj_absorbs(s.take(i as int)),
            guardeds_m(out@) == out0 + conj_flat(s.take(i as int)),
        decreases items.len() - i,
    {
        assert(s.take(i + 1).drop_last() =~= s.take(i as int));
        assert(s.take(i + 1).last() == items@[i as int]@);
        match &items[i] {
            Guarded::Conj(inner) => {
                let ghost before = guardeds_m(out@);
                if flatten_conj(inner, out) {
                    proof {
                        lemma_conj_absorbs_prefix(s, i + 1);
                    }
                    return true;
                }
                assert(guardeds_m(out@) =~= out0 + conj_flat(s.take(i + 1)));
            },
            x => {
                if is_gfalse(x) {
                    proof {
                        lemma_conj_absorbs_prefix(s, i + 1);
                    }
                    return true;
                }
                let c = x.copy();
                proof {
                    lemma_guardeds_m_push(out@, c);
                }
                out.push(c);
                assert(conj_flat(s.take(i + 1)) == conj_flat(s.take(i as int)) + seq![x@]);
                assert(guardeds_m(out@) =~= out0 + conj_flat(s.take(i + 1)));
            },
        }
        i += 1;
    }
    assert(s.take(items.len() as int) =~= s);
    false
}

/// Push the flattened disjuncts of `items` onto `out`, leaving out `false`;
/// `true` when a `true` is met (the disjunction is then `true`).
#[verifier::loop_isolation(false)]
fn flatten_disj(items: &Vec<Guarded>, out: &mut Vec<Guarded>) -> (absorbed: bool)
    ensures
        absorbed == disj_absorbs(guardeds_m(items@)),
        !absorbed ==> guardeds_m(final(out)@) == guardeds_m(old(out)@) + disj_flat(
            guardeds_m(items@),
        ),
    decreases items,
{
    broadcast use group_guarded_lemmas;

    let ghost s = guardeds_m(items@);
    let ghost out0 = guardeds_m(out@);
    let mut i: usize = 0;
    assert(s.take(0) =~= Seq::<GuardedM>::empty());
    assert(out0 + Seq::<GuardedM>::empty() =~= out0);
    while i < items.len()
        invariant
            i <= items.len(),
            !disj_absorbs(s.take(i as int)),
            guardeds_m(out@) == out0 + disj_flat(s.take(i as int)),
        decreases items.len() - i,
    {
        assert(s.take(i + 1).drop_last() =~= s.take(i as int));
        assert(s.take(i + 1).last() == items@[i as int]@);
        match &items[i] {
            Guarded::Disj(inner) => {
                if flatten_disj(inner, out) {
                    proof {
                        lemma_disj_absorbs_prefix(s, i + 1);
                    }
                    return true;
                }
                assert(guardeds_m(out@) =~= out0 + disj_flat(s.take(i + 1)));
            },
            x => {
                if is_gtrue(x) {
                    proof {
                        lemma_disj_absorbs_prefix(s, i + 1);
                    }
                    return true;
                }
                let c = x.copy();
                proof {
                    lemma_guardeds_m_push(out@, c);
                }
                out.push(c);
                assert(disj_flat(s.take(i + 1)) == disj_flat(s.take(i as int)) + seq![x@]);
                assert(guardeds_m(out@) =~= out0 + disj_flat(s.take(i + 1)));
            },
        }
        i += 1;
    }
    assert(s.take(items.len() as int) =~= s);
    false
}

/// Smart conjunction (see [`gconj_m`]).
pub fn gconj(items: Vec<Guarded>) -> (r: Guarded)
    ensures
        r@ == gconj_m(guardeds_m(items@)),
{
    broadcast use group_guarded_lemmas;

    let mut out: Vec<Guarded> = Vec::new();
    assert(guardeds_m(out@) =~= Seq::<GuardedM>::empty());
    if flatten_conj(&items, &mut out) {
        return gfalse();
    }
    assert(guardeds_m(out@) =~= conj_flat(guardeds_m(items@)));
    let mut deduped = nub_guardeds(&out);
    if deduped.len() == 1 {
        let ghost d = deduped@;
        let x = deduped.pop().unwrap();
        assert(x@ == guardeds_m(d)[0]);
        return x;
    }
    Guarded::Conj(deduped)
}

/// Smart disjunction (see [`gdisj_m`]).
pub fn gdisj(items: Vec<Guarded>) -> (r: Guarded)
    ensures
        r@ == gdisj_m(guardeds_m(items@)),
{
    broadcast use group_guarded_lemmas;

    let mut out: Vec<Guarded> = Vec::new();
    assert(guardeds_m(out@) =~= Seq::<GuardedM>::empty());
    if flatten_disj(&items, &mut out) {
        return gtrue();
    }
    assert(guardeds_m(out@) =~= disj_flat(guardeds_m(items@)));
    let mut deduped = nub_guardeds(&out);
    if deduped.len() == 1 {
        let ghost d = deduped@;
        let x = deduped.pop().unwrap();
        assert(x@ == guardeds_m(d)[0]);
        return x;
    }
    if deduped.len() == 0 {
        return gfalse();
    }
    Guarded::Disj(deduped)
}

/// Wrap each atom as a guarded formula.
fn atoms_to_guardeds(atoms: Vec<Atom>) -> (r: Vec<Guarded>)
    ensures
        guardeds_m(r@) == Seq::new(atoms@.len(), |i: int| GuardedM::Atom(atoms@[i]@)),
{
    broadcast use group_guarded_lemmas;

    let ghost a0 = atoms@;
    let mut atoms = atoms;
    let mut out: Vec<Guarded> = Vec::new();
    let mut i: usize = 0;
    while i < atoms.len()
        invariant
            i <= atoms.len(),
            atoms@ == a0,
            out@.len() == i,
            forall|j: int| 0 <= j < i ==> #[trigger] out@[j]@ == GuardedM::Atom(a0[j]@),
        decreases atoms.len() - i,
    {
        out.push(Guarded::Atom(atoms[i].copy()));
        i += 1;
    }
    assert(guardeds_m(out@) =~= Seq::new(a0.len(), |i: int| GuardedM::Atom(a0[i]@)));
    out
}

/// Smart existential (see [`gex_m`]).
pub fn gex(vars: Vec<Binder>, guards: Vec<Atom>, body: Guarded) -> (r: Guarded)
    ensures
        r@ == gex_m(binders_m(vars@), atoms_m(guards@), body@),
{
    broadcast use group_guarded_lemmas;

    if vars.len() == 0 {
        let ghost gs = guards@;
        let mut items = atoms_to_guardeds(guards);
        proof {
            lemma_guardeds_m_push(items@, body);
        }
        items.push(body);
        assert(guardeds_m(items@) =~= Seq::new(
            atoms_m(gs).len(),
            |i: int| GuardedM::Atom(atoms_m(gs)[i]),
        ).push(body@));
        return gconj(items);
    }
    if is_gfalse(&body) {
        return gfalse();
    }
    Guarded::GGuarded { qua: Quantifier::Ex, vars, guards, body: Box::new(body) }
}

/// Smart universal (see [`gall_m`]).
pub fn gall(vars: Vec<Binder>, guards: Vec<Atom>, body: Guarded) -> (r: Guarded)
    ensures
        r@ == gall_m(binders_m(vars@), atoms_m(guards@), body@),
{
    if guards.len() == 0 {
        return body;
    }
    if is_gtrue(&body) {
        return gtrue();
    }
    Guarded::GGuarded { qua: Quantifier::All, vars, guards, body: Box::new(body) }
}

/// The negation of an atom: `All []. a ==> false`.
pub fn gnot_atom(a: &Atom) -> (r: Guarded)
    ensures
        r@ == gnot_atom_m(a@),
{
    let mut guards: Vec<Atom> = Vec::new();
    guards.push(a.copy());
    let r = Guarded::GGuarded {
        qua: Quantifier::All,
        vars: Vec::new(),
        guards,
        body: Box::new(gfalse()),
    };
    assert(binders_m(Seq::<Binder>::empty()) =~= Seq::<BinderM>::empty());
    assert(atoms_m(guards@) =~= seq![a@]);
    r
}

/// The negations of a list of guarded formulas.
#[verifier::loop_isolation(false)]
fn gnot_list(xs: &Vec<Guarded>) -> (r: Vec<Guarded>)
    ensures
        guardeds_m(r@) == gnot_seq_m(guardeds_m(xs@)),
    decreases xs,
{
    broadcast use group_guarded_lemmas;

    let mut out: Vec<Guarded> = Vec::new();
    let mut i: usize = 0;
    while i < xs.len()
        invariant
            i <= xs.len(),
            out@.len() == i,
            forall|j: int| 0 <= j < i ==> #[trigger] out@[j]@ == gnot_m(xs@[j]@),
        decreases xs.len() - i,
    {
        out.push(gnot(&xs[i]));
        i += 1;
    }
    let ghost s = guardeds_m(xs@);
    assert(guardeds_m(out@) =~= gnot_seq_m(s));
    out
}

/// Structural negation (see [`gnot_m`]): a conjunction becomes the
/// disjunction of the negations and back, a universal becomes an
/// existential over the same guards with the body negated and back.
pub fn gnot(g: &Guarded) -> (r: Guarded)
    ensures
        r@ == gnot_m(g@),
    decreases g,
{
    match g {
        Guarded::Atom(a) => {
            gnot_atom(a)
        },
        Guarded::Disj(xs) => gconj(gnot_list(xs)),
        Guarded::Conj(xs) => gdisj(gnot_list(xs)),
        Guarded::GGuarded { qua, vars, guards, body } => {
            let nb = gnot(body);
            match qua {
                Quantifier::All => gex(copy_binders(vars), copy_atoms(guards), nb),
                Quantifier::Ex => gall(copy_binders(vars), copy_atoms(guards), nb),
            }
        },
    }
}

// ---------------------------------------------------------------------------
// Induction
// ---------------------------------------------------------------------------

/// Can the constraint solver's formula insertion decompose this formula?
pub open spec fn reducible_m(g: GuardedM) -> bool {
    match g {
        GuardedM::Atom(_) => true,
        GuardedM::Conj(_) => true,
        GuardedM::Disj(_) => false,
        GuardedM::GGuarded { qua: Quantifier::Ex, .. } => true,
        GuardedM::GGuarded { qua: Quantifier::All, vars, guards, body } => {
            &&& vars.len() == 0
            &&& guards.len() == 1
            &&& *body == gfalse_m()
            &&& (guards[0] is Less || guards[0] is Subterm || guards[0] is Last)
        },
    }
}

/// `true` iff the guarded formula can be reduced by the constraint solver's
/// formula insertion (an atom, a conjunction, an existential, or the
/// negation of a `<`, subterm or `last` atom).
pub fn reducible_formula(g: &Guarded) -> (r: bool)
    ensures
        r == reducible_m(g@),
{
    match g {
        Guarded::Atom(_) => true,
        Guarded::Conj(_) => true,
        Guarded::Disj(_) => false,
        Guarded::GGuarded { qua: Quantifier::Ex, .. } => true,
        Guarded::GGuarded { qua: Quantifier::All, vars, guards, body } => {
            if vars.len() == 0 && guards.len() == 1 && is_gfalse(body) {
                assert(atoms_m(guards@)[0] == guards@[0]@);
                matches!(&guards[0], Atom::Less(..) | Atom::Subterm(..) | Atom::Last(..))
            } else {
                false
            }
        },
    }
}

/// Is some atom of the list an action atom?
pub open spec fn has_action_atom(atoms: Seq<AtomM>) -> bool {
    exists|i: int| 0 <= i < atoms.len() && #[trigger] atoms[i] is Action
}

/// Does the formula contain an action atom anywhere (bare or as a guard)?
pub open spec fn contains_action_m(g: GuardedM) -> bool
    decreases g,
{
    match g {
        GuardedM::Atom(a) => a is Action,
        GuardedM::Disj(xs) => contains_action_seq_m(xs),
        GuardedM::Conj(xs) => contains_action_seq_m(xs),
        GuardedM::GGuarded { guards, body, .. } => has_action_atom(guards) || contains_action_m(*body),
    }
}

/// Is some atom of the list an action atom (see [`has_action_atom`])?
fn any_action_atom(atoms: &Vec<Atom>) -> (r: bool)
    ensures
        r == has_action_atom(atoms_m(atoms@)),
{
    let ghost s = atoms_m(atoms@);
    let mut i: usize = 0;
    while i < atoms.len()
        invariant
            i <= atoms.len(),
            s == atoms_m(atoms@),
            forall|j: int| 0 <= j < i ==> !(#[trigger] s[j] is Action),
        decreases atoms.len() - i,
    {
        assert(s[i as int] == atoms@[i as int]@);
        if matches!(&atoms[i], Atom::Action(..)) {
            return true;
        }
        i += 1;
    }
    false
}

pub open spec fn contains_action_seq_m(xs: Seq<GuardedM>) -> bool
    decreases xs,
{
    if xs.len() == 0 {
        false
    } else {
        contains_action_seq_m(xs.drop_last()) || contains_action_m(xs.last())
    }
}

proof fn lemma_contains_action_prefix(s: Seq<GuardedM>, k: int)
    requires
        0 <= k <= s.len(),
        contains_action_seq_m(s.take(k)),
    ensures
        contains_action_seq_m(s),
    decreases s.len(),
{
    if k < s.len() {
        assert(s.drop_last().take(k) =~= s.take(k));
        lemma_contains_action_prefix(s.drop_last(), k);
    } else {
        assert(s.take(k) =~= s);
    }
}

/// Does the formula contain at least one action atom, bare or as a guard?
#[verifier::loop_isolation(false)]
pub fn contains_action(g: &Guarded) -> (r: bool)
    ensures
        r == contains_action_m(g@),
    decreases g,
{
    broadcast use group_guarded_lemmas;

    match g {
        Guarded::Atom(a) => matches!(a, Atom::Action(..)),
        Guarded::Disj(xs) | Guarded::Conj(xs) => {
            let ghost s = guardeds_m(xs@);
            let mut i: usize = 0;
            assert(s.take(0) =~= Seq::<GuardedM>::empty());
            while i < xs.len()
                invariant
                    i <= xs.len(),
                    s == guardeds_m(xs@),
                    !contains_action_seq_m(s.take(i as int)),
                decreases xs.len() - i,
            {
                assert(s.take(i + 1).drop_last() =~= s.take(i as int));
                if contains_action(&xs[i]) {
                    proof {
                        lemma_contains_action_prefix(s, i + 1);
                    }
                    return true;
                }
                i += 1;
            }
            assert(s.take(xs.len() as int) =~= s);
            false
        },
        Guarded::GGuarded { guards, body, .. } => any_action_atom(guards) || contains_action(body),
    }
}

/// Whether the formula holds on the empty trace; `None` when an atom stands
/// outside the scope of every quantifier.  Every disjunct and conjunct is
/// evaluated, so an error anywhere is an error.
pub open spec fn ste_m(g: GuardedM) -> Option<bool>
    decreases g,
{
    match g {
        GuardedM::Atom(_) => None,
        GuardedM::Disj(xs) => match ste_seq_m(xs) {
            Some((any, _all)) => Some(any),
            None => None,
        },
        GuardedM::Conj(xs) => match ste_seq_m(xs) {
            Some((_any, all)) => Some(all),
            None => None,
        },
        GuardedM::GGuarded { qua, .. } => Some(qua == Quantifier::All),
    }
}

/// For a sequence: `None` on any error, else whether any and whether all
/// hold on the empty trace.
pub open spec fn ste_seq_m(xs: Seq<GuardedM>) -> Option<(bool, bool)>
    decreases xs,
{
    if xs.len() == 0 {
        Some((false, true))
    } else {
        match (ste_seq_m(xs.drop_last()), ste_m(xs.last())) {
            (Some((any, all)), Some(b)) => Some((any || b, all && b)),
            _ => None,
        }
    }
}

proof fn lemma_ste_seq_prefix(s: Seq<GuardedM>, k: int)
    requires
        0 <= k <= s.len(),
        ste_seq_m(s.take(k)) is None,
    ensures
        ste_seq_m(s) is None,
    decreases s.len(),
{
    if k < s.len() {
        assert(s.drop_last().take(k) =~= s.take(k));
        lemma_ste_seq_prefix(s.drop_last(), k);
    } else {
        assert(s.take(k) =~= s);
    }
}

/// Does the formula hold under the empty trace (no actions)?  A universal
/// holds and an existential does not; an atom outside the scope of a
/// quantifier is an error.
#[verifier::loop_isolation(false)]
pub fn satisfied_by_empty_trace(g: &Guarded) -> (r: Result<bool, String>)
    ensures
        match r {
            Ok(b) => ste_m(g@) == Some(b),
            Err(e) => ste_m(g@) is None && e@ == "atom outside the scope of a quantifier"@,
        },
    decreases g,
{
    broadcast use group_guarded_lemmas;

    match g {
        Guarded::Atom(_) => Err("atom outside the scope of a quantifier".to_string()),
        Guarded::Disj(xs) | Guarded::Conj(xs) => {
            let ghost s = guardeds_m(xs@);
            let mut any = false;
            let mut all = true;
            let mut i: usize = 0;
            assert(s.take(0) =~= Seq::<GuardedM>::empty());
            while i < xs.len()
                invariant
                    i <= xs.len(),
                    s == guardeds_m(xs@),
                    ste_seq_m(s.take(i as int)) == Some((any, all)),
                decreases xs.len() - i,
            {
                assert(s.take(i + 1).drop_last() =~= s.take(i as int));
                match satisfied_by_empty_trace(&xs[i]) {
                    Ok(b) => {
                        any = any || b;
                        all = all && b;
                    },
                    Err(e) => {
                        proof {
                            lemma_ste_seq_prefix(s, i + 1);
                        }
                        return Err(e);
                    },
                }
                i += 1;
            }
            assert(s.take(xs.len() as int) =~= s);
            if matches!(g, Guarded::Disj(_)) {
                Ok(any)
            } else {
                Ok(all)
            }
        },
        Guarded::GGuarded { qua, .. } => Ok(matches!(qua, Quantifier::All)),
    }
}

/// `last(#j)` for every node-sorted binder, the binders numbered from the
/// innermost (`j = 0`) outwards: the first `k` of them.
pub open spec fn last_atoms_upto(vars: Seq<BinderM>, k: int) -> Seq<GuardedM>
    decreases k,
{
    if k <= 0 {
        Seq::empty()
    } else {
        last_atoms_upto(vars, k - 1) + if vars[vars.len() - k].sort == LSort::Node {
            seq![GuardedM::Atom(AtomM::Last(TermM::Var(BVarM::Bound((k - 1) as u64))))]
        } else {
            Seq::empty()
        }
    }
}

/// `last(#j)` for every node-sorted binder, innermost first.
pub open spec fn last_atoms_m(vars: Seq<BinderM>) -> Seq<GuardedM> {
    last_atoms_upto(vars, vars.len() as int)
}

pub open spec fn has_last_guard(guards: Seq<AtomM>) -> bool {
    exists|i: int| 0 <= i < guards.len() && (#[trigger] guards[i]) is Last
}

/// The induction hypothesis of a formula; `None` when the formula is not
/// free of `last` atoms.
pub open spec fn tih_m(g: GuardedM) -> Option<GuardedM>
    decreases g,
{
    match g {
        GuardedM::GGuarded { qua, vars, guards, body } => {
            if has_last_guard(guards) {
                None
            } else {
                match tih_m(*body) {
                    None => None,
                    Some(b2) => if qua == Quantifier::All {
                        Some(
                            gex_m(vars, guards, gconj_m(gnot_seq_m(last_atoms_m(vars)).push(b2))),
                        )
                    } else {
                        Some(gall_m(vars, guards, gdisj_m(last_atoms_m(vars).push(b2))))
                    },
                }
            }
        },
        GuardedM::Atom(AtomM::Less(i, j)) => Some(
            GuardedM::Disj(
                seq![GuardedM::Atom(AtomM::EqE(i, j)), GuardedM::Atom(AtomM::Less(j, i))],
            ),
        ),
        GuardedM::Atom(AtomM::Last(_)) => None,
        GuardedM::Atom(a) => Some(gnot_atom_m(a)),
        GuardedM::Disj(xs) => match tih_seq_m(xs) {
            Some(ys) => Some(gconj_m(ys)),
            None => None,
        },
        GuardedM::Conj(xs) => match tih_seq_m(xs) {
            Some(ys) => Some(gdisj_m(ys)),
            None => None,
        },
    }
}

pub open spec fn tih_seq_m(xs: Seq<GuardedM>) -> Option<Seq<GuardedM>>
    decreases xs,
{
    if xs.len() == 0 {
        Some(Seq::empty())
    } else {
        match (tih_seq_m(xs.drop_last()), tih_m(xs.last())) {
            (Some(ys), Some(y)) => Some(ys.push(y)),
            _ => None,
        }
    }
}

proof fn lemma_tih_seq_prefix(s: Seq<GuardedM>, k: int)
    requires
        0 <= k <= s.len(),
        tih_seq_m(s.take(k)) is None,
    ensures
        tih_seq_m(s) is None,
    decreases s.len(),
{
    if k < s.len() {
        assert(s.drop_last().take(k) =~= s.take(k));
        lemma_tih_seq_prefix(s.drop_last(), k);
    } else {
        assert(s.take(k) =~= s);
    }
}

/// `last(#j)` for the node-sorted binders, innermost first.
fn last_atoms(vars: &Vec<Binder>) -> (r: Vec<Guarded>)
    ensures
        guardeds_m(r@) == last_atoms_m(binders_m(vars@)),
{
    broadcast use group_guarded_lemmas;

    let ghost vs = binders_m(vars@);
    let mut out: Vec<Guarded> = Vec::new();
    let mut k: usize = 0;
    assert(guardeds_m(out@) =~= Seq::<GuardedM>::empty());
    while k < vars.len()
        invariant
            k <= vars.len(),
            vs == binders_m(vars@),
            guardeds_m(out@) == last_atoms_upto(vs, k as int),
        decreases vars.len() - k,
    {
        let b = &vars[vars.len() - 1 - k];
        if b.sort == LSort::Node {
            let t = Term::Var(BVar::Bound(k as u64));
            let a = Guarded::Atom(Atom::Last(t));
            proof {
                lemma_guardeds_m_push(out@, a);
            }
            out.push(a);
            assert(guardeds_m(out@) =~= last_atoms_upto(vs, k + 1));
        } else {
            assert(guardeds_m(out@) =~= last_atoms_upto(vs, k + 1));
        }
        k += 1;
    }
    out
}

/// The induction hypotheses of a list; the first error stops the walk.
#[verifier::loop_isolation(false)]
fn tih_list(xs: &Vec<Guarded>) -> (r: Result<Vec<Guarded>, String>)
    ensures
        match r {
            Ok(ys) => tih_seq_m(guardeds_m(xs@)) == Some(guardeds_m(ys@)),
            Err(e) => tih_seq_m(guardeds_m(xs@)) is None && e@ == "formula not last-free"@,
        },
    decreases xs,
{
    broadcast use group_guarded_lemmas;

    let ghost s = guardeds_m(xs@);
    let mut out: Vec<Guarded> = Vec::new();
    let mut i: usize = 0;
    assert(s.take(0) =~= Seq::<GuardedM>::empty());
    assert(guardeds_m(out@) =~= Seq::<GuardedM>::empty());
    while i < xs.len()
        invariant
            i <= xs.len(),
            tih_seq_m(s.take(i as int)) == Some(guardeds_m(out@)),
        decreases xs.len() - i,
    {
        assert(s.take(i + 1).drop_last() =~= s.take(i as int));
        match to_induction_hypothesis(&xs[i]) {
            Ok(y) => {
                proof {
                    lemma_guardeds_m_push(out@, y);
                }
                out.push(y);
            },
            Err(e) => {
                proof {
                    lemma_tih_seq_prefix(s, i + 1);
                }
                return Err(e);
            },
        }
        i += 1;
    }
    assert(s.take(xs.len() as int) =~= s);
    Ok(out)
}

/// The induction-hypothesis form of a doubly guarded formula: quantifiers
/// are dualised with `last(#i)` added for every node-sorted binder,
/// `i < j` becomes `i = j | j < i` and every other atom is negated.  A
/// `last` atom anywhere is the error `formula not last-free`.
#[verifier::loop_isolation(false)]
pub fn to_induction_hypothesis(g: &Guarded) -> (r: Result<Guarded, String>)
    ensures
        match r {
            Ok(h) => tih_m(g@) == Some(h@),
            Err(e) => tih_m(g@) is None && e@ == "formula not last-free"@,
        },
    decreases g,
{
    broadcast use group_guarded_lemmas;

    match g {
        Guarded::GGuarded { qua, vars, guards, body } => {
            let mut i: usize = 0;
            while i < guards.len()
                invariant
                    i <= guards.len(),
                    forall|j: int| 0 <= j < i ==> !(#[trigger] atoms_m(guards@)[j] is Last),
                decreases guards.len() - i,
            {
                if guards[i].is_last() {
                    assert(atoms_m(guards@)[i as int] is Last);
                    return Err("formula not last-free".to_string());
                }
                i += 1;
            }
            assert(!has_last_guard(atoms_m(guards@)));
            let body2 = match to_induction_hypothesis(body) {
                Ok(b) => b,
                Err(e) => {
                    return Err(e);
                },
            };
            let lasts = last_atoms(vars);
            match qua {
                Quantifier::All => {
                    let mut items = gnot_list(&lasts);
                    proof {
                        lemma_guardeds_m_push(items@, body2);
                    }
                    items.push(body2);
                    Ok(gex(copy_binders(vars), copy_atoms(guards), gconj(items)))
                },
                Quantifier::Ex => {
                    let mut items = lasts;
                    proof {
                        lemma_guardeds_m_push(items@, body2);
                    }
                    items.push(body2);
                    Ok(gall(copy_binders(vars), copy_atoms(guards), gdisj(items)))
                },
            }
        },
        Guarded::Atom(Atom::Less(i, j)) => {
            let mut v: Vec<Guarded> = Vec::new();
            v.push(Guarded::Atom(Atom::EqE(i.copy(), j.copy())));
            v.push(Guarded::Atom(Atom::Less(j.copy(), i.copy())));
            let r = Guarded::Disj(v);
            assert(guardeds_m(v@) =~= seq![
                GuardedM::Atom(AtomM::EqE(i@, j@)),
                GuardedM::Atom(AtomM::Less(j@, i@)),
            ]);
            Ok(r)
        },
        Guarded::Atom(Atom::Last(_)) => Err("formula not last-free".to_string()),
        Guarded::Atom(a) => Ok(gnot_atom(a)),
        Guarded::Disj(xs) => match tih_list(xs) {
            Ok(ys) => Ok(gconj(ys)),
            Err(e) => Err(e),
        },
        Guarded::Conj(xs) => match tih_list(xs) {
            Ok(ys) => Ok(gdisj(ys)),
            Err(e) => Err(e),
        },
    }
}

// ---------------------------------------------------------------------------
// Free variables
// ---------------------------------------------------------------------------

/// The free variables of a guarded formula in tree order (a quantifier's
/// guards before its body), duplicates kept.
pub open spec fn guarded_frees(g: GuardedM) -> Seq<LVarM>
    decreases g,
{
    match g {
        GuardedM::Atom(a) => atom_frees(a),
        GuardedM::Disj(xs) => guardeds_frees(xs),
        GuardedM::Conj(xs) => guardeds_frees(xs),
        GuardedM::GGuarded { guards, body, .. } => atoms_frees(guards) + guarded_frees(*body),
    }
}

pub open spec fn guardeds_frees(xs: Seq<GuardedM>) -> Seq<LVarM>
    decreases xs,
{
    if xs.len() == 0 {
        Seq::empty()
    } else {
        guardeds_frees(xs.drop_last()) + guarded_frees(xs.last())
    }
}

/// Push the free variables of `g` onto `out`, in tree order.
#[verifier::loop_isolation(false)]
pub fn collect_frees(g: &Guarded, out: &mut Vec<LVar>)
    ensures
        lvars_m(final(out)@) == lvars_m(old(out)@) + guarded_frees(g@),
    decreases g,
{
    broadcast use group_guarded_lemmas;

    let ghost out0 = lvars_m(out@);
    match g {
        Guarded::Atom(a) => collect_atom_frees(a, out),
        Guarded::Disj(xs) | Guarded::Conj(xs) => {
            let ghost s = guardeds_m(xs@);
            let mut i: usize = 0;
            assert(s.take(0) =~= Seq::<GuardedM>::empty());
            assert(out0 =~= out0 + Seq::<LVarM>::empty());
            while i < xs.len()
                invariant
                    i <= xs.len(),
                    s == guardeds_m(xs@),
                    lvars_m(out@) == out0 + guardeds_frees(s.take(i as int)),
                decreases xs.len() - i,
            {
                assert(s.take(i + 1).drop_last() =~= s.take(i as int));
                collect_frees(&xs[i], out);
                assert(lvars_m(out@) =~= out0 + guardeds_frees(s.take(i + 1)));
                i += 1;
            }
            assert(s.take(xs.len() as int) =~= s);
        },
        Guarded::GGuarded { guards, body, .. } => {
            collect_atoms_frees(guards, out);
            collect_frees(body, out);
            assert(lvars_m(out@) =~= out0 + (atoms_frees(atoms_m(guards@)) + guarded_frees(
                body@,
            )));
        },
    }
}

/// The free variables of `g` in tree order, duplicates kept.
pub fn frees(g: &Guarded) -> (r: Vec<LVar>)
    ensures
        lvars_m(r@) == guarded_frees(g@),
{
    let mut out: Vec<LVar> = Vec::new();
    assert(lvars_m(out@) =~= Seq::<LVarM>::empty());
    collect_frees(g, &mut out);
    assert(lvars_m(out@) =~= guarded_frees(g@));
    out
}

/// Is `g` closed (no free variables)?
pub fn is_closed(g: &Guarded) -> (r: bool)
    ensures
        r == (guarded_frees(g@).len() == 0),
{
    let v = frees(g);
    v.len() == 0
}

/// The largest index among the variables, 0 when there are none.
pub open spec fn max_idx(s: Seq<LVarM>) -> u64
    decreases s.len(),
{
    if s.len() == 0 {
        0
    } else {
        let m = max_idx(s.drop_last());
        if s.last().idx > m {
            s.last().idx
        } else {
            m
        }
    }
}

/// The largest index of a free variable of `g` (0 when it has none): an
/// index above it is fresh for `g`.
pub fn max_var_idx(g: &Guarded) -> (r: u64)
    ensures
        r == max_idx(guarded_frees(g@)),
{
    let v = frees(g);
    let ghost s = lvars_m(v@);
    let mut m: u64 = 0;
    let mut i: usize = 0;
    assert(s.take(0) =~= Seq::<LVarM>::empty());
    while i < v.len()
        invariant
            i <= v.len(),
            s == lvars_m(v@),
            m == max_idx(s.take(i as int)),
        decreases v.len() - i,
    {
        assert(s.take(i + 1).drop_last() =~= s.take(i as int));
        if v[i].idx > m {
            m = v[i].idx;
        }
        i += 1;
    }
    assert(s.take(v.len() as int) =~= s);
    assert(s =~= guarded_frees(g@));
    m
}

/// No existential quantifier anywhere.
pub open spec fn no_existential(g: GuardedM) -> bool
    decreases g,
{
    match g {
        GuardedM::Atom(_) => true,
        GuardedM::GGuarded { qua: Quantifier::Ex, .. } => false,
        GuardedM::GGuarded { qua: Quantifier::All, body, .. } => no_existential(*body),
        GuardedM::Disj(xs) => no_existential_seq(xs),
        GuardedM::Conj(xs) => no_existential_seq(xs),
    }
}

pub open spec fn no_existential_seq(xs: Seq<GuardedM>) -> bool
    decreases xs,
{
    if xs.len() == 0 {
        true
    } else {
        no_existential_seq(xs.drop_last()) && no_existential(xs.last())
    }
}

proof fn lemma_no_existential_prefix(s: Seq<GuardedM>, k: int)
    requires
        0 <= k <= s.len(),
        !no_existential_seq(s.take(k)),
    ensures
        !no_existential_seq(s),
    decreases s.len(),
{
    if k < s.len() {
        assert(s.drop_last().take(k) =~= s.take(k));
        lemma_no_existential_prefix(s.drop_last(), k);
    } else {
        assert(s.take(k) =~= s);
    }
}

#[verifier::loop_isolation(false)]
fn has_no_existential(g: &Guarded) -> (r: bool)
    ensures
        r == no_existential(g@),
    decreases g,
{
    broadcast use group_guarded_lemmas;

    match g {
        Guarded::Atom(_) => true,
        Guarded::GGuarded { qua: Quantifier::Ex, .. } => false,
        Guarded::GGuarded { qua: Quantifier::All, body, .. } => has_no_existential(body),
        Guarded::Disj(xs) | Guarded::Conj(xs) => {
            let ghost s = guardeds_m(xs@);
            let mut i: usize = 0;
            assert(s.take(0) =~= Seq::<GuardedM>::empty());
            while i < xs.len()
                invariant
                    i <= xs.len(),
                    s == guardeds_m(xs@),
                    no_existential_seq(s.take(i as int)),
                decreases xs.len() - i,
            {
                assert(s.take(i + 1).drop_last() =~= s.take(i as int));
                if !has_no_existential(&xs[i]) {
                    proof {
                        lemma_no_existential_prefix(s, i + 1);
                    }
                    return false;
                }
                i += 1;
            }
            assert(s.take(xs.len() as int) =~= s);
            true
        },
    }
}

/// A safety formula: closed and free of existential quantifiers.
pub fn is_safety_formula(g: &Guarded) -> (r: bool)
    ensures
        r == (guarded_frees(g@).len() == 0 && no_existential(g@)),
{
    is_closed(g) && has_no_existential(g)
}

/// The model of [`ginduct`]: the base and step case, or the error.
pub open spec fn ginduct_m(g: GuardedM) -> Result<(GuardedM, GuardedM), Seq<char>> {
    if guarded_frees(g).len() != 0 {
        Err("formula not closed"@)
    } else if !contains_action_m(g) {
        Err("formula contains no action atom"@)
    } else {
        match ste_m(g) {
            None => Err("atom outside the scope of a quantifier"@),
            Some(base) => match tih_m(g) {
                None => Err("formula not last-free"@),
                Some(ih) => Ok((gtf_m(base), gconj_m(seq![g, ih]))),
            },
        }
    }
}

/// Prove `g` by induction over the trace: the base case is whether the
/// empty trace satisfies `g`; the step case is `g` conjoined with its
/// induction hypothesis.
pub fn ginduct(g: &Guarded) -> (r: Result<(Guarded, Guarded), String>)
    ensures
        match r {
            Ok((b, s)) => ginduct_m(g@) == Ok::<(GuardedM, GuardedM), Seq<char>>((b@, s@)),
            Err(e) => ginduct_m(g@) == Err::<(GuardedM, GuardedM), Seq<char>>(e@),
        },
{
    broadcast use group_guarded_lemmas;

    proof {
        reveal_strlit("formula not closed");
        reveal_strlit("formula contains no action atom");
    }
    if !is_closed(g) {
        return Err("formula not closed".to_string());
    }
    if !contains_action(g) {
        return Err("formula contains no action atom".to_string());
    }
    let base = match satisfied_by_empty_trace(g) {
        Ok(b) => b,
        Err(e) => {
            return Err(e);
        },
    };
    let ih = match to_induction_hypothesis(g) {
        Ok(h) => h,
        Err(e) => {
            return Err(e);
        },
    };
    let mut items: Vec<Guarded> = Vec::new();
    items.push(g.copy());
    items.push(ih);
    assert(guardeds_m(items@) =~= seq![g@, guardeds_m(items@)[1]]);
    let step = gconj(items);
    Ok((gtf(base), step))
}

// ---------------------------------------------------------------------------
// Depth-tracking atom rewrites
// ---------------------------------------------------------------------------

/// The largest number of binders on any path from the root to an atom.
pub open spec fn gdepth(g: GuardedM) -> nat
    decreases g,
{
    match g {
        GuardedM::Atom(_) => 0,
        GuardedM::Disj(xs) => gdepth_seq(xs),
        GuardedM::Conj(xs) => gdepth_seq(xs),
        GuardedM::GGuarded { vars, body, .. } => vars.len() + gdepth(*body),
    }
}

pub open spec fn gdepth_seq(xs: Seq<GuardedM>) -> nat
    decreases xs,
{
    if xs.len() == 0 {
        0
    } else {
        let a = gdepth_seq(xs.drop_last());
        let b = gdepth(xs.last());
        if a > b {
            a
        } else {
            b
        }
    }
}

proof fn lemma_gdepth_seq_elem(s: Seq<GuardedM>, i: int)
    requires
        0 <= i < s.len(),
    ensures
        gdepth(s[i]) <= gdepth_seq(s),
    decreases s.len(),
{
    if i < s.len() - 1 {
        lemma_gdepth_seq_elem(s.drop_last(), i);
    }
}

/// A sequence whose elements are all at most `b` deep is at most `b` deep.
pub proof fn lemma_gdepth_seq_bound(s: Seq<GuardedM>, b: nat)
    requires
        forall|i: int| 0 <= i < s.len() ==> gdepth(#[trigger] s[i]) <= b,
    ensures
        gdepth_seq(s) <= b,
    decreases s.len(),
{
    if s.len() > 0 {
        lemma_gdepth_seq_bound(s.drop_last(), b);
    }
}

/// Every element of the sequence without duplicates is one of the sequence.
proof fn lemma_nub_contains<A>(s: Seq<A>, x: A)
    requires
        nub(s).contains(x),
    ensures
        s.contains(x),
    decreases s.len(),
{
    if s.len() > 0 {
        let r = nub(s.drop_last());
        if x != s.last() {
            if !r.contains(s.last()) {
                let j = choose|j: int| 0 <= j < r.push(s.last()).len() && r.push(s.last())[j] == x;
                assert(r.contains(x)) by {
                    assert(r[j] == x);
                }
            }
            lemma_nub_contains(s.drop_last(), x);
            let k = choose|k: int| 0 <= k < s.drop_last().len() && s.drop_last()[k] == x;
            assert(s[k] == x);
        } else {
            assert(s[s.len() - 1] == x);
        }
    }
}

proof fn lemma_conj_flat_depth(s: Seq<GuardedM>)
    ensures
        forall|i: int| 0 <= i < conj_flat(s).len() ==> gdepth(#[trigger] conj_flat(s)[i]) <= gdepth_seq(s),
    decreases s,
{
    if s.len() > 0 {
        let p = s.drop_last();
        lemma_conj_flat_depth(p);
        let tail = match s.last() {
            GuardedM::Conj(inner) => conj_flat(inner),
            x => seq![x],
        };
        match s.last() {
            GuardedM::Conj(inner) => lemma_conj_flat_depth(inner),
            _ => {},
        }
        assert(conj_flat(s) == conj_flat(p) + tail);
        assert(gdepth_seq(p) <= gdepth_seq(s));
        assert(gdepth(s.last()) <= gdepth_seq(s));
        assert forall|i: int| 0 <= i < conj_flat(s).len() implies gdepth(#[trigger] conj_flat(s)[i])
            <= gdepth_seq(s) by {
            if i >= conj_flat(p).len() {
                let j = i - conj_flat(p).len();
                assert(conj_flat(s)[i] == tail[j]);
                match s.last() {
                    GuardedM::Conj(inner) => {
                        assert(gdepth(tail[j]) <= gdepth_seq(inner));
                    },
                    _ => {},
                }
            } else {
                assert(conj_flat(s)[i] == conj_flat(p)[i]);
            }
        }
    }
}

proof fn lemma_disj_flat_depth(s: Seq<GuardedM>)
    ensures
        forall|i: int| 0 <= i < disj_flat(s).len() ==> gdepth(#[trigger] disj_flat(s)[i]) <= gdepth_seq(s),
    decreases s,
{
    if s.len() > 0 {
        let p = s.drop_last();
        lemma_disj_flat_depth(p);
        let tail = match s.last() {
            GuardedM::Disj(inner) => disj_flat(inner),
            x => seq![x],
        };
        match s.last() {
            GuardedM::Disj(inner) => lemma_disj_flat_depth(inner),
            _ => {},
        }
        assert(disj_flat(s) == disj_flat(p) + tail);
        assert(gdepth_seq(p) <= gdepth_seq(s));
        assert(gdepth(s.last()) <= gdepth_seq(s));
        assert forall|i: int| 0 <= i < disj_flat(s).len() implies gdepth(#[trigger] disj_flat(s)[i])
            <= gdepth_seq(s) by {
            if i >= disj_flat(p).len() {
                let j = i - disj_flat(p).len();
                assert(disj_flat(s)[i] == tail[j]);
                match s.last() {
                    GuardedM::Disj(inner) => {
                        assert(gdepth(tail[j]) <= gdepth_seq(inner));
                    },
                    _ => {},
                }
            } else {
                assert(disj_flat(s)[i] == disj_flat(p)[i]);
            }
        }
    }
}

proof fn lemma_nub_depth(f: Seq<GuardedM>, b: nat)
    requires
        forall|i: int| 0 <= i < f.len() ==> gdepth(#[trigger] f[i]) <= b,
    ensures
        gdepth_seq(nub(f)) <= b,
        forall|i: int| 0 <= i < nub(f).len() ==> gdepth(#[trigger] nub(f)[i]) <= b,
{
    assert forall|i: int| 0 <= i < nub(f).len() implies gdepth(#[trigger] nub(f)[i]) <= b by {
        assert(nub(f).contains(nub(f)[i]));
        lemma_nub_contains(f, nub(f)[i]);
    }
    lemma_gdepth_seq_bound(nub(f), b);
}

/// The smart conjunction is no deeper than its conjuncts.
pub proof fn lemma_gconj_depth(items: Seq<GuardedM>)
    ensures
        gdepth(gconj_m(items)) <= gdepth_seq(items),
{
    if !conj_absorbs(items) {
        lemma_conj_flat_depth(items);
        let d = nub(conj_flat(items));
        lemma_nub_depth(conj_flat(items), gdepth_seq(items));
        if d.len() == 1 {
            assert(gconj_m(items) == d[0]);
            assert(gdepth(d[0]) <= gdepth_seq(items));
        } else {
            assert(gconj_m(items) == GuardedM::Conj(d));
            assert(gdepth(GuardedM::Conj(d)) == gdepth_seq(d));
        }
    } else {
        assert(gconj_m(items) == gfalse_m());
        assert(gdepth_seq(Seq::<GuardedM>::empty()) == 0);
    }
}

/// The smart disjunction is no deeper than its disjuncts.
pub proof fn lemma_gdisj_depth(items: Seq<GuardedM>)
    ensures
        gdepth(gdisj_m(items)) <= gdepth_seq(items),
{
    if !disj_absorbs(items) {
        let f = disj_flat(items);
        lemma_disj_flat_depth(items);
        lemma_nub_depth(f, gdepth_seq(items));
        if nub(f).len() == 1 {
            assert(gdisj_m(items) == nub(f)[0]);
            assert(gdepth(nub(f)[0]) <= gdepth_seq(items));
        } else if nub(f).len() > 0 {
            assert(gdisj_m(items) == GuardedM::Disj(nub(f)));
            assert(gdepth(GuardedM::Disj(nub(f))) == gdepth_seq(nub(f)));
        } else {
            assert(gdisj_m(items) == gfalse_m());
            assert(gdepth_seq(Seq::<GuardedM>::empty()) == 0);
        }
    } else {
        assert(gdisj_m(items) == gtrue_m());
        assert(gdepth_seq(Seq::<GuardedM>::empty()) == 0);
    }
}

/// The smart quantifiers add at most their binders to the body's depth.
pub proof fn lemma_gquant_depth(vars: Seq<BinderM>, guards: Seq<AtomM>, body: GuardedM)
    ensures
        gdepth(gex_m(vars, guards, body)) <= vars.len() + gdepth(body),
        gdepth(gall_m(vars, guards, body)) <= vars.len() + gdepth(body),
{
    if vars.len() == 0 {
        let items = Seq::new(guards.len(), |i: int| GuardedM::Atom(guards[i])).push(body);
        lemma_gdepth_seq_bound(items, gdepth(body));
        lemma_gconj_depth(items);
    }
}

/// Rewriting atoms keeps the depth.
pub proof fn lemma_map_gatoms_depth(g: GuardedM, d: int, f: spec_fn(int, AtomM) -> AtomM)
    ensures
        gdepth(map_gatoms(g, d, f)) == gdepth(g),
    decreases g, 1nat,
{
    match g {
        GuardedM::Disj(xs) => lemma_map_gatoms_seq_depth(xs, d, f),
        GuardedM::Conj(xs) => lemma_map_gatoms_seq_depth(xs, d, f),
        GuardedM::GGuarded { vars, body, .. } => lemma_map_gatoms_depth(*body, d + vars.len(), f),
        _ => {},
    }
}

proof fn lemma_map_gatoms_seq_depth(xs: Seq<GuardedM>, d: int, f: spec_fn(int, AtomM) -> AtomM)
    ensures
        gdepth_seq(map_gatoms_seq(xs, d, f)) == gdepth_seq(xs),
    decreases xs, 0nat,
{
    if xs.len() > 0 {
        lemma_map_gatoms_seq_depth(xs.drop_last(), d, f);
        lemma_map_gatoms_depth(xs.last(), d, f);
        assert(map_gatoms_seq(xs, d, f).drop_last() =~= map_gatoms_seq(xs.drop_last(), d, f));
    }
}

/// Closing binds the variables with at most their number of binders.
pub proof fn lemma_close_guarded_depth(qua: Quantifier, xs: Seq<LVarM>, atoms: Seq<AtomM>, body: GuardedM)
    ensures
        gdepth(close_guarded_m(qua, xs, atoms, body)) <= xs.len() + gdepth(body),
{
    let s = close_subst_m(xs);
    lemma_map_gatoms_depth(body, 0, |d: int, a: AtomM| subst_free_atom_m(s, d, a));
    lemma_gquant_depth(binders_of(xs), close_atoms_m(s, atoms), subst_free_m(s, body));
}

proof fn lemma_nub_no_duplicates<A>(s: Seq<A>)
    ensures
        nub(s).no_duplicates(),
    decreases s.len(),
{
    if s.len() > 0 {
        lemma_nub_no_duplicates(s.drop_last());
        let r = nub(s.drop_last());
        if !r.contains(s.last()) {
            assert forall|i: int, j: int|
                0 <= i < r.push(s.last()).len() && 0 <= j < r.push(s.last()).len() && i != j implies
                r.push(s.last())[i] != r.push(s.last())[j] by {
                if i == r.len() {
                    assert(r[j] == r.push(s.last())[j]);
                } else if j == r.len() {
                    assert(r[i] == r.push(s.last())[i]);
                }
            }
        }
    }
}

proof fn lemma_conj_flat_items(s: Seq<GuardedM>)
    ensures
        forall|i: int| 0 <= i < conj_flat(s).len() ==> !(#[trigger] conj_flat(s)[i] is Conj),
        !conj_absorbs(s) ==> forall|i: int| 0 <= i < conj_flat(s).len() ==> #[trigger] conj_flat(s)[i] != gfalse_m(),
    decreases s,
{
    if s.len() > 0 {
        let p = s.drop_last();
        lemma_conj_flat_items(p);
        let tail = match s.last() {
            GuardedM::Conj(inner) => conj_flat(inner),
            x => seq![x],
        };
        match s.last() {
            GuardedM::Conj(inner) => lemma_conj_flat_items(inner),
            _ => {},
        }
        assert(conj_flat(s) == conj_flat(p) + tail);
        assert forall|i: int| 0 <= i < conj_flat(s).len() implies !(#[trigger] conj_flat(s)[i] is Conj)
            && (!conj_absorbs(s) ==> conj_flat(s)[i] != gfalse_m()) by {
            if i >= conj_flat(p).len() {
                assert(conj_flat(s)[i] == tail[i - conj_flat(p).len()]);
            } else {
                assert(conj_flat(s)[i] == conj_flat(p)[i]);
            }
        }
    }
}

proof fn lemma_disj_flat_items(s: Seq<GuardedM>)
    ensures
        forall|i: int| 0 <= i < disj_flat(s).len() ==> !(#[trigger] disj_flat(s)[i] is Disj),
        !disj_absorbs(s) ==> forall|i: int| 0 <= i < disj_flat(s).len() ==> #[trigger] disj_flat(s)[i] != gtrue_m(),
    decreases s,
{
    if s.len() > 0 {
        let p = s.drop_last();
        lemma_disj_flat_items(p);
        let tail = match s.last() {
            GuardedM::Disj(inner) => disj_flat(inner),
            x => seq![x],
        };
        match s.last() {
            GuardedM::Disj(inner) => lemma_disj_flat_items(inner),
            _ => {},
        }
        assert(disj_flat(s) == disj_flat(p) + tail);
        assert forall|i: int| 0 <= i < disj_flat(s).len() implies !(#[trigger] disj_flat(s)[i] is Disj)
            && (!disj_absorbs(s) ==> disj_flat(s)[i] != gtrue_m()) by {
            if i >= disj_flat(p).len() {
                assert(disj_flat(s)[i] == tail[i - disj_flat(p).len()]);
            } else {
                assert(disj_flat(s)[i] == disj_flat(p)[i]);
            }
        }
    }
}

/// A smart conjunction never holds a nested conjunction, a `false` or two
/// equal conjuncts, and never a single one: nested conjunctions are
/// flattened at every level, `false` absorbs, and duplicates are dropped.
pub proof fn gconj_result_is_flat(items: Seq<GuardedM>)
    ensures
        gconj_m(items) matches GuardedM::Conj(d) ==> {
            &&& d.len() != 1
            &&& d.no_duplicates()
            &&& forall|i: int| 0 <= i < d.len() ==> !(#[trigger] d[i] is Conj) && d[i] != gfalse_m()
        },
{
    if !conj_absorbs(items) {
        let f = conj_flat(items);
        lemma_conj_flat_items(items);
        lemma_nub_no_duplicates(f);
        let d = nub(f);
        assert forall|i: int| 0 <= i < d.len() implies !(#[trigger] d[i] is Conj) && d[i] != gfalse_m() by {
            assert(d.contains(d[i]));
            lemma_nub_contains(f, d[i]);
        }
    }
}

/// A smart disjunction never holds a nested disjunction, a `true` or two
/// equal disjuncts, and never a single one: nested disjunctions are
/// flattened at every level, `true` absorbs, `false` is its unit, and
/// duplicates are dropped.
pub proof fn gdisj_result_is_flat(items: Seq<GuardedM>)
    ensures
        gdisj_m(items) matches GuardedM::Disj(d) ==> {
            &&& d.len() != 1
            &&& d.no_duplicates()
            &&& forall|i: int| 0 <= i < d.len() ==> !(#[trigger] d[i] is Disj) && d[i] != gtrue_m()
        },
{
    if !disj_absorbs(items) {
        let f = disj_flat(items);
        lemma_disj_flat_items(items);
        lemma_nub_no_duplicates(f);
        let d = nub(f);
        assert forall|i: int| 0 <= i < d.len() implies !(#[trigger] d[i] is Disj) && d[i] != gtrue_m() by {
            assert(d.contains(d[i]));
            lemma_nub_contains(f, d[i]);
        }
    }
}

proof fn lemma_conj_flat_of_flat(d: Seq<GuardedM>)
    requires
        forall|i: int| 0 <= i < d.len() ==> !(#[trigger] d[i] is Conj) && d[i] != gfalse_m(),
    ensures
        conj_flat(d) == d,
        !conj_absorbs(d),
    decreases d.len(),
{
    if d.len() > 0 {
        lemma_conj_flat_of_flat(d.drop_last());
        assert(d.last() == d[d.len() - 1]);
        assert(conj_flat(d) =~= d.drop_last().push(d.last()));
        assert(d.drop_last().push(d.last()) =~= d);
    }
}

proof fn lemma_nub_of_distinct<A>(d: Seq<A>)
    requires
        d.no_duplicates(),
    ensures
        nub(d) == d,
    decreases d.len(),
{
    if d.len() > 0 {
        let p = d.drop_last();
        assert(p.no_duplicates()) by {
            assert forall|i: int, j: int| 0 <= i < p.len() && 0 <= j < p.len() && i != j implies p[i] != p[j] by {
                assert(p[i] == d[i] && p[j] == d[j]);
            }
        }
        lemma_nub_of_distinct(p);
        assert(!p.contains(d.last())) by {
            if p.contains(d.last()) {
                let k = choose|k: int| 0 <= k < p.len() && p[k] == d.last();
                assert(d[k] == d[d.len() - 1]);
            }
        }
        assert(p.push(d.last()) =~= d);
    }
}

/// Smart conjunction is a fixpoint of itself: the smart conjunction of its
/// own result is that result again (`gconj [a, a]` is `a`, and applying
/// `gconj` once more changes nothing).
pub proof fn gconj_is_idempotent(items: Seq<GuardedM>)
    ensures
        gconj_m(seq![gconj_m(items)]) == gconj_m(items),
{
    let r = gconj_m(items);
    gconj_result_is_flat(items);
    reveal_with_fuel(conj_flat, 2);
    reveal_with_fuel(conj_absorbs, 2);
    let one = seq![r];
    assert(one.drop_last() =~= Seq::<GuardedM>::empty());
    assert(one.last() == r);
    match r {
        GuardedM::Conj(d) => {
            lemma_conj_flat_of_flat(d);
            lemma_nub_of_distinct(d);
            assert(conj_flat(one) =~= conj_flat(d));
        },
        _ => {
            if r != gfalse_m() {
                // The single conjunct left standing.
                assert(!conj_absorbs(items));
                let d = nub(conj_flat(items));
                assert(d.len() == 1 && r == d[0]);
                lemma_conj_flat_items(items);
                assert(d.contains(d[0]));
                lemma_nub_contains(conj_flat(items), d[0]);
                assert(!conj_absorbs(one));
                assert(conj_flat(one) =~= seq![r]);
                assert(seq![r].drop_last() =~= Seq::<GuardedM>::empty());
                reveal_with_fuel(nub, 2);
                assert(nub(Seq::<GuardedM>::empty()) =~= Seq::<GuardedM>::empty());
                assert(nub(seq![r]) =~= seq![r]);
            }
        },
    }
}

/// Negation is an involution on atoms and on the two constants:
/// `gnot(gnot(a)) == a` for an atomic formula `a`, and likewise for `true`
/// and `false`.
pub proof fn gnot_is_involutive_on_atoms(a: AtomM)
    ensures
        gnot_m(gnot_m(GuardedM::Atom(a))) == GuardedM::Atom(a),
        gnot_m(gnot_m(gtrue_m())) == gtrue_m(),
        gnot_m(gnot_m(gfalse_m())) == gfalse_m(),
{
    reveal_with_fuel(gnot_m, 2);
    reveal_with_fuel(conj_flat, 3);
    reveal_with_fuel(disj_flat, 2);
    reveal_with_fuel(conj_absorbs, 3);
    reveal_with_fuel(disj_absorbs, 2);
    reveal_with_fuel(nub, 2);
    let ga = GuardedM::Atom(a);
    assert(gnot_seq_m(Seq::<GuardedM>::empty()) =~= Seq::<GuardedM>::empty());
    assert(gnot_m(gfalse_m()) == gtrue_m());
    assert(gnot_m(gtrue_m()) == gfalse_m());
    let items = Seq::new(seq![a].len(), |i: int| GuardedM::Atom(seq![a][i])).push(gtrue_m());
    assert(items =~= seq![ga, gtrue_m()]);
    assert(items.drop_last() =~= seq![ga]);
    assert(seq![ga].drop_last() =~= Seq::<GuardedM>::empty());
    assert(conj_flat(seq![ga]) =~= seq![ga]);
    assert(conj_flat(items) =~= seq![ga]);
    assert(nub(seq![ga]) =~= seq![ga]);
    assert(!conj_absorbs(items));
}

/// Every atom mapped by `f` at its depth: the number of binders between the
/// root (at depth `d`) and the atom.  The structure is rebuilt as it stands.
pub open spec fn map_gatoms(g: GuardedM, d: int, f: spec_fn(int, AtomM) -> AtomM) -> GuardedM
    decreases g,
{
    match g {
        GuardedM::Atom(a) => GuardedM::Atom(f(d, a)),
        GuardedM::Disj(xs) => GuardedM::Disj(map_gatoms_seq(xs, d, f)),
        GuardedM::Conj(xs) => GuardedM::Conj(map_gatoms_seq(xs, d, f)),
        GuardedM::GGuarded { qua, vars, guards, body } => GuardedM::GGuarded {
            qua,
            vars,
            guards: map_atoms_at(guards, d + vars.len(), f),
            body: Box::new(map_gatoms(*body, d + vars.len(), f)),
        },
    }
}

pub open spec fn map_gatoms_seq(xs: Seq<GuardedM>, d: int, f: spec_fn(int, AtomM) -> AtomM) -> Seq<
    GuardedM,
>
    decreases xs,
{
    Seq::new(
        xs.len(),
        |i: int| if 0 <= i < xs.len() { map_gatoms(xs[i], d, f) } else { gtrue_m() },
    )
}

pub open spec fn map_atoms_at(xs: Seq<AtomM>, d: int, f: spec_fn(int, AtomM) -> AtomM) -> Seq<
    AtomM,
> {
    Seq::new(xs.len(), |i: int| f(d, xs[i]))
}

/// Map every atom of `g` with its depth (see [`map_gatoms`]).
#[verifier::loop_isolation(false)]
fn map_guarded_atoms<F: Fn(u64, &Atom) -> Atom>(
    g: &Guarded,
    depth: u64,
    f: &F,
    Ghost(sf): Ghost<spec_fn(int, AtomM) -> AtomM>,
) -> (r: Guarded)
    requires
        depth + gdepth(g@) <= u64::MAX,
        forall|d: u64, a: &Atom| d <= depth + gdepth(g@) ==> #[trigger] f.requires((d, a)),
        forall|d: u64, a: &Atom, r: Atom| #[trigger] f.ensures((d, a), r) ==> r@ == sf(d as int, a@),
    ensures
        r@ == map_gatoms(g@, depth as int, sf),
    decreases g,
{
    broadcast use group_guarded_lemmas;

    match g {
        Guarded::Atom(a) => Guarded::Atom(f(depth, a)),
        Guarded::Disj(xs) | Guarded::Conj(xs) => {
            let mut out: Vec<Guarded> = Vec::new();
            let mut i: usize = 0;
            while i < xs.len()
                invariant
                    i <= xs.len(),
                    out@.len() == i,
                    forall|j: int|
                        0 <= j < i ==> #[trigger] out@[j]@ == map_gatoms(
                            xs@[j]@,
                            depth as int,
                            sf,
                        ),
                decreases xs.len() - i,
            {
                proof {
                    lemma_gdepth_seq_elem(guardeds_m(xs@), i as int);
                }
                out.push(map_guarded_atoms(&xs[i], depth, f, Ghost(sf)));
                i += 1;
            }
            assert(guardeds_m(out@) =~= map_gatoms_seq(guardeds_m(xs@), depth as int, sf));
            if matches!(g, Guarded::Disj(_)) {
                Guarded::Disj(out)
            } else {
                Guarded::Conj(out)
            }
        },
        Guarded::GGuarded { qua, vars, guards, body } => {
            let nd = depth + vars.len() as u64;
            let mut ng: Vec<Atom> = Vec::new();
            let mut i: usize = 0;
            while i < guards.len()
                invariant
                    i <= guards.len(),
                    ng@.len() == i,
                    forall|j: int| 0 <= j < i ==> #[trigger] ng@[j]@ == sf(nd as int, guards@[j]@),
                decreases guards.len() - i,
            {
                ng.push(f(nd, &guards[i]));
                i += 1;
            }
            assert(atoms_m(ng@) =~= map_atoms_at(atoms_m(guards@), nd as int, sf));
            let nb = map_guarded_atoms(body, nd, f, Ghost(sf));
            Guarded::GGuarded { qua: *qua, vars: copy_binders(vars), guards: ng, body: Box::new(nb) }
        },
    }
}

// ---------------------------------------------------------------------------
// Bound for free and free for bound
// ---------------------------------------------------------------------------

/// The index the first entry for `x` gives, if any.
pub open spec fn lookup_free(s: Seq<(LVarM, u64)>, x: LVarM) -> Option<u64>
    decreases s.len(),
{
    if s.len() == 0 {
        None
    } else if s[0].0 == x {
        Some(s[0].1)
    } else {
        lookup_free(s.drop_first(), x)
    }
}

/// The variable the first entry whose index, shifted by `depth`, is `n`
/// gives, if any.
pub open spec fn lookup_bound(s: Seq<(u64, LVarM)>, depth: int, n: int) -> Option<LVarM>
    decreases s.len(),
{
    if s.len() == 0 {
        None
    } else if s[0].0 + depth == n {
        Some(s[0].1)
    } else {
        lookup_bound(s.drop_first(), depth, n)
    }
}

/// The leaf rewrite of [`subst_free_atom_m`]: a free variable in the domain
/// becomes its index shifted by `depth`.
pub open spec fn subst_free_leaf(s: Seq<(LVarM, u64)>, depth: int) -> spec_fn(BVarM) -> TermM {
    |v: BVarM|
        match v {
            BVarM::Free(x) => match lookup_free(s, x) {
                Some(i) => TermM::Var(BVarM::Bound((i + depth) as u64)),
                None => TermM::Var(v),
            },
            BVarM::Bound(_) => TermM::Var(v),
        }
}

/// The leaf rewrite of [`subst_bound_atom_m`]: a bound index that an entry
/// names (shifted by `depth`) becomes that entry's variable.
pub open spec fn subst_bound_leaf(s: Seq<(u64, LVarM)>, depth: int) -> spec_fn(BVarM) -> TermM {
    |v: BVarM|
        match v {
            BVarM::Bound(n) => match lookup_bound(s, depth, n as int) {
                Some(x) => TermM::Var(BVarM::Free(x)),
                None => TermM::Var(v),
            },
            BVarM::Free(_) => TermM::Var(v),
        }
}

pub open spec fn subst_free_atom_m(s: Seq<(LVarM, u64)>, depth: int, a: AtomM) -> AtomM {
    cmap_atom(a, subst_free_leaf(s, depth))
}

pub open spec fn subst_bound_atom_m(s: Seq<(u64, LVarM)>, depth: int, a: AtomM) -> AtomM {
    cmap_atom(a, subst_bound_leaf(s, depth))
}

/// Replace every free variable in the domain of `s` by its De Bruijn index,
/// shifted by the binders crossed.
pub open spec fn subst_free_m(s: Seq<(LVarM, u64)>, g: GuardedM) -> GuardedM {
    map_gatoms(g, 0, |d: int, a: AtomM| subst_free_atom_m(s, d, a))
}

/// Replace every bound index in the domain of `s` (shifted by the binders
/// crossed) by its free variable.
pub open spec fn subst_bound_m(s: Seq<(u64, LVarM)>, g: GuardedM) -> GuardedM {
    map_gatoms(g, 0, |d: int, a: AtomM| subst_bound_atom_m(s, d, a))
}

/// The models of a free-to-bound substitution.
pub open spec fn free_subst_m(s: Seq<(LVar, u64)>) -> Seq<(LVarM, u64)> {
    Seq::new(s.len(), |i: int| (s[i].0@, s[i].1))
}

/// The models of a bound-to-free substitution.
pub open spec fn bound_subst_m(s: Seq<(u64, LVar)>) -> Seq<(u64, LVarM)> {
    Seq::new(s.len(), |i: int| (s[i].0, s[i].1@))
}

/// Every index of the substitution, shifted by `extra`, fits in a `u64`.
pub open spec fn free_subst_fits(s: Seq<(LVarM, u64)>, extra: int) -> bool {
    forall|i: int| 0 <= i < s.len() ==> #[trigger] s[i].1 + extra <= u64::MAX
}

fn lookup_free_exec(s: &Vec<(LVar, u64)>, x: &LVar) -> (r: Option<u64>)
    ensures
        r == lookup_free(free_subst_m(s@), x@),
        r matches Some(i) ==> exists|k: int| 0 <= k < s@.len() && s@[k].1 == i,
{
    let ghost sm = free_subst_m(s@);
    let mut i: usize = 0;
    assert(sm.skip(0) =~= sm);
    while i < s.len()
        invariant
            i <= s.len(),
            sm == free_subst_m(s@),
            lookup_free(sm, x@) == lookup_free(sm.skip(i as int), x@),
        decreases s.len() - i,
    {
        assert(sm.skip(i as int).drop_first() =~= sm.skip(i + 1));
        if s[i].0.same(x) {
            return Some(s[i].1);
        }
        i += 1;
    }
    None
}

fn lookup_bound_exec(s: &Vec<(u64, LVar)>, depth: u64, n: u64) -> (r: Option<LVar>)
    ensures
        r matches Some(v) ==> lookup_bound(bound_subst_m(s@), depth as int, n as int) == Some(v@),
        r is None ==> lookup_bound(bound_subst_m(s@), depth as int, n as int) is None,
{
    let ghost sm = bound_subst_m(s@);
    let mut i: usize = 0;
    assert(sm.skip(0) =~= sm);
    while i < s.len()
        invariant
            i <= s.len(),
            sm == bound_subst_m(s@),
            lookup_bound(sm, depth as int, n as int) == lookup_bound(
                sm.skip(i as int),
                depth as int,
                n as int,
            ),
        decreases s.len() - i,
    {
        assert(sm.skip(i as int).drop_first() =~= sm.skip(i + 1));
        let k = s[i].0;
        if k.checked_add(depth) == Some(n) {
            return Some(s[i].1.copy());
        }
        i += 1;
    }
    None
}

/// Replace every free variable in the domain of `s` by its index shifted by
/// `depth`.
pub fn subst_free_atom_at(s: &Vec<(LVar, u64)>, depth: u64, a: &Atom) -> (r: Atom)
    requires
        free_subst_fits(free_subst_m(s@), depth as int),
    ensures
        r@ == subst_free_atom_m(free_subst_m(s@), depth as int, a@),
{
    let ghost sm = free_subst_m(s@);
    let leaf = |v: &BVar| -> (t: Term)
        requires
            free_subst_fits(free_subst_m(s@), depth as int),
        ensures
            t@ == subst_free_leaf(free_subst_m(s@), depth as int)(v@),
        {
            match v {
                BVar::Free(x) => match lookup_free_exec(s, x) {
                    Some(i) => {
                        proof {
                            let k = choose|k: int| 0 <= k < s@.len() && s@[k].1 == i;
                            assert(free_subst_m(s@)[k].1 == i);
                        }
                        Term::Var(BVar::Bound(i + depth))
                    },
                    None => Term::Var(v.copy()),
                },
                BVar::Bound(n) => Term::Var(BVar::Bound(*n)),
            }
        };
    cmap_atom_exec(a, &leaf, Ghost(subst_free_leaf(sm, depth as int)))
}

/// [`subst_free_atom_at`] at depth 0.
pub fn subst_free_atom(s: &Vec<(LVar, u64)>, a: &Atom) -> (r: Atom)
    requires
        free_subst_fits(free_subst_m(s@), 0),
    ensures
        r@ == subst_free_atom_m(free_subst_m(s@), 0, a@),
{
    subst_free_atom_at(s, 0, a)
}

/// Replace every bound index that `s` names, shifted by `depth`, by its
/// variable.
pub fn subst_bound_atom_at(s: &Vec<(u64, LVar)>, depth: u64, a: &Atom) -> (r: Atom)
    ensures
        r@ == subst_bound_atom_m(bound_subst_m(s@), depth as int, a@),
{
    let ghost sm = bound_subst_m(s@);
    let leaf = |v: &BVar| -> (t: Term)
        ensures
            t@ == subst_bound_leaf(bound_subst_m(s@), depth as int)(v@),
        {
            match v {
                BVar::Bound(n) => match lookup_bound_exec(s, depth, *n) {
                    Some(x) => Term::Var(BVar::Free(x)),
                    None => Term::Var(BVar::Bound(*n)),
                },
                BVar::Free(x) => Term::Var(BVar::Free(x.copy())),
            }
        };
    cmap_atom_exec(a, &leaf, Ghost(subst_bound_leaf(sm, depth as int)))
}

/// [`subst_bound_atom_at`] at depth 0.
pub fn subst_bound_atom(s: &Vec<(u64, LVar)>, a: &Atom) -> (r: Atom)
    ensures
        r@ == subst_bound_atom_m(bound_subst_m(s@), 0, a@),
{
    subst_bound_atom_at(s, 0, a)
}

/// Replace every free variable in the domain of `s` by its De Bruijn index,
/// shifted by the number of binders crossed.
pub fn subst_free(s: &Vec<(LVar, u64)>, g: &Guarded) -> (r: Guarded)
    requires
        free_subst_fits(free_subst_m(s@), gdepth(g@) as int),
        gdepth(g@) <= u64::MAX,
    ensures
        r@ == subst_free_m(free_subst_m(s@), g@),
{
    let ghost sm = free_subst_m(s@);
    let ghost sf = |d: int, a: AtomM| subst_free_atom_m(sm, d, a);
    let ghost bound = gdepth(g@);
    let f = |d: u64, a: &Atom| -> (r: Atom)
        requires
            d <= bound,
        ensures
            r@ == sf(d as int, a@),
        { subst_free_atom_at(s, d, a) };
    map_guarded_atoms(g, 0, &f, Ghost(sf))
}

/// Replace every bound index that `s` names, shifted by the number of
/// binders crossed, by its free variable.
pub fn subst_bound(s: &Vec<(u64, LVar)>, g: &Guarded) -> (r: Guarded)
    requires
        gdepth(g@) <= u64::MAX,
    ensures
        r@ == subst_bound_m(bound_subst_m(s@), g@),
{
    let ghost sm = bound_subst_m(s@);
    let ghost sf = |d: int, a: AtomM| subst_bound_atom_m(sm, d, a);
    let f = |d: u64, a: &Atom| -> (r: Atom)
        ensures
            r@ == sf(d as int, a@),
        { subst_bound_atom_at(s, d, a) };
    map_guarded_atoms(g, 0, &f, Ghost(sf))
}

/// The atom with every application rebuilt in canonical form.
pub fn canon_atom(a: &Atom) -> (r: Atom)
    ensures
        r@ == cmap_atom(a@, keep_leaf()),
{
    let leaf = |v: &BVar| -> (t: Term)
        ensures
            t@ == keep_leaf()(v@),
        { Term::Var(v.copy()) };
    cmap_atom_exec(a, &leaf, Ghost(keep_leaf()))
}

/// Canonical rebuilding of an atom, at any depth.
pub open spec fn canon_at() -> spec_fn(int, AtomM) -> AtomM {
    |d: int, a: AtomM| cmap_atom(a, keep_leaf())
}

/// Every atom of the formula with its applications rebuilt in canonical form.
pub open spec fn canon_guarded_m(g: GuardedM) -> GuardedM {
    map_gatoms(g, 0, canon_at())
}

/// Is every associative-commutative and commutative argument list of `g` in
/// canonical form, that is, does rebuilding every atom change nothing?
pub fn is_ac_canonical(g: &Guarded) -> (r: bool)
    requires
        gdepth(g@) <= u64::MAX,
    ensures
        r == (canon_guarded_m(g@) == g@),
{
    let f = |d: u64, a: &Atom| -> (r: Atom)
        ensures
            r@ == canon_at()(d as int, a@),
        { canon_atom(a) };
    let h = map_guarded_atoms(g, 0, &f, Ghost(canon_at()));
    h.same(g)
}

/// The atom over plain variables when it carries no bound leaf, its
/// applications rebuilt in canonical form.
pub fn unbind_atom(a: &Atom) -> (r: Option<Atom>)
    ensures
        match r {
            Some(b) => !atom_has_bound(a@) && b@ == cmap_atom(a@, keep_leaf()),
            None => atom_has_bound(a@),
        },
{
    if atom_has_bound_exec(a) {
        None
    } else {
        Some(bvar_to_lvar(a))
    }
}

/// Read an atom whose binders are all opened as an atom over plain
/// variables, its applications rebuilt in canonical form (a left-over bound
/// leaf is an error, so it is required away).
pub fn bvar_to_lvar(a: &Atom) -> (r: Atom)
    requires
        !atom_has_bound(a@),
    ensures
        r@ == cmap_atom(a@, keep_leaf()),
{
    canon_atom(a)
}

/// A term with no bound leaf as a term over plain variables, its
/// applications rebuilt in canonical form (a left-over bound leaf is an
/// error, so it is required away).
pub fn bterm_to_lterm(t: &Term) -> (r: Term)
    requires
        !term_has_bound(t@),
    ensures
        r@ == cmap_term(t@, keep_leaf()),
{
    let leaf = |v: &BVar| -> (t: Term)
        ensures
            t@ == keep_leaf()(v@),
        { Term::Var(v.copy()) };
    cmap_term_exec(t, &leaf, Ghost(keep_leaf()))
}

/// An atom over plain variables as an atom of a guarded formula: every
/// variable a free leaf, every application rebuilt in canonical form.
pub fn lift_free_atom(a: &Atom) -> (r: Atom)
    ensures
        r@ == cmap_atom(a@, keep_leaf()),
{
    canon_atom(a)
}

/// `r` is `g` with every free variable renamed through `f` (see
/// [`atom_renamed_canon_by`]); binders, bound indices and the structure stay.
pub open spec fn guarded_renamed_by<F: Fn(&LVar) -> LVar>(f: F, g: GuardedM, r: GuardedM) -> bool
    decreases g,
{
    match (g, r) {
        (GuardedM::Atom(a), GuardedM::Atom(b)) => atom_renamed_canon_by(f, a, b),
        (GuardedM::Disj(xs), GuardedM::Disj(ys)) => xs.len() == ys.len() && forall|i: int|
            0 <= i < xs.len() ==> guarded_renamed_by(f, #[trigger] xs[i], ys[i]),
        (GuardedM::Conj(xs), GuardedM::Conj(ys)) => xs.len() == ys.len() && forall|i: int|
            0 <= i < xs.len() ==> guarded_renamed_by(f, #[trigger] xs[i], ys[i]),
        (
            GuardedM::GGuarded { qua, vars, guards, body },
            GuardedM::GGuarded { qua: q2, vars: v2, guards: g2, body: b2 },
        ) => {
            &&& qua == q2
            &&& vars == v2
            &&& guards.len() == g2.len()
            &&& forall|i: int| 0 <= i < guards.len() ==> atom_renamed_canon_by(f, #[trigger] guards[i], g2[i])
            &&& guarded_renamed_by(f, *body, *b2)
        },
        _ => false,
    }
}

fn rename_guardeds<F: Fn(&LVar) -> LVar>(xs: &Vec<Guarded>, f: &F) -> (r: Vec<Guarded>)
    requires
        forall|v: &LVar| #[trigger] f.requires((v,)),
    ensures
        r@.len() == xs@.len(),
        forall|i: int| 0 <= i < xs@.len() ==> guarded_renamed_by(*f, #[trigger] xs@[i]@, r@[i]@),
    decreases xs,
{
    let mut out: Vec<Guarded> = Vec::new();
    let mut i: usize = 0;
    while i < xs.len()
        invariant
            i <= xs.len(),
            out@.len() == i,
            forall|v: &LVar| #[trigger] f.requires((v,)),
            forall|j: int| 0 <= j < i ==> guarded_renamed_by(*f, #[trigger] xs@[j]@, out@[j]@),
        decreases xs.len() - i,
    {
        out.push(map_free(&xs[i], f));
        i += 1;
    }
    out
}

/// Rename every free variable of the formula through `f`: the renamed
/// variable replaces the leaf whole, sort included, and every application
/// is rebuilt in canonical form (see
/// [`guarded_renamed_by`]).
pub fn map_free<F: Fn(&LVar) -> LVar>(g: &Guarded, f: &F) -> (r: Guarded)
    requires
        forall|v: &LVar| #[trigger] f.requires((v,)),
    ensures
        guarded_renamed_by(*f, g@, r@),
    decreases g,
{
    broadcast use group_guarded_lemmas;

    match g {
        Guarded::Atom(a) => {
            let r = Guarded::Atom(rename_atom_canon(a, f));
            assert(guarded_renamed_by(*f, g@, r@));
            r
        },
        Guarded::Disj(xs) => {
            let ys = rename_guardeds(xs, f);
            assert(guardeds_m(ys@).len() == guardeds_m(xs@).len());
            let r = Guarded::Disj(ys);
            assert(guarded_renamed_by(*f, g@, r@));
            r
        },
        Guarded::Conj(xs) => {
            let ys = rename_guardeds(xs, f);
            assert(guardeds_m(ys@).len() == guardeds_m(xs@).len());
            let r = Guarded::Conj(ys);
            assert(guarded_renamed_by(*f, g@, r@));
            r
        },
        Guarded::GGuarded { qua, vars, guards, body } => {
            let mut gs: Vec<Atom> = Vec::new();
            let mut i: usize = 0;
            while i < guards.len()
                invariant
                    i <= guards.len(),
                    gs@.len() == i,
                    forall|v: &LVar| #[trigger] f.requires((v,)),
                    forall|j: int| 0 <= j < i ==> atom_renamed_canon_by(*f, #[trigger] guards@[j]@, gs@[j]@),
                decreases guards.len() - i,
            {
                gs.push(rename_atom_canon(&guards[i], f));
                i += 1;
            }
            let b = map_free(body, f);
            let vs = copy_binders(vars);
            let ghost am = atoms_m(guards@);
            let ghost bm = atoms_m(gs@);
            assert forall|j: int| 0 <= j < am.len() implies atom_renamed_canon_by(*f, #[trigger] am[j], bm[j]) by {
                assert(am[j] == guards@[j]@);
                assert(bm[j] == gs@[j]@);
            }
            let r = Guarded::GGuarded { qua: *qua, vars: vs, guards: gs, body: Box::new(b) };
            assert(guarded_renamed_by(*f, g@, r@));
            r
        },
    }
}

// ---------------------------------------------------------------------------
// Opening and closing binders
// ---------------------------------------------------------------------------

/// The substitution closing binds with: the last variable (the innermost
/// binder) becomes index 0, the first index `k - 1`.
pub open spec fn close_subst_m(xs: Seq<LVarM>) -> Seq<(LVarM, u64)> {
    Seq::new(xs.len(), |j: int| (xs[xs.len() - 1 - j], j as u64))
}

/// The substitution opening binds with: index 0 becomes the last variable.
pub open spec fn open_subst_m(xs: Seq<LVarM>) -> Seq<(u64, LVarM)> {
    Seq::new(xs.len(), |j: int| (j as u64, xs[xs.len() - 1 - j]))
}

/// `[(v_{k-1}, 0), ..., (v_0, k-1)]` for `vs = [v_0, ..., v_{k-1}]`.
pub fn close_subst(vs: &Vec<LVar>) -> (r: Vec<(LVar, u64)>)
    ensures
        free_subst_m(r@) == close_subst_m(lvars_m(vs@)),
{
    let k = vs.len();
    let mut out: Vec<(LVar, u64)> = Vec::new();
    let mut j: usize = 0;
    while j < k
        invariant
            k == vs.len(),
            j <= k,
            out@.len() == j,
            forall|i: int| 0 <= i < j ==> (#[trigger] out@[i]).0@ == vs@[k - 1 - i]@ && out@[i].1 == i,
        decreases k - j,
    {
        out.push((vs[k - 1 - j].copy(), j as u64));
        j += 1;
    }
    assert(free_subst_m(out@) =~= close_subst_m(lvars_m(vs@)));
    out
}

/// `[(0, x_{k-1}), ..., (k-1, x_0)]` for `xs = [x_0, ..., x_{k-1}]`.
pub fn open_subst(xs: &Vec<LVar>) -> (r: Vec<(u64, LVar)>)
    ensures
        bound_subst_m(r@) == open_subst_m(lvars_m(xs@)),
{
    let k = xs.len();
    let mut out: Vec<(u64, LVar)> = Vec::new();
    let mut j: usize = 0;
    while j < k
        invariant
            k == xs.len(),
            j <= k,
            out@.len() == j,
            forall|i: int| 0 <= i < j ==> (#[trigger] out@[i]).1@ == xs@[k - 1 - i]@ && out@[i].0 == i,
        decreases k - j,
    {
        out.push((j as u64, xs[k - 1 - j].copy()));
        j += 1;
    }
    assert(bound_subst_m(out@) =~= open_subst_m(lvars_m(xs@)));
    out
}

proof fn lemma_lookup_free_indexed(s: Seq<(LVarM, u64)>, base: int, x: LVarM)
    requires
        forall|j: int| 0 <= j < s.len() ==> (#[trigger] s[j]).1 == base + j,
    ensures
        match lookup_free(s, x) {
            Some(i) => base <= i < base + s.len() && s[i - base].0 == x,
            None => true,
        },
    decreases s.len(),
{
    if s.len() > 0 && s[0].0 != x {
        let t = s.drop_first();
        assert forall|j: int| 0 <= j < t.len() implies (#[trigger] t[j]).1 == (base + 1) + j by {
            assert(t[j] == s[j + 1]);
        }
        lemma_lookup_free_indexed(t, base + 1, x);
        match lookup_free(t, x) {
            Some(i) => assert(t[i - (base + 1)] == s[i - base]),
            None => {},
        }
    }
}

proof fn lemma_lookup_bound_indexed(s: Seq<(u64, LVarM)>, base: int, d: int, n: int)
    requires
        forall|j: int| 0 <= j < s.len() ==> (#[trigger] s[j]).0 == base + j,
        base <= n - d < base + s.len(),
    ensures
        lookup_bound(s, d, n) == Some(s[n - d - base].1),
    decreases s.len(),
{
    if s[0].0 + d != n {
        let t = s.drop_first();
        assert forall|j: int| 0 <= j < t.len() implies (#[trigger] t[j]).0 == (base + 1) + j by {
            assert(t[j] == s[j + 1]);
        }
        lemma_lookup_bound_indexed(t, base + 1, d, n);
        assert(t[n - d - (base + 1)] == s[n - d - base]);
    }
}

proof fn lemma_close_open_leaf(xs: Seq<LVarM>, d: int, x: LVarM)
    requires
        0 <= d,
        d + xs.len() <= u64::MAX,
    ensures
        map_leaves(subst_free_leaf(close_subst_m(xs), d)(BVarM::Free(x)), subst_bound_leaf(open_subst_m(xs), d))
            == TermM::Var(BVarM::Free(x)),
{
    let c = close_subst_m(xs);
    let o = open_subst_m(xs);
    lemma_lookup_free_indexed(c, 0, x);
    match lookup_free(c, x) {
        Some(i) => {
            let n = (i + d) as u64;
            assert(n == i + d);
            assert forall|j: int| 0 <= j < o.len() implies (#[trigger] o[j]).0 == 0 + j by {}
            lemma_lookup_bound_indexed(o, 0, d, n as int);
            assert(o[i as int].1 == c[i as int].0);
        },
        None => {},
    }
}

/// The leaf property that closing with `xs` at depth `d` and opening again
/// gives the leaf back.
pub open spec fn close_open_leaf(xs: Seq<LVarM>, d: int) -> spec_fn(BVarM) -> bool {
    |v: BVarM| cmap_term(subst_free_leaf(close_subst_m(xs), d)(v), subst_bound_leaf(open_subst_m(xs), d)) == TermM::Var(v)
}

/// The leaf property that opening with `xs` at depth `d` and closing again
/// gives the leaf back.
pub open spec fn open_close_leaf(xs: Seq<LVarM>, d: int) -> spec_fn(BVarM) -> bool {
    |v: BVarM| cmap_term(subst_bound_leaf(open_subst_m(xs), d)(v), subst_free_leaf(close_subst_m(xs), d)) == TermM::Var(v)
}

proof fn lemma_subst_leaves_var_valued(xs: Seq<LVarM>, d: int)
    ensures
        var_valued(subst_free_leaf(close_subst_m(xs), d)),
        var_valued(subst_bound_leaf(open_subst_m(xs), d)),
{
}

proof fn lemma_close_open_term(xs: Seq<LVarM>, d: int, t: TermM)
    requires
        0 <= d,
        d + xs.len() <= u64::MAX,
        !term_has_bound(t),
    ensures
        all_leaves(t, close_open_leaf(xs, d)),
{
    lemma_no_bound_leaves(t);
    assert forall|v: BVarM| #[trigger] free_leaf()(v) implies close_open_leaf(xs, d)(v) by {
        if let BVarM::Free(x) = v {
            lemma_close_open_leaf(xs, d, x);
        }
    }
    lemma_leaves_weaken(t, free_leaf(), close_open_leaf(xs, d));
}

proof fn lemma_close_open_terms(xs: Seq<LVarM>, d: int, ts: Seq<TermM>)
    requires
        0 <= d,
        d + xs.len() <= u64::MAX,
        !crate::term::terms_have_bound(ts),
    ensures
        forall|i: int| 0 <= i < ts.len() ==> all_leaves(#[trigger] ts[i], close_open_leaf(xs, d)),
{
    assert forall|i: int| 0 <= i < ts.len() implies all_leaves(#[trigger] ts[i], close_open_leaf(xs, d)) by {
        lemma_terms_no_bound_elem(ts, i);
        lemma_close_open_term(xs, d, ts[i]);
    }
}

proof fn lemma_terms_no_bound_elem(ts: Seq<TermM>, k: int)
    requires
        !crate::term::terms_have_bound(ts),
        0 <= k < ts.len(),
    ensures
        !term_has_bound(ts[k]),
    decreases ts.len(),
{
    if k < ts.len() - 1 {
        lemma_terms_no_bound_elem(ts.drop_last(), k);
    }
}

/// Opening undoes closing: a canonical atom over plain variables, its
/// variables among `xs` closed into indices at depth `d` and those indices
/// opened again with the same `xs`, is the atom again.
pub proof fn open_subst_inverts_close_subst(xs: Seq<LVarM>, d: int, a: AtomM)
    requires
        0 <= d,
        d + xs.len() <= u64::MAX,
        !atom_has_bound(a),
        atom_canon(a),
    ensures
        subst_bound_atom_m(open_subst_m(xs), d, subst_free_atom_m(close_subst_m(xs), d, a)) == a,
{
    lemma_subst_leaves_var_valued(xs, d);
    match a {
        AtomM::EqE(p, q) | AtomM::Less(p, q) | AtomM::Subterm(p, q) => {
            lemma_close_open_term(xs, d, p);
            lemma_close_open_term(xs, d, q);
        },
        AtomM::Action(t, fa) => {
            lemma_close_open_term(xs, d, t);
            lemma_close_open_terms(xs, d, fa.terms);
        },
        AtomM::Last(t) => lemma_close_open_term(xs, d, t),
        AtomM::Pred(fa) => lemma_close_open_terms(xs, d, fa.terms),
    }
    lemma_cmap_atom_round_trip(a, subst_free_leaf(close_subst_m(xs), d), subst_bound_leaf(open_subst_m(xs), d));
}

/// The binders the variables record: name and sort.
pub open spec fn binders_of(xs: Seq<LVarM>) -> Seq<BinderM> {
    Seq::new(xs.len(), |i: int| BinderM { name: xs[i].name, sort: xs[i].sort })
}

/// The guards after closing: each atom rebuilt in canonical form, then each
/// free variable of `xs` turned into its index.
pub open spec fn close_atoms_m(s: Seq<(LVarM, u64)>, atoms: Seq<AtomM>) -> Seq<AtomM> {
    Seq::new(atoms.len(), |i: int| subst_free_atom_m(s, 0, cmap_atom(atoms[i], keep_leaf())))
}

/// Bind `xs` in the guards and the body, then build the quantifier through
/// its smart constructor; each binder keeps its name and sort.
pub open spec fn close_guarded_m(
    qua: Quantifier,
    xs: Seq<LVarM>,
    atoms: Seq<AtomM>,
    body: GuardedM,
) -> GuardedM {
    let s = close_subst_m(xs);
    let guards = close_atoms_m(s, atoms);
    let b = subst_free_m(s, body);
    if qua == Quantifier::Ex {
        gex_m(binders_of(xs), guards, b)
    } else {
        gall_m(binders_of(xs), guards, b)
    }
}

/// Bind the variables `xs` in `atoms` and `body` and put the quantifier
/// `qua` over them (through [`gex`] / [`gall`]).
pub fn close_guarded(qua: Quantifier, xs: Vec<LVar>, atoms: Vec<Atom>, body: Guarded) -> (r:
    Guarded)
    requires
        xs.len() + gdepth(body@) <= u64::MAX,
    ensures
        r@ == close_guarded_m(qua, lvars_m(xs@), atoms_m(atoms@), body@),
{
    let s = close_subst(&xs);
    let ghost sm = free_subst_m(s@);
    assert(free_subst_fits(sm, gdepth(body@) as int));
    let mut guards: Vec<Atom> = Vec::new();
    let mut i: usize = 0;
    while i < atoms.len()
        invariant
            i <= atoms.len(),
            sm == free_subst_m(s@),
            free_subst_fits(sm, 0),
            guards@.len() == i,
            forall|j: int| 0 <= j < i ==> #[trigger] guards@[j]@ == subst_free_atom_m(
                sm,
                0,
                cmap_atom(atoms@[j]@, keep_leaf()),
            ),
        decreases atoms.len() - i,
    {
        let lifted = lift_free_atom(&atoms[i]);
        guards.push(subst_free_atom(&s, &lifted));
        i += 1;
    }
    assert(atoms_m(guards@) =~= close_atoms_m(sm, atoms_m(atoms@)));
    let new_body = subst_free(&s, &body);
    let mut vs: Vec<Binder> = Vec::new();
    let mut j: usize = 0;
    while j < xs.len()
        invariant
            j <= xs.len(),
            vs@.len() == j,
            forall|k: int| 0 <= k < j ==> #[trigger] vs@[k]@ == (BinderM { name: xs@[k]@.name, sort: xs@[k]@.sort }),
        decreases xs.len() - j,
    {
        vs.push(Binder { name: xs[j].name.clone(), sort: xs[j].sort });
        j += 1;
    }
    assert(binders_m(vs@) =~= binders_of(lvars_m(xs@)));
    match qua {
        Quantifier::Ex => gex(vs, guards, new_body),
        Quantifier::All => gall(vs, guards, new_body),
    }
}

/// Opening the guards leaves no bound leaf in them.
pub open spec fn opens_cleanly(g: GuardedM, m: Map<Seq<char>, u64>) -> bool {
    match g {
        GuardedM::GGuarded { vars, guards, .. } => forall|i: int|
            0 <= i < guards.len() ==> !atom_has_bound(
                #[trigger] subst_bound_atom_m(open_subst_m(opened_vars(vars, m)), 0, guards[i]),
            ),
        _ => true,
    }
}

/// Open the outermost quantifier of `g`: one fresh variable per binder,
/// drawn in order from the supply, put in the place of the binder's index in
/// the guards and the body.  `None` when `g` is not a quantifier.
#[verifier::loop_isolation(false)]
#[verifier::rlimit(80)]
pub fn open_guarded(g: &Guarded, fresh: &mut FreshState) -> (r: Option<
    (Quantifier, Vec<LVar>, Vec<Atom>, Guarded),
>)
    requires
        gdepth(g@) <= u64::MAX,
        room(old(fresh)@, gdepth(g@) as int),
        opens_cleanly(g@, old(fresh)@),
    ensures
        match g@ {
            GuardedM::GGuarded { qua, vars, guards, body } => {
                let xs = opened_vars(vars, old(fresh)@);
                let s = open_subst_m(xs);
                &&& r matches Some((q, ys, ats, b)) && {
                    &&& q == qua
                    &&& lvars_m(ys@) == xs
                    &&& atoms_m(ats@) == Seq::new(
                        guards.len(),
                        |i: int| cmap_atom(subst_bound_atom_m(s, 0, guards[i]), keep_leaf()),
                    )
                    &&& b@ == subst_bound_m(s, *body)
                }
                &&& final(fresh)@ == draw_all(old(fresh)@, binder_names(vars)).1
            },
            _ => r is None && final(fresh)@ == old(fresh)@,
        },
{
    match g {
        Guarded::GGuarded { qua, vars, guards, body } => {
            let ghost vm = binders_m(vars@);
            let ghost m0 = fresh@;
            proof {
                lemma_draw_all_room(m0, binder_names(vm), 0);
            }
            let mut xs: Vec<LVar> = Vec::new();
            let mut i: usize = 0;
            while i < vars.len()
                invariant
                    i <= vars.len(),
                    vm == binders_m(vars@),
                    m0 == old(fresh)@,
                    room(m0, gdepth(g@) as int),
                    gdepth(g@) >= vars.len(),
                    xs@.len() == i,
                    fresh@ == draw_all(m0, binder_names(vm).take(i as int)).1,
                    forall|j: int| 0 <= j < i ==> #[trigger] xs@[j]@ == (LVarM {
                        name: vm[j].name,
                        sort: vm[j].sort,
                        idx: draw_all(m0, binder_names(vm).take(i as int)).0[j],
                    }),
                decreases vars.len() - i,
            {
                let ghost names = binder_names(vm);
                assert(names.take(i + 1).drop_last() =~= names.take(i as int));
                proof {
                    lemma_draw_all_room(m0, names.take(i as int), (gdepth(g@) - i) as int);
                }
                let v = fresh.fresh_lvar(vars[i].name.as_str(), vars[i].sort);
                xs.push(v);
                i += 1;
            }
            assert(binder_names(vm).take(vars.len() as int) =~= binder_names(vm));
            assert(lvars_m(xs@) =~= opened_vars(vm, m0));
            let s = open_subst(&xs);
            let ghost sm = bound_subst_m(s@);
            let mut ats: Vec<Atom> = Vec::new();
            let mut k: usize = 0;
            while k < guards.len()
                invariant
                    k <= guards.len(),
                    sm == bound_subst_m(s@),
                    ats@.len() == k,
                    forall|j: int| 0 <= j < k ==> #[trigger] ats@[j]@ == cmap_atom(
                        subst_bound_atom_m(sm, 0, guards@[j]@),
                        keep_leaf(),
                    ),
                decreases guards.len() - k,
            {
                let a = subst_bound_atom(&s, &guards[k]);
                assert(atoms_m(guards@)[k as int] == guards@[k as int]@);
                assert(sm == open_subst_m(opened_vars(vm, m0)));
                assert(!atom_has_bound(
                    subst_bound_atom_m(open_subst_m(opened_vars(vm, m0)), 0, atoms_m(guards@)[k as int]),
                ));
                ats.push(bvar_to_lvar(&a));
                k += 1;
            }
            assert(atoms_m(ats@) =~= Seq::new(
                guards@.len(),
                |i: int| cmap_atom(subst_bound_atom_m(sm, 0, atoms_m(guards@)[i]), keep_leaf()),
            ));
            let nb = subst_bound(&s, body);
            Some((*qua, xs, ats, nb))
        },
        _ => None,
    }
}

// ---------------------------------------------------------------------------
// Simplification under a partial valuation of atoms
// ---------------------------------------------------------------------------

/// A partial truth valuation of atoms over plain variables.
pub trait AtomValuation {
    /// The truth value of the atom, when it is decided.
    spec fn spec_value(&self, a: AtomM) -> Option<bool>;

    /// The truth value of the atom, when it is decided.
    fn value(&self, a: &Atom) -> (r: Option<bool>)
        requires
            !atom_has_bound(a@),
        ensures
            r == self.spec_value(a@),
    ;
}

/// A valuation given by a table: the first entry for an atom decides it.
#[derive(Debug)]
pub struct AtomTable {
    pub entries: Vec<(Atom, bool)>,
}

pub open spec fn table_lookup(s: Seq<(AtomM, bool)>, a: AtomM) -> Option<bool>
    decreases s.len(),
{
    if s.len() == 0 {
        None
    } else if s[0].0 == a {
        Some(s[0].1)
    } else {
        table_lookup(s.drop_first(), a)
    }
}

impl AtomTable {
    pub open spec fn view(&self) -> Seq<(AtomM, bool)> {
        Seq::new(self.entries@.len(), |i: int| (self.entries@[i].0@, self.entries@[i].1))
    }
}

impl AtomValuation for AtomTable {
    open spec fn spec_value(&self, a: AtomM) -> Option<bool> {
        table_lookup(self@, a)
    }

    fn value(&self, a: &Atom) -> (r: Option<bool>) {
        let ghost sm = self@;
        let mut i: usize = 0;
        assert(sm.skip(0) =~= sm);
        while i < self.entries.len()
            invariant
                i <= self.entries@.len(),
                sm == self@,
                table_lookup(sm, a@) == table_lookup(sm.skip(i as int), a@),
            decreases self.entries.len() - i,
        {
            assert(sm.skip(i as int).drop_first() =~= sm.skip(i + 1));
            if self.entries[i].0.same(a) {
                return Some(self.entries[i].1);
            }
            i += 1;
        }
        None
    }
}

/// The truth value of an atom: undecided whenever it carries a bound leaf;
/// otherwise what the valuation says of it read over plain variables, its
/// applications in canonical form.
pub open spec fn eval_m<V: AtomValuation>(v: &V, a: AtomM) -> Option<bool> {
    if atom_has_bound(a) {
        None
    } else {
        v.spec_value(cmap_atom(a, keep_leaf()))
    }
}

/// The guards a universal without binders keeps: those still undecided.
pub open spec fn undecided_guards<V: AtomValuation>(v: &V, guards: Seq<AtomM>) -> Seq<AtomM>
    decreases guards.len(),
{
    if guards.len() == 0 {
        Seq::empty()
    } else {
        let r = undecided_guards(v, guards.drop_last());
        if eval_m(v, guards.last()) is None {
            r.push(guards.last())
        } else {
            r
        }
    }
}

/// Replace the decided atoms by `true`/`false` and rebuild through the smart
/// constructors; in a universal without binders a false guard makes it
/// `true` and a true guard is dropped.  Quantifiers with binders stay.
pub open spec fn simplify_m<V: AtomValuation>(v: &V, g: GuardedM) -> GuardedM
    decreases g,
{
    match g {
        GuardedM::Atom(a) => match eval_m(v, a) {
            Some(b) => gtf_m(b),
            None => g,
        },
        GuardedM::Disj(xs) => gdisj_m(simplify_seq_m(v, xs)),
        GuardedM::Conj(xs) => gconj_m(simplify_seq_m(v, xs)),
        GuardedM::GGuarded { qua, vars, guards, body } => {
            if qua == Quantifier::All && vars.len() == 0 {
                if exists|i: int| 0 <= i < guards.len() && eval_m(v, #[trigger] guards[i]) == Some(
                    false,
                ) {
                    gtrue_m()
                } else {
                    gall_m(vars, undecided_guards(v, guards), simplify_m(v, *body))
                }
            } else {
                g
            }
        },
    }
}

pub open spec fn simplify_seq_m<V: AtomValuation>(v: &V, xs: Seq<GuardedM>) -> Seq<GuardedM>
    decreases xs,
{
    Seq::new(xs.len(), |i: int| if 0 <= i < xs.len() { simplify_m(v, xs[i]) } else { gtrue_m() })
}

fn eval_atom<V: AtomValuation>(valuation: &V, a: &Atom) -> (r: Option<bool>)
    ensures
        r == eval_m(valuation, a@),
{
    match unbind_atom(a) {
        Some(b) => {
            proof {
                lemma_canon_atom_no_bound(a@);
            }
            valuation.value(&b)
        },
        None => None,
    }
}

/// The formula with the atoms that `valuation` decides replaced by their
/// truth values (see [`simplify_m`]).
pub fn simplify_guarded_with<V: AtomValuation>(fm: &Guarded, valuation: &V) -> (r: Guarded)
    ensures
        r@ == simplify_m(valuation, fm@),
    decreases fm, 0nat,
{
    broadcast use group_guarded_lemmas;

    match fm {
        Guarded::Atom(a) => match eval_atom(valuation, a) {
            Some(b) => gtf(b),
            None => fm.copy(),
        },
        Guarded::Disj(xs) => gdisj(simplify_list(xs, valuation)),
        Guarded::Conj(xs) => gconj(simplify_list(xs, valuation)),
        Guarded::GGuarded { qua, vars, guards, body } => {
            if *qua == Quantifier::All && vars.len() == 0 {
                assert(binders_m(vars@) =~= Seq::<BinderM>::empty());
                simplify_universal(guards, body, valuation)
            } else {
                fm.copy()
            }
        },
    }
}

/// [`simplify_guarded_with`] on a universal without binders.
fn simplify_universal<V: AtomValuation>(guards: &Vec<Atom>, body: &Box<Guarded>, valuation: &V) -> (r:
    Guarded)
    ensures
        r@ == (if exists|i: int|
            0 <= i < atoms_m(guards@).len() && eval_m(valuation, #[trigger] atoms_m(guards@)[i])
                == Some(false) {
            gtrue_m()
        } else {
            gall_m(
                Seq::empty(),
                undecided_guards(valuation, atoms_m(guards@)),
                simplify_m(valuation, body@),
            )
        }),
    decreases body, 1nat,
{
    let ghost gm = atoms_m(guards@);
    let mut kept: Vec<Atom> = Vec::new();
    let mut i: usize = 0;
    assert(gm.take(0) =~= Seq::<AtomM>::empty());
    assert(atoms_m(kept@) =~= Seq::<AtomM>::empty());
    while i < guards.len()
        invariant
            i <= guards.len(),
            gm == atoms_m(guards@),
            atoms_m(kept@) == undecided_guards(valuation, gm.take(i as int)),
            forall|j: int| 0 <= j < i ==> eval_m(valuation, #[trigger] gm[j]) != Some(false),
        decreases guards.len() - i,
    {
        assert(gm.take(i + 1).drop_last() =~= gm.take(i as int));
        let e = eval_atom(valuation, &guards[i]);
        if e == Some(false) {
            assert(eval_m(valuation, gm[i as int]) == Some(false));
            return gtrue();
        }
        if e.is_none() {
            let c = guards[i].copy();
            kept.push(c);
            assert(atoms_m(kept@) =~= undecided_guards(valuation, gm.take(i + 1)));
        }
        i += 1;
    }
    assert(gm.take(guards.len() as int) =~= gm);
    let b = simplify_guarded_with(body, valuation);
    let r = gall(Vec::new(), kept, b);
    assert(binders_m(Seq::<Binder>::empty()) =~= Seq::<BinderM>::empty());
    r
}

fn simplify_list<V: AtomValuation>(xs: &Vec<Guarded>, valuation: &V) -> (r: Vec<Guarded>)
    ensures
        guardeds_m(r@) == simplify_seq_m(valuation, guardeds_m(xs@)),
    decreases xs, 0nat,
{
    broadcast use group_guarded_lemmas;

    let mut out: Vec<Guarded> = Vec::new();
    let mut i: usize = 0;
    while i < xs.len()
        invariant
            i <= xs.len(),
            out@.len() == i,
            forall|j: int| 0 <= j < i ==> #[trigger] out@[j]@ == simplify_m(valuation, xs@[j]@),
        decreases xs.len() - i,
    {
        out.push(simplify_guarded_with(&xs[i], valuation));
        i += 1;
    }
    assert(guardeds_m(out@) =~= simplify_seq_m(valuation, guardeds_m(xs@)));
    out
}

// ---------------------------------------------------------------------------
// Normal form of a stored formula
// ---------------------------------------------------------------------------

/// The normal form: every conjunction and disjunction rebuilt through the
/// smart constructors [`gconj_m`] and [`gdisj_m`], bottom-up.
pub open spec fn normalise_m(g: GuardedM) -> GuardedM
    decreases g,
{
    match g {
        GuardedM::Atom(_) => g,
        GuardedM::Disj(xs) => gdisj_m(normalise_seq_m(xs)),
        GuardedM::Conj(xs) => gconj_m(normalise_seq_m(xs)),
        GuardedM::GGuarded { qua, vars, guards, body } => GuardedM::GGuarded {
            qua,
            vars,
            guards,
            body: Box::new(normalise_m(*body)),
        },
    }
}

pub open spec fn normalise_seq_m(xs: Seq<GuardedM>) -> Seq<GuardedM>
    decreases xs,
{
    Seq::new(xs.len(), |i: int| if 0 <= i < xs.len() { normalise_m(xs[i]) } else { gtrue_m() })
}

/// The disjunct list of a normalised disjunction: its disjuncts when the
/// normal form is still a disjunction, else the normal form alone.
pub open spec fn normalise_disj_list_m(xs: Seq<GuardedM>) -> Seq<GuardedM> {
    match normalise_m(GuardedM::Disj(xs)) {
        GuardedM::Disj(d) => d,
        n => seq![n],
    }
}

/// The normal form of a stored formula: [`normalise_m`], except that a
/// top-level disjunction keeps its constructor.
pub open spec fn normalise_stored_m(g: GuardedM) -> GuardedM {
    match g {
        GuardedM::Disj(xs) => GuardedM::Disj(normalise_disj_list_m(xs)),
        _ => normalise_m(g),
    }
}

fn normalise_list(xs: &Vec<Guarded>) -> (r: Vec<Guarded>)
    ensures
        guardeds_m(r@) == normalise_seq_m(guardeds_m(xs@)),
    decreases xs,
{
    broadcast use group_guarded_lemmas;

    let mut out: Vec<Guarded> = Vec::new();
    let mut i: usize = 0;
    while i < xs.len()
        invariant
            i <= xs.len(),
            out@.len() == i,
            forall|j: int| 0 <= j < i ==> #[trigger] out@[j]@ == normalise_m(xs@[j]@),
        decreases xs.len() - i,
    {
        out.push(normalise(&xs[i]));
        i += 1;
    }
    assert(guardeds_m(out@) =~= normalise_seq_m(guardeds_m(xs@)));
    out
}

/// The normal form of `g` (see [`normalise_m`]).
pub fn normalise(g: &Guarded) -> (r: Guarded)
    ensures
        r@ == normalise_m(g@),
    decreases g,
{
    match g {
        Guarded::Atom(a) => Guarded::Atom(a.copy()),
        Guarded::Disj(xs) => gdisj(normalise_list(xs)),
        Guarded::Conj(xs) => gconj(normalise_list(xs)),
        Guarded::GGuarded { qua, vars, guards, body } => Guarded::GGuarded {
            qua: *qua,
            vars: copy_binders(vars),
            guards: copy_atoms(guards),
            body: Box::new(normalise(body)),
        },
    }
}

/// The normal form of `g`, or `None` when `g` is already in normal form.
pub fn normalise_guarded_cow(g: &Guarded) -> (r: Option<Guarded>)
    ensures
        match r {
            None => normalise_m(g@) == g@,
            Some(h) => h@ == normalise_m(g@) && h@ != g@,
        },
{
    let n = normalise(g);
    if n.same(g) {
        None
    } else {
        Some(n)
    }
}

/// The disjunct list of the normalised disjunction of `items`: a normal
/// form that is no longer a disjunction stands as the only disjunct.
pub fn normalise_disj_list(items: &Vec<Guarded>) -> (r: Vec<Guarded>)
    ensures
        guardeds_m(r@) == normalise_disj_list_m(guardeds_m(items@)),
{
    broadcast use group_guarded_lemmas;

    let n = gdisj(normalise_list(items));
    proof {
        reveal_with_fuel(normalise_m, 1);
        assert(guardeds_m(items@) == GuardedM::Disj(guardeds_m(items@))->Disj_0);
    }
    match n {
        Guarded::Disj(d) => d,
        other => {
            let mut out: Vec<Guarded> = Vec::new();
            proof {
                lemma_guardeds_m_push(out@, other);
            }
            out.push(other);
            assert(guardeds_m(out@) =~= seq![out@[0]@]);
            out
        },
    }
}

/// [`normalise_disj_list`], or `None` when it leaves the list unchanged.
pub fn normalise_disj_list_cow(items: &Vec<Guarded>) -> (r: Option<Vec<Guarded>>)
    ensures
        match r {
            None => normalise_disj_list_m(guardeds_m(items@)) == guardeds_m(items@),
            Some(d) => guardeds_m(d@) == normalise_disj_list_m(guardeds_m(items@)) && guardeds_m(d@)
                != guardeds_m(items@),
        },
{
    let d = normalise_disj_list(items);
    if same_guardeds(&d, items) {
        None
    } else {
        Some(d)
    }
}

/// The stored normal form of `g`, or `None` when `g` is already in it.
pub fn normalise_stored_formula_cow(g: &Guarded) -> (r: Option<Guarded>)
    ensures
        match r {
            None => normalise_stored_m(g@) == g@,
            Some(h) => h@ == normalise_stored_m(g@) && h@ != g@,
        },
{
    match g {
        Guarded::Disj(items) => {
            let h = Guarded::Disj(normalise_disj_list(items));
            if h.same(g) {
                None
            } else {
                Some(h)
            }
        },
        _ => normalise_guarded_cow(g),
    }
}

/// The stored normal form of `g`, reusing `g` when it is already in it.
pub fn normalise_stored_formula_owned(g: Guarded) -> (r: Guarded)
    ensures
        r@ == normalise_stored_m(g@),
{
    match normalise_stored_formula_cow(&g) {
        Some(n) => n,
        None => g,
    }
}

// ---------------------------------------------------------------------------
// Substitution of terms for free variables
// ---------------------------------------------------------------------------

/// The leaves a substitution acts on: the free variables of its domain.
pub open spec fn in_domain(s: Seq<(LVarM, TermM)>) -> spec_fn(BVarM) -> bool {
    |v: BVarM|
        match v {
            BVarM::Free(x) => image_of(s, x) is Some,
            BVarM::Bound(_) => false,
        }
}

/// Apply a substitution to every free leaf, guards and body alike; bound
/// leaves are positional and untouched.  Every application above a
/// substituted leaf is rebuilt in canonical form; the rest stays as it stands.
pub open spec fn subst_guarded_m(s: Seq<(LVarM, TermM)>, g: GuardedM) -> GuardedM {
    map_gatoms(g, 0, |d: int, a: AtomM| pmap_atom(a, in_domain(s), subst_leaf(s)))
}

/// Apply the substitution `s` to every free leaf of `g`.
pub fn subst_guarded(g: &Guarded, s: &Subst) -> (r: Guarded)
    requires
        gdepth(g@) <= u64::MAX,
    ensures
        r@ == subst_guarded_m(s@, g@),
{
    let ghost sf = |d: int, a: AtomM| pmap_atom(a, in_domain(s@), subst_leaf(s@));
    let leaf = |v: &BVar| -> (r: Option<Term>)
        ensures
            match r {
                None => !in_domain(s@)(v@),
                Some(u) => in_domain(s@)(v@) && u@ == subst_leaf(s@)(v@),
            },
        {
            match v {
                BVar::Free(x) => s.image(x),
                BVar::Bound(_) => None,
            }
        };
    let f = |d: u64, a: &Atom| -> (r: Atom)
        ensures
            r@ == sf(d as int, a@),
        { pmap_atom_exec(a, &leaf, Ghost(in_domain(s@)), Ghost(subst_leaf(s@))) };
    map_guarded_atoms(g, 0, &f, Ghost(sf))
}

/// [`subst_guarded`], or `None` when the substitution leaves `g` unchanged.
pub fn subst_guarded_cow(g: &Guarded, s: &Subst) -> (r: Option<Guarded>)
    requires
        gdepth(g@) <= u64::MAX,
    ensures
        match r {
            None => subst_guarded_m(s@, g@) == g@,
            Some(h) => h@ == subst_guarded_m(s@, g@) && h@ != g@,
        },
{
    let h = subst_guarded(g, s);
    if h.same(g) {
        None
    } else {
        Some(h)
    }
}

/// The leaves witness normalisation acts on: free variables named `x` with
/// a non-zero index.
pub open spec fn witness_sel() -> spec_fn(BVarM) -> bool {
    |v: BVarM|
        match v {
            BVarM::Free(x) => x.name == seq!['x'] && x.idx != 0,
            BVarM::Bound(_) => false,
        }
}

/// The leaf rewrite of witness normalisation: a free variable named `x`
/// takes index 0, keeping its sort; every other leaf stays.
pub open spec fn witness_leaf() -> spec_fn(BVarM) -> TermM {
    |v: BVarM|
        match v {
            BVarM::Free(x) => if x.name == seq!['x'] {
                TermM::Var(BVarM::Free(LVarM { name: x.name, sort: x.sort, idx: 0 }))
            } else {
                TermM::Var(v)
            },
            BVarM::Bound(_) => TermM::Var(v),
        }
}

/// Witness normalisation: the substitution of each witness variable's index-0
/// form for it (see [`subst_guarded_m`]).
pub open spec fn normalize_witness_m(g: GuardedM) -> GuardedM {
    map_gatoms(g, 0, |d: int, a: AtomM| pmap_atom(a, witness_sel(), witness_leaf()))
}

/// Rewrite every free variable named `x` (the witness variables unification
/// mints) to index 0, keeping name and sort, so that derivations that differ
/// only in the witness index compare equal; `None` when nothing changes.
pub fn normalize_witness_lvars_cow(g: &Guarded) -> (r: Option<Guarded>)
    requires
        gdepth(g@) <= u64::MAX,
    ensures
        match r {
            None => normalize_witness_m(g@) == g@,
            Some(h) => h@ == normalize_witness_m(g@) && h@ != g@,
        },
{
    let leaf = |v: &BVar| -> (t: Option<Term>)
        ensures
            match t {
                None => !witness_sel()(v@),
                Some(u) => witness_sel()(v@) && u@ == witness_leaf()(v@),
            },
        {
            match v {
                BVar::Free(x) => {
                    let xs = "x".to_string();
                    proof {
                        reveal_strlit("x");
                        assert("x"@ == seq!['x']);
                    }
                    if x.name == xs && x.idx != 0 {
                        Some(Term::Var(BVar::Free(LVar { name: x.name.clone(), sort: x.sort, idx: 0 })))
                    } else {
                        None
                    }
                },
                BVar::Bound(_) => None,
            }
        };
    let ghost sf = |d: int, a: AtomM| pmap_atom(a, witness_sel(), witness_leaf());
    let f = |d: u64, a: &Atom| -> (r: Atom)
        ensures
            r@ == sf(d as int, a@),
        { pmap_atom_exec(a, &leaf, Ghost(witness_sel()), Ghost(witness_leaf())) };
    let h = map_guarded_atoms(g, 0, &f, Ghost(sf));
    if h.same(g) {
        None
    } else {
        Some(h)
    }
}

/// Is the formula in normal form: every conjunction and disjunction as the
/// smart constructors leave it (flat, duplicate-free, no absorbing element,
/// never a single item), all the way down?
pub open spec fn is_normal(g: GuardedM) -> bool
    decreases g,
{
    match g {
        GuardedM::Atom(_) => true,
        GuardedM::Disj(ds) => {
            &&& forall|i: int| 0 <= i < ds.len() ==> is_normal(#[trigger] ds[i])
            &&& forall|i: int| 0 <= i < ds.len() ==> !(#[trigger] ds[i] is Disj) && ds[i] != gtrue_m()
            &&& ds.no_duplicates()
            &&& ds.len() != 1
        },
        GuardedM::Conj(ds) => {
            &&& forall|i: int| 0 <= i < ds.len() ==> is_normal(#[trigger] ds[i])
            &&& forall|i: int| 0 <= i < ds.len() ==> !(#[trigger] ds[i] is Conj) && ds[i] != gfalse_m()
            &&& ds.no_duplicates()
            &&& ds.len() != 1
        },
        GuardedM::GGuarded { body, .. } => is_normal(*body),
    }
}

proof fn lemma_disj_flat_of_flat(d: Seq<GuardedM>)
    requires
        forall|i: int| 0 <= i < d.len() ==> !(#[trigger] d[i] is Disj) && d[i] != gtrue_m(),
    ensures
        disj_flat(d) == d,
        !disj_absorbs(d),
    decreases d.len(),
{
    if d.len() > 0 {
        lemma_disj_flat_of_flat(d.drop_last());
        assert(d.last() == d[d.len() - 1]);
        assert(disj_flat(d) =~= d.drop_last().push(d.last()));
        assert(d.drop_last().push(d.last()) =~= d);
    }
}

proof fn lemma_normal_is_fixpoint(g: GuardedM)
    requires
        is_normal(g),
    ensures
        normalise_m(g) == g,
    decreases g,
{
    match g {
        GuardedM::Disj(ds) => {
            assert forall|i: int| 0 <= i < ds.len() implies #[trigger] normalise_seq_m(ds)[i] == ds[i] by {
                lemma_normal_is_fixpoint(ds[i]);
            }
            assert(normalise_seq_m(ds) =~= ds);
            lemma_disj_flat_of_flat(ds);
            lemma_nub_of_distinct(ds);
            if ds.len() == 0 {
                assert(gfalse_m() == GuardedM::Disj(ds));
            }
        },
        GuardedM::Conj(ds) => {
            assert forall|i: int| 0 <= i < ds.len() implies #[trigger] normalise_seq_m(ds)[i] == ds[i] by {
                lemma_normal_is_fixpoint(ds[i]);
            }
            assert(normalise_seq_m(ds) =~= ds);
            lemma_conj_flat_of_flat(ds);
            lemma_nub_of_distinct(ds);
        },
        GuardedM::GGuarded { qua, vars, guards, body } => {
            lemma_normal_is_fixpoint(*body);
        },
        _ => {},
    }
}

proof fn lemma_conj_flat_normal(s: Seq<GuardedM>)
    requires
        forall|i: int| 0 <= i < s.len() ==> is_normal(#[trigger] s[i]),
    ensures
        forall|k: int| 0 <= k < conj_flat(s).len() ==> is_normal(#[trigger] conj_flat(s)[k]),
    decreases s,
{
    if s.len() > 0 {
        let p = s.drop_last();
        lemma_conj_flat_normal(p);
        let tail = match s.last() {
            GuardedM::Conj(inner) => conj_flat(inner),
            x => seq![x],
        };
        assert(is_normal(s[s.len() - 1]));
        match s.last() {
            GuardedM::Conj(inner) => lemma_conj_flat_normal(inner),
            _ => {},
        }
        assert(conj_flat(s) == conj_flat(p) + tail);
        assert forall|k: int| 0 <= k < conj_flat(s).len() implies is_normal(#[trigger] conj_flat(s)[k]) by {
            if k < conj_flat(p).len() {
                assert(conj_flat(s)[k] == conj_flat(p)[k]);
            } else {
                assert(conj_flat(s)[k] == tail[k - conj_flat(p).len()]);
            }
        }
    }
}

proof fn lemma_disj_flat_normal(s: Seq<GuardedM>)
    requires
        forall|i: int| 0 <= i < s.len() ==> is_normal(#[trigger] s[i]),
    ensures
        forall|k: int| 0 <= k < disj_flat(s).len() ==> is_normal(#[trigger] disj_flat(s)[k]),
    decreases s,
{
    if s.len() > 0 {
        let p = s.drop_last();
        lemma_disj_flat_normal(p);
        let tail = match s.last() {
            GuardedM::Disj(inner) => disj_flat(inner),
            x => seq![x],
        };
        assert(is_normal(s[s.len() - 1]));
        match s.last() {
            GuardedM::Disj(inner) => lemma_disj_flat_normal(inner),
            _ => {},
        }
        assert(disj_flat(s) == disj_flat(p) + tail);
        assert forall|k: int| 0 <= k < disj_flat(s).len() implies is_normal(#[trigger] disj_flat(s)[k]) by {
            if k < disj_flat(p).len() {
                assert(disj_flat(s)[k] == disj_flat(p)[k]);
            } else {
                assert(disj_flat(s)[k] == tail[k - disj_flat(p).len()]);
            }
        }
    }
}

proof fn lemma_normalise_is_normal(g: GuardedM)
    ensures
        is_normal(normalise_m(g)),
    decreases g,
{
    match g {
        GuardedM::Disj(xs) => {
            let ys = normalise_seq_m(xs);
            assert forall|i: int| 0 <= i < ys.len() implies is_normal(#[trigger] ys[i]) by {
                lemma_normalise_is_normal(xs[i]);
            }
            gdisj_result_is_flat(ys);
            lemma_disj_flat_normal(ys);
            lemma_disj_flat_items(ys);
            if !disj_absorbs(ys) {
                let f = disj_flat(ys);
                let d = nub(f);
                assert forall|i: int| 0 <= i < d.len() implies is_normal(#[trigger] d[i]) by {
                    assert(d.contains(d[i]));
                    lemma_nub_contains(f, d[i]);
                }
                if d.len() == 1 {
                    assert(is_normal(d[0]));
                }
            }
        },
        GuardedM::Conj(xs) => {
            let ys = normalise_seq_m(xs);
            assert forall|i: int| 0 <= i < ys.len() implies is_normal(#[trigger] ys[i]) by {
                lemma_normalise_is_normal(xs[i]);
            }
            gconj_result_is_flat(ys);
            lemma_conj_flat_normal(ys);
            lemma_conj_flat_items(ys);
            if !conj_absorbs(ys) {
                let f = conj_flat(ys);
                let d = nub(f);
                assert forall|i: int| 0 <= i < d.len() implies is_normal(#[trigger] d[i]) by {
                    assert(d.contains(d[i]));
                    lemma_nub_contains(f, d[i]);
                }
                if d.len() == 1 {
                    assert(is_normal(d[0]));
                }
            }
        },
        GuardedM::GGuarded { qua, vars, guards, body } => {
            lemma_normalise_is_normal(*body);
        },
        _ => {},
    }
}

/// Normalising is idempotent: a normalised formula normalises to itself.
pub proof fn normalise_is_idempotent(g: GuardedM)
    ensures
        normalise_m(normalise_m(g)) == normalise_m(g),
{
    lemma_normalise_is_normal(g);
    lemma_normal_is_fixpoint(normalise_m(g));
}

/// Normalising a stored formula is idempotent as well: its stored normal
/// form is its own stored normal form.
pub proof fn stored_normalisation_is_idempotent(g: GuardedM)
    ensures
        normalise_stored_m(normalise_stored_m(g)) == normalise_stored_m(g),
{
    normalise_is_idempotent(g);
    lemma_normalise_is_normal(g);
    let n = normalise_m(g);
    match n {
        GuardedM::Disj(d) => {
            assert(normalise_m(GuardedM::Disj(d)) == GuardedM::Disj(d));
        },
        _ => {
            if g is Disj {
                let s1 = GuardedM::Disj(seq![n]);
                assert(normalise_seq_m(seq![n]) =~= seq![n]) by {
                    lemma_normal_is_fixpoint(n);
                }
                reveal_with_fuel(disj_flat, 2);
                reveal_with_fuel(disj_absorbs, 2);
                assert(seq![n].drop_last() =~= Seq::<GuardedM>::empty());
                if n != gtrue_m() {
                    assert(disj_flat(seq![n]) =~= seq![n]);
                    lemma_nub_of_distinct(seq![n]);
                }
                assert(normalise_m(s1) == n);
            }
        },
    }
}

// ---------------------------------------------------------------------------
// Closing after opening
// ---------------------------------------------------------------------------

/// None of the variables `xs` is free in `vs`.
pub open spec fn avoids(vs: Seq<LVarM>, xs: Seq<LVarM>) -> bool {
    forall|x: LVarM| vs.contains(x) ==> !xs.contains(x)
}

proof fn lemma_lookup_bound_outside(s: Seq<(u64, LVarM)>, base: int, d: int, n: int)
    requires
        forall|j: int| 0 <= j < s.len() ==> (#[trigger] s[j]).0 == base + j,
        !(base <= n - d < base + s.len()),
    ensures
        lookup_bound(s, d, n) is None,
    decreases s.len(),
{
    if s.len() > 0 {
        let t = s.drop_first();
        assert forall|j: int| 0 <= j < t.len() implies (#[trigger] t[j]).0 == (base + 1) + j by {
            assert(t[j] == s[j + 1]);
        }
        assert(s[0].0 == base);
        lemma_lookup_bound_outside(t, base + 1, d, n);
    }
}

proof fn lemma_lookup_free_unique(s: Seq<(LVarM, u64)>, base: int, x: LVarM, k: int)
    requires
        forall|j: int| 0 <= j < s.len() ==> (#[trigger] s[j]).1 == base + j,
        0 <= k < s.len(),
        s[k].0 == x,
        forall|j: int| 0 <= j < s.len() && j != k ==> (#[trigger] s[j]).0 != x,
    ensures
        lookup_free(s, x) == Some((base + k) as u64),
    decreases s.len(),
{
    if k > 0 {
        let t = s.drop_first();
        assert forall|j: int| 0 <= j < t.len() implies (#[trigger] t[j]).1 == (base + 1) + j by {
            assert(t[j] == s[j + 1]);
        }
        assert forall|j: int| 0 <= j < t.len() && j != k - 1 implies (#[trigger] t[j]).0 != x by {
            assert(t[j] == s[j + 1]);
        }
        assert(t[k - 1] == s[k]);
        lemma_lookup_free_unique(t, base + 1, x, k - 1);
    }
}

proof fn lemma_open_close_leaf(xs: Seq<LVarM>, d: int, v: BVarM)
    requires
        0 <= d,
        d + xs.len() <= u64::MAX,
        xs.no_duplicates(),
        v matches BVarM::Free(x) ==> !xs.contains(x),
    ensures
        map_leaves(subst_bound_leaf(open_subst_m(xs), d)(v), subst_free_leaf(close_subst_m(xs), d)) == TermM::Var(
            v,
        ),
{
    let c = close_subst_m(xs);
    let o = open_subst_m(xs);
    let len = xs.len();
    assert forall|j: int| 0 <= j < o.len() implies (#[trigger] o[j]).0 == 0 + j by {}
    assert forall|j: int| 0 <= j < c.len() implies (#[trigger] c[j]).1 == 0 + j by {}
    match v {
        BVarM::Free(x) => {
            lemma_lookup_free_indexed(c, 0, x);
            if let Some(i) = lookup_free(c, x) {
                assert(xs[len - 1 - i] == x);
                assert(xs.contains(x));
            }
        },
        BVarM::Bound(n) => {
            if d <= n < d + len {
                lemma_lookup_bound_indexed(o, 0, d, n as int);
                let k = n - d;
                let x = xs[len - 1 - k];
                assert(o[k].1 == x);
                assert forall|j: int| 0 <= j < c.len() && j != k implies (#[trigger] c[j]).0 != x by {
                    assert(c[j].0 == xs[len - 1 - j]);
                }
                lemma_lookup_free_unique(c, 0, x, k);
            } else {
                lemma_lookup_bound_outside(o, 0, d, n as int);
            }
        },
    }
}

proof fn lemma_terms_frees_elem(ts: Seq<TermM>, k: int, x: LVarM)
    requires
        0 <= k < ts.len(),
        term_frees(ts[k]).contains(x),
    ensures
        terms_frees(ts).contains(x),
    decreases ts.len(),
{
    let p = ts.drop_last();
    if k < ts.len() - 1 {
        assert(p[k] == ts[k]);
        lemma_terms_frees_elem(p, k, x);
        let w = choose|i: int| 0 <= i < terms_frees(p).len() && terms_frees(p)[i] == x;
        assert(terms_frees(ts)[w] == x);
    } else {
        let w = choose|i: int| 0 <= i < term_frees(ts.last()).len() && term_frees(ts.last())[i] == x;
        assert(terms_frees(ts)[terms_frees(p).len() + w] == x);
    }
}

proof fn lemma_open_close_term(xs: Seq<LVarM>, d: int, t: TermM)
    requires
        0 <= d,
        d + xs.len() <= u64::MAX,
        xs.no_duplicates(),
        avoids(term_frees(t), xs),
    ensures
        all_leaves(t, open_close_leaf(xs, d)),
    decreases t,
{
    match t {
        TermM::Var(v) => {
            if let BVarM::Free(x) = v {
                assert(term_frees(t)[0] == x);
            }
            lemma_open_close_leaf(xs, d, v);
        },
        TermM::App(g, args) => {
            assert forall|i: int| 0 <= i < args.len() implies all_leaves(#[trigger] args[i], open_close_leaf(xs, d)) by {
                assert forall|x: LVarM| term_frees(args[i]).contains(x) implies !xs.contains(x) by {
                    lemma_terms_frees_elem(args, i, x);
                }
                lemma_open_close_term(xs, d, args[i]);
            }
        },
        _ => {},
    }
}

proof fn lemma_open_close_terms(xs: Seq<LVarM>, d: int, ts: Seq<TermM>)
    requires
        0 <= d,
        d + xs.len() <= u64::MAX,
        xs.no_duplicates(),
        avoids(terms_frees(ts), xs),
    ensures
        forall|i: int| 0 <= i < ts.len() ==> all_leaves(#[trigger] ts[i], open_close_leaf(xs, d)),
{
    assert forall|i: int| 0 <= i < ts.len() implies all_leaves(#[trigger] ts[i], open_close_leaf(xs, d)) by {
        assert forall|x: LVarM| term_frees(ts[i]).contains(x) implies !xs.contains(x) by {
            lemma_terms_frees_elem(ts, i, x);
        }
        lemma_open_close_term(xs, d, ts[i]);
    }
}

proof fn lemma_open_close_atom(xs: Seq<LVarM>, d: int, a: AtomM)
    requires
        0 <= d,
        d + xs.len() <= u64::MAX,
        xs.no_duplicates(),
        avoids(atom_frees(a), xs),
        atom_canon(a),
    ensures
        subst_free_atom_m(close_subst_m(xs), d, subst_bound_atom_m(open_subst_m(xs), d, a)) == a,
{
    lemma_subst_leaves_var_valued(xs, d);
    match a {
        AtomM::EqE(p, q) | AtomM::Less(p, q) | AtomM::Subterm(p, q) => {
            assert forall|x: LVarM| term_frees(p).contains(x) implies !xs.contains(x) by {
                let w = choose|i: int| 0 <= i < term_frees(p).len() && term_frees(p)[i] == x;
                assert(atom_frees(a)[w] == x);
            }
            assert forall|x: LVarM| term_frees(q).contains(x) implies !xs.contains(x) by {
                let w = choose|i: int| 0 <= i < term_frees(q).len() && term_frees(q)[i] == x;
                assert(atom_frees(a)[term_frees(p).len() + w] == x);
            }
            lemma_open_close_term(xs, d, p);
            lemma_open_close_term(xs, d, q);
        },
        AtomM::Action(t, fa) => {
            assert forall|x: LVarM| term_frees(t).contains(x) implies !xs.contains(x) by {
                let w = choose|i: int| 0 <= i < term_frees(t).len() && term_frees(t)[i] == x;
                assert(atom_frees(a)[w] == x);
            }
            assert forall|x: LVarM| terms_frees(fa.terms).contains(x) implies !xs.contains(x) by {
                let w = choose|i: int| 0 <= i < terms_frees(fa.terms).len() && terms_frees(fa.terms)[i] == x;
                assert(atom_frees(a)[term_frees(t).len() + w] == x);
            }
            lemma_open_close_term(xs, d, t);
            lemma_open_close_terms(xs, d, fa.terms);
        },
        AtomM::Last(t) => lemma_open_close_term(xs, d, t),
        AtomM::Pred(fa) => lemma_open_close_terms(xs, d, fa.terms),
    }
    lemma_cmap_atom_round_trip(a, subst_bound_leaf(open_subst_m(xs), d), subst_free_leaf(close_subst_m(xs), d));
}

proof fn lemma_atoms_frees_elem(ts: Seq<AtomM>, k: int, x: LVarM)
    requires
        0 <= k < ts.len(),
        atom_frees(ts[k]).contains(x),
    ensures
        atoms_frees(ts).contains(x),
    decreases ts.len(),
{
    let p = ts.drop_last();
    if k < ts.len() - 1 {
        assert(p[k] == ts[k]);
        lemma_atoms_frees_elem(p, k, x);
        let w = choose|i: int| 0 <= i < atoms_frees(p).len() && atoms_frees(p)[i] == x;
        assert(atoms_frees(ts)[w] == x);
    } else {
        let w = choose|i: int| 0 <= i < atom_frees(ts.last()).len() && atom_frees(ts.last())[i] == x;
        assert(atoms_frees(ts)[atoms_frees(p).len() + w] == x);
    }
}

proof fn lemma_guardeds_frees_elem(ts: Seq<GuardedM>, k: int, x: LVarM)
    requires
        0 <= k < ts.len(),
        guarded_frees(ts[k]).contains(x),
    ensures
        guardeds_frees(ts).contains(x),
    decreases ts.len(),
{
    let p = ts.drop_last();
    if k < ts.len() - 1 {
        assert(p[k] == ts[k]);
        lemma_guardeds_frees_elem(p, k, x);
        let w = choose|i: int| 0 <= i < guardeds_frees(p).len() && guardeds_frees(p)[i] == x;
        assert(guardeds_frees(ts)[w] == x);
    } else {
        let w = choose|i: int| 0 <= i < guarded_frees(ts.last()).len() && guarded_frees(ts.last())[i] == x;
        assert(guardeds_frees(ts)[guardeds_frees(p).len() + w] == x);
    }
}

/// Is every formula of the list in canonical form (see [`gcanon`])?
pub open spec fn gcanons(xs: Seq<GuardedM>) -> bool
    decreases xs,
{
    forall|i: int| 0 <= i < xs.len() ==> gcanon(#[trigger] xs[i])
}

/// Is every atom of the formula, bare or a guard, in canonical form (see
/// [`atom_canon`])?
pub open spec fn gcanon(g: GuardedM) -> bool
    decreases g,
{
    match g {
        GuardedM::Atom(a) => atom_canon(a),
        GuardedM::Disj(xs) => gcanons(xs),
        GuardedM::Conj(xs) => gcanons(xs),
        GuardedM::GGuarded { guards, body, .. } => {
            &&& forall|i: int| 0 <= i < guards.len() ==> atom_canon(#[trigger] guards[i])
            &&& gcanon(*body)
        },
    }
}

proof fn lemma_open_close_atoms(xs: Seq<LVarM>, d: int, ts: Seq<AtomM>)
    requires
        0 <= d,
        d + xs.len() <= u64::MAX,
        xs.no_duplicates(),
        avoids(atoms_frees(ts), xs),
        forall|k: int| 0 <= k < ts.len() ==> atom_canon(#[trigger] ts[k]),
    ensures
        forall|k: int| 0 <= k < ts.len() ==> subst_free_atom_m(close_subst_m(xs), d, subst_bound_atom_m(
            open_subst_m(xs),
            d,
            #[trigger] ts[k],
        )) == ts[k],
{
    assert forall|k: int| 0 <= k < ts.len() implies subst_free_atom_m(close_subst_m(xs), d, subst_bound_atom_m(
        open_subst_m(xs),
        d,
        #[trigger] ts[k],
    )) == ts[k] by {
        assert forall|x: LVarM| atom_frees(ts[k]).contains(x) implies !xs.contains(x) by {
            lemma_atoms_frees_elem(ts, k, x);
        }
        lemma_open_close_atom(xs, d, ts[k]);
    }
}

/// Opening at depth `d` with `xs`.
pub open spec fn open_at(xs: Seq<LVarM>) -> spec_fn(int, AtomM) -> AtomM {
    |e: int, a: AtomM| subst_bound_atom_m(open_subst_m(xs), e, a)
}

/// Closing at depth `d` with `xs`.
pub open spec fn close_at(xs: Seq<LVarM>) -> spec_fn(int, AtomM) -> AtomM {
    |e: int, a: AtomM| subst_free_atom_m(close_subst_m(xs), e, a)
}

proof fn lemma_open_close_guarded(xs: Seq<LVarM>, d: int, g: GuardedM)
    requires
        0 <= d,
        d + gdepth(g) + xs.len() <= u64::MAX,
        xs.no_duplicates(),
        avoids(guarded_frees(g), xs),
        gcanon(g),
    ensures
        map_gatoms(map_gatoms(g, d, open_at(xs)), d, close_at(xs)) == g,
    decreases g, 1nat,
{
    match g {
        GuardedM::Atom(a) => {
            lemma_open_close_atom(xs, d, a);
        },
        GuardedM::Disj(ys) | GuardedM::Conj(ys) => {
            lemma_open_close_gseq(xs, d, g, ys);
        },
        GuardedM::GGuarded { qua, vars, guards, body } => {
            lemma_open_close_quantifier(xs, d, g);
        },
    }
}

proof fn lemma_open_close_gseq(xs: Seq<LVarM>, d: int, g: GuardedM, ys: Seq<GuardedM>)
    requires
        0 <= d,
        g is Disj || g is Conj,
        g is Disj ==> g->Disj_0 == ys,
        g is Conj ==> g->Conj_0 == ys,
        d + gdepth(g) + xs.len() <= u64::MAX,
        xs.no_duplicates(),
        avoids(guarded_frees(g), xs),
        gcanon(g),
    ensures
        map_gatoms_seq(map_gatoms_seq(ys, d, open_at(xs)), d, close_at(xs)) == ys,
    decreases g, 0nat,
{
    let m1 = map_gatoms_seq(ys, d, open_at(xs));
    let m2 = map_gatoms_seq(m1, d, close_at(xs));
    assert(guarded_frees(g) == guardeds_frees(ys));
    assert(gdepth(g) == gdepth_seq(ys));
    assert(gcanons(ys));
    assert forall|k: int| 0 <= k < ys.len() implies #[trigger] m2[k] == ys[k] by {
        assert forall|x: LVarM| guarded_frees(ys[k]).contains(x) implies !xs.contains(x) by {
            lemma_guardeds_frees_elem(ys, k, x);
        }
        lemma_gdepth_seq_elem(ys, k);
        assert(gcanon(ys[k]));
        lemma_open_close_guarded(xs, d, ys[k]);
    }
    assert(m2 =~= ys);
}

proof fn lemma_open_close_quantifier(xs: Seq<LVarM>, d: int, g: GuardedM)
    requires
        0 <= d,
        g is GGuarded,
        d + gdepth(g) + xs.len() <= u64::MAX,
        xs.no_duplicates(),
        avoids(guarded_frees(g), xs),
        gcanon(g),
    ensures
        map_gatoms(map_gatoms(g, d, open_at(xs)), d, close_at(xs)) == g,
    decreases g, 0nat,
{
    let (vars, guards, body) = (g->GGuarded_vars, g->GGuarded_guards, g->GGuarded_body);
    let e = d + vars.len();
    assert forall|x: LVarM| atoms_frees(guards).contains(x) implies !xs.contains(x) by {
        let w = choose|i: int| 0 <= i < atoms_frees(guards).len() && atoms_frees(guards)[i] == x;
        assert(guarded_frees(g)[w] == x);
    }
    assert forall|x: LVarM| guarded_frees(*body).contains(x) implies !xs.contains(x) by {
        let w = choose|i: int| 0 <= i < guarded_frees(*body).len() && guarded_frees(*body)[i] == x;
        assert(guarded_frees(g)[atoms_frees(guards).len() + w] == x);
    }
    lemma_open_close_atoms(xs, e, guards);
    let m1 = map_atoms_at(guards, e, open_at(xs));
    let m2 = map_atoms_at(m1, e, close_at(xs));
    assert(m2 =~= guards);
    lemma_open_close_guarded(xs, e, *body);
}

/// Closing after opening rebuilds a guarded quantifier: opening it on
/// distinct variables that record its binders and occur free nowhere in
/// it, then closing those variables under the same quantifier, gives the
/// formula back, provided the smart constructor keeps it (an existential
/// binds something and its body is not `false`; a universal has a guard
/// and its body is not `true`).
pub proof fn closing_inverts_opening(
    qua: Quantifier,
    vars: Seq<BinderM>,
    guards: Seq<AtomM>,
    body: GuardedM,
    xs: Seq<LVarM>,
)
    requires
        binders_of(xs) == vars,
        xs.no_duplicates(),
        avoids(atoms_frees(guards) + guarded_frees(body), xs),
        gcanon(GuardedM::GGuarded { qua, vars, guards, body: Box::new(body) }),
        xs.len() + gdepth(body) <= u64::MAX,
        qua == Quantifier::Ex ==> vars.len() != 0 && body != gfalse_m(),
        qua == Quantifier::All ==> guards.len() != 0 && body != gtrue_m(),
    ensures
        close_guarded_m(
            qua,
            xs,
            Seq::new(
                guards.len(),
                |i: int| cmap_atom(subst_bound_atom_m(open_subst_m(xs), 0, guards[i]), keep_leaf()),
            ),
            subst_bound_m(open_subst_m(xs), body),
        ) == (GuardedM::GGuarded { qua, vars, guards, body: Box::new(body) }),
{
    let g = GuardedM::GGuarded { qua, vars, guards, body: Box::new(body) };
    assert(guarded_frees(g) == atoms_frees(guards) + guarded_frees(body));
    assert forall|x: LVarM| atoms_frees(guards).contains(x) implies !xs.contains(x) by {
        let w = choose|i: int| 0 <= i < atoms_frees(guards).len() && atoms_frees(guards)[i] == x;
        assert((atoms_frees(guards) + guarded_frees(body))[w] == x);
    }
    assert forall|x: LVarM| guarded_frees(body).contains(x) implies !xs.contains(x) by {
        let w = choose|i: int| 0 <= i < guarded_frees(body).len() && guarded_frees(body)[i] == x;
        assert((atoms_frees(guards) + guarded_frees(body))[atoms_frees(guards).len() + w] == x);
    }
    lemma_subst_leaves_var_valued(xs, 0);
    lemma_open_close_atoms(xs, 0, guards);
    let opened = Seq::new(
        guards.len(),
        |i: int| cmap_atom(subst_bound_atom_m(open_subst_m(xs), 0, guards[i]), keep_leaf()),
    );
    assert forall|i: int| 0 <= i < guards.len() implies #[trigger] opened[i] == subst_bound_atom_m(
        open_subst_m(xs),
        0,
        guards[i],
    ) && cmap_atom(opened[i], keep_leaf()) == opened[i] by {
        lemma_cmap_atom_canon(guards[i], subst_bound_leaf(open_subst_m(xs), 0));
    }
    assert(close_atoms_m(close_subst_m(xs), opened) =~= guards);
    lemma_open_close_guarded(xs, 0, body);
    assert(binders_of(xs).len() == xs.len());
}

/// Closing after opening rebuilds a guarded quantifier opened from a supply
/// that draws above every free variable of it (as a supply seeded from its
/// free variables does): the drawn variables are distinct, record the
/// binders and occur free nowhere in it.  The smart constructor must keep
/// the quantifier, as in [`closing_inverts_opening`].
pub proof fn closing_inverts_opening_from_a_supply(
    qua: Quantifier,
    vars: Seq<BinderM>,
    guards: Seq<AtomM>,
    body: GuardedM,
    m: Map<Seq<char>, u64>,
)
    requires
        room(m, vars.len() as int),
        gcanon(GuardedM::GGuarded { qua, vars, guards, body: Box::new(body) }),
        forall|v: LVarM| #[trigger] (atoms_frees(guards) + guarded_frees(body)).contains(v) ==> v.idx < next_of(m, v.name),
        vars.len() + gdepth(body) <= u64::MAX,
        qua == Quantifier::Ex ==> vars.len() != 0 && body != gfalse_m(),
        qua == Quantifier::All ==> guards.len() != 0 && body != gtrue_m(),
    ensures
        ({
            let xs = opened_vars(vars, m);
            close_guarded_m(
                qua,
                xs,
                Seq::new(
                    guards.len(),
                    |i: int| cmap_atom(subst_bound_atom_m(open_subst_m(xs), 0, guards[i]), keep_leaf()),
                ),
                subst_bound_m(open_subst_m(xs), body),
            ) == (GuardedM::GGuarded { qua, vars, guards, body: Box::new(body) })
        }),
{
    let xs = opened_vars(vars, m);
    let names = binder_names(vars);
    crate::fresh::drawn_indices_are_fresh_and_increasing(m, names);
    let ids = draw_all(m, names).0;
    assert(binders_of(xs) =~= vars);
    assert(xs.no_duplicates()) by {
        assert forall|i: int, j: int| 0 <= i < xs.len() && 0 <= j < xs.len() && i != j implies xs[i] != xs[j] by {
            if names[i] == names[j] {
                if i < j {
                    assert(ids[i] < ids[j]);
                } else {
                    assert(ids[j] < ids[i]);
                }
            }
        }
    }
    assert forall|x: LVarM| (atoms_frees(guards) + guarded_frees(body)).contains(x) implies !xs.contains(x) by {
        if xs.contains(x) {
            let i = choose|i: int| 0 <= i < xs.len() && xs[i] == x;
            assert(ids[i] >= next_of(m, names[i]));
        }
    }
    closing_inverts_opening(qua, vars, guards, body, xs);
}

proof fn lemma_canon_gatoms_fixed(g: GuardedM, d: int)
    requires
        gcanon(g),
    ensures
        map_gatoms(g, d, canon_at()) == g,
    decreases g, 1nat,
{
    match g {
        GuardedM::Atom(a) => lemma_canon_atom_fixed(a),
        GuardedM::Disj(ys) | GuardedM::Conj(ys) => lemma_canon_gseq_fixed(g, ys, d),
        GuardedM::GGuarded { vars, guards, body, .. } => {
            let e = d + vars.len();
            assert forall|k: int| 0 <= k < guards.len() implies #[trigger] map_atoms_at(guards, e, canon_at())[k]
                == guards[k] by {
                lemma_canon_atom_fixed(guards[k]);
            }
            assert(map_atoms_at(guards, e, canon_at()) =~= guards);
            lemma_canon_gatoms_fixed(*body, e);
        },
    }
}

proof fn lemma_canon_gseq_fixed(g: GuardedM, ys: Seq<GuardedM>, d: int)
    requires
        g is Disj || g is Conj,
        g is Disj ==> g->Disj_0 == ys,
        g is Conj ==> g->Conj_0 == ys,
        gcanon(g),
    ensures
        map_gatoms_seq(ys, d, canon_at()) == ys,
    decreases g, 0nat,
{
    assert(gcanons(ys));
    assert forall|k: int| 0 <= k < ys.len() implies #[trigger] map_gatoms_seq(ys, d, canon_at())[k] == ys[k] by {
        assert(gcanon(ys[k]));
        lemma_canon_gatoms_fixed(ys[k], d);
    }
    assert(map_gatoms_seq(ys, d, canon_at()) =~= ys);
}

/// A formula every atom of which is in canonical form (see [`gcanon`]) is
/// left as it stands by canonical rebuilding, so [`is_ac_canonical`]
/// accepts it.
pub proof fn canonical_formulas_pass_the_canonical_check(g: GuardedM)
    requires
        gcanon(g),
    ensures
        canon_guarded_m(g) == g,
{
    lemma_canon_gatoms_fixed(g, 0);
}

proof fn lemma_ste_seq_any_all(xs: Seq<GuardedM>)
    ensures
        ste_seq_m(xs) is Some <==> forall|i: int| 0 <= i < xs.len() ==> (#[trigger] ste_m(xs[i])) is Some,
        match ste_seq_m(xs) {
            Some((any, all)) => (any <==> exists|i: int| 0 <= i < xs.len() && #[trigger] ste_m(xs[i]) == Some(true))
                && (all <==> forall|i: int| 0 <= i < xs.len() ==> #[trigger] ste_m(xs[i]) == Some(true)),
            None => true,
        },
    decreases xs.len(),
{
    if xs.len() > 0 {
        let p = xs.drop_last();
        lemma_ste_seq_any_all(p);
        let l = xs.len() - 1;
        assert(xs[l] == xs.last());
        assert forall|i: int| 0 <= i < p.len() implies #[trigger] ste_m(p[i]) == ste_m(xs[i]) by {
            assert(p[i] == xs[i]);
        }
        match (ste_seq_m(p), ste_m(xs.last())) {
            (Some((a0, l0)), Some(b)) => {
                assert(ste_seq_m(xs) == Some((a0 || b, l0 && b)));
                assert forall|i: int| 0 <= i < xs.len() implies (#[trigger] ste_m(xs[i])) is Some by {
                    if i < l {
                        assert(ste_m(p[i]) is Some);
                    }
                }
                if a0 {
                    let k = choose|k: int| 0 <= k < p.len() && #[trigger] ste_m(p[k]) == Some(true);
                    assert(ste_m(xs[k]) == Some(true));
                }
                if b {
                    assert(ste_m(xs[l]) == Some(true));
                }
                if exists|i: int| 0 <= i < xs.len() && #[trigger] ste_m(xs[i]) == Some(true) {
                    let i = choose|i: int| 0 <= i < xs.len() && #[trigger] ste_m(xs[i]) == Some(true);
                    if i < l {
                        assert(ste_m(p[i]) == Some(true));
                    }
                }
                if l0 && b {
                    assert forall|i: int| 0 <= i < xs.len() implies #[trigger] ste_m(xs[i]) == Some(true) by {
                        if i < l {
                            assert(ste_m(p[i]) == Some(true));
                        }
                    }
                }
                if forall|i: int| 0 <= i < xs.len() ==> #[trigger] ste_m(xs[i]) == Some(true) {
                    assert(ste_m(xs[l]) == Some(true));
                    assert forall|i: int| 0 <= i < p.len() implies #[trigger] ste_m(p[i]) == Some(true) by {
                        assert(ste_m(xs[i]) == Some(true));
                    }
                }
            },
            (None, _) => {
                let k = choose|k: int| 0 <= k < p.len() && !((#[trigger] ste_m(p[k])) is Some);
                assert(!(ste_m(xs[k]) is Some));
            },
            (_, None) => {
                assert(!(ste_m(xs[l]) is Some));
            },
        }
    }
}

/// On the empty trace a disjunction holds exactly when some disjunct holds
/// and a conjunction exactly when every conjunct holds; either is decided
/// exactly when every member is.
pub proof fn empty_trace_decides_disjunctions_and_conjunctions(xs: Seq<GuardedM>)
    ensures
        ste_m(GuardedM::Disj(xs)) is Some <==> forall|i: int| 0 <= i < xs.len() ==> (#[trigger] ste_m(xs[i])) is Some,
        ste_m(GuardedM::Conj(xs)) is Some <==> forall|i: int| 0 <= i < xs.len() ==> (#[trigger] ste_m(xs[i])) is Some,
        ste_m(GuardedM::Disj(xs)) is Some ==> (ste_m(GuardedM::Disj(xs)) == Some(true) <==> exists|i: int|
            0 <= i < xs.len() && #[trigger] ste_m(xs[i]) == Some(true)),
        ste_m(GuardedM::Conj(xs)) is Some ==> (ste_m(GuardedM::Conj(xs)) == Some(true) <==> forall|i: int|
            0 <= i < xs.len() ==> #[trigger] ste_m(xs[i]) == Some(true)),
{
    lemma_ste_seq_any_all(xs);
}

/// On the empty trace, where no action happened, a guarded universal holds
/// vacuously and a guarded existential, whose guards need an action, fails;
/// a bare atom is outside every quantifier and is not decided.
pub proof fn empty_trace_decides_quantifiers(g: GuardedM)
    ensures
        g matches GuardedM::GGuarded { qua: Quantifier::All, .. } ==> ste_m(g) == Some(true),
        g matches GuardedM::GGuarded { qua: Quantifier::Ex, .. } ==> ste_m(g) == Some(false),
        g is Atom ==> ste_m(g) is None,
{
}

} // verus!
