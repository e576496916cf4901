//! First-order formulas in locally nameless form: the connectives and
//! quantifiers, the formula type with its builders, free variables, the
//! quantifier-introduction helpers, De Bruijn shifting, sugar stripping and
//! the opening of quantifier prefixes.
use vstd::prelude::*;
use crate::canon::{cmap_atom, cmap_atom_exec, keep_leaf};
use crate::term::{Atom, AtomM, Binder, BinderM, LSort, LVar, LVarM, Term, TermM, BVar, BVarM, Fact, FactM, Subst, subst_leaf, atoms_m, binders_m, terms_m, lvars_m, copy_atoms, copy_binders, same_atoms, same_binders, map_leaves, map_atom_leaves, map_atom, map_term, atom_frees, collect_atom_frees, lemma_lvars_m_push, atom_has_bound, term_has_bound, atoms_frees, Name};
use crate::fresh::{FreshState, room, next_of, draw, draw_all, lemma_draw_all_room, binder_names, opened_vars, seeded, seeded_avoids_variables};
use crate::variants::{sorted_new, sort_dedup_vars};

verus! {

broadcast use vstd::std_specs::vec::group_vec_axioms;

/// Logical connectives, ordered `And < Or < Imp < Iff`.
#[derive(Clone, Copy, Debug, PartialEq, Eq, PartialOrd, Ord, Hash, Structural)]
pub enum Connective {
    And,
    Or,
    Imp,
    Iff,
}

/// Quantifiers, ordered `All < Ex`.
#[derive(Clone, Copy, Debug, PartialEq, Eq, PartialOrd, Ord, Hash, Structural)]
pub enum Quantifier {
    All,
    Ex,
}

/// A first-order formula in locally nameless form: a quantifier records the
/// name and sort of its binder, and a variable leaf inside an atom is either
/// the De Bruijn index of an enclosing quantifier (`Bound(0)` the innermost)
/// or a free variable.  A formula without `Pred` atoms is a plain formula; a
/// parsed formula may still carry them.
#[derive(Debug)]
pub enum Formula {
    Atom(Atom),
    Tf(bool),
    Not(Box<Formula>),
    Conn(Connective, Box<Formula>, Box<Formula>),
    Qua(Quantifier, Binder, Box<Formula>),
}

/// The model of a formula.
pub enum FormulaM {
    Atom(AtomM),
    Tf(bool),
    Not(Box<FormulaM>),
    Conn(Connective, Box<FormulaM>, Box<FormulaM>),
    Qua(Quantifier, BinderM, Box<FormulaM>),
}

impl Formula {
    pub open spec fn view(&self) -> FormulaM
        decreases self,
    {
        match self {
            Formula::Atom(a) => FormulaM::Atom(a@),
            Formula::Tf(b) => FormulaM::Tf(*b),
            Formula::Not(f) => FormulaM::Not(Box::new(f.view())),
            Formula::Conn(c, a, b) => FormulaM::Conn(*c, Box::new(a.view()), Box::new(b.view())),
            Formula::Qua(q, h, f) => FormulaM::Qua(*q, h@, Box::new(f.view())),
        }
    }

    /// A deep copy.
    pub fn copy(&self) -> (r: Formula)
        ensures
            r@ == self@,
        decreases self,
    {
        match self {
            Formula::Atom(a) => Formula::Atom(a.copy()),
            Formula::Tf(b) => Formula::Tf(*b),
            Formula::Not(f) => Formula::Not(Box::new((**f).copy())),
            Formula::Conn(c, a, b) => Formula::Conn(
                *c,
                Box::new((**a).copy()),
                Box::new((**b).copy()),
            ),
            Formula::Qua(q, h, f) => Formula::Qua(*q, h.copy(), Box::new((**f).copy())),
        }
    }

    /// Structural equality.
    pub fn same(&self, other: &Formula) -> (r: bool)
        ensures
            r == (self@ == other@),
        decreases self,
    {
        match (self, other) {
            (Formula::Atom(a), Formula::Atom(b)) => a.same(b),
            (Formula::Tf(a), Formula::Tf(b)) => *a == *b,
            (Formula::Not(a), Formula::Not(b)) => (**a).same(&**b),
            (Formula::Conn(c, a, b), Formula::Conn(d, x, y)) => *c == *d && (**a).same(&**x) && (
            **b).same(&**y),
            (Formula::Qua(q, h, a), Formula::Qua(r, j, b)) => *q == *r && h.same(j) && (**a).same(
                &**b,
            ),
            _ => false,
        }
    }

    /// `true`.
    pub fn ltrue() -> (r: Formula)
        ensures
            r@ == FormulaM::Tf(true),
    {
        Formula::Tf(true)
    }

    /// `false`.
    pub fn lfalse() -> (r: Formula)
        ensures
            r@ == FormulaM::Tf(false),
    {
        Formula::Tf(false)
    }

    /// `not self`.
    pub fn not(self) -> (r: Formula)
        ensures
            r@ == FormulaM::Not(Box::new(self@)),
    {
        Formula::Not(Box::new(self))
    }

    /// `self & other`.
    pub fn and(self, other: Formula) -> (r: Formula)
        ensures
            r@ == FormulaM::Conn(Connective::And, Box::new(self@), Box::new(other@)),
    {
        Formula::Conn(Connective::And, Box::new(self), Box::new(other))
    }

    /// `self | other`.
    pub fn or(self, other: Formula) -> (r: Formula)
        ensures
            r@ == FormulaM::Conn(Connective::Or, Box::new(self@), Box::new(other@)),
    {
        Formula::Conn(Connective::Or, Box::new(self), Box::new(other))
    }

    /// `self ==> other`.
    pub fn implies(self, other: Formula) -> (r: Formula)
        ensures
            r@ == FormulaM::Conn(Connective::Imp, Box::new(self@), Box::new(other@)),
    {
        Formula::Conn(Connective::Imp, Box::new(self), Box::new(other))
    }

    /// `self <=> other`.
    pub fn iff(self, other: Formula) -> (r: Formula)
        ensures
            r@ == FormulaM::Conn(Connective::Iff, Box::new(self@), Box::new(other@)),
    {
        Formula::Conn(Connective::Iff, Box::new(self), Box::new(other))
    }

    /// `All hint. body` (the body's index 0 refers to the new binder).
    pub fn for_all(hint: Binder, body: Formula) -> (r: Formula)
        ensures
            r@ == FormulaM::Qua(Quantifier::All, hint@, Box::new(body@)),
    {
        Formula::Qua(Quantifier::All, hint, Box::new(body))
    }

    /// `Ex hint. body` (the body's index 0 refers to the new binder).
    pub fn ex(hint: Binder, body: Formula) -> (r: Formula)
        ensures
            r@ == FormulaM::Qua(Quantifier::Ex, hint@, Box::new(body@)),
    {
        Formula::Qua(Quantifier::Ex, hint, Box::new(body))
    }
}

impl PartialEq for Formula {
    fn eq(&self, other: &Formula) -> (r: bool) {
        self.same(other)
    }
}

impl vstd::std_specs::cmp::PartialEqSpecImpl for Formula {
    open spec fn obeys_eq_spec() -> bool {
        true
    }

    open spec fn eq_spec(&self, other: &Formula) -> bool {
        self@ == other@
    }
}

// ---------------------------------------------------------------------------
// Measures
// ---------------------------------------------------------------------------

/// The largest number of quantifiers on a path from the root to an atom.
pub open spec fn fdepth(f: FormulaM) -> nat
    decreases f,
{
    match f {
        FormulaM::Atom(_) => 0,
        FormulaM::Tf(_) => 0,
        FormulaM::Not(g) => fdepth(*g),
        FormulaM::Conn(_, a, b) => if fdepth(*a) > fdepth(*b) {
            fdepth(*a)
        } else {
            fdepth(*b)
        },
        FormulaM::Qua(_, _, g) => 1 + fdepth(*g),
    }
}

/// The number of quantifiers, a bi-implication counting both its arms twice
/// (conversion into the guarded fragment converts each arm twice).
pub open spec fn fcost(f: FormulaM) -> nat
    decreases f,
{
    match f {
        FormulaM::Atom(_) => 0,
        FormulaM::Tf(_) => 0,
        FormulaM::Not(g) => fcost(*g),
        FormulaM::Conn(Connective::Iff, a, b) => 2 * (fcost(*a) + fcost(*b)),
        FormulaM::Conn(_, a, b) => fcost(*a) + fcost(*b),
        FormulaM::Qua(_, _, g) => 1 + fcost(*g),
    }
}

/// The number of nodes, a bi-implication counting one more than an
/// implication between its arms.
pub open spec fn fsize(f: FormulaM) -> nat
    decreases f,
{
    match f {
        FormulaM::Atom(_) => 1,
        FormulaM::Tf(_) => 1,
        FormulaM::Not(g) => 1 + fsize(*g),
        FormulaM::Conn(Connective::Iff, a, b) => 2 + fsize(*a) + fsize(*b),
        FormulaM::Conn(_, a, b) => 1 + fsize(*a) + fsize(*b),
        FormulaM::Qua(_, _, g) => 1 + fsize(*g),
    }
}

/// The quantifier depth is at most the quantifier count.
pub proof fn lemma_fdepth_le_fcost(f: FormulaM)
    ensures
        fdepth(f) <= fcost(f),
    decreases f,
{
    match f {
        FormulaM::Not(g) => lemma_fdepth_le_fcost(*g),
        FormulaM::Conn(_, a, b) => {
            lemma_fdepth_le_fcost(*a);
            lemma_fdepth_le_fcost(*b);
        },
        FormulaM::Qua(_, _, g) => lemma_fdepth_le_fcost(*g),
        _ => {},
    }
}

/// Every bound index refers to a binder: an index at an atom under `d`
/// quantifiers of the formula is below `n + d`, where `n` binders enclose
/// the formula.  A formula scoped at 0 has no dangling index.
pub open spec fn fscoped(fm: FormulaM, n: int) -> bool
    decreases fm,
{
    match fm {
        FormulaM::Atom(a) => atom_indices_at_most(a, n - 1),
        FormulaM::Tf(_) => true,
        FormulaM::Not(g) => fscoped(*g, n),
        FormulaM::Conn(_, a, b) => fscoped(*a, n) && fscoped(*b, n),
        FormulaM::Qua(_, _, g) => fscoped(*g, n + 1),
    }
}

proof fn lemma_term_unscoped_no_bound(t: TermM)
    requires
        term_indices_at_most(t, -1),
    ensures
        !term_has_bound(t),
    decreases t,
{
    match t {
        TermM::App(_, args) => {
            assert forall|i: int| 0 <= i < args.len() implies !term_has_bound(#[trigger] args[i]) by {
                lemma_term_unscoped_no_bound(args[i]);
            }
            lemma_no_bound_seq(args);
        },
        _ => {},
    }
}

/// An atom with no index at all.
pub proof fn lemma_atom_unscoped_no_bound(a: AtomM)
    requires
        atom_indices_at_most(a, -1),
    ensures
        !atom_has_bound(a),
{
    match a {
        AtomM::EqE(x, y) | AtomM::Less(x, y) | AtomM::Subterm(x, y) => {
            lemma_term_unscoped_no_bound(x);
            lemma_term_unscoped_no_bound(y);
        },
        AtomM::Action(t, fa) => {
            lemma_term_unscoped_no_bound(t);
            assert forall|i: int| 0 <= i < fa.terms.len() implies !term_has_bound(#[trigger] fa.terms[i]) by {
                lemma_term_unscoped_no_bound(fa.terms[i]);
            }
            lemma_no_bound_seq(fa.terms);
        },
        AtomM::Last(t) => lemma_term_unscoped_no_bound(t),
        AtomM::Pred(fa) => {
            assert forall|i: int| 0 <= i < fa.terms.len() implies !term_has_bound(#[trigger] fa.terms[i]) by {
                lemma_term_unscoped_no_bound(fa.terms[i]);
            }
            lemma_no_bound_seq(fa.terms);
        },
    }
}

// ---------------------------------------------------------------------------
// Depth-tracking atom maps
// ---------------------------------------------------------------------------

/// Every atom mapped by `f` at its depth: the number of quantifiers between
/// the root (at depth `d`) and the atom; binders are carried across.
pub open spec fn map_fatoms(fm: FormulaM, d: int, f: spec_fn(int, AtomM) -> AtomM) -> FormulaM
    decreases fm,
{
    match fm {
        FormulaM::Atom(a) => FormulaM::Atom(f(d, a)),
        FormulaM::Tf(b) => FormulaM::Tf(b),
        FormulaM::Not(g) => FormulaM::Not(Box::new(map_fatoms(*g, d, f))),
        FormulaM::Conn(c, a, b) => FormulaM::Conn(
            c,
            Box::new(map_fatoms(*a, d, f)),
            Box::new(map_fatoms(*b, d, f)),
        ),
        FormulaM::Qua(q, h, g) => FormulaM::Qua(q, h, Box::new(map_fatoms(*g, d + 1, f))),
    }
}

pub proof fn lemma_map_fatoms_measures(fm: FormulaM, d: int, f: spec_fn(int, AtomM) -> AtomM)
    ensures
        fdepth(map_fatoms(fm, d, f)) == fdepth(fm),
        fcost(map_fatoms(fm, d, f)) == fcost(fm),
        fsize(map_fatoms(fm, d, f)) == fsize(fm),
    decreases fm,
{
    match fm {
        FormulaM::Not(g) => lemma_map_fatoms_measures(*g, d, f),
        FormulaM::Conn(c, a, b) => {
            lemma_map_fatoms_measures(*a, d, f);
            lemma_map_fatoms_measures(*b, d, f);
        },
        FormulaM::Qua(q, h, g) => lemma_map_fatoms_measures(*g, d + 1, f),
        _ => {},
    }
}

/// Map every atom of `fm` with its depth (see [`map_fatoms`]).
pub(crate) fn map_formula_atoms<F: Fn(u64, &Atom) -> Atom>(
    fm: &Formula,
    depth: u64,
    f: &F,
    Ghost(sf): Ghost<spec_fn(int, AtomM) -> AtomM>,
) -> (r: Formula)
    requires
        depth + fdepth(fm@) <= u64::MAX,
        forall|d: u64, a: &Atom| d <= depth + fdepth(fm@) ==> #[trigger] f.requires((d, a)),
        forall|d: u64, a: &Atom, r: Atom| #[trigger] f.ensures((d, a), r) ==> r@ == sf(d as int, a@),
    ensures
        r@ == map_fatoms(fm@, depth as int, sf),
    decreases fm,
{
    match fm {
        Formula::Atom(a) => Formula::Atom(f(depth, a)),
        Formula::Tf(b) => Formula::Tf(*b),
        Formula::Not(g) => Formula::Not(Box::new(map_formula_atoms(g, depth, f, Ghost(sf)))),
        Formula::Conn(c, a, b) => Formula::Conn(
            *c,
            Box::new(map_formula_atoms(a, depth, f, Ghost(sf))),
            Box::new(map_formula_atoms(b, depth, f, Ghost(sf))),
        ),
        Formula::Qua(q, h, g) => Formula::Qua(
            *q,
            h.copy(),
            Box::new(map_formula_atoms(g, depth + 1, f, Ghost(sf))),
        ),
    }
}

/// `r` is `fm` with every atom `a` at depth `d` (the root at depth `depth`)
/// replaced by an atom that `f` may return for `(d, a)`; connectives,
/// quantifiers and their binders stay as they are.
pub open spec fn atoms_mapped_by<F: Fn(u64, &Atom) -> Atom>(f: F, fm: FormulaM, r: FormulaM, depth: int) -> bool
    decreases fm,
{
    match (fm, r) {
        (FormulaM::Atom(a), FormulaM::Atom(b)) => exists|x: Atom, y: Atom|
            x@ == a && y@ == b && #[trigger] f.ensures((depth as u64, &x), y),
        (FormulaM::Tf(p), FormulaM::Tf(q)) => p == q,
        (FormulaM::Not(g), FormulaM::Not(h)) => atoms_mapped_by(f, *g, *h, depth),
        (FormulaM::Conn(c, a, b), FormulaM::Conn(c2, a2, b2)) => c == c2 && atoms_mapped_by(f, *a, *a2, depth)
            && atoms_mapped_by(f, *b, *b2, depth),
        (FormulaM::Qua(q, h, g), FormulaM::Qua(q2, h2, g2)) => q == q2 && h == h2 && atoms_mapped_by(
            f,
            *g,
            *g2,
            depth + 1,
        ),
        _ => false,
    }
}

fn map_atoms_at<F: Fn(u64, &Atom) -> Atom>(fm: &Formula, depth: u64, f: &F) -> (r: Formula)
    requires
        depth + fdepth(fm@) <= u64::MAX,
        forall|d: u64, a: &Atom| #[trigger] f.requires((d, a)),
    ensures
        atoms_mapped_by(*f, fm@, r@, depth as int),
    decreases fm,
{
    match fm {
        Formula::Atom(a) => {
            let b = f(depth, a);
            assert(f.ensures((depth, a), b));
            Formula::Atom(b)
        },
        Formula::Tf(b) => Formula::Tf(*b),
        Formula::Not(g) => Formula::Not(Box::new(map_atoms_at(g, depth, f))),
        Formula::Conn(c, a, b) => Formula::Conn(
            *c,
            Box::new(map_atoms_at(a, depth, f)),
            Box::new(map_atoms_at(b, depth, f)),
        ),
        Formula::Qua(q, h, g) => Formula::Qua(*q, h.copy(), Box::new(map_atoms_at(g, depth + 1, f))),
    }
}

/// Rebuild a borrowed formula with every atom replaced by what `f` returns
/// for it and its depth (the number of quantifiers above it; see
/// [`atoms_mapped_by`]), atoms visited left to right.
pub fn map_atoms_ref<F: Fn(u64, &Atom) -> Atom>(fm: &Formula, f: &F) -> (r: Formula)
    requires
        fdepth(fm@) <= u64::MAX,
        forall|d: u64, a: &Atom| #[trigger] f.requires((d, a)),
    ensures
        atoms_mapped_by(*f, fm@, r@, 0),
{
    map_atoms_at(fm, 0, f)
}

/// [`map_atoms_ref`] on a formula the caller hands over.
pub fn map_atoms<F: Fn(u64, &Atom) -> Atom>(fm: Formula, f: &F) -> (r: Formula)
    requires
        fdepth(fm@) <= u64::MAX,
        forall|d: u64, a: &Atom| #[trigger] f.requires((d, a)),
    ensures
        atoms_mapped_by(*f, fm@, r@, 0),
{
    map_atoms_ref(&fm, f)
}

/// `r` is `fm` with every atom replaced by a formula that `f` may return,
/// as `Ok`, for it; connectives, quantifiers and their binders stay.
pub open spec fn atoms_spliced_by<E, F: Fn(&Atom) -> Result<Formula, E>>(f: F, fm: FormulaM, r: FormulaM) -> bool
    decreases fm,
{
    match fm {
        FormulaM::Atom(a) => exists|x: Atom, y: Formula| x@ == a && y@ == r && #[trigger] f.ensures((&x,), Ok(y)),
        FormulaM::Tf(p) => r == FormulaM::Tf(p),
        FormulaM::Not(g) => match r {
            FormulaM::Not(h) => atoms_spliced_by(f, *g, *h),
            _ => false,
        },
        FormulaM::Conn(c, a, b) => match r {
            FormulaM::Conn(c2, a2, b2) => c == c2 && atoms_spliced_by(f, *a, *a2) && atoms_spliced_by(f, *b, *b2),
            _ => false,
        },
        FormulaM::Qua(q, h, g) => match r {
            FormulaM::Qua(q2, h2, g2) => q == q2 && h == h2 && atoms_spliced_by(f, *g, *g2),
            _ => false,
        },
    }
}

/// `f` may return `Err(e)` for an atom of `fm` whose atoms to the left all
/// got a formula.
pub open spec fn splice_fails_with<E, F: Fn(&Atom) -> Result<Formula, E>>(f: F, fm: FormulaM, e: E) -> bool
    decreases fm,
{
    match fm {
        FormulaM::Atom(a) => exists|x: Atom| x@ == a && #[trigger] f.ensures((&x,), Err(e)),
        FormulaM::Tf(_) => false,
        FormulaM::Not(g) => splice_fails_with(f, *g, e),
        FormulaM::Qua(_, _, g) => splice_fails_with(f, *g, e),
        FormulaM::Conn(_, a, b) => splice_fails_with(f, *a, e) || ((exists|r: FormulaM|
            #[trigger] atoms_spliced_by(f, *a, r)) && splice_fails_with(f, *b, e)),
    }
}

/// Rebuild the formula with every atom replaced by the whole formula `f`
/// returns for it, atoms visited left to right; the first `Err` that `f`
/// returns is the result.
pub fn traverse_formula_atom<E, F: Fn(&Atom) -> Result<Formula, E>>(fm: &Formula, f: &F) -> (r: Result<Formula, E>)
    requires
        forall|a: &Atom| #[trigger] f.requires((a,)),
    ensures
        match r {
            Ok(x) => atoms_spliced_by(*f, fm@, x@),
            Err(e) => splice_fails_with(*f, fm@, e),
        },
    decreases fm,
{
    match fm {
        Formula::Atom(a) => {
            let r = f(a);
            assert(f.ensures((a,), r));
            r
        },
        Formula::Tf(b) => Ok(Formula::Tf(*b)),
        Formula::Not(g) => match traverse_formula_atom(g, f) {
            Ok(x) => Ok(Formula::Not(Box::new(x))),
            Err(e) => Err(e),
        },
        Formula::Conn(c, a, b) => match traverse_formula_atom(a, f) {
            Err(e) => Err(e),
            Ok(x) => match traverse_formula_atom(b, f) {
                Err(e) => {
                    assert(atoms_spliced_by(*f, a@, x@));
                    Err(e)
                },
                Ok(y) => Ok(Formula::Conn(*c, Box::new(x), Box::new(y))),
            },
        },
        Formula::Qua(q, h, g) => match traverse_formula_atom(g, f) {
            Ok(x) => Ok(Formula::Qua(*q, h.copy(), Box::new(x))),
            Err(e) => Err(e),
        },
    }
}

// ---------------------------------------------------------------------------
// Renaming free variables
// ---------------------------------------------------------------------------

/// `u` is `t` with every free variable `x` replaced by a variable that `f`
/// may return for `x`; constants and bound indices stay.
pub open spec fn term_renamed_by<F: Fn(&LVar) -> LVar>(f: F, t: TermM, u: TermM) -> bool
    decreases t,
{
    match (t, u) {
        (TermM::Con(n), TermM::Con(m)) => n == m,
        (TermM::Var(BVarM::Bound(i)), TermM::Var(BVarM::Bound(j))) => i == j,
        (TermM::Var(BVarM::Free(x)), TermM::Var(BVarM::Free(y))) => exists|a: LVar, b: LVar|
            a@ == x && b@ == y && #[trigger] f.ensures((&a,), b),
        (TermM::App(g, xs), TermM::App(h, ys)) => g == h && xs.len() == ys.len() && forall|i: int|
            0 <= i < xs.len() ==> term_renamed_by(f, #[trigger] xs[i], ys[i]),
        _ => false,
    }
}

/// The terms renamed pairwise.
pub open spec fn terms_renamed_by<F: Fn(&LVar) -> LVar>(f: F, ts: Seq<TermM>, us: Seq<TermM>) -> bool {
    ts.len() == us.len() && forall|i: int| 0 <= i < ts.len() ==> term_renamed_by(f, #[trigger] ts[i], us[i])
}

/// An atom renamed term by term (a fact keeps its tag).
pub open spec fn atom_renamed_by<F: Fn(&LVar) -> LVar>(f: F, a: AtomM, b: AtomM) -> bool {
    match (a, b) {
        (AtomM::EqE(x, y), AtomM::EqE(x2, y2)) => term_renamed_by(f, x, x2) && term_renamed_by(f, y, y2),
        (AtomM::Less(x, y), AtomM::Less(x2, y2)) => term_renamed_by(f, x, x2) && term_renamed_by(f, y, y2),
        (AtomM::Subterm(x, y), AtomM::Subterm(x2, y2)) => term_renamed_by(f, x, x2) && term_renamed_by(
            f,
            y,
            y2,
        ),
        (AtomM::Action(t, fa), AtomM::Action(t2, fb)) => term_renamed_by(f, t, t2) && fa.tag == fb.tag
            && terms_renamed_by(f, fa.terms, fb.terms),
        (AtomM::Last(t), AtomM::Last(t2)) => term_renamed_by(f, t, t2),
        (AtomM::Pred(fa), AtomM::Pred(fb)) => fa.tag == fb.tag && terms_renamed_by(f, fa.terms, fb.terms),
        _ => false,
    }
}

/// A formula renamed atom by atom; connectives, quantifiers and binders
/// stay.
pub open spec fn formula_renamed_by<F: Fn(&LVar) -> LVar>(f: F, fm: FormulaM, r: FormulaM) -> bool
    decreases fm,
{
    match (fm, r) {
        (FormulaM::Atom(a), FormulaM::Atom(b)) => atom_renamed_canon_by(f, a, b),
        (FormulaM::Tf(p), FormulaM::Tf(q)) => p == q,
        (FormulaM::Not(g), FormulaM::Not(h)) => formula_renamed_by(f, *g, *h),
        (FormulaM::Conn(c, a, b), FormulaM::Conn(c2, a2, b2)) => c == c2 && formula_renamed_by(f, *a, *a2)
            && formula_renamed_by(f, *b, *b2),
        (FormulaM::Qua(q, h, g), FormulaM::Qua(q2, h2, g2)) => q == q2 && h == h2 && formula_renamed_by(
            f,
            *g,
            *g2,
        ),
        _ => false,
    }
}

fn rename_term<F: Fn(&LVar) -> LVar>(t: &Term, f: &F) -> (r: Term)
    requires
        forall|v: &LVar| #[trigger] f.requires((v,)),
    ensures
        term_renamed_by(*f, t@, r@),
    decreases t,
{
    broadcast use crate::term::group_term_lemmas;

    match t {
        Term::Con(n) => Term::Con(n.copy()),
        Term::Var(BVar::Bound(i)) => Term::Var(BVar::Bound(*i)),
        Term::Var(BVar::Free(x)) => {
            let y = f(x);
            assert(f.ensures((x,), y));
            Term::Var(BVar::Free(y))
        },
        Term::App(g, args) => Term::App(g.copy(), rename_terms(args, f)),
    }
}

fn rename_terms<F: Fn(&LVar) -> LVar>(ts: &Vec<Term>, f: &F) -> (r: Vec<Term>)
    requires
        forall|v: &LVar| #[trigger] f.requires((v,)),
    ensures
        terms_renamed_by(*f, terms_m(ts@), terms_m(r@)),
    decreases ts,
{
    broadcast use crate::term::group_term_lemmas;

    let mut out: Vec<Term> = Vec::new();
    let mut i: usize = 0;
    while i < ts.len()
        invariant
            i <= ts.len(),
            out@.len() == i,
            forall|v: &LVar| #[trigger] f.requires((v,)),
            forall|j: int| 0 <= j < i ==> term_renamed_by(*f, #[trigger] ts@[j]@, out@[j]@),
        decreases ts.len() - i,
    {
        out.push(rename_term(&ts[i], f));
        i += 1;
    }
    out
}

pub(crate) fn rename_atom<F: Fn(&LVar) -> LVar>(a: &Atom, f: &F) -> (r: Atom)
    requires
        forall|v: &LVar| #[trigger] f.requires((v,)),
    ensures
        atom_renamed_by(*f, a@, r@),
{
    match a {
        Atom::EqE(x, y) => Atom::EqE(rename_term(x, f), rename_term(y, f)),
        Atom::Less(x, y) => Atom::Less(rename_term(x, f), rename_term(y, f)),
        Atom::Subterm(x, y) => Atom::Subterm(rename_term(x, f), rename_term(y, f)),
        Atom::Action(t, fa) => Atom::Action(
            rename_term(t, f),
            Fact { tag: fa.tag.copy(), terms: rename_terms(&fa.terms, f) },
        ),
        Atom::Last(t) => Atom::Last(rename_term(t, f)),
        Atom::Pred(fa) => Atom::Pred(Fact { tag: fa.tag.copy(), terms: rename_terms(&fa.terms, f) }),
    }
}

/// `b` is the atom `a` with every free variable renamed through `f` (see
/// [`atom_renamed_by`]) and every application rebuilt in canonical form.
pub open spec fn atom_renamed_canon_by<F: Fn(&LVar) -> LVar>(f: F, a: AtomM, b: AtomM) -> bool {
    exists|c: AtomM| #[trigger] atom_renamed_by(f, a, c) && b == cmap_atom(c, keep_leaf())
}

/// Rename the free variables of an atom through `f` and rebuild it in
/// canonical form (see [`atom_renamed_canon_by`]).
pub fn rename_atom_canon<F: Fn(&LVar) -> LVar>(a: &Atom, f: &F) -> (r: Atom)
    requires
        forall|v: &LVar| #[trigger] f.requires((v,)),
    ensures
        atom_renamed_canon_by(*f, a@, r@),
{
    let c = rename_atom(a, f);
    let leaf = |v: &BVar| -> (t: Term)
        ensures
            t@ == keep_leaf()(v@),
        { Term::Var(v.copy()) };
    let r = cmap_atom_exec(&c, &leaf, Ghost(keep_leaf()));
    assert(atom_renamed_by(*f, a@, c@));
    r
}

/// Rename every free variable of the formula through `f`, keeping the
/// bound indices and the binders (see [`formula_renamed_by`]).
pub fn apply_rename<F: Fn(&LVar) -> LVar>(fm: &Formula, f: &F) -> (r: Formula)
    requires
        forall|v: &LVar| #[trigger] f.requires((v,)),
    ensures
        formula_renamed_by(*f, fm@, r@),
    decreases fm,
{
    match fm {
        Formula::Atom(a) => Formula::Atom(rename_atom_canon(a, f)),
        Formula::Tf(b) => Formula::Tf(*b),
        Formula::Not(g) => Formula::Not(Box::new(apply_rename(g, f))),
        Formula::Conn(c, a, b) => Formula::Conn(*c, Box::new(apply_rename(a, f)), Box::new(apply_rename(b, f))),
        Formula::Qua(q, h, g) => Formula::Qua(*q, h.copy(), Box::new(apply_rename(g, f))),
    }
}

// ---------------------------------------------------------------------------
// Quantifier introduction, shifting, substitution
// ---------------------------------------------------------------------------

/// The leaf rewrite of [`quantify_m`] at depth `i`: the free `x` becomes the
/// index `i`.
pub open spec fn quantify_leaf(x: LVarM, i: int) -> spec_fn(BVarM) -> TermM {
    |v: BVarM|
        match v {
            BVarM::Free(y) => if y == x {
                TermM::Var(BVarM::Bound(i as u64))
            } else {
                TermM::Var(v)
            },
            BVarM::Bound(_) => TermM::Var(v),
        }
}

/// Turn the free variable `x` into the index of a binder about to be put in
/// front of the formula.
pub open spec fn quantify_m(x: LVarM, fm: FormulaM) -> FormulaM {
    map_fatoms(fm, 0, |i: int, a: AtomM| map_atom_leaves(a, quantify_leaf(x, i)))
}

/// Turn the free variable `x` into the index of the binder about to be put
/// in front of `fm`: each free occurrence of `x` becomes the number of
/// quantifiers between the root and it.
pub fn quantify(x: &LVar, fm: &Formula) -> (r: Formula)
    requires
        fdepth(fm@) <= u64::MAX,
    ensures
        r@ == quantify_m(x@, fm@),
{
    let ghost sf = |i: int, a: AtomM| map_atom_leaves(a, quantify_leaf(x@, i));
    let f = |i: u64, a: &Atom| -> (r: Atom)
        ensures
            r@ == sf(i as int, a@),
        {
            let leaf = |v: &BVar| -> (t: Term)
                ensures
                    t@ == quantify_leaf(x@, i as int)(v@),
                {
                    match v {
                        BVar::Free(y) => if y.same(x) {
                            Term::Var(BVar::Bound(i))
                        } else {
                            Term::Var(v.copy())
                        },
                        BVar::Bound(n) => Term::Var(BVar::Bound(*n)),
                    }
                };
            map_atom(a, &leaf, Ghost(quantify_leaf(x@, i as int)))
        };
    map_formula_atoms(fm, 0, &f, Ghost(sf))
}

/// `Ex hint. fm` with the free `x` bound by the new quantifier.
pub fn exists_var(hint: Binder, x: &LVar, fm: &Formula) -> (r: Formula)
    requires
        fdepth(fm@) <= u64::MAX,
    ensures
        r@ == FormulaM::Qua(Quantifier::Ex, hint@, Box::new(quantify_m(x@, fm@))),
{
    Formula::ex(hint, quantify(x, fm))
}

/// `All hint. fm` with the free `x` bound by the new quantifier.
pub fn for_all_var(hint: Binder, x: &LVar, fm: &Formula) -> (r: Formula)
    requires
        fdepth(fm@) <= u64::MAX,
    ensures
        r@ == FormulaM::Qua(Quantifier::All, hint@, Box::new(quantify_m(x@, fm@))),
{
    Formula::for_all(hint, quantify(x, fm))
}

/// The leaf rewrite of [`shift_m`] at depth `i`: an index at or above `i`
/// (one that refers past the formula's own binders) is raised by `n`.
pub open spec fn shift_leaf(n: int, i: int) -> spec_fn(BVarM) -> TermM {
    |v: BVarM|
        match v {
            BVarM::Bound(j) => if j >= i {
                TermM::Var(BVarM::Bound((j + n) as u64))
            } else {
                TermM::Var(v)
            },
            BVarM::Free(_) => TermM::Var(v),
        }
}

pub open spec fn shift_m(n: int, fm: FormulaM) -> FormulaM {
    map_fatoms(fm, 0, |i: int, a: AtomM| map_atom_leaves(a, shift_leaf(n, i)))
}

/// Every bound index in the term is at most `k`.
pub open spec fn term_indices_at_most(t: TermM, k: int) -> bool
    decreases t,
{
    match t {
        TermM::Con(_) => true,
        TermM::Var(BVarM::Bound(j)) => j <= k,
        TermM::Var(BVarM::Free(_)) => true,
        TermM::App(_, args) => terms_indices_at_most(args, k),
    }
}

pub open spec fn terms_indices_at_most(ts: Seq<TermM>, k: int) -> bool
    decreases ts,
{
    forall|i: int| 0 <= i < ts.len() ==> term_indices_at_most(#[trigger] ts[i], k)
}

pub open spec fn atom_indices_at_most(a: AtomM, k: int) -> bool {
    match a {
        AtomM::EqE(x, y) => term_indices_at_most(x, k) && term_indices_at_most(y, k),
        AtomM::Less(x, y) => term_indices_at_most(x, k) && term_indices_at_most(y, k),
        AtomM::Subterm(x, y) => term_indices_at_most(x, k) && term_indices_at_most(y, k),
        AtomM::Action(t, fa) => term_indices_at_most(t, k) && terms_indices_at_most(fa.terms, k),
        AtomM::Last(t) => term_indices_at_most(t, k),
        AtomM::Pred(fa) => terms_indices_at_most(fa.terms, k),
    }
}

/// Every bound index in every atom of the formula is at most `k`.
pub open spec fn findices_at_most(fm: FormulaM, k: int) -> bool
    decreases fm,
{
    match fm {
        FormulaM::Atom(a) => atom_indices_at_most(a, k),
        FormulaM::Tf(_) => true,
        FormulaM::Not(g) => findices_at_most(*g, k),
        FormulaM::Conn(_, a, b) => findices_at_most(*a, k) && findices_at_most(*b, k),
        FormulaM::Qua(_, _, g) => findices_at_most(*g, k),
    }
}

fn shift_term(t: &Term, n: u64, i: u64) -> (r: Term)
    requires
        term_indices_at_most(t@, u64::MAX - n),
    ensures
        r@ == map_leaves(t@, shift_leaf(n as int, i as int)),
    decreases t,
{
    match t {
        Term::Con(c) => Term::Con(c.copy()),
        Term::Var(BVar::Bound(j)) => if *j >= i {
            Term::Var(BVar::Bound(*j + n))
        } else {
            Term::Var(BVar::Bound(*j))
        },
        Term::Var(BVar::Free(y)) => Term::Var(BVar::Free(y.copy())),
        Term::App(g, args) => Term::App(g.copy(), shift_terms(args, n, i)),
    }
}

fn shift_terms(ts: &Vec<Term>, n: u64, i: u64) -> (r: Vec<Term>)
    requires
        terms_indices_at_most(terms_m(ts@), u64::MAX - n),
    ensures
        terms_m(r@) == crate::term::map_leaves_seq(terms_m(ts@), shift_leaf(n as int, i as int)),
    decreases ts,
{
    broadcast use crate::term::group_term_lemmas;

    let mut out: Vec<Term> = Vec::new();
    let mut k: usize = 0;
    while k < ts.len()
        invariant
            k <= ts.len(),
            terms_indices_at_most(terms_m(ts@), u64::MAX - n),
            out@.len() == k,
            forall|j: int|
                0 <= j < k ==> #[trigger] out@[j]@ == map_leaves(
                    ts@[j]@,
                    shift_leaf(n as int, i as int),
                ),
        decreases ts.len() - k,
    {
        assert(terms_m(ts@)[k as int] == ts@[k as int]@);
        out.push(shift_term(&ts[k], n, i));
        k += 1;
    }
    assert(terms_m(out@) =~= crate::term::map_leaves_seq(
        terms_m(ts@),
        shift_leaf(n as int, i as int),
    ));
    out
}

fn shift_atom(a: &Atom, n: u64, i: u64) -> (r: Atom)
    requires
        atom_indices_at_most(a@, u64::MAX - n),
    ensures
        r@ == map_atom_leaves(a@, shift_leaf(n as int, i as int)),
{
    match a {
        Atom::EqE(x, y) => Atom::EqE(shift_term(x, n, i), shift_term(y, n, i)),
        Atom::Less(x, y) => Atom::Less(shift_term(x, n, i), shift_term(y, n, i)),
        Atom::Subterm(x, y) => Atom::Subterm(shift_term(x, n, i), shift_term(y, n, i)),
        Atom::Action(t, fa) => Atom::Action(
            shift_term(t, n, i),
            Fact { tag: fa.tag.copy(), terms: shift_terms(&fa.terms, n, i) },
        ),
        Atom::Last(t) => Atom::Last(shift_term(t, n, i)),
        Atom::Pred(fa) => Atom::Pred(Fact { tag: fa.tag.copy(), terms: shift_terms(&fa.terms, n, i) }),
    }
}

fn shift_formula(fm: &Formula, n: u64, depth: u64) -> (r: Formula)
    requires
        depth + fdepth(fm@) <= u64::MAX,
        findices_at_most(fm@, u64::MAX - n),
    ensures
        r@ == map_fatoms(
            fm@,
            depth as int,
            |i: int, a: AtomM| map_atom_leaves(a, shift_leaf(n as int, i)),
        ),
    decreases fm,
{
    match fm {
        Formula::Atom(a) => Formula::Atom(shift_atom(a, n, depth)),
        Formula::Tf(b) => Formula::Tf(*b),
        Formula::Not(g) => Formula::Not(Box::new(shift_formula(g, n, depth))),
        Formula::Conn(c, a, b) => Formula::Conn(
            *c,
            Box::new(shift_formula(a, n, depth)),
            Box::new(shift_formula(b, n, depth)),
        ),
        Formula::Qua(q, h, g) => Formula::Qua(*q, h.copy(), Box::new(shift_formula(g, n, depth + 1))),
    }
}

/// Raise by `n` every bound index that refers past the formula's own
/// binders (an index at or above the number of quantifiers around its
/// atom), as moving the formula under `n` more binders needs.
pub fn shift_free_indices(n: u64, fm: &Formula) -> (r: Formula)
    requires
        fdepth(fm@) <= u64::MAX,
        findices_at_most(fm@, u64::MAX - n),
    ensures
        r@ == shift_m(n as int, fm@),
{
    shift_formula(fm, n, 0)
}

/// Apply a substitution to the free leaves of every atom, rebuilding every
/// application in canonical form; a binder is an index, outside the domain,
/// so it cannot capture a variable of the image.
pub open spec fn apply_subst_m(s: Seq<(LVarM, TermM)>, fm: FormulaM) -> FormulaM {
    map_fatoms(fm, 0, |i: int, a: AtomM| cmap_atom(a, subst_leaf(s)))
}

/// Apply the substitution `s` to the free occurrences of its domain.
pub fn apply_subst(s: &Subst, fm: &Formula) -> (r: Formula)
    requires
        fdepth(fm@) <= u64::MAX,
    ensures
        r@ == apply_subst_m(s@, fm@),
{
    let ghost sf = |i: int, a: AtomM| cmap_atom(a, subst_leaf(s@));
    let f = |i: u64, a: &Atom| -> (r: Atom)
        ensures
            r@ == sf(i as int, a@),
        { s.apply_atom(a) };
    map_formula_atoms(fm, 0, &f, Ghost(sf))
}

// ---------------------------------------------------------------------------
// Atoms, free variables and facts
// ---------------------------------------------------------------------------

/// The atoms of a formula, left to right.
pub open spec fn fatoms(fm: FormulaM) -> Seq<AtomM>
    decreases fm,
{
    match fm {
        FormulaM::Atom(a) => seq![a],
        FormulaM::Tf(_) => Seq::empty(),
        FormulaM::Not(g) => fatoms(*g),
        FormulaM::Conn(_, a, b) => fatoms(*a) + fatoms(*b),
        FormulaM::Qua(_, _, g) => fatoms(*g),
    }
}

/// The free variables of a formula, in the order its atoms' terms are
/// walked, duplicates kept; bound indices contribute nothing.
pub open spec fn ffrees(fm: FormulaM) -> Seq<LVarM> {
    atoms_frees(fatoms(fm))
}

/// The facts of the action atoms, left to right (a predicate's fact is not
/// an action fact).
pub open spec fn action_facts(xs: Seq<AtomM>) -> Seq<FactM>
    decreases xs.len(),
{
    if xs.len() == 0 {
        Seq::empty()
    } else {
        action_facts(xs.drop_last()) + match xs.last() {
            AtomM::Action(_, fa) => seq![fa],
            _ => Seq::empty(),
        }
    }
}

pub proof fn lemma_atoms_frees_append(a: Seq<AtomM>, b: Seq<AtomM>)
    ensures
        atoms_frees(a + b) == atoms_frees(a) + atoms_frees(b),
    decreases b.len(),
{
    if b.len() == 0 {
        assert(a + b =~= a);
    } else {
        lemma_atoms_frees_append(a, b.drop_last());
        assert((a + b).drop_last() =~= a + b.drop_last());
    }
}

proof fn lemma_action_facts_append(a: Seq<AtomM>, b: Seq<AtomM>)
    ensures
        action_facts(a + b) == action_facts(a) + action_facts(b),
    decreases b.len(),
{
    if b.len() == 0 {
        assert(a + b =~= a);
    } else {
        lemma_action_facts_append(a, b.drop_last());
        assert((a + b).drop_last() =~= a + b.drop_last());
    }
}

fn collect_formula_frees(fm: &Formula, out: &mut Vec<LVar>)
    ensures
        lvars_m(final(out)@) == lvars_m(old(out)@) + ffrees(fm@),
    decreases fm,
{
    let ghost out0 = lvars_m(out@);
    match fm {
        Formula::Atom(a) => {
            collect_atom_frees(a, out);
            let ghost sa = seq![a@];
            assert(sa.drop_last() =~= Seq::<AtomM>::empty());
            assert(sa.last() == a@);
            assert(atoms_frees(sa) == Seq::<LVarM>::empty() + atom_frees(a@)) by {
                reveal_with_fuel(atoms_frees, 2);
            }
            assert(atoms_frees(sa) =~= atom_frees(a@));
        },
        Formula::Tf(_) => {
            assert(lvars_m(out@) =~= out0 + ffrees(fm@));
        },
        Formula::Not(g) | Formula::Qua(_, _, g) => collect_formula_frees(g, out),
        Formula::Conn(_, a, b) => {
            collect_formula_frees(a, out);
            collect_formula_frees(b, out);
            proof {
                lemma_atoms_frees_append(fatoms(a@), fatoms(b@));
            }
            assert(lvars_m(out@) =~= out0 + ffrees(fm@));
        },
    }
}

/// The free variables of the formula, in the order its atoms' terms are
/// walked, duplicates kept.
pub fn formula_frees_list(fm: &Formula) -> (r: Vec<LVar>)
    ensures
        lvars_m(r@) == ffrees(fm@),
{
    let mut out: Vec<LVar> = Vec::new();
    assert(lvars_m(out@) =~= Seq::<LVarM>::empty());
    collect_formula_frees(fm, &mut out);
    assert(lvars_m(out@) =~= ffrees(fm@));
    out
}

/// The free variables of the formula, sorted by index, sort and name, each
/// once.
pub fn formula_frees(fm: &Formula) -> (r: Vec<LVar>)
    ensures
        lvars_m(r@) == sorted_new(ffrees(fm@), Seq::empty()),
{
    let all = formula_frees_list(fm);
    sort_dedup_vars(&all)
}

/// The models of a sequence of facts.
pub open spec fn facts_m(xs: Seq<Fact>) -> Seq<FactM> {
    Seq::new(xs.len(), |i: int| xs[i]@)
}

fn collect_action_facts(fm: &Formula, out: &mut Vec<Fact>)
    ensures
        facts_m(final(out)@) == facts_m(old(out)@) + action_facts(fatoms(fm@)),
    decreases fm,
{
    let ghost out0 = facts_m(out@);
    match fm {
        Formula::Atom(a) => {
            let ghost sa = seq![a@];
            assert(sa.drop_last() =~= Seq::<AtomM>::empty());
            assert(sa.last() == a@);
            assert(fatoms(fm@) == sa);
            match a {
                Atom::Action(_, fa) => {
                    let c = fa.copy();
                    out.push(c);
                    assert(action_facts(sa) =~= seq![fa@]) by {
                        reveal_with_fuel(action_facts, 2);
                    }
                    assert(facts_m(out@) =~= out0 + action_facts(fatoms(fm@)));
                },
                _ => {
                    assert(action_facts(sa) =~= Seq::<FactM>::empty()) by {
                        reveal_with_fuel(action_facts, 2);
                    }
                    assert(facts_m(out@) =~= out0 + action_facts(fatoms(fm@)));
                },
            }
        },
        Formula::Tf(_) => {
            assert(facts_m(out@) =~= out0 + action_facts(fatoms(fm@)));
        },
        Formula::Not(g) | Formula::Qua(_, _, g) => collect_action_facts(g, out),
        Formula::Conn(_, a, b) => {
            collect_action_facts(a, out);
            collect_action_facts(b, out);
            proof {
                lemma_action_facts_append(fatoms(a@), fatoms(b@));
            }
            assert(facts_m(out@) =~= out0 + action_facts(fatoms(fm@)));
        },
    }
}

/// The fact of every action atom, left to right.
pub fn formula_facts(fm: &Formula) -> (r: Vec<Fact>)
    ensures
        facts_m(r@) == action_facts(fatoms(fm@)),
{
    let mut out: Vec<Fact> = Vec::new();
    assert(facts_m(out@) =~= Seq::<FactM>::empty());
    collect_action_facts(fm, &mut out);
    assert(facts_m(out@) =~= action_facts(fatoms(fm@)));
    out
}

/// Does some atom carry the predicate sugar?
pub open spec fn has_pred(fm: FormulaM) -> bool
    decreases fm,
{
    match fm {
        FormulaM::Atom(a) => a is Pred,
        FormulaM::Tf(_) => false,
        FormulaM::Not(g) => has_pred(*g),
        FormulaM::Conn(_, a, b) => has_pred(*a) || has_pred(*b),
        FormulaM::Qua(_, _, g) => has_pred(*g),
    }
}

fn has_pred_exec(fm: &Formula) -> (r: bool)
    ensures
        r == has_pred(fm@),
    decreases fm,
{
    match fm {
        Formula::Atom(a) => matches!(a, Atom::Pred(_)),
        Formula::Tf(_) => false,
        Formula::Not(g) | Formula::Qua(_, _, g) => has_pred_exec(g),
        Formula::Conn(_, a, b) => has_pred_exec(a) || has_pred_exec(b),
    }
}

/// The plain formula: `None` if any atom still carries predicate sugar.
pub fn to_lnformula(fm: &Formula) -> (r: Option<Formula>)
    ensures
        match r {
            Some(g) => !has_pred(fm@) && g@ == fm@,
            None => has_pred(fm@),
        },
{
    if has_pred_exec(fm) {
        None
    } else {
        Some(fm.copy())
    }
}

/// Every variable of the term as a free leaf.  Terms over plain variables
/// and locally nameless terms share one type here, so this is the identity.
pub fn lift_free(t: &Term) -> (r: Term)
    ensures
        r@ == t@,
{
    t.copy()
}

// ---------------------------------------------------------------------------
// Opening binders
// ---------------------------------------------------------------------------

/// The leaf rewrite of opening against a scope (innermost binder last):
/// index `i` becomes the variable `i` binders out.
pub open spec fn scope_leaf(scope: Seq<LVarM>) -> spec_fn(BVarM) -> TermM {
    |v: BVarM|
        match v {
            BVarM::Bound(i) => if i < scope.len() {
                TermM::Var(BVarM::Free(scope[scope.len() - 1 - i]))
            } else {
                TermM::Var(v)
            },
            BVarM::Free(_) => TermM::Var(v),
        }
}

/// Replace every bound index of `t` by the binder it refers to, given the
/// enclosing binders innermost-last in `scope`: `Bound(0)` is the last of
/// `scope`.  An index past the scope is an error, so it is required away.
pub fn open_bound_term(t: &Term, scope: &Vec<LVar>) -> (r: Term)
    requires
        term_indices_at_most(t@, scope@.len() - 1),
    ensures
        r@ == map_leaves(t@, scope_leaf(lvars_m(scope@))),
        !term_has_bound(r@),
{
    let ghost sc = lvars_m(scope@);
    let leaf = |v: &BVar| -> (u: Term)
        ensures
            u@ == scope_leaf(lvars_m(scope@))(v@),
        {
            match v {
                BVar::Bound(i) => if *i < scope.len() as u64 {
                    Term::Var(BVar::Free(scope[scope.len() - 1 - *i as usize].copy()))
                } else {
                    Term::Var(BVar::Bound(*i))
                },
                BVar::Free(x) => Term::Var(BVar::Free(x.copy())),
            }
        };
    let r = map_term(t, &leaf, Ghost(scope_leaf(sc)));
    proof {
        lemma_scope_leaf_closes(t@, sc);
    }
    r
}

proof fn lemma_scope_leaf_closes(t: TermM, sc: Seq<LVarM>)
    requires
        term_indices_at_most(t, sc.len() - 1),
    ensures
        !term_has_bound(map_leaves(t, scope_leaf(sc))),
    decreases t,
{
    match t {
        TermM::App(g, args) => {
            let m = crate::term::map_leaves_seq(args, scope_leaf(sc));
            assert forall|i: int| 0 <= i < m.len() implies !term_has_bound(#[trigger] m[i]) by {
                lemma_scope_leaf_closes(args[i], sc);
            }
            lemma_no_bound_seq(m);
        },
        _ => {},
    }
}

proof fn lemma_no_bound_seq(s: Seq<TermM>)
    requires
        forall|i: int| 0 <= i < s.len() ==> !term_has_bound(#[trigger] s[i]),
    ensures
        !crate::term::terms_have_bound(s),
    decreases s.len(),
{
    if s.len() > 0 {
        lemma_no_bound_seq(s.drop_last());
    }
}

/// The leaf rewrite of opening one binder at depth `i`: the index `i`
/// becomes the free `x`.
pub open spec fn open_one_leaf(x: LVarM, i: int) -> spec_fn(BVarM) -> TermM {
    |v: BVarM|
        match v {
            BVarM::Bound(j) => if j == i {
                TermM::Var(BVarM::Free(x))
            } else {
                TermM::Var(v)
            },
            BVarM::Free(_) => TermM::Var(v),
        }
}

/// The body of a quantifier with its binder replaced by `x`.
pub open spec fn open_one_m(x: LVarM, body: FormulaM) -> FormulaM {
    map_fatoms(body, 0, |i: int, a: AtomM| map_atom_leaves(a, open_one_leaf(x, i)))
}

fn open_one(x: &LVar, body: &Formula) -> (r: Formula)
    requires
        fdepth(body@) <= u64::MAX,
    ensures
        r@ == open_one_m(x@, body@),
{
    let ghost sf = |i: int, a: AtomM| map_atom_leaves(a, open_one_leaf(x@, i));
    let f = |i: u64, a: &Atom| -> (r: Atom)
        ensures
            r@ == sf(i as int, a@),
        {
            let leaf = |v: &BVar| -> (t: Term)
                ensures
                    t@ == open_one_leaf(x@, i as int)(v@),
                {
                    match v {
                        BVar::Bound(j) => if *j == i {
                            Term::Var(BVar::Free(x.copy()))
                        } else {
                            Term::Var(BVar::Bound(*j))
                        },
                        BVar::Free(y) => Term::Var(BVar::Free(y.copy())),
                    }
                };
            map_atom(a, &leaf, Ghost(open_one_leaf(x@, i as int)))
        };
    map_formula_atoms(body, 0, &f, Ghost(sf))
}

/// Open `Q v. body`: the quantifier, a fresh variable for the binder (drawn
/// from the supply by the binder's name), and the body with that variable
/// in the binder's place; `None` (drawing nothing) when `f` is not a
/// quantifier.
pub fn open_formula(f: &Formula, fresh: &mut FreshState) -> (r: Option<(Quantifier, LVar, Formula)>)
    requires
        fdepth(f@) <= u64::MAX,
        room(old(fresh)@, 1),
    ensures
        match f@ {
            FormulaM::Qua(q, h, body) => {
                let x = LVarM { name: h.name, sort: h.sort, idx: next_of(old(fresh)@, h.name) };
                &&& r matches Some((q2, y, b)) && q2 == q && y@ == x && b@ == open_one_m(x, *body)
                &&& final(fresh)@ == draw(old(fresh)@, h.name)
            },
            _ => r is None && final(fresh)@ == old(fresh)@,
        },
{
    match f {
        Formula::Qua(q, h, body) => {
            let x = fresh.fresh_lvar(h.name.as_str(), h.sort);
            let opened = open_one(&x, body);
            Some((*q, x, opened))
        },
        _ => None,
    }
}

/// The binders of the maximal prefix of quantifiers `q` and the formula
/// beneath them.
pub open spec fn prefix_m(q: Quantifier, f: FormulaM) -> (Seq<BinderM>, FormulaM)
    decreases f,
{
    match f {
        FormulaM::Qua(q2, h, g) => if q2 == q {
            let (hints, b) = prefix_m(q, *g);
            (seq![h] + hints, b)
        } else {
            (Seq::empty(), f)
        },
        _ => (Seq::empty(), f),
    }
}

pub proof fn lemma_prefix_measures(q: Quantifier, f: FormulaM)
    ensures
        fdepth(prefix_m(q, f).1) + prefix_m(q, f).0.len() == fdepth(f),
        fcost(prefix_m(q, f).1) + prefix_m(q, f).0.len() == fcost(f),
        fsize(prefix_m(q, f).1) + prefix_m(q, f).0.len() == fsize(f),
    decreases f,
{
    match f {
        FormulaM::Qua(q2, h, g) => if q2 == q {
            lemma_prefix_measures(q, *g);
        },
        _ => {},
    }
}

/// The body beneath a prefix is scoped by the prefix's binders too.
pub proof fn lemma_prefix_scoped(q: Quantifier, f: FormulaM, n: int)
    requires
        fscoped(f, n),
    ensures
        fscoped(prefix_m(q, f).1, n + prefix_m(q, f).0.len()),
    decreases f,
{
    match f {
        FormulaM::Qua(q2, h, g) => if q2 == q {
            lemma_prefix_scoped(q, *g, n + 1);
        },
        _ => {},
    }
}

/// The leaf rewrite of opening a whole prefix at depth `d`: an index that
/// refers to prefix binder `o` (counting from the innermost) becomes that
/// binder's variable; every other index stays.
pub open spec fn prefix_leaf(xs: Seq<LVarM>, d: int) -> spec_fn(BVarM) -> TermM {
    |v: BVarM|
        match v {
            BVarM::Bound(i) => if d <= i && i - d < xs.len() {
                TermM::Var(BVarM::Free(xs[xs.len() - 1 - (i - d)]))
            } else {
                TermM::Var(v)
            },
            BVarM::Free(_) => TermM::Var(v),
        }
}

/// The atom rewrite of opening a whole prefix, by depth.
pub open spec fn prefix_atom_map(xs: Seq<LVarM>) -> spec_fn(int, AtomM) -> AtomM {
    |d: int, a: AtomM| map_atom_leaves(a, prefix_leaf(xs, d))
}

/// The body with every index that refers to a prefix binder replaced by the
/// binder's variable (`xs` outermost first).
pub open spec fn open_prefix_m(xs: Seq<LVarM>, body: FormulaM) -> FormulaM {
    map_fatoms(body, 0, prefix_atom_map(xs))
}

proof fn lemma_prefix_leaf_term(xs: Seq<LVarM>, d: int, t: TermM)
    requires
        d >= 0,
        term_indices_at_most(t, xs.len() + d - 1),
    ensures
        term_indices_at_most(map_leaves(t, prefix_leaf(xs, d)), d - 1),
    decreases t,
{
    match t {
        TermM::App(g, args) => {
            let m = crate::term::map_leaves_seq(args, prefix_leaf(xs, d));
            assert forall|i: int| 0 <= i < m.len() implies term_indices_at_most(#[trigger] m[i], d - 1) by {
                lemma_prefix_leaf_term(xs, d, args[i]);
            }
        },
        _ => {},
    }
}

proof fn lemma_prefix_leaf_terms(xs: Seq<LVarM>, d: int, ts: Seq<TermM>)
    requires
        d >= 0,
        terms_indices_at_most(ts, xs.len() + d - 1),
    ensures
        terms_indices_at_most(crate::term::map_leaves_seq(ts, prefix_leaf(xs, d)), d - 1),
{
    let m = crate::term::map_leaves_seq(ts, prefix_leaf(xs, d));
    assert forall|i: int| 0 <= i < m.len() implies term_indices_at_most(#[trigger] m[i], d - 1) by {
        lemma_prefix_leaf_term(xs, d, ts[i]);
    }
}

/// Opening a prefix of `xs.len()` binders leaves a body scoped where the
/// prefix stood.
pub proof fn lemma_open_prefix_scoped(xs: Seq<LVarM>, fm: FormulaM, d: int)
    requires
        d >= 0,
        fscoped(fm, xs.len() + d),
    ensures
        fscoped(map_fatoms(fm, d, prefix_atom_map(xs)), d),
    decreases fm,
{
    match fm {
        FormulaM::Atom(a) => {
            match a {
                AtomM::EqE(x, y) | AtomM::Less(x, y) | AtomM::Subterm(x, y) => {
                    lemma_prefix_leaf_term(xs, d, x);
                    lemma_prefix_leaf_term(xs, d, y);
                },
                AtomM::Action(t, fa) => {
                    lemma_prefix_leaf_term(xs, d, t);
                    lemma_prefix_leaf_terms(xs, d, fa.terms);
                },
                AtomM::Last(t) => lemma_prefix_leaf_term(xs, d, t),
                AtomM::Pred(fa) => lemma_prefix_leaf_terms(xs, d, fa.terms),
            }
        },
        FormulaM::Not(g) => lemma_open_prefix_scoped(xs, *g, d),
        FormulaM::Conn(_, a, b) => {
            lemma_open_prefix_scoped(xs, *a, d);
            lemma_open_prefix_scoped(xs, *b, d);
        },
        FormulaM::Qua(_, _, g) => lemma_open_prefix_scoped(xs, *g, d + 1),
        _ => {},
    }
}

/// The quantifier of a formula that starts with one.
pub open spec fn head_quantifier(f: FormulaM) -> Quantifier {
    match f {
        FormulaM::Qua(q, _, _) => q,
        _ => Quantifier::All,
    }
}

/// Open the outermost quantifier and every directly nested quantifier of
/// the same kind, each binder with its own fresh variable (outermost drawn
/// first); return the variables outermost first, the quantifier and the
/// body beneath them with the variables in their binders' places.  The
/// formula must start with a quantifier.
pub fn open_formula_prefix(f: &Formula, fresh: &mut FreshState) -> (r: (
    Vec<LVar>,
    Quantifier,
    Formula,
))
    requires
        f@ is Qua,
        fdepth(f@) <= u64::MAX,
        room(old(fresh)@, fdepth(f@) as int),
    ensures
        ({
            let q = head_quantifier(f@);
            let (hints, body) = prefix_m(q, f@);
            let xs = opened_vars(hints, old(fresh)@);
            &&& lvars_m(r.0@) == xs
            &&& r.1 == q
            &&& r.2@ == open_prefix_m(xs, body)
            &&& final(fresh)@ == draw_all(old(fresh)@, binder_names(hints)).1
        }),
{
    let qua = match f {
        Formula::Qua(q, _, _) => *q,
        _ => Quantifier::All,
    };
    let ghost (hints, body_m) = prefix_m(qua, f@);
    let ghost m0 = fresh@;
    proof {
        lemma_prefix_measures(qua, f@);
        lemma_draw_all_room(m0, binder_names(hints), 0);
    }
    let mut xs: Vec<LVar> = Vec::new();
    let mut body = f;
    let ghost mut i: int = 0;
    while extends_prefix(body, qua)
        invariant
            0 <= i <= hints.len(),
            hints == prefix_m(qua, f@).0,
            body_m == prefix_m(qua, f@).1,
            hints.len() <= fdepth(f@),
            m0 == old(fresh)@,
            room(m0, fdepth(f@) as int),
            prefix_m(qua, body@) == (hints.skip(i), body_m),
            xs@.len() == i,
            fresh@ == draw_all(m0, binder_names(hints).take(i)).1,
            forall|j: int| 0 <= j < i ==> #[trigger] xs@[j]@ == (LVarM {
                name: hints[j].name,
                sort: hints[j].sort,
                idx: draw_all(m0, binder_names(hints).take(i)).0[j],
            }),
        decreases hints.len() - i,
    {
        let ghost names = binder_names(hints);
        assert(hints.skip(i).len() > 0);
        assert(names.take(i + 1).drop_last() =~= names.take(i));
        proof {
            lemma_draw_all_room(m0, names.take(i), (fdepth(f@) - i) as int);
        }
        match body {
            Formula::Qua(_, h, inner) => {
                assert(hints.skip(i)[0] == h@);
                assert(hints.skip(i).drop_first() =~= hints.skip(i + 1));
                let x = fresh.fresh_lvar(h.name.as_str(), h.sort);
                xs.push(x);
                body = inner;
            },
            _ => {},
        }
        proof {
            i = i + 1;
        }
    }
    assert(hints.skip(i).len() == 0);
    assert(binder_names(hints).take(hints.len() as int) =~= binder_names(hints));
    assert(lvars_m(xs@) =~= opened_vars(hints, m0));
    assert(body@ == body_m);
    proof {
        lemma_map_fatoms_measures(body_m, 0, prefix_atom_map(lvars_m(xs@)));
    }
    let opened = open_prefix(&xs, body);
    (xs, qua, opened)
}

fn extends_prefix(f: &Formula, q: Quantifier) -> (r: bool)
    ensures
        r == (f@ matches FormulaM::Qua(q2, _, _) && q2 == q),
{
    match f {
        Formula::Qua(q2, _, _) => *q2 == q,
        _ => false,
    }
}

fn open_prefix(xs: &Vec<LVar>, body: &Formula) -> (r: Formula)
    requires
        fdepth(body@) <= u64::MAX,
    ensures
        r@ == open_prefix_m(lvars_m(xs@), body@),
{
    let ghost xm = lvars_m(xs@);
    let ghost sf = |d: int, a: AtomM| map_atom_leaves(a, prefix_leaf(lvars_m(xs@), d));
    let f = |d: u64, a: &Atom| -> (r: Atom)
        ensures
            r@ == sf(d as int, a@),
        {
            let leaf = |v: &BVar| -> (t: Term)
                ensures
                    t@ == prefix_leaf(lvars_m(xs@), d as int)(v@),
                {
                    match v {
                        BVar::Bound(i) => if *i >= d && ((*i - d) as u64) < xs.len() as u64 {
                            let o = (*i - d) as usize;
                            Term::Var(BVar::Free(xs[xs.len() - 1 - o].copy()))
                        } else {
                            Term::Var(BVar::Bound(*i))
                        },
                        BVar::Free(y) => Term::Var(BVar::Free(y.copy())),
                    }
                };
            map_atom(a, &leaf, Ghost(prefix_leaf(lvars_m(xs@), d as int)))
        };
    let r = map_formula_atoms(body, 0, &f, Ghost(sf));
    assert(sf =~= prefix_atom_map(xm));
    r
}

// ---------------------------------------------------------------------------
// Laws
// ---------------------------------------------------------------------------

proof fn lemma_map_leaves_identity(t: TermM, f: spec_fn(BVarM) -> TermM)
    requires
        forall|v: BVarM| #[trigger] f(v) == TermM::Var(v),
    ensures
        map_leaves(t, f) == t,
    decreases t,
{
    match t {
        TermM::App(g, args) => {
            let m = crate::term::map_leaves_seq(args, f);
            assert forall|i: int| 0 <= i < args.len() implies #[trigger] m[i] == args[i] by {
                lemma_map_leaves_identity(args[i], f);
            }
            assert(m =~= args);
        },
        _ => {},
    }
}

proof fn lemma_map_atom_leaves_identity(a: AtomM, f: spec_fn(BVarM) -> TermM)
    requires
        forall|v: BVarM| #[trigger] f(v) == TermM::Var(v),
    ensures
        map_atom_leaves(a, f) == a,
{
    match a {
        AtomM::EqE(x, y) | AtomM::Less(x, y) | AtomM::Subterm(x, y) => {
            lemma_map_leaves_identity(x, f);
            lemma_map_leaves_identity(y, f);
        },
        AtomM::Action(t, fa) => {
            lemma_map_leaves_identity(t, f);
            let m = crate::term::map_leaves_seq(fa.terms, f);
            assert forall|i: int| 0 <= i < fa.terms.len() implies #[trigger] m[i] == fa.terms[i] by {
                lemma_map_leaves_identity(fa.terms[i], f);
            }
            assert(m =~= fa.terms);
        },
        AtomM::Last(t) => lemma_map_leaves_identity(t, f),
        AtomM::Pred(fa) => {
            let m = crate::term::map_leaves_seq(fa.terms, f);
            assert forall|i: int| 0 <= i < fa.terms.len() implies #[trigger] m[i] == fa.terms[i] by {
                lemma_map_leaves_identity(fa.terms[i], f);
            }
            assert(m =~= fa.terms);
        },
    }
}

proof fn lemma_shift_zero_at(fm: FormulaM, d: int)
    requires
        d >= 0,
    ensures
        map_fatoms(fm, d, |i: int, a: AtomM| map_atom_leaves(a, shift_leaf(0, i))) == fm,
    decreases fm,
{
    let sf = |i: int, a: AtomM| map_atom_leaves(a, shift_leaf(0, i));
    match fm {
        FormulaM::Atom(a) => {
            assert forall|v: BVarM| #[trigger] shift_leaf(0, d)(v) == TermM::Var(v) by {
                match v {
                    BVarM::Bound(j) => {
                        if j >= d {
                            assert((j + 0) as u64 == j);
                        }
                    },
                    _ => {},
                }
            }
            lemma_map_atom_leaves_identity(a, shift_leaf(0, d));
        },
        FormulaM::Not(g) => lemma_shift_zero_at(*g, d),
        FormulaM::Conn(_, a, b) => {
            lemma_shift_zero_at(*a, d);
            lemma_shift_zero_at(*b, d);
        },
        FormulaM::Qua(_, _, g) => lemma_shift_zero_at(*g, d + 1),
        _ => {},
    }
}

/// Shifting the free indices by zero changes nothing.
pub proof fn shift_by_zero_is_identity(fm: FormulaM)
    ensures
        shift_m(0, fm) == fm,
{
    lemma_shift_zero_at(fm, 0);
}

proof fn lemma_open_quantify_term(x: LVarM, i: int, t: TermM)
    requires
        0 <= i <= u64::MAX,
        term_indices_at_most(t, i - 1),
    ensures
        map_leaves(map_leaves(t, quantify_leaf(x, i)), open_one_leaf(x, i)) == t,
    decreases t,
{
    match t {
        TermM::App(g, args) => {
            let m1 = crate::term::map_leaves_seq(args, quantify_leaf(x, i));
            let m2 = crate::term::map_leaves_seq(m1, open_one_leaf(x, i));
            assert forall|k: int| 0 <= k < args.len() implies #[trigger] m2[k] == args[k] by {
                lemma_open_quantify_term(x, i, args[k]);
            }
            assert(m2 =~= args);
        },
        _ => {},
    }
}

proof fn lemma_open_quantify_terms(x: LVarM, i: int, ts: Seq<TermM>)
    requires
        0 <= i <= u64::MAX,
        terms_indices_at_most(ts, i - 1),
    ensures
        crate::term::map_leaves_seq(crate::term::map_leaves_seq(ts, quantify_leaf(x, i)), open_one_leaf(x, i))
            == ts,
{
    let m1 = crate::term::map_leaves_seq(ts, quantify_leaf(x, i));
    let m2 = crate::term::map_leaves_seq(m1, open_one_leaf(x, i));
    assert forall|k: int| 0 <= k < ts.len() implies #[trigger] m2[k] == ts[k] by {
        lemma_open_quantify_term(x, i, ts[k]);
    }
    assert(m2 =~= ts);
}

proof fn lemma_open_quantify_at(x: LVarM, fm: FormulaM, d: int)
    requires
        0 <= d,
        d + fdepth(fm) <= u64::MAX,
        fscoped(fm, d),
    ensures
        map_fatoms(
            map_fatoms(fm, d, |i: int, a: AtomM| map_atom_leaves(a, quantify_leaf(x, i))),
            d,
            |i: int, a: AtomM| map_atom_leaves(a, open_one_leaf(x, i)),
        ) == fm,
    decreases fm,
{
    match fm {
        FormulaM::Atom(a) => match a {
            AtomM::EqE(p, q) | AtomM::Less(p, q) | AtomM::Subterm(p, q) => {
                lemma_open_quantify_term(x, d, p);
                lemma_open_quantify_term(x, d, q);
            },
            AtomM::Action(t, fa) => {
                lemma_open_quantify_term(x, d, t);
                lemma_open_quantify_terms(x, d, fa.terms);
            },
            AtomM::Last(t) => lemma_open_quantify_term(x, d, t),
            AtomM::Pred(fa) => lemma_open_quantify_terms(x, d, fa.terms),
        },
        FormulaM::Not(g) => lemma_open_quantify_at(x, *g, d),
        FormulaM::Conn(_, a, b) => {
            lemma_open_quantify_at(x, *a, d);
            lemma_open_quantify_at(x, *b, d);
        },
        FormulaM::Qua(_, _, g) => lemma_open_quantify_at(x, *g, d + 1),
        _ => {},
    }
}

/// Opening a quantifier undoes binding its variable: the body with `x`
/// bound as the new innermost binder, opened with `x`, is the formula
/// again, when the formula has no dangling index.
pub proof fn open_inverts_quantify(x: LVarM, fm: FormulaM)
    requires
        fscoped(fm, 0),
        fdepth(fm) <= u64::MAX,
    ensures
        open_one_m(x, quantify_m(x, fm)) == fm,
{
    lemma_open_quantify_at(x, fm, 0);
}

proof fn lemma_terms_frees_elem(ts: Seq<TermM>, k: int, x: LVarM)
    requires
        !crate::term::terms_frees(ts).contains(x),
        0 <= k < ts.len(),
    ensures
        !crate::term::term_frees(ts[k]).contains(x),
    decreases ts.len(),
{
    let p = ts.drop_last();
    let a = crate::term::terms_frees(p);
    let b = crate::term::term_frees(ts.last());
    if k == ts.len() - 1 {
        if b.contains(x) {
            let j = choose|j: int| 0 <= j < b.len() && b[j] == x;
            assert((a + b)[a.len() + j] == x);
        }
    } else {
        if a.contains(x) {
            let j = choose|j: int| 0 <= j < a.len() && a[j] == x;
            assert((a + b)[j] == x);
        }
        lemma_terms_frees_elem(p, k, x);
        assert(p[k] == ts[k]);
    }
}

proof fn lemma_quantify_open_term(x: LVarM, i: int, t: TermM)
    requires
        0 <= i,
        !crate::term::term_frees(t).contains(x),
    ensures
        map_leaves(map_leaves(t, open_one_leaf(x, i)), quantify_leaf(x, i)) == t,
    decreases t,
{
    match t {
        TermM::Var(BVarM::Free(y)) => {
            assert(crate::term::term_frees(t)[0] == y);
        },
        TermM::App(g, args) => {
            let m1 = crate::term::map_leaves_seq(args, open_one_leaf(x, i));
            let m2 = crate::term::map_leaves_seq(m1, quantify_leaf(x, i));
            assert forall|k: int| 0 <= k < args.len() implies #[trigger] m2[k] == args[k] by {
                lemma_terms_frees_elem(args, k, x);
                lemma_quantify_open_term(x, i, args[k]);
            }
            assert(m2 =~= args);
        },
        _ => {},
    }
}

proof fn lemma_quantify_open_terms(x: LVarM, i: int, ts: Seq<TermM>)
    requires
        0 <= i,
        !crate::term::terms_frees(ts).contains(x),
    ensures
        crate::term::map_leaves_seq(crate::term::map_leaves_seq(ts, open_one_leaf(x, i)), quantify_leaf(x, i))
            == ts,
{
    let m1 = crate::term::map_leaves_seq(ts, open_one_leaf(x, i));
    let m2 = crate::term::map_leaves_seq(m1, quantify_leaf(x, i));
    assert forall|k: int| 0 <= k < ts.len() implies #[trigger] m2[k] == ts[k] by {
        lemma_terms_frees_elem(ts, k, x);
        lemma_quantify_open_term(x, i, ts[k]);
    }
    assert(m2 =~= ts);
}

proof fn lemma_not_in_concat<A>(a: Seq<A>, b: Seq<A>, x: A)
    requires
        !(a + b).contains(x),
    ensures
        !a.contains(x),
        !b.contains(x),
{
    if a.contains(x) {
        let j = choose|j: int| 0 <= j < a.len() && a[j] == x;
        assert((a + b)[j] == x);
    }
    if b.contains(x) {
        let j = choose|j: int| 0 <= j < b.len() && b[j] == x;
        assert((a + b)[a.len() + j] == x);
    }
}

proof fn lemma_quantify_open_at(x: LVarM, fm: FormulaM, d: int)
    requires
        0 <= d,
        !ffrees(fm).contains(x),
    ensures
        map_fatoms(
            map_fatoms(fm, d, |i: int, a: AtomM| map_atom_leaves(a, open_one_leaf(x, i))),
            d,
            |i: int, a: AtomM| map_atom_leaves(a, quantify_leaf(x, i)),
        ) == fm,
    decreases fm,
{
    match fm {
        FormulaM::Atom(a) => {
            assert(seq![a].drop_last() =~= Seq::<AtomM>::empty());
            assert(fatoms(fm) == seq![a]);
            assert(atoms_frees(seq![a]) == atoms_frees(Seq::<AtomM>::empty()) + crate::term::atom_frees(a));
            assert(ffrees(fm) =~= crate::term::atom_frees(a));
            match a {
                AtomM::EqE(p, q) | AtomM::Less(p, q) | AtomM::Subterm(p, q) => {
                    lemma_not_in_concat(crate::term::term_frees(p), crate::term::term_frees(q), x);
                    lemma_quantify_open_term(x, d, p);
                    lemma_quantify_open_term(x, d, q);
                },
                AtomM::Action(t, fa) => {
                    lemma_not_in_concat(crate::term::term_frees(t), crate::term::terms_frees(fa.terms), x);
                    lemma_quantify_open_term(x, d, t);
                    lemma_quantify_open_terms(x, d, fa.terms);
                },
                AtomM::Last(t) => lemma_quantify_open_term(x, d, t),
                AtomM::Pred(fa) => lemma_quantify_open_terms(x, d, fa.terms),
            }
        },
        FormulaM::Not(g) => lemma_quantify_open_at(x, *g, d),
        FormulaM::Conn(_, a, b) => {
            lemma_atoms_frees_append(fatoms(*a), fatoms(*b));
            lemma_not_in_concat(ffrees(*a), ffrees(*b), x);
            lemma_quantify_open_at(x, *a, d);
            lemma_quantify_open_at(x, *b, d);
        },
        FormulaM::Qua(_, _, g) => lemma_quantify_open_at(x, *g, d + 1),
        _ => {},
    }
}

/// Binding a variable undoes opening with it: the body of a quantifier
/// opened with a variable that does not occur free in it, with that
/// variable bound again as the new innermost binder, is the body again.
pub proof fn quantify_inverts_open(x: LVarM, body: FormulaM)
    requires
        !ffrees(body).contains(x),
    ensures
        quantify_m(x, open_one_m(x, body)) == body,
{
    lemma_quantify_open_at(x, body, 0);
}

/// Opening a quantifier with a supply seeded from the formula's free
/// variables and binding the drawn variable again rebuilds the body: the
/// drawn variable never occurs free in it (when no free variable carries
/// the top index).
pub proof fn reopening_from_a_seeded_supply_round_trips(h: BinderM, body: FormulaM)
    requires
        forall|k: int| 0 <= k < ffrees(body).len() ==> (#[trigger] ffrees(body)[k]).idx < u64::MAX,
    ensures
        ({
            let x = LVarM { name: h.name, sort: h.sort, idx: next_of(seeded(ffrees(body)), h.name) };
            quantify_m(x, open_one_m(x, body)) == body
        }),
{
    let vs = ffrees(body);
    let x = LVarM { name: h.name, sort: h.sort, idx: next_of(seeded(vs), h.name) };
    if vs.contains(x) {
        let j = choose|j: int| 0 <= j < vs.len() && vs[j] == x;
        seeded_avoids_variables(vs, j);
    }
    quantify_inverts_open(x, body);
}

/// Quantifying over the variable that opening a quantifier drew rebuilds
/// the quantifier: open `q h. body` with a supply seeded from the formula's
/// own free variables (see [`open_formula`]), then bind the drawn variable
/// again under a binder of its name and sort (see [`for_all_var`] and
/// [`exists_var`]), and the formula comes back (when no free variable
/// carries the top index).
pub proof fn quantify_inverts_open_formula(q: Quantifier, h: BinderM, body: FormulaM)
    requires
        forall|k: int| 0 <= k < ffrees(body).len() ==> (#[trigger] ffrees(body)[k]).idx < u64::MAX,
    ensures
        ({
            let fm = FormulaM::Qua(q, h, Box::new(body));
            let x = LVarM { name: h.name, sort: h.sort, idx: next_of(seeded(ffrees(fm)), h.name) };
            FormulaM::Qua(q, BinderM { name: x.name, sort: x.sort }, Box::new(quantify_m(x, open_one_m(x, body))))
                == fm
        }),
{
    let fm = FormulaM::Qua(q, h, Box::new(body));
    assert(ffrees(fm) == ffrees(body));
    reopening_from_a_seeded_supply_round_trips(h, body);
}

// ---------------------------------------------------------------------------
// Opening a prefix is opening its binders in turn
// ---------------------------------------------------------------------------

/// Open the binders of the quantifiers at the head of `f` one at a time:
/// the outermost with the first variable, the quantifier beneath it with
/// the next, and so on.
pub open spec fn open_successively(xs: Seq<LVarM>, f: FormulaM) -> FormulaM
    decreases xs.len(),
{
    if xs.len() == 0 {
        f
    } else {
        match f {
            FormulaM::Qua(_, _, g) => open_successively(xs.drop_first(), open_one_m(xs[0], *g)),
            _ => f,
        }
    }
}

proof fn lemma_map_leaves_compose(t: TermM, g1: spec_fn(BVarM) -> TermM, g2: spec_fn(BVarM) -> TermM)
    ensures
        map_leaves(map_leaves(t, g1), g2) == map_leaves(t, |v: BVarM| map_leaves(g1(v), g2)),
    decreases t,
{
    match t {
        TermM::App(g, args) => {
            let inner = crate::term::map_leaves_seq(args, g1);
            let lhs = crate::term::map_leaves_seq(inner, g2);
            let rhs = crate::term::map_leaves_seq(args, |v: BVarM| map_leaves(g1(v), g2));
            assert forall|i: int| 0 <= i < args.len() implies #[trigger] lhs[i] == rhs[i] by {
                lemma_map_leaves_compose(args[i], g1, g2);
            }
            assert(lhs =~= rhs);
        },
        _ => {},
    }
}

proof fn lemma_map_terms_compose(ts: Seq<TermM>, g1: spec_fn(BVarM) -> TermM, g2: spec_fn(BVarM) -> TermM)
    ensures
        crate::term::map_leaves_seq(crate::term::map_leaves_seq(ts, g1), g2) == crate::term::map_leaves_seq(
            ts,
            |v: BVarM| map_leaves(g1(v), g2),
        ),
{
    let lhs = crate::term::map_leaves_seq(crate::term::map_leaves_seq(ts, g1), g2);
    let rhs = crate::term::map_leaves_seq(ts, |v: BVarM| map_leaves(g1(v), g2));
    assert forall|i: int| 0 <= i < ts.len() implies #[trigger] lhs[i] == rhs[i] by {
        lemma_map_leaves_compose(ts[i], g1, g2);
    }
    assert(lhs =~= rhs);
}

proof fn lemma_map_atom_leaves_compose(a: AtomM, g1: spec_fn(BVarM) -> TermM, g2: spec_fn(BVarM) -> TermM)
    ensures
        map_atom_leaves(map_atom_leaves(a, g1), g2) == map_atom_leaves(a, |v: BVarM| map_leaves(g1(v), g2)),
{
    match a {
        AtomM::EqE(x, y) | AtomM::Less(x, y) | AtomM::Subterm(x, y) => {
            lemma_map_leaves_compose(x, g1, g2);
            lemma_map_leaves_compose(y, g1, g2);
        },
        AtomM::Action(t, fa) => {
            lemma_map_leaves_compose(t, g1, g2);
            lemma_map_terms_compose(fa.terms, g1, g2);
        },
        AtomM::Last(t) => lemma_map_leaves_compose(t, g1, g2),
        AtomM::Pred(fa) => lemma_map_terms_compose(fa.terms, g1, g2),
    }
}

proof fn lemma_map_fatoms_compose(
    fm: FormulaM,
    d: int,
    f1: spec_fn(int, AtomM) -> AtomM,
    f2: spec_fn(int, AtomM) -> AtomM,
)
    ensures
        map_fatoms(map_fatoms(fm, d, f1), d, f2) == map_fatoms(fm, d, |i: int, a: AtomM| f2(i, f1(i, a))),
    decreases fm,
{
    match fm {
        FormulaM::Not(g) => lemma_map_fatoms_compose(*g, d, f1, f2),
        FormulaM::Conn(_, a, b) => {
            lemma_map_fatoms_compose(*a, d, f1, f2);
            lemma_map_fatoms_compose(*b, d, f1, f2);
        },
        FormulaM::Qua(_, _, g) => lemma_map_fatoms_compose(*g, d + 1, f1, f2),
        _ => {},
    }
}

proof fn lemma_map_fatoms_shift(fm: FormulaM, d: int, e: int, f: spec_fn(int, AtomM) -> AtomM)
    ensures
        map_fatoms(fm, d + e, f) == map_fatoms(fm, e, |i: int, a: AtomM| f(i + d, a)),
    decreases fm,
{
    match fm {
        FormulaM::Not(g) => lemma_map_fatoms_shift(*g, d, e, f),
        FormulaM::Conn(_, a, b) => {
            lemma_map_fatoms_shift(*a, d, e, f);
            lemma_map_fatoms_shift(*b, d, e, f);
        },
        FormulaM::Qua(_, _, g) => {
            lemma_map_fatoms_shift(*g, d, e + 1, f);
            assert(d + e + 1 == d + (e + 1));
        },
        _ => {},
    }
}

proof fn lemma_prefix_of_mapped(q: Quantifier, g: FormulaM, d: int, f: spec_fn(int, AtomM) -> AtomM)
    ensures
        prefix_m(q, map_fatoms(g, d, f)).0 == prefix_m(q, g).0,
        prefix_m(q, map_fatoms(g, d, f)).1 == map_fatoms(prefix_m(q, g).1, d + prefix_m(q, g).0.len(), f),
    decreases g,
{
    match g {
        FormulaM::Qua(q2, h, b) => {
            if q2 == q {
                lemma_prefix_of_mapped(q, *b, d + 1, f);
                assert(d + 1 + prefix_m(q, *b).0.len() == d + prefix_m(q, g).0.len());
            }
        },
        _ => {},
    }
}

proof fn lemma_open_prefix_empty(fm: FormulaM, d: int)
    ensures
        map_fatoms(fm, d, prefix_atom_map(Seq::empty())) == fm,
    decreases fm,
{
    match fm {
        FormulaM::Atom(a) => {
            assert forall|v: BVarM| #[trigger] prefix_leaf(Seq::empty(), d)(v) == TermM::Var(v) by {}
            lemma_map_atom_leaves_identity(a, prefix_leaf(Seq::empty(), d));
        },
        FormulaM::Not(g) => lemma_open_prefix_empty(*g, d),
        FormulaM::Conn(_, a, b) => {
            lemma_open_prefix_empty(*a, d);
            lemma_open_prefix_empty(*b, d);
        },
        FormulaM::Qua(_, _, g) => lemma_open_prefix_empty(*g, d + 1),
        _ => {},
    }
}

/// Opening the whole prefix of like quantifiers at once gives what
/// opening its binders one at a time gives.
pub proof fn opening_a_prefix_is_opening_its_binders_in_turn(q: Quantifier, f: FormulaM, xs: Seq<LVarM>)
    requires
        xs.len() == prefix_m(q, f).0.len(),
    ensures
        open_successively(xs, f) == open_prefix_m(xs, prefix_m(q, f).1),
    decreases xs.len(),
{
    if xs.len() == 0 {
        lemma_open_prefix_empty(f, 0);
        match f {
            FormulaM::Qua(q2, _, _) => {
                assert(q2 != q);
            },
            _ => {},
        }
        assert(prefix_m(q, f).1 == f);
        assert(open_prefix_m(xs, f) == map_fatoms(f, 0, prefix_atom_map(Seq::empty()))) by {
            assert(xs =~= Seq::<LVarM>::empty());
        }
    } else {
        let (q1, h, g) = match f {
            FormulaM::Qua(q1, h, g) => (q1, h, *g),
            _ => {
                assert(false);
                (q, arbitrary(), arbitrary())
            },
        };
        assert(q1 == q);
        let x1 = xs[0];
        let rest = xs.drop_first();
        let k = xs.len();
        let body = prefix_m(q, g).1;
        assert(prefix_m(q, f).1 == body);
        assert(prefix_m(q, g).0.len() == k - 1);
        let o1 = |i: int, a: AtomM| map_atom_leaves(a, open_one_leaf(x1, i));
        let f1 = map_fatoms(g, 0, o1);
        assert(open_one_m(x1, g) == f1);
        lemma_prefix_of_mapped(q, g, 0, o1);
        let body1 = map_fatoms(body, k - 1, o1);
        assert(prefix_m(q, f1).1 == body1);
        opening_a_prefix_is_opening_its_binders_in_turn(q, f1, rest);
        assert(open_successively(xs, f) == open_prefix_m(rest, body1));
        let o1s = |i: int, a: AtomM| o1(i + (k - 1), a);
        lemma_map_fatoms_shift(body, k - 1, 0, o1);
        assert(body1 == map_fatoms(body, 0, o1s));
        lemma_map_fatoms_compose(body, 0, o1s, prefix_atom_map(rest));
        let both = |i: int, a: AtomM| prefix_atom_map(rest)(i, o1s(i, a));
        assert(open_prefix_m(rest, body1) == map_fatoms(body, 0, both));
        assert forall|i: int, a: AtomM| #[trigger] both(i, a) == prefix_atom_map(xs)(i, a) by {
            let g1 = open_one_leaf(x1, i + (k - 1));
            let g2 = prefix_leaf(rest, i);
            lemma_map_atom_leaves_compose(a, g1, g2);
            let comp = |v: BVarM| map_leaves(g1(v), g2);
            assert forall|v: BVarM| #[trigger] comp(v) == prefix_leaf(xs, i)(v) by {
                match v {
                    BVarM::Bound(j) => {
                        if j == i + (k - 1) {
                            assert(xs[xs.len() - 1 - (j - i)] == x1);
                        } else if i <= j && j - i < rest.len() {
                            assert(rest[rest.len() - 1 - (j - i)] == xs[xs.len() - 1 - (j - i)]);
                        }
                    },
                    _ => {},
                }
            }
            assert(comp =~= prefix_leaf(xs, i));
        }
        assert(both =~= prefix_atom_map(xs));
        assert(map_fatoms(body, 0, both) == open_prefix_m(xs, body));
    }
}

} // verus!
