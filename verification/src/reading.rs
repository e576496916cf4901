//! Formulas as read from a theory: the surface syntax closed into a
//! locally nameless formula.  Every atom arrives lifted (its terms
//! elaborated against the signature) with all of its variables free; each
//! quantifier then closes its binders, the last binder of a list innermost.
use vstd::prelude::*;
use crate::formula::{Connective, Formula, FormulaM, Quantifier, fdepth, quantify, quantify_m, quantify_leaf, lemma_map_fatoms_measures};
use crate::surface::{SFormulaM, SurfaceFormula, varspecs_m};
use crate::term::{Atom, AtomM, BinderM, map_atom_leaves};
use crate::vars::{FormulaVars, MsgVars, VarSpec, VarSpecM, varspec_lvar_m};

verus! {

/// The binder hint a written variable records: its name and sort.
pub open spec fn varspec_hint_m(v: VarSpecM) -> BinderM {
    BinderM { name: v.name, sort: v.sort }
}

/// `q v1 .. vn. f`: the binders closed from the last to the first, each
/// turning exactly the free occurrences of its variable (name, sort and
/// index alike) into a reference to itself.
pub open spec fn close_binders_m(q: Quantifier, vs: Seq<VarSpecM>, f: FormulaM) -> FormulaM
    decreases vs.len(),
{
    if vs.len() == 0 {
        f
    } else {
        close_binders_m(
            q,
            vs.drop_last(),
            FormulaM::Qua(q, varspec_hint_m(vs.last()), Box::new(quantify_m(varspec_lvar_m(vs.last()), f))),
        )
    }
}

/// The deepest nesting of binders in a surface formula.
pub open spec fn sdepth(f: SFormulaM) -> nat
    decreases f,
{
    match f {
        SFormulaM::Not(x) => sdepth(*x),
        SFormulaM::And(x, y) | SFormulaM::Or(x, y) | SFormulaM::Implies(x, y) | SFormulaM::Iff(x, y) => {
            if sdepth(*x) > sdepth(*y) {
                sdepth(*x)
            } else {
                sdepth(*y)
            }
        },
        SFormulaM::Forall(vs, x) | SFormulaM::Exists(vs, x) => vs.len() + sdepth(*x),
        _ => 0,
    }
}

/// The number of atoms of a surface formula.
pub open spec fn scount(f: SFormulaM) -> nat
    decreases f,
{
    match f {
        SFormulaM::Atom(_) => 1,
        SFormulaM::Not(x) => scount(*x),
        SFormulaM::And(x, y) | SFormulaM::Or(x, y) | SFormulaM::Implies(x, y) | SFormulaM::Iff(x, y) => scount(*x)
            + scount(*y),
        SFormulaM::Forall(_, x) | SFormulaM::Exists(_, x) => scount(*x),
        _ => 0,
    }
}

/// The formula of the shape of `f` whose atoms, in reading order, are
/// `atoms` from position `k` on, each quantifier closing its binders (see
/// [`close_binders_m`]).
pub open spec fn build_m(f: SFormulaM, atoms: Seq<AtomM>, k: int) -> FormulaM
    decreases f,
{
    match f {
        SFormulaM::False => FormulaM::Tf(false),
        SFormulaM::True => FormulaM::Tf(true),
        SFormulaM::Atom(_) => FormulaM::Atom(atoms[k]),
        SFormulaM::Not(x) => FormulaM::Not(Box::new(build_m(*x, atoms, k))),
        SFormulaM::And(x, y) => FormulaM::Conn(
            Connective::And,
            Box::new(build_m(*x, atoms, k)),
            Box::new(build_m(*y, atoms, k + scount(*x))),
        ),
        SFormulaM::Or(x, y) => FormulaM::Conn(
            Connective::Or,
            Box::new(build_m(*x, atoms, k)),
            Box::new(build_m(*y, atoms, k + scount(*x))),
        ),
        SFormulaM::Implies(x, y) => FormulaM::Conn(
            Connective::Imp,
            Box::new(build_m(*x, atoms, k)),
            Box::new(build_m(*y, atoms, k + scount(*x))),
        ),
        SFormulaM::Iff(x, y) => FormulaM::Conn(
            Connective::Iff,
            Box::new(build_m(*x, atoms, k)),
            Box::new(build_m(*y, atoms, k + scount(*x))),
        ),
        SFormulaM::Forall(vs, x) => close_binders_m(Quantifier::All, vs, build_m(*x, atoms, k)),
        SFormulaM::Exists(vs, x) => close_binders_m(Quantifier::Ex, vs, build_m(*x, atoms, k)),
    }
}

/// The first failure among the lifted atoms, if any.
pub open spec fn first_failure(lifted: Seq<Result<Atom, String>>) -> Option<Seq<char>>
    decreases lifted.len(),
{
    if lifted.len() == 0 {
        None
    } else {
        match first_failure(lifted.drop_last()) {
            Some(e) => Some(e),
            None => match lifted.last() {
                Err(e) => Some(e@),
                Ok(_) => None,
            },
        }
    }
}

/// The lifted atoms, all of which succeeded.
pub open spec fn lifted_atoms(lifted: Seq<Result<Atom, String>>) -> Seq<AtomM> {
    Seq::new(
        lifted.len(),
        |i: int|
            match lifted[i] {
                Ok(a) => a@,
                Err(_) => arbitrary(),
            },
    )
}

/// The model of a reading result.
pub open spec fn read_m(r: Result<Formula, String>) -> Result<FormulaM, Seq<char>> {
    match r {
        Ok(f) => Ok(f@),
        Err(e) => Err(e@),
    }
}

/// Closing adds one level of binders per written variable.
proof fn lemma_close_binders_depth(q: Quantifier, vs: Seq<VarSpecM>, f: FormulaM)
    ensures
        fdepth(close_binders_m(q, vs, f)) == vs.len() + fdepth(f),
    decreases vs.len(),
{
    if vs.len() > 0 {
        let x = varspec_lvar_m(vs.last());
        lemma_map_fatoms_measures(f, 0, |i: int, a: AtomM| map_atom_leaves(a, quantify_leaf(x, i)));
        let g = FormulaM::Qua(q, varspec_hint_m(vs.last()), Box::new(quantify_m(x, f)));
        lemma_close_binders_depth(q, vs.drop_last(), g);
    }
}

/// `q v1 .. vn. f`, the last binder innermost (see [`close_binders_m`]).
pub fn close_binders(q: Quantifier, vs: &Vec<VarSpec>, f: Formula) -> (r: Formula)
    requires
        vs.len() + fdepth(f@) <= u64::MAX,
    ensures
        r@ == close_binders_m(q, varspecs_m(vs@), f@),
{
    let ghost all = varspecs_m(vs@);
    let mut i: usize = vs.len();
    let mut acc = f;
    proof {
        assert(all.take(i as int) =~= all);
    }
    while i > 0
        invariant
            i <= vs.len(),
            all == varspecs_m(vs@),
            close_binders_m(q, all.take(i as int), acc@) == close_binders_m(q, all, f@),
            i + fdepth(acc@) <= vs.len() + fdepth(f@),
            vs.len() + fdepth(f@) <= u64::MAX,
        decreases i,
    {
        let v = &vs[i - 1];
        let x = MsgVars::var(v);
        let hint = MsgVars::hint(&x);
        let ghost before = acc@;
        proof {
            lemma_map_fatoms_measures(
                before,
                0,
                |j: int, a: AtomM| map_atom_leaves(a, quantify_leaf(x@, j)),
            );
            assert(all.take(i as int).drop_last() =~= all.take(i - 1));
            assert(all.take(i as int).last() == v@);
            assert(x@ == varspec_lvar_m(v@));
            assert(hint@ == varspec_hint_m(v@));
        }
        let body = quantify(&x, &acc);
        acc = Formula::Qua(q, hint, Box::new(body));
        i = i - 1;
    }
    proof {
        assert(all.take(0) =~= Seq::<VarSpecM>::empty());
    }
    acc
}

/// Closing a list of binders closes its first part around the closing of
/// the rest: the last binder of a list is the innermost one.
pub proof fn closing_binders_nests_the_last_innermost(
    q: Quantifier,
    vs: Seq<VarSpecM>,
    ws: Seq<VarSpecM>,
    f: FormulaM,
)
    ensures
        close_binders_m(q, vs + ws, f) == close_binders_m(q, vs, close_binders_m(q, ws, f)),
    decreases ws.len(),
{
    if ws.len() == 0 {
        assert(vs + ws =~= vs);
    } else {
        let g = FormulaM::Qua(q, varspec_hint_m(ws.last()), Box::new(quantify_m(varspec_lvar_m(ws.last()), f)));
        assert((vs + ws).drop_last() =~= vs + ws.drop_last());
        assert((vs + ws).last() == ws.last());
        closing_binders_nests_the_last_innermost(q, vs, ws.drop_last(), g);
    }
}

/// The first failure among the lifted atoms.
fn find_failure(lifted: &Vec<Result<Atom, String>>) -> (r: Option<String>)
    ensures
        match r {
            Some(e) => first_failure(lifted@) == Some(e@),
            None => first_failure(lifted@) is None,
        },
{
    let mut i: usize = 0;
    while i < lifted.len()
        invariant
            i <= lifted.len(),
            first_failure(lifted@.take(i as int)) is None,
        decreases lifted.len() - i,
    {
        assert(lifted@.take(i + 1).drop_last() =~= lifted@.take(i as int));
        match &lifted[i] {
            Err(e) => {
                proof {
                    lemma_first_failure_prefix(lifted@, i + 1);
                }
                return Some(e.clone());
            },
            Ok(_) => {},
        }
        i += 1;
    }
    assert(lifted@.take(lifted.len() as int) =~= lifted@);
    None
}

proof fn lemma_first_failure_prefix(s: Seq<Result<Atom, String>>, k: int)
    requires
        0 <= k <= s.len(),
        first_failure(s.take(k)) is Some,
    ensures
        first_failure(s) == first_failure(s.take(k)),
    decreases s.len(),
{
    if k < s.len() {
        assert(s.drop_last().take(k) =~= s.take(k));
        lemma_first_failure_prefix(s.drop_last(), k);
    } else {
        assert(s.take(k) =~= s);
    }
}

/// The formula of the shape of `f` over the lifted atoms from position `k`.
fn build(f: &SurfaceFormula, lifted: &Vec<Result<Atom, String>>, k: usize) -> (r: Formula)
    requires
        k + scount(f@) <= lifted.len(),
        forall|i: int| k <= i < k + scount(f@) ==> lifted@[i] is Ok,
        sdepth(f@) <= u64::MAX,
    ensures
        r@ == build_m(f@, lifted_atoms(lifted@), k as int),
        fdepth(r@) <= sdepth(f@),
    decreases f,
{
    match f {
        SurfaceFormula::False => Formula::Tf(false),
        SurfaceFormula::True => Formula::Tf(true),
        SurfaceFormula::Atom(_) => match &lifted[k] {
            Ok(a) => Formula::Atom(a.copy()),
            Err(_) => {
                assert(false);
                Formula::Tf(false)
            },
        },
        SurfaceFormula::Not(x) => Formula::Not(Box::new(build(x, lifted, k))),
        SurfaceFormula::And(x, y) | SurfaceFormula::Or(x, y) | SurfaceFormula::Implies(x, y)
        | SurfaceFormula::Iff(x, y) => {
            let c = match f {
                SurfaceFormula::And(..) => Connective::And,
                SurfaceFormula::Or(..) => Connective::Or,
                SurfaceFormula::Implies(..) => Connective::Imp,
                _ => Connective::Iff,
            };
            let a = build(x, lifted, k);
            let n = count_atoms(x);
            let b = build(y, lifted, k + n);
            Formula::Conn(c, Box::new(a), Box::new(b))
        },
        SurfaceFormula::Forall(vs, x) | SurfaceFormula::Exists(vs, x) => {
            let q = if matches!(f, SurfaceFormula::Forall(..)) {
                Quantifier::All
            } else {
                Quantifier::Ex
            };
            let b = build(x, lifted, k);
            proof {
                lemma_close_binders_depth(q, varspecs_m(vs@), b@);
            }
            close_binders(q, vs, b)
        },
    }
}

/// The number of atoms of `f` (see [`scount`]).
fn count_atoms(f: &SurfaceFormula) -> (r: usize)
    requires
        scount(f@) <= usize::MAX,
    ensures
        r == scount(f@),
    decreases f,
{
    match f {
        SurfaceFormula::Atom(_) => 1,
        SurfaceFormula::Not(x) | SurfaceFormula::Forall(_, x) | SurfaceFormula::Exists(_, x) => count_atoms(x),
        SurfaceFormula::And(x, y) | SurfaceFormula::Or(x, y) | SurfaceFormula::Implies(x, y)
        | SurfaceFormula::Iff(x, y) => count_atoms(x) + count_atoms(y),
        _ => 0,
    }
}

/// Read a surface formula whose atoms, in reading order, arrive lifted in
/// `lifted`: the first failure among them, or the formula of the shape of
/// `f` over the lifted atoms with each quantifier closing its binders (see
/// [`build_m`]).
pub fn formula_from_surface(f: &SurfaceFormula, lifted: &Vec<Result<Atom, String>>) -> (r: Result<Formula, String>)
    requires
        lifted.len() == scount(f@),
        sdepth(f@) <= u64::MAX,
    ensures
        read_m(r) == match first_failure(lifted@) {
            Some(e) => Err(e),
            None => Ok::<FormulaM, Seq<char>>(build_m(f@, lifted_atoms(lifted@), 0)),
        },
{
    match find_failure(lifted) {
        Some(e) => Err(e),
        None => {
            proof {
                lemma_no_failure_all_ok(lifted@);
            }
            Ok(build(f, lifted, 0))
        },
    }
}

proof fn lemma_no_failure_all_ok(s: Seq<Result<Atom, String>>)
    requires
        first_failure(s) is None,
    ensures
        forall|i: int| 0 <= i < s.len() ==> s[i] is Ok,
    decreases s.len(),
{
    if s.len() > 0 {
        lemma_no_failure_all_ok(s.drop_last());
        assert forall|i: int| 0 <= i < s.len() implies s[i] is Ok by {
            if i < s.len() - 1 {
                assert(s[i] == s.drop_last()[i]);
            }
        }
    }
}

} // verus!
