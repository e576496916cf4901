//! The canonical form of applications.  An application of an
//! associative-commutative symbol is rebuilt with nested applications of the
//! same symbol spliced in and its arguments sorted (a single argument stands
//! for the application itself); an application of a commutative symbol has
//! its arguments sorted; any other application stays as it is.  Terms are
//! sorted in the order of their keys (see [`crate::order`]): constants, then
//! variables (bound indices before free variables), then applications.
use vstd::prelude::*;
use crate::order::{
    key_order, key_order_of, term_key, push_term, lemma_key_order_refl, lemma_key_order_antisym, lemma_key_order_trans,
    lemma_key_order_zero, lemma_term_key_unique,
};
use vstd::relations::{sorted_by, total_ordering};
use vstd::seq_lib::lemma_sorted_unique;
use crate::term::{
    AcSym, AcSymM, Atom, AtomM, BVar, BVarM, Fact, FactM, FunSym, FunSymM, Term, TermM, terms_m, group_term_lemmas,
    term_has_bound, terms_have_bound, atom_has_bound,
};

verus! {

/// The leaf map that keeps every leaf: mapping with it rebuilds every
/// application in canonical form and changes nothing else.
pub open spec fn keep_leaf() -> spec_fn(BVarM) -> TermM {
    |v: BVarM| TermM::Var(v)
}

/// Does `a` come no later than `b` in the order of terms?
pub open spec fn term_leq(a: TermM, b: TermM) -> bool {
    key_order(term_key(a), term_key(b)) <= 0
}

/// `x` put in front of the first element of `s` it comes no later than.
pub open spec fn insert_sorted_m(s: Seq<TermM>, x: TermM) -> Seq<TermM>
    decreases s.len(),
{
    if s.len() == 0 {
        seq![x]
    } else if term_leq(x, s[0]) {
        seq![x] + s
    } else {
        seq![s[0]] + insert_sorted_m(s.drop_first(), x)
    }
}

/// The terms in order.
pub open spec fn sort_terms_m(s: Seq<TermM>) -> Seq<TermM>
    decreases s.len(),
{
    if s.len() == 0 {
        s
    } else {
        insert_sorted_m(sort_terms_m(s.drop_last()), s.last())
    }
}

/// The arguments with every application of the symbol `a` replaced by its
/// own arguments.
pub open spec fn ac_flat_m(a: AcSymM, s: Seq<TermM>) -> Seq<TermM>
    decreases s.len(),
{
    if s.len() == 0 {
        s
    } else {
        ac_flat_m(a, s.drop_last()) + match s.last() {
            TermM::App(FunSymM::Ac(b), ts) => if b == a {
                ts
            } else {
                seq![s.last()]
            },
            t => seq![t],
        }
    }
}

/// The application of `f` to `args` in canonical form.
pub open spec fn canon_app_m(f: FunSymM, args: Seq<TermM>) -> TermM {
    match f {
        FunSymM::Ac(a) => if args.len() == 1 {
            args[0]
        } else if args.len() == 0 {
            TermM::App(f, args)
        } else {
            TermM::App(f, sort_terms_m(ac_flat_m(a, args)))
        },
        FunSymM::C(_) => TermM::App(f, sort_terms_m(args)),
        _ => TermM::App(f, args),
    }
}

/// Replace every variable leaf by what `g` gives it, rebuilding every
/// application in canonical form.
pub open spec fn cmap_term(t: TermM, g: spec_fn(BVarM) -> TermM) -> TermM
    decreases t,
{
    match t {
        TermM::Con(n) => TermM::Con(n),
        TermM::Var(v) => g(v),
        TermM::App(f, args) => canon_app_m(f, cmap_terms(args, g)),
    }
}

pub open spec fn cmap_terms(ts: Seq<TermM>, g: spec_fn(BVarM) -> TermM) -> Seq<TermM>
    decreases ts,
{
    Seq::new(ts.len(), |i: int| if 0 <= i < ts.len() { cmap_term(ts[i], g) } else { TermM::Var(BVarM::Bound(0)) })
}

pub open spec fn cmap_fact(fa: FactM, g: spec_fn(BVarM) -> TermM) -> FactM {
    FactM { tag: fa.tag, terms: cmap_terms(fa.terms, g) }
}

/// [`cmap_term`] on every term of an atom.
pub open spec fn cmap_atom(a: AtomM, g: spec_fn(BVarM) -> TermM) -> AtomM {
    match a {
        AtomM::EqE(x, y) => AtomM::EqE(cmap_term(x, g), cmap_term(y, g)),
        AtomM::Less(x, y) => AtomM::Less(cmap_term(x, g), cmap_term(y, g)),
        AtomM::Subterm(x, y) => AtomM::Subterm(cmap_term(x, g), cmap_term(y, g)),
        AtomM::Action(t, fa) => AtomM::Action(cmap_term(t, g), cmap_fact(fa, g)),
        AtomM::Last(t) => AtomM::Last(cmap_term(t, g)),
        AtomM::Pred(fa) => AtomM::Pred(cmap_fact(fa, g)),
    }
}

/// Does some variable leaf of the term satisfy `p`?
pub open spec fn touches(t: TermM, p: spec_fn(BVarM) -> bool) -> bool
    decreases t,
{
    match t {
        TermM::Var(v) => p(v),
        TermM::App(_, args) => exists|i: int| 0 <= i < args.len() && touches(#[trigger] args[i], p),
        _ => false,
    }
}

/// Replace the leaves that `p` selects by what `g` gives them.  Exactly the
/// applications above a selected leaf are rebuilt in canonical form; every
/// subterm without a selected leaf stays as it stands.
pub open spec fn pmap_term(t: TermM, p: spec_fn(BVarM) -> bool, g: spec_fn(BVarM) -> TermM) -> TermM
    decreases t,
{
    match t {
        TermM::Var(v) => if p(v) {
            g(v)
        } else {
            t
        },
        TermM::App(f, args) => if touches(t, p) {
            canon_app_m(f, pmap_terms(args, p, g))
        } else {
            t
        },
        _ => t,
    }
}

pub open spec fn pmap_terms(ts: Seq<TermM>, p: spec_fn(BVarM) -> bool, g: spec_fn(BVarM) -> TermM) -> Seq<TermM>
    decreases ts,
{
    Seq::new(ts.len(), |i: int| if 0 <= i < ts.len() { pmap_term(ts[i], p, g) } else { TermM::Var(BVarM::Bound(0)) })
}

/// [`pmap_term`] on every term of an atom.
pub open spec fn pmap_atom(a: AtomM, p: spec_fn(BVarM) -> bool, g: spec_fn(BVarM) -> TermM) -> AtomM {
    match a {
        AtomM::EqE(x, y) => AtomM::EqE(pmap_term(x, p, g), pmap_term(y, p, g)),
        AtomM::Less(x, y) => AtomM::Less(pmap_term(x, p, g), pmap_term(y, p, g)),
        AtomM::Subterm(x, y) => AtomM::Subterm(pmap_term(x, p, g), pmap_term(y, p, g)),
        AtomM::Action(t, fa) => AtomM::Action(pmap_term(t, p, g), FactM { tag: fa.tag, terms: pmap_terms(fa.terms, p, g) }),
        AtomM::Last(t) => AtomM::Last(pmap_term(t, p, g)),
        AtomM::Pred(fa) => AtomM::Pred(FactM { tag: fa.tag, terms: pmap_terms(fa.terms, p, g) }),
    }
}

// ---------------------------------------------------------------------------
// Computing the canonical form
// ---------------------------------------------------------------------------

/// Does `a` come no later than `b` (see [`term_leq`])?
pub fn term_leq_exec(a: &Term, b: &Term) -> (r: bool)
    ensures
        r == term_leq(a@, b@),
{
    let mut ka: Vec<u64> = Vec::new();
    let mut kb: Vec<u64> = Vec::new();
    push_term(a, &mut ka);
    push_term(b, &mut kb);
    assert(ka@ =~= term_key(a@));
    assert(kb@ =~= term_key(b@));
    key_order_of(&ka, &kb) <= 0
}

proof fn lemma_insert_at(s: Seq<TermM>, x: TermM, p: int)
    requires
        0 <= p <= s.len(),
        forall|j: int| 0 <= j < p ==> !term_leq(x, #[trigger] s[j]),
        p < s.len() ==> term_leq(x, s[p]),
    ensures
        insert_sorted_m(s, x) == s.take(p) + seq![x] + s.skip(p),
    decreases s.len(),
{
    if s.len() == 0 {
        assert(s.take(p) + seq![x] + s.skip(p) =~= seq![x]);
    } else if p == 0 {
        assert(s.take(p) + seq![x] + s.skip(p) =~= seq![x] + s);
    } else {
        let t = s.drop_first();
        assert forall|j: int| 0 <= j < p - 1 implies !term_leq(x, #[trigger] t[j]) by {
            assert(t[j] == s[j + 1]);
        }
        if p - 1 < t.len() {
            assert(t[p - 1] == s[p]);
        }
        lemma_insert_at(t, x, p - 1);
        assert(seq![s[0]] + (t.take(p - 1) + seq![x] + t.skip(p - 1)) =~= s.take(p) + seq![x] + s.skip(p));
    }
}

/// Put `x` into `out` in front of the first element it comes no later than.
fn insert_sorted(out: &mut Vec<Term>, x: Term)
    ensures
        terms_m(final(out)@) == insert_sorted_m(terms_m(old(out)@), x@),
{
    broadcast use group_term_lemmas;

    let ghost s = terms_m(out@);
    let mut p: usize = 0;
    let mut found = false;
    while p < out.len() && !found
        invariant
            p <= out.len(),
            s == terms_m(out@),
            forall|j: int| 0 <= j < p ==> !term_leq(x@, #[trigger] s[j]),
            found ==> p < out.len() && term_leq(x@, s[p as int]),
        decreases out.len() - p, if found { 0int } else { 1int },
    {
        if term_leq_exec(&x, &out[p]) {
            found = true;
        } else {
            p += 1;
        }
    }
    proof {
        lemma_insert_at(s, x@, p as int);
    }
    out.insert(p, x);
    assert(terms_m(out@) =~= s.take(p as int) + seq![x@] + s.skip(p as int));
}

/// The terms in order (see [`sort_terms_m`]).
pub fn sort_terms(ts: Vec<Term>) -> (r: Vec<Term>)
    ensures
        terms_m(r@) == sort_terms_m(terms_m(ts@)),
{
    broadcast use group_term_lemmas;

    let ghost s = terms_m(ts@);
    let mut out: Vec<Term> = Vec::new();
    let mut i: usize = 0;
    assert(s.take(0) =~= Seq::<TermM>::empty());
    assert(terms_m(out@) =~= sort_terms_m(s.take(0)));
    while i < ts.len()
        invariant
            i <= ts.len(),
            s == terms_m(ts@),
            terms_m(out@) == sort_terms_m(s.take(i as int)),
        decreases ts.len() - i,
    {
        assert(s.take(i + 1).drop_last() =~= s.take(i as int));
        assert(s.take(i + 1).last() == ts@[i as int]@);
        insert_sorted(&mut out, ts[i].copy());
        i += 1;
    }
    assert(s.take(ts.len() as int) =~= s);
    out
}

/// Splice in the arguments of every application of `a` (see [`ac_flat_m`]).
fn ac_flat(a: &AcSym, ts: &Vec<Term>) -> (r: Vec<Term>)
    ensures
        terms_m(r@) == ac_flat_m(a@, terms_m(ts@)),
{
    broadcast use group_term_lemmas;

    let ghost s = terms_m(ts@);
    let mut out: Vec<Term> = Vec::new();
    let mut i: usize = 0;
    assert(s.take(0) =~= Seq::<TermM>::empty());
    assert(terms_m(out@) =~= ac_flat_m(a@, s.take(0)));
    while i < ts.len()
        invariant
            i <= ts.len(),
            s == terms_m(ts@),
            terms_m(out@) == ac_flat_m(a@, s.take(i as int)),
        decreases ts.len() - i,
    {
        assert(s.take(i + 1).drop_last() =~= s.take(i as int));
        assert(s.take(i + 1).last() == ts@[i as int]@);
        let ghost before = terms_m(out@);
        let spliced = match &ts[i] {
            Term::App(FunSym::Ac(b), inner) => b.same(a),
            _ => false,
        };
        if spliced {
            match &ts[i] {
                Term::App(_, inner) => {
                    let mut j: usize = 0;
                    while j < inner.len()
                        invariant
                            j <= inner.len(),
                            terms_m(out@) == before + terms_m(inner@).take(j as int),
                        decreases inner.len() - j,
                    {
                        let c = inner[j].copy();
                        let ghost o1 = out@;
                        assert(c@ == terms_m(inner@)[j as int]);
                        out.push(c);
                        assert(out@ == o1.push(c));
                        assert(terms_m(out@) =~= terms_m(o1).push(c@));
                        assert(terms_m(inner@).take(j + 1) =~= terms_m(inner@).take(j as int).push(c@));
                        assert(terms_m(out@) =~= before + terms_m(inner@).take(j + 1));
                        j += 1;
                    }
                    assert(terms_m(inner@).take(inner.len() as int) =~= terms_m(inner@));
                },
                _ => {},
            }
        } else {
            out.push(ts[i].copy());
            assert(terms_m(out@) =~= before + seq![ts@[i as int]@]);
        }
        assert(terms_m(out@) =~= ac_flat_m(a@, s.take(i + 1)));
        i += 1;
    }
    assert(s.take(ts.len() as int) =~= s);
    out
}

/// The application of `f` to `args` in canonical form (see [`canon_app_m`]).
pub fn canon_app(f: FunSym, args: Vec<Term>) -> (r: Term)
    ensures
        r@ == canon_app_m(f@, terms_m(args@)),
{
    broadcast use group_term_lemmas;

    match &f {
        FunSym::Ac(a) => {
            if args.len() == 1 {
                return args[0].copy();
            } else if args.len() == 0 {
                return Term::App(f, args);
            }
            let flat = ac_flat(a, &args);
            let sorted = sort_terms(flat);
            Term::App(f, sorted)
        },
        FunSym::C(_) => Term::App(f, sort_terms(args)),
        _ => Term::App(f, args),
    }
}

/// The exec counterpart of [`cmap_term`]: `f` computes what `g` states.
pub fn cmap_term_exec<F: Fn(&BVar) -> Term>(t: &Term, f: &F, Ghost(g): Ghost<spec_fn(BVarM) -> TermM>) -> (r:
    Term)
    requires
        forall|v: &BVar| #[trigger] f.requires((v,)),
        forall|v: &BVar, r: Term| #[trigger] f.ensures((v,), r) ==> r@ == g(v@),
    ensures
        r@ == cmap_term(t@, g),
    decreases t,
{
    match t {
        Term::Con(n) => Term::Con(n.copy()),
        Term::Var(v) => f(v),
        Term::App(h, args) => canon_app(h.copy(), cmap_terms_exec(args, f, Ghost(g))),
    }
}

/// [`cmap_term_exec`] over a list.
#[verifier::loop_isolation(false)]
pub fn cmap_terms_exec<F: Fn(&BVar) -> Term>(ts: &Vec<Term>, f: &F, Ghost(g): Ghost<spec_fn(BVarM) -> TermM>) -> (r:
    Vec<Term>)
    requires
        forall|v: &BVar| #[trigger] f.requires((v,)),
        forall|v: &BVar, r: Term| #[trigger] f.ensures((v,), r) ==> r@ == g(v@),
    ensures
        terms_m(r@) == cmap_terms(terms_m(ts@), g),
    decreases ts,
{
    let mut out: Vec<Term> = Vec::new();
    let mut i: usize = 0;
    while i < ts.len()
        invariant
            i <= ts.len(),
            out@.len() == i,
            forall|j: int| 0 <= j < i ==> #[trigger] out@[j]@ == cmap_term(ts@[j]@, g),
        decreases ts.len() - i,
    {
        out.push(cmap_term_exec(&ts[i], f, Ghost(g)));
        i += 1;
    }
    assert(terms_m(out@) =~= cmap_terms(terms_m(ts@), g)) by {
        broadcast use group_term_lemmas;
    }
    out
}

/// [`cmap_term_exec`] on every term of an atom.
pub fn cmap_atom_exec<F: Fn(&BVar) -> Term>(a: &Atom, f: &F, Ghost(g): Ghost<spec_fn(BVarM) -> TermM>) -> (r: Atom)
    requires
        forall|v: &BVar| #[trigger] f.requires((v,)),
        forall|v: &BVar, r: Term| #[trigger] f.ensures((v,), r) ==> r@ == g(v@),
    ensures
        r@ == cmap_atom(a@, g),
{
    match a {
        Atom::EqE(x, y) => Atom::EqE(cmap_term_exec(x, f, Ghost(g)), cmap_term_exec(y, f, Ghost(g))),
        Atom::Less(x, y) => Atom::Less(cmap_term_exec(x, f, Ghost(g)), cmap_term_exec(y, f, Ghost(g))),
        Atom::Subterm(x, y) => Atom::Subterm(cmap_term_exec(x, f, Ghost(g)), cmap_term_exec(y, f, Ghost(g))),
        Atom::Action(t, fa) => Atom::Action(
            cmap_term_exec(t, f, Ghost(g)),
            Fact { tag: fa.tag.copy(), terms: cmap_terms_exec(&fa.terms, f, Ghost(g)) },
        ),
        Atom::Last(t) => Atom::Last(cmap_term_exec(t, f, Ghost(g))),
        Atom::Pred(fa) => Atom::Pred(Fact { tag: fa.tag.copy(), terms: cmap_terms_exec(&fa.terms, f, Ghost(g)) }),
    }
}

/// The exec counterpart of [`pmap_term`]: `f` gives `None` on a leaf that `p`
/// leaves out and what `g` gives on one it selects; `None` when the term has
/// no selected leaf.
pub fn pmap_term_exec<F: Fn(&BVar) -> Option<Term>>(
    t: &Term,
    f: &F,
    Ghost(p): Ghost<spec_fn(BVarM) -> bool>,
    Ghost(g): Ghost<spec_fn(BVarM) -> TermM>,
) -> (r: Option<Term>)
    requires
        forall|v: &BVar| #[trigger] f.requires((v,)),
        forall|v: &BVar, r: Option<Term>| #[trigger] f.ensures((v,), r) ==> match r {
            None => !p(v@),
            Some(u) => p(v@) && u@ == g(v@),
        },
    ensures
        match r {
            None => !touches(t@, p),
            Some(u) => touches(t@, p) && u@ == pmap_term(t@, p, g),
        },
    decreases t,
{
    broadcast use group_term_lemmas;

    match t {
        Term::Con(_) => None,
        Term::Var(v) => f(v),
        Term::App(h, args) => {
            let (na, changed) = pmap_terms_exec(args, f, Ghost(p), Ghost(g));
            if changed {
                Some(canon_app(h.copy(), na))
            } else {
                None
            }
        },
    }
}

/// [`pmap_term_exec`] over a list, with whether some term has a selected leaf.
#[verifier::loop_isolation(false)]
pub fn pmap_terms_exec<F: Fn(&BVar) -> Option<Term>>(
    ts: &Vec<Term>,
    f: &F,
    Ghost(p): Ghost<spec_fn(BVarM) -> bool>,
    Ghost(g): Ghost<spec_fn(BVarM) -> TermM>,
) -> (r: (Vec<Term>, bool))
    requires
        forall|v: &BVar| #[trigger] f.requires((v,)),
        forall|v: &BVar, r: Option<Term>| #[trigger] f.ensures((v,), r) ==> match r {
            None => !p(v@),
            Some(u) => p(v@) && u@ == g(v@),
        },
    ensures
        terms_m(r.0@) == pmap_terms(terms_m(ts@), p, g),
        r.1 == exists|i: int| 0 <= i < ts@.len() && touches(#[trigger] terms_m(ts@)[i], p),
    decreases ts,
{
    broadcast use group_term_lemmas;

    let mut out: Vec<Term> = Vec::new();
    let mut any = false;
    let mut i: usize = 0;
    while i < ts.len()
        invariant
            i <= ts.len(),
            out@.len() == i,
            forall|j: int| 0 <= j < i ==> #[trigger] out@[j]@ == pmap_term(ts@[j]@, p, g),
            any == exists|j: int| 0 <= j < i && touches(#[trigger] terms_m(ts@)[j], p),
        decreases ts.len() - i,
    {
        match pmap_term_exec(&ts[i], f, Ghost(p), Ghost(g)) {
            Some(u) => {
                out.push(u);
                any = true;
            },
            None => {
                proof {
                    lemma_pmap_untouched(ts@[i as int]@, p, g);
                }
                out.push(ts[i].copy());
            },
        }
        assert(terms_m(ts@)[i as int] == ts@[i as int]@);
        i += 1;
    }
    assert(terms_m(out@) =~= pmap_terms(terms_m(ts@), p, g));
    (out, any)
}

/// [`pmap_term_exec`] on every term of an atom; the atom itself when it has
/// no selected leaf.
pub fn pmap_atom_exec<F: Fn(&BVar) -> Option<Term>>(
    a: &Atom,
    f: &F,
    Ghost(p): Ghost<spec_fn(BVarM) -> bool>,
    Ghost(g): Ghost<spec_fn(BVarM) -> TermM>,
) -> (r: Atom)
    requires
        forall|v: &BVar| #[trigger] f.requires((v,)),
        forall|v: &BVar, r: Option<Term>| #[trigger] f.ensures((v,), r) ==> match r {
            None => !p(v@),
            Some(u) => p(v@) && u@ == g(v@),
        },
    ensures
        r@ == pmap_atom(a@, p, g),
{
    match a {
        Atom::EqE(x, y) => Atom::EqE(pmap_or_keep(x, f, Ghost(p), Ghost(g)), pmap_or_keep(y, f, Ghost(p), Ghost(g))),
        Atom::Less(x, y) => Atom::Less(pmap_or_keep(x, f, Ghost(p), Ghost(g)), pmap_or_keep(y, f, Ghost(p), Ghost(g))),
        Atom::Subterm(x, y) => Atom::Subterm(
            pmap_or_keep(x, f, Ghost(p), Ghost(g)),
            pmap_or_keep(y, f, Ghost(p), Ghost(g)),
        ),
        Atom::Action(t, fa) => Atom::Action(
            pmap_or_keep(t, f, Ghost(p), Ghost(g)),
            Fact { tag: fa.tag.copy(), terms: pmap_terms_exec(&fa.terms, f, Ghost(p), Ghost(g)).0 },
        ),
        Atom::Last(t) => Atom::Last(pmap_or_keep(t, f, Ghost(p), Ghost(g))),
        Atom::Pred(fa) => Atom::Pred(Fact { tag: fa.tag.copy(), terms: pmap_terms_exec(&fa.terms, f, Ghost(p), Ghost(g)).0 }),
    }
}

fn pmap_or_keep<F: Fn(&BVar) -> Option<Term>>(
    t: &Term,
    f: &F,
    Ghost(p): Ghost<spec_fn(BVarM) -> bool>,
    Ghost(g): Ghost<spec_fn(BVarM) -> TermM>,
) -> (r: Term)
    requires
        forall|v: &BVar| #[trigger] f.requires((v,)),
        forall|v: &BVar, r: Option<Term>| #[trigger] f.ensures((v,), r) ==> match r {
            None => !p(v@),
            Some(u) => p(v@) && u@ == g(v@),
        },
    ensures
        r@ == pmap_term(t@, p, g),
{
    match pmap_term_exec(t, f, Ghost(p), Ghost(g)) {
        Some(u) => u,
        None => {
            proof {
                lemma_pmap_untouched(t@, p, g);
            }
            t.copy()
        },
    }
}

/// A term without a selected leaf is left as it stands.
pub proof fn lemma_pmap_untouched(t: TermM, p: spec_fn(BVarM) -> bool, g: spec_fn(BVarM) -> TermM)
    requires
        !touches(t, p),
    ensures
        pmap_term(t, p, g) == t,
{
}

// ---------------------------------------------------------------------------
// The order of terms is total; sorting sorts
// ---------------------------------------------------------------------------

/// [`term_leq`] as a relation.
pub open spec fn leq_rel() -> spec_fn(TermM, TermM) -> bool {
    |a: TermM, b: TermM| term_leq(a, b)
}

pub proof fn lemma_term_leq_total()
    ensures
        total_ordering(leq_rel()),
{
    assert forall|x: TermM| #[trigger] leq_rel()(x, x) by {
        lemma_key_order_refl(term_key(x));
    }
    assert forall|x: TermM, y: TermM| #[trigger] leq_rel()(x, y) && #[trigger] leq_rel()(y, x) implies x == y by {
        lemma_key_order_antisym(term_key(x), term_key(y));
        lemma_key_order_zero(term_key(x), term_key(y));
        assert(term_key(x) + Seq::<u64>::empty() =~= term_key(x));
        assert(term_key(y) + Seq::<u64>::empty() =~= term_key(y));
        lemma_term_key_unique(x, y, Seq::empty(), Seq::empty());
    }
    assert forall|x: TermM, y: TermM, z: TermM| #[trigger] leq_rel()(x, y) && #[trigger] leq_rel()(y, z) implies leq_rel()(
        x,
        z,
    ) by {
        lemma_key_order_trans(term_key(x), term_key(y), term_key(z));
    }
    assert forall|x: TermM, y: TermM| #[trigger] leq_rel()(x, y) || #[trigger] leq_rel()(y, x) by {
        lemma_key_order_antisym(term_key(x), term_key(y));
    }
}

proof fn lemma_insert_sorted(s: Seq<TermM>, x: TermM)
    requires
        sorted_by(s, leq_rel()),
    ensures
        sorted_by(insert_sorted_m(s, x), leq_rel()),
        insert_sorted_m(s, x).to_multiset() =~= s.to_multiset().insert(x),
        insert_sorted_m(s, x).len() == s.len() + 1,
    decreases s.len(),
{
    broadcast use vstd::seq_lib::group_to_multiset_ensures;
    broadcast use vstd::multiset::group_multiset_axioms;

    lemma_term_leq_total();
    let r = insert_sorted_m(s, x);
    if s.len() == 0 {
        assert(r =~= seq![x]);
        assert(seq![x] =~= Seq::<TermM>::empty().push(x));
    } else if term_leq(x, s[0]) {
        assert forall|i: int, j: int| 0 <= i < j < r.len() implies #[trigger] leq_rel()(r[i], r[j]) by {
            if i == 0 {
                assert(r[j] == s[j - 1]);
                if j > 1 {
                    assert(leq_rel()(s[0], s[j - 1]));
                }
                assert(leq_rel()(x, s[0]));
            } else {
                assert(r[i] == s[i - 1] && r[j] == s[j - 1]);
            }
        }
        assert(r =~= s.insert(0, x));
    } else {
        let t = s.drop_first();
        assert(sorted_by(t, leq_rel())) by {
            assert forall|i: int, j: int| 0 <= i < j < t.len() implies #[trigger] leq_rel()(t[i], t[j]) by {
                assert(t[i] == s[i + 1] && t[j] == s[j + 1]);
            }
        }
        lemma_insert_sorted(t, x);
        let u = insert_sorted_m(t, x);
        assert(leq_rel()(x, s[0]) || leq_rel()(s[0], x));
        assert(!leq_rel()(x, s[0]));
        assert(leq_rel()(s[0], x));
        assert forall|k: int| 0 <= k < u.len() implies #[trigger] leq_rel()(s[0], u[k]) by {
            assert(u.to_multiset().contains(u[k]));
            if u[k] != x {
                assert(t.to_multiset().contains(u[k]));
                let w = choose|w: int| 0 <= w < t.len() && t[w] == u[k];
                assert(t[w] == s[w + 1]);
            }
        }
        assert forall|i: int, j: int| 0 <= i < j < r.len() implies #[trigger] leq_rel()(r[i], r[j]) by {
            if i == 0 {
                assert(r[j] == u[j - 1]);
            } else {
                assert(r[i] == u[i - 1] && r[j] == u[j - 1]);
            }
        }
        assert(s =~= seq![s[0]] + t);
        assert(r.to_multiset() =~= u.to_multiset().insert(s[0])) by {
            assert(r =~= u.insert(0, s[0]));
        }
        assert(s.to_multiset() =~= t.to_multiset().insert(s[0])) by {
            assert(s =~= t.insert(0, s[0]));
        }
    }
}

/// Sorting gives the terms in order, each as often as before.
pub proof fn lemma_sort_terms(s: Seq<TermM>)
    ensures
        sorted_by(sort_terms_m(s), leq_rel()),
        sort_terms_m(s).to_multiset() =~= s.to_multiset(),
        sort_terms_m(s).len() == s.len(),
    decreases s.len(),
{
    broadcast use vstd::seq_lib::group_to_multiset_ensures;

    if s.len() > 0 {
        lemma_sort_terms(s.drop_last());
        lemma_insert_sorted(sort_terms_m(s.drop_last()), s.last());
        assert(s =~= s.drop_last().push(s.last()));
    }
}

/// Sorted terms sort to themselves.
pub proof fn lemma_sort_sorted(s: Seq<TermM>)
    requires
        sorted_by(s, leq_rel()),
    ensures
        sort_terms_m(s) == s,
{
    lemma_sort_terms(s);
    lemma_term_leq_total();
    lemma_sorted_unique(sort_terms_m(s), s, leq_rel());
}

/// Terms with the same elements sort alike.
pub proof fn lemma_sort_permutation(s: Seq<TermM>, t: Seq<TermM>)
    requires
        s.to_multiset() == t.to_multiset(),
    ensures
        sort_terms_m(s) == sort_terms_m(t),
{
    lemma_sort_terms(s);
    lemma_sort_terms(t);
    lemma_term_leq_total();
    lemma_sorted_unique(sort_terms_m(s), sort_terms_m(t), leq_rel());
}

/// An element of the sorted terms is one of the terms.
pub proof fn lemma_sort_contains(s: Seq<TermM>, k: int)
    requires
        0 <= k < s.len(),
    ensures
        s.contains(sort_terms_m(s)[k]),
{
    broadcast use vstd::seq_lib::group_to_multiset_ensures;

    lemma_sort_terms(s);
    assert(sort_terms_m(s).to_multiset().contains(sort_terms_m(s)[k]));
}

/// Mapping keeps two lists with the same elements with the same elements.
pub proof fn lemma_map_permutation(s: Seq<TermM>, t: Seq<TermM>, h: spec_fn(TermM) -> TermM)
    requires
        s.to_multiset() == t.to_multiset(),
    ensures
        s.map_values(h).to_multiset() == t.map_values(h).to_multiset(),
    decreases s.len(),
{
    broadcast use vstd::seq_lib::group_to_multiset_ensures;
    broadcast use vstd::multiset::group_multiset_axioms;

    if s.len() == 0 {
        assert(t.to_multiset().len() == 0);
        assert(t.len() == 0);
        assert(s.map_values(h) =~= t.map_values(h));
    } else {
        let a = s.last();
        let p = s.drop_last();
        assert(s =~= p.push(a));
        assert(s.to_multiset() =~= p.to_multiset().insert(a));
        assert(t.to_multiset().contains(a));
        let i = choose|i: int| 0 <= i < t.len() && t[i] == a;
        let q = t.remove(i);
        assert(q.to_multiset() =~= t.to_multiset().remove(a));
        assert(p.to_multiset() =~= q.to_multiset());
        lemma_map_permutation(p, q, h);
        assert(s.map_values(h) =~= p.map_values(h).push(h(a)));
        assert(t.map_values(h) =~= q.map_values(h).insert(i, h(a)));
        assert(s.map_values(h).to_multiset() =~= p.map_values(h).to_multiset().insert(h(a)));
        assert(t.map_values(h).to_multiset() =~= q.map_values(h).to_multiset().insert(h(a)));
    }
}

// ---------------------------------------------------------------------------
// Canonical terms
// ---------------------------------------------------------------------------

/// Is the term an application of the associative-commutative symbol `a`?
pub open spec fn ac_headed(t: TermM, a: AcSymM) -> bool {
    match t {
        TermM::App(FunSymM::Ac(b), _) => b == a,
        _ => false,
    }
}

/// Is the term in canonical form: every associative-commutative application
/// has at least two arguments, none an application of the same symbol, in
/// order; every commutative application has its arguments in order?
pub open spec fn is_canon(t: TermM) -> bool
    decreases t,
{
    match t {
        TermM::App(f, args) => {
            &&& forall|i: int| 0 <= i < args.len() ==> is_canon(#[trigger] args[i])
            &&& match f {
                FunSymM::Ac(a) => {
                    &&& args.len() >= 2
                    &&& forall|i: int| 0 <= i < args.len() ==> !ac_headed(#[trigger] args[i], a)
                    &&& sorted_by(args, leq_rel())
                },
                FunSymM::C(_) => sorted_by(args, leq_rel()),
                _ => true,
            }
        },
        _ => true,
    }
}

/// Does every variable leaf of the term satisfy `p`?
pub open spec fn all_leaves(t: TermM, p: spec_fn(BVarM) -> bool) -> bool
    decreases t,
{
    match t {
        TermM::Var(v) => p(v),
        TermM::App(_, args) => forall|i: int| 0 <= i < args.len() ==> all_leaves(#[trigger] args[i], p),
        _ => true,
    }
}

/// Does the leaf map give a variable for every leaf?
pub open spec fn var_valued(g: spec_fn(BVarM) -> TermM) -> bool {
    forall|v: BVarM| #[trigger] g(v) is Var
}

proof fn lemma_app_parts(t: TermM)
    requires
        t is App,
    ensures
        is_canon(t) ==> forall|i: int| 0 <= i < t->App_1.len() ==> is_canon(#[trigger] t->App_1[i]),
{
}

proof fn lemma_flat_id(a: AcSymM, s: Seq<TermM>)
    requires
        forall|i: int| 0 <= i < s.len() ==> !ac_headed(#[trigger] s[i], a),
    ensures
        ac_flat_m(a, s) == s,
    decreases s.len(),
{
    if s.len() > 0 {
        lemma_flat_id(a, s.drop_last());
        assert(!ac_headed(s[s.len() - 1], a));
        match s.last() {
            TermM::App(FunSymM::Ac(b), ts) => assert(b != a),
            _ => {},
        }
        assert(ac_flat_m(a, s) =~= s.drop_last().push(s.last()));
        assert(s.drop_last().push(s.last()) =~= s);
    }
}

proof fn lemma_cmap_terms_index(ts: Seq<TermM>, g: spec_fn(BVarM) -> TermM)
    ensures
        cmap_terms(ts, g).len() == ts.len(),
        forall|i: int| 0 <= i < ts.len() ==> #[trigger] cmap_terms(ts, g)[i] == cmap_term(ts[i], g),
        cmap_terms(ts, g) == ts.map_values(|u: TermM| cmap_term(u, g)),
{
    assert(cmap_terms(ts, g) =~= ts.map_values(|u: TermM| cmap_term(u, g)));
}

/// Mapping a canonical term that is not an application of `a` never gives
/// an application of `a`.
proof fn lemma_head_kept(c: TermM, g: spec_fn(BVarM) -> TermM, a: AcSymM)
    requires
        is_canon(c),
        !ac_headed(c, a),
        var_valued(g),
    ensures
        !ac_headed(cmap_term(c, g), a),
{
    match c {
        TermM::Var(v) => {
            assert(g(v) is Var);
        },
        TermM::App(h, cs) => {
            lemma_cmap_terms_index(cs, g);
            match h {
                FunSymM::Ac(b) => {
                    assert(b != a);
                    assert(cs.len() >= 2);
                },
                _ => {},
            }
        },
        _ => {},
    }
}

/// Mapping a canonical term with a leaf map that gives variables gives a
/// canonical term.
pub proof fn lemma_cmap_canon(t: TermM, g: spec_fn(BVarM) -> TermM)
    requires
        is_canon(t),
        var_valued(g),
    ensures
        is_canon(cmap_term(t, g)),
    decreases t,
{
    match t {
        TermM::Var(v) => {
            assert(g(v) is Var);
        },
        TermM::App(f, args) => {
            lemma_cmap_terms_index(args, g);
            let m = cmap_terms(args, g);
            assert forall|i: int| 0 <= i < m.len() implies is_canon(#[trigger] m[i]) by {
                lemma_cmap_canon(args[i], g);
            }
            match f {
                FunSymM::Ac(a) => {
                    assert forall|i: int| 0 <= i < m.len() implies !ac_headed(#[trigger] m[i], a) by {
                        lemma_head_kept(args[i], g, a);
                    }
                    lemma_flat_id(a, m);
                    lemma_sort_terms(m);
                    let x = sort_terms_m(m);
                    assert forall|k: int| 0 <= k < x.len() implies is_canon(#[trigger] x[k]) && !ac_headed(x[k], a) by {
                        lemma_sort_contains(m, k);
                    }
                },
                FunSymM::C(_) => {
                    lemma_sort_terms(m);
                    let x = sort_terms_m(m);
                    assert forall|k: int| 0 <= k < x.len() implies is_canon(#[trigger] x[k]) by {
                        lemma_sort_contains(m, k);
                    }
                },
                _ => {},
            }
        },
        _ => {},
    }
}

/// A canonical term is its own canonical form.
pub proof fn lemma_canon_fixed(t: TermM)
    requires
        is_canon(t),
    ensures
        cmap_term(t, keep_leaf()) == t,
    decreases t,
{
    match t {
        TermM::App(f, args) => {
            lemma_cmap_terms_index(args, keep_leaf());
            let m = cmap_terms(args, keep_leaf());
            assert forall|i: int| 0 <= i < args.len() implies #[trigger] m[i] == args[i] by {
                lemma_canon_fixed(args[i]);
            }
            assert(m =~= args);
            match f {
                FunSymM::Ac(a) => {
                    lemma_flat_id(a, args);
                    lemma_sort_sorted(args);
                },
                FunSymM::C(_) => lemma_sort_sorted(args),
                _ => {},
            }
        },
        _ => {},
    }
}

/// Mapping with `g1` and then with `g2` gives a canonical term back when
/// both give variables and `g2` undoes `g1` on every leaf of it.
pub proof fn lemma_cmap_round_trip(t: TermM, g1: spec_fn(BVarM) -> TermM, g2: spec_fn(BVarM) -> TermM)
    requires
        is_canon(t),
        var_valued(g1),
        var_valued(g2),
        all_leaves(t, |v: BVarM| cmap_term(g1(v), g2) == TermM::Var(v)),
    ensures
        cmap_term(cmap_term(t, g1), g2) == t,
    decreases t,
{
    let p = |v: BVarM| cmap_term(g1(v), g2) == TermM::Var(v);
    match t {
        TermM::Var(v) => {
            assert(p(v));
        },
        TermM::App(f, args) => {
            lemma_cmap_terms_index(args, g1);
            let a1 = cmap_terms(args, g1);
            let h = |u: TermM| cmap_term(u, g2);
            assert forall|i: int| 0 <= i < args.len() implies #[trigger] cmap_term(a1[i], g2) == args[i] by {
                lemma_cmap_round_trip(args[i], g1, g2);
            }
            lemma_cmap_terms_index(a1, g2);
            assert(cmap_terms(a1, g2) =~= args);
            match f {
                FunSymM::Ac(a) => {
                    assert forall|i: int| 0 <= i < a1.len() implies !ac_headed(#[trigger] a1[i], a) by {
                        lemma_head_kept(args[i], g1, a);
                    }
                    lemma_flat_id(a, a1);
                    lemma_sort_terms(a1);
                    let x = sort_terms_m(a1);
                    assert(cmap_term(t, g1) == TermM::App(f, x));
                    lemma_cmap_terms_index(x, g2);
                    let y = cmap_terms(x, g2);
                    assert forall|k: int| 0 <= k < y.len() implies !ac_headed(#[trigger] y[k], a) by {
                        lemma_sort_contains(a1, k);
                        let i = choose|i: int| 0 <= i < a1.len() && a1[i] == x[k];
                        assert(y[k] == args[i]);
                    }
                    lemma_flat_id(a, y);
                    lemma_map_permutation(x, a1, h);
                    assert(y == x.map_values(h));
                    assert(cmap_terms(a1, g2) == a1.map_values(h));
                    lemma_sort_permutation(y, args);
                    lemma_sort_sorted(args);
                },
                FunSymM::C(_) => {
                    lemma_sort_terms(a1);
                    let x = sort_terms_m(a1);
                    lemma_cmap_terms_index(x, g2);
                    let y = cmap_terms(x, g2);
                    lemma_map_permutation(x, a1, h);
                    assert(y == x.map_values(h));
                    assert(cmap_terms(a1, g2) == a1.map_values(h));
                    lemma_sort_permutation(y, args);
                    lemma_sort_sorted(args);
                },
                _ => {},
            }
        },
        _ => {},
    }
}

proof fn lemma_flat_contains(a: AcSymM, s: Seq<TermM>, k: int)
    requires
        0 <= k < ac_flat_m(a, s).len(),
    ensures
        s.contains(ac_flat_m(a, s)[k]) || exists|i: int|
            0 <= i < s.len() && ac_headed(s[i], a) && (#[trigger] s[i]->App_1).contains(ac_flat_m(a, s)[k]),
    decreases s.len(),
{
    let p = s.drop_last();
    let y = ac_flat_m(a, s)[k];
    if s.len() > 0 {
        let tail = match s.last() {
            TermM::App(FunSymM::Ac(b), ts) => if b == a {
                ts
            } else {
                seq![s.last()]
            },
            t => seq![t],
        };
        assert(ac_flat_m(a, s) == ac_flat_m(a, p) + tail);
        if k < ac_flat_m(a, p).len() {
            assert(y == ac_flat_m(a, p)[k]);
            lemma_flat_contains(a, p, k);
            if p.contains(y) {
                let i = choose|i: int| 0 <= i < p.len() && p[i] == y;
                assert(s[i] == p[i]);
            } else {
                let i = choose|i: int|
                    0 <= i < p.len() && ac_headed(p[i], a) && (#[trigger] p[i]->App_1).contains(y);
                assert(s[i] == p[i]);
            }
        } else {
            let j = k - ac_flat_m(a, p).len();
            assert(y == tail[j]);
            let n = s.len() - 1;
            assert(s[n] == s.last());
            if ac_headed(s.last(), a) {
                assert(s[n]->App_1[j] == y);
            } else {
                assert(s[n] == y);
            }
        }
    }
}

/// Mapping keeps a property of the leaves that the leaf map keeps.
pub proof fn lemma_cmap_leaves(t: TermM, g: spec_fn(BVarM) -> TermM, p: spec_fn(BVarM) -> bool, q: spec_fn(BVarM) -> bool)
    requires
        all_leaves(t, p),
        forall|v: BVarM| #[trigger] p(v) ==> all_leaves(g(v), q),
    ensures
        all_leaves(cmap_term(t, g), q),
    decreases t,
{
    match t {
        TermM::Var(v) => {
            assert(p(v));
        },
        TermM::App(f, args) => {
            lemma_cmap_terms_index(args, g);
            let m = cmap_terms(args, g);
            assert forall|i: int| 0 <= i < m.len() implies all_leaves(#[trigger] m[i], q) by {
                lemma_cmap_leaves(args[i], g, p, q);
            }
            match f {
                FunSymM::Ac(a) => {
                    if m.len() >= 2 {
                        let fl = ac_flat_m(a, m);
                        assert forall|k: int| 0 <= k < fl.len() implies all_leaves(#[trigger] fl[k], q) by {
                            lemma_flat_contains(a, m, k);
                            if !m.contains(fl[k]) {
                                let i = choose|i: int|
                                    0 <= i < m.len() && ac_headed(m[i], a) && (#[trigger] m[i]->App_1).contains(fl[k]);
                                let w = choose|w: int| 0 <= w < m[i]->App_1.len() && m[i]->App_1[w] == fl[k];
                                assert(all_leaves(m[i], q));
                                assert(all_leaves(m[i]->App_1[w], q));
                            }
                        }
                        lemma_sort_terms(fl);
                        let x = sort_terms_m(fl);
                        assert forall|k: int| 0 <= k < x.len() implies all_leaves(#[trigger] x[k], q) by {
                            lemma_sort_contains(fl, k);
                        }
                    } else if m.len() == 1 {
                        assert(all_leaves(m[0], q));
                    }
                },
                FunSymM::C(_) => {
                    lemma_sort_terms(m);
                    let x = sort_terms_m(m);
                    assert forall|k: int| 0 <= k < x.len() implies all_leaves(#[trigger] x[k], q) by {
                        lemma_sort_contains(m, k);
                    }
                },
                _ => {},
            }
        },
        _ => {},
    }
}

/// The leaf property "not a bound index".
pub open spec fn free_leaf() -> spec_fn(BVarM) -> bool {
    |v: BVarM| v is Free
}

proof fn lemma_terms_have_bound_elem(ts: Seq<TermM>)
    ensures
        terms_have_bound(ts) <==> exists|i: int| 0 <= i < ts.len() && term_has_bound(#[trigger] ts[i]),
    decreases ts.len(),
{
    if ts.len() > 0 {
        lemma_terms_have_bound_elem(ts.drop_last());
        if exists|i: int| 0 <= i < ts.len() && term_has_bound(#[trigger] ts[i]) {
            let i = choose|i: int| 0 <= i < ts.len() && term_has_bound(#[trigger] ts[i]);
            if i < ts.len() - 1 {
                assert(ts.drop_last()[i] == ts[i]);
            }
        }
        if terms_have_bound(ts.drop_last()) {
            let i = choose|i: int| 0 <= i < ts.drop_last().len() && term_has_bound(#[trigger] ts.drop_last()[i]);
            assert(ts[i] == ts.drop_last()[i]);
        }
        assert(term_has_bound(ts.last()) ==> term_has_bound(ts[ts.len() - 1]));
    }
}

/// A term has no bound index exactly when every leaf is free.
pub proof fn lemma_no_bound_leaves(t: TermM)
    ensures
        !term_has_bound(t) <==> all_leaves(t, free_leaf()),
    decreases t,
{
    match t {
        TermM::App(f, args) => {
            lemma_terms_have_bound_elem(args);
            assert forall|i: int| 0 <= i < args.len() implies (!term_has_bound(#[trigger] args[i]) <==> all_leaves(
                args[i],
                free_leaf(),
            )) by {
                lemma_no_bound_leaves(args[i]);
            }
        },
        _ => {},
    }
}

/// No bound index appears after canonical rebuilding where none was.
pub proof fn lemma_canon_no_bound(t: TermM)
    requires
        !term_has_bound(t),
    ensures
        !term_has_bound(cmap_term(t, keep_leaf())),
{
    lemma_no_bound_leaves(t);
    lemma_cmap_leaves(t, keep_leaf(), free_leaf(), free_leaf());
    lemma_no_bound_leaves(cmap_term(t, keep_leaf()));
}

// ---------------------------------------------------------------------------
// Atoms
// ---------------------------------------------------------------------------

/// Are all terms of the atom canonical?
pub open spec fn atom_canon(a: AtomM) -> bool {
    match a {
        AtomM::EqE(x, y) | AtomM::Less(x, y) | AtomM::Subterm(x, y) => is_canon(x) && is_canon(y),
        AtomM::Action(t, fa) => is_canon(t) && forall|i: int| 0 <= i < fa.terms.len() ==> is_canon(#[trigger] fa.terms[i]),
        AtomM::Last(t) => is_canon(t),
        AtomM::Pred(fa) => forall|i: int| 0 <= i < fa.terms.len() ==> is_canon(#[trigger] fa.terms[i]),
    }
}

/// Does every leaf of every term of the atom satisfy `p`?
pub open spec fn atom_all_leaves(a: AtomM, p: spec_fn(BVarM) -> bool) -> bool {
    match a {
        AtomM::EqE(x, y) | AtomM::Less(x, y) | AtomM::Subterm(x, y) => all_leaves(x, p) && all_leaves(y, p),
        AtomM::Action(t, fa) => all_leaves(t, p) && forall|i: int|
            0 <= i < fa.terms.len() ==> all_leaves(#[trigger] fa.terms[i], p),
        AtomM::Last(t) => all_leaves(t, p),
        AtomM::Pred(fa) => forall|i: int| 0 <= i < fa.terms.len() ==> all_leaves(#[trigger] fa.terms[i], p),
    }
}

proof fn lemma_cmap_fact_round_trip(ts: Seq<TermM>, g1: spec_fn(BVarM) -> TermM, g2: spec_fn(BVarM) -> TermM)
    requires
        forall|i: int| 0 <= i < ts.len() ==> is_canon(#[trigger] ts[i]),
        var_valued(g1),
        var_valued(g2),
        forall|i: int|
            0 <= i < ts.len() ==> all_leaves(#[trigger] ts[i], |v: BVarM| cmap_term(g1(v), g2) == TermM::Var(v)),
    ensures
        cmap_terms(cmap_terms(ts, g1), g2) == ts,
{
    lemma_cmap_terms_index(ts, g1);
    lemma_cmap_terms_index(cmap_terms(ts, g1), g2);
    assert forall|i: int| 0 <= i < ts.len() implies #[trigger] cmap_terms(cmap_terms(ts, g1), g2)[i] == ts[i] by {
        lemma_cmap_round_trip(ts[i], g1, g2);
    }
    assert(cmap_terms(cmap_terms(ts, g1), g2) =~= ts);
}

/// [`lemma_cmap_round_trip`] on every term of an atom.
pub proof fn lemma_cmap_atom_round_trip(a: AtomM, g1: spec_fn(BVarM) -> TermM, g2: spec_fn(BVarM) -> TermM)
    requires
        atom_canon(a),
        var_valued(g1),
        var_valued(g2),
        atom_all_leaves(a, |v: BVarM| cmap_term(g1(v), g2) == TermM::Var(v)),
    ensures
        cmap_atom(cmap_atom(a, g1), g2) == a,
{
    match a {
        AtomM::EqE(x, y) | AtomM::Less(x, y) | AtomM::Subterm(x, y) => {
            lemma_cmap_round_trip(x, g1, g2);
            lemma_cmap_round_trip(y, g1, g2);
        },
        AtomM::Action(t, fa) => {
            lemma_cmap_round_trip(t, g1, g2);
            lemma_cmap_fact_round_trip(fa.terms, g1, g2);
        },
        AtomM::Last(t) => lemma_cmap_round_trip(t, g1, g2),
        AtomM::Pred(fa) => lemma_cmap_fact_round_trip(fa.terms, g1, g2),
    }
}

proof fn lemma_canon_terms(ts: Seq<TermM>, g: spec_fn(BVarM) -> TermM)
    requires
        forall|i: int| 0 <= i < ts.len() ==> is_canon(#[trigger] ts[i]),
        var_valued(g),
    ensures
        forall|i: int| 0 <= i < ts.len() ==> is_canon(#[trigger] cmap_terms(ts, g)[i]),
        cmap_terms(ts, g).len() == ts.len(),
        cmap_terms(cmap_terms(ts, g), keep_leaf()) == cmap_terms(ts, g),
{
    lemma_cmap_terms_index(ts, g);
    let m = cmap_terms(ts, g);
    assert forall|i: int| 0 <= i < ts.len() implies is_canon(#[trigger] m[i]) by {
        lemma_cmap_canon(ts[i], g);
    }
    lemma_cmap_terms_index(m, keep_leaf());
    assert forall|i: int| 0 <= i < ts.len() implies #[trigger] cmap_terms(m, keep_leaf())[i] == m[i] by {
        lemma_canon_fixed(m[i]);
    }
    assert(cmap_terms(m, keep_leaf()) =~= m);
}

/// Mapping a canonical atom with a leaf map that gives variables gives a
/// canonical atom, which canonical rebuilding leaves alone.
pub proof fn lemma_cmap_atom_canon(a: AtomM, g: spec_fn(BVarM) -> TermM)
    requires
        atom_canon(a),
        var_valued(g),
    ensures
        atom_canon(cmap_atom(a, g)),
        cmap_atom(cmap_atom(a, g), keep_leaf()) == cmap_atom(a, g),
{
    match a {
        AtomM::EqE(x, y) | AtomM::Less(x, y) | AtomM::Subterm(x, y) => {
            lemma_cmap_canon(x, g);
            lemma_cmap_canon(y, g);
            lemma_canon_fixed(cmap_term(x, g));
            lemma_canon_fixed(cmap_term(y, g));
        },
        AtomM::Action(t, fa) => {
            lemma_cmap_canon(t, g);
            lemma_canon_fixed(cmap_term(t, g));
            lemma_canon_terms(fa.terms, g);
        },
        AtomM::Last(t) => {
            lemma_cmap_canon(t, g);
            lemma_canon_fixed(cmap_term(t, g));
        },
        AtomM::Pred(fa) => lemma_canon_terms(fa.terms, g),
    }
}

/// No bound index appears in an atom after canonical rebuilding where none
/// was.
pub proof fn lemma_canon_atom_no_bound(a: AtomM)
    requires
        !atom_has_bound(a),
    ensures
        !atom_has_bound(cmap_atom(a, keep_leaf())),
{
    match a {
        AtomM::EqE(x, y) | AtomM::Less(x, y) | AtomM::Subterm(x, y) => {
            lemma_canon_no_bound(x);
            lemma_canon_no_bound(y);
        },
        AtomM::Action(t, fa) => {
            lemma_canon_no_bound(t);
            lemma_canon_no_bound(TermM::App(FunSymM::List, fa.terms));
            lemma_cmap_terms_index(fa.terms, keep_leaf());
        },
        AtomM::Last(t) => lemma_canon_no_bound(t),
        AtomM::Pred(fa) => {
            lemma_canon_no_bound(TermM::App(FunSymM::List, fa.terms));
            lemma_cmap_terms_index(fa.terms, keep_leaf());
        },
    }
}

/// A property of every leaf implies any weaker one of every leaf.
pub proof fn lemma_leaves_weaken(t: TermM, p: spec_fn(BVarM) -> bool, q: spec_fn(BVarM) -> bool)
    requires
        all_leaves(t, p),
        forall|v: BVarM| #[trigger] p(v) ==> q(v),
    ensures
        all_leaves(t, q),
    decreases t,
{
    match t {
        TermM::App(_, args) => {
            assert forall|i: int| 0 <= i < args.len() implies all_leaves(#[trigger] args[i], q) by {
                lemma_leaves_weaken(args[i], p, q);
            }
        },
        _ => {},
    }
}

/// An atom in canonical form is left as it stands by canonical rebuilding.
pub proof fn lemma_canon_atom_fixed(a: AtomM)
    requires
        atom_canon(a),
    ensures
        cmap_atom(a, keep_leaf()) == a,
{
    match a {
        AtomM::EqE(x, y) | AtomM::Less(x, y) | AtomM::Subterm(x, y) => {
            lemma_canon_fixed(x);
            lemma_canon_fixed(y);
        },
        AtomM::Action(t, fa) => {
            lemma_canon_fixed(t);
            lemma_canon_fixed(TermM::App(FunSymM::List, fa.terms));
        },
        AtomM::Last(t) => lemma_canon_fixed(t),
        AtomM::Pred(fa) => lemma_canon_fixed(TermM::App(FunSymM::List, fa.terms)),
    }
}

} // verus!
