//! The order of guarded formulas.  Every value is written out as a key, a
//! sequence of numbers: the constructor first (in declaration order), then
//! its fields in order, a list as its items each announced by `1` and closed
//! by `0`, a string as its characters in the same way.  Values are ordered
//! by their keys, lexicographically: so constructors are ordered as
//! declared, then fields in turn, and a list that is a proper prefix of
//! another comes first.
use vstd::prelude::*;
use crate::term::{
    Atom, AtomM, AcSym, AcSymM, BVar, BVarM, Binder, BinderM, Constructability, Fact, FactM, FactTag, FactTagM,
    FunSym, FunSymM, LSort, LVar, LVarM, Name, NameM, NameTag, Privacy, SymInfo, SymInfoM, Term, TermM, atoms_m,
    binders_m, terms_m,
};
use crate::formula::Quantifier;
use crate::guarded::{Guarded, GuardedM, guardeds_m};
use std::cmp::Ordering;

verus! {

/// The key of a string: each character announced by `1`, then `0`.
pub open spec fn chars_key(s: Seq<char>) -> Seq<u64> {
    Seq::new(2 * s.len(), |j: int| if j % 2 == 0 { 1u64 } else { s[j / 2] as u64 }).push(0)
}

pub open spec fn sort_key(s: LSort) -> u64 {
    match s {
        LSort::Pub => 0,
        LSort::Fresh => 1,
        LSort::Msg => 2,
        LSort::Node => 3,
        LSort::Nat => 4,
    }
}

pub open spec fn lvar_key(v: LVarM) -> Seq<u64> {
    seq![v.idx, sort_key(v.sort)] + chars_key(v.name)
}

pub open spec fn name_key(n: NameM) -> Seq<u64> {
    seq![
        match n.tag {
            NameTag::Fresh => 0u64,
            NameTag::Pub => 1,
            NameTag::Node => 2,
            NameTag::Nat => 3,
        },
    ] + chars_key(n.id)
}

pub open spec fn sym_key(s: SymInfoM) -> Seq<u64> {
    chars_key(s.name) + seq![
        s.arity as u64,
        if s.privacy == Privacy::Public { 0u64 } else { 1 },
        if s.constructability == Constructability::Constructor { 0u64 } else { 1 },
    ]
}

pub open spec fn funsym_key(f: FunSymM) -> Seq<u64> {
    match f {
        FunSymM::NoEq(s) => seq![0u64] + sym_key(s),
        FunSymM::Ac(a) => seq![1u64] + match a {
            AcSymM::Union => seq![0u64],
            AcSymM::Mult => seq![1u64],
            AcSymM::Xor => seq![2u64],
            AcSymM::NatPlus => seq![3u64],
            AcSymM::AcFct(s) => seq![4u64] + sym_key(s),
        },
        FunSymM::C(_) => seq![2u64, 0],
        FunSymM::List => seq![3u64],
    }
}

/// The key of a term: a name, a bound index or a free variable, or an
/// application, in that order.
pub open spec fn term_key(t: TermM) -> Seq<u64>
    decreases t, 0nat,
{
    match t {
        TermM::Con(n) => seq![0u64] + name_key(n),
        TermM::Var(BVarM::Bound(i)) => seq![1u64, 0, i],
        TermM::Var(BVarM::Free(v)) => seq![1u64, 1] + lvar_key(v),
        TermM::App(f, args) => seq![2u64] + funsym_key(f) + terms_key(args),
    }
}

/// The items of a list of terms, each announced by `1`.
pub open spec fn terms_body(ts: Seq<TermM>) -> Seq<u64>
    decreases ts, 0nat,
{
    if ts.len() == 0 {
        Seq::empty()
    } else {
        terms_body(ts.drop_last()) + seq![1u64] + term_key(ts.last())
    }
}

pub open spec fn terms_key(ts: Seq<TermM>) -> Seq<u64>
    decreases ts, 1nat,
{
    terms_body(ts).push(0)
}

pub open spec fn tag_key(t: FactTagM) -> Seq<u64> {
    match t {
        FactTagM::Proto(p, n, a) => seq![0u64, if p { 1u64 } else { 0 }] + chars_key(n) + seq![a as u64],
        FactTagM::Fresh => seq![1u64],
        FactTagM::Out => seq![2u64],
        FactTagM::In => seq![3u64],
        FactTagM::Ku => seq![4u64],
        FactTagM::Kd => seq![5u64],
        FactTagM::KLog => seq![6u64],
        FactTagM::Ded => seq![7u64],
    }
}

pub open spec fn fact_key(f: FactM) -> Seq<u64> {
    tag_key(f.tag) + terms_key(f.terms)
}

pub open spec fn atom_key(a: AtomM) -> Seq<u64> {
    match a {
        AtomM::EqE(x, y) => seq![0u64] + term_key(x) + term_key(y),
        AtomM::Less(x, y) => seq![1u64] + term_key(x) + term_key(y),
        AtomM::Subterm(x, y) => seq![2u64] + term_key(x) + term_key(y),
        AtomM::Action(t, f) => seq![3u64] + term_key(t) + fact_key(f),
        AtomM::Last(t) => seq![4u64] + term_key(t),
        AtomM::Pred(f) => seq![5u64] + fact_key(f),
    }
}

pub open spec fn atoms_body(xs: Seq<AtomM>) -> Seq<u64>
    decreases xs.len(),
{
    if xs.len() == 0 {
        Seq::empty()
    } else {
        atoms_body(xs.drop_last()) + seq![1u64] + atom_key(xs.last())
    }
}

pub open spec fn binder_key(b: BinderM) -> Seq<u64> {
    chars_key(b.name) + seq![sort_key(b.sort)]
}

pub open spec fn binders_body(xs: Seq<BinderM>) -> Seq<u64>
    decreases xs.len(),
{
    if xs.len() == 0 {
        Seq::empty()
    } else {
        binders_body(xs.drop_last()) + seq![1u64] + binder_key(xs.last())
    }
}

/// The key of a guarded formula: an atom, a disjunction, a conjunction or a
/// guarded quantifier, in that order; a quantifier by its kind, binders,
/// guards and body in turn.
pub open spec fn guarded_key(g: GuardedM) -> Seq<u64>
    decreases g, 0nat,
{
    match g {
        GuardedM::Atom(a) => seq![0u64] + atom_key(a),
        GuardedM::Disj(xs) => seq![1u64] + guardeds_body(xs).push(0),
        GuardedM::Conj(xs) => seq![2u64] + guardeds_body(xs).push(0),
        GuardedM::GGuarded { qua, vars, guards, body } => seq![
            3u64,
            if qua == Quantifier::All { 0u64 } else { 1 },
        ] + binders_body(vars).push(0) + atoms_body(guards).push(0) + guarded_key(*body),
    }
}

pub open spec fn guardeds_body(xs: Seq<GuardedM>) -> Seq<u64>
    decreases xs, 0nat,
{
    if xs.len() == 0 {
        Seq::empty()
    } else {
        guardeds_body(xs.drop_last()) + seq![1u64] + guarded_key(xs.last())
    }
}

/// Lexicographic order of keys: `-1`, `0` or `1` as `a` comes before, is,
/// or comes after `b`; a proper prefix comes first.
pub open spec fn key_order(a: Seq<u64>, b: Seq<u64>) -> int
    decreases a.len(),
{
    if a.len() == 0 {
        if b.len() == 0 {
            0
        } else {
            -1
        }
    } else if b.len() == 0 {
        1
    } else if a[0] < b[0] {
        -1
    } else if a[0] > b[0] {
        1
    } else {
        key_order(a.drop_first(), b.drop_first())
    }
}

pub(crate) proof fn lemma_key_order_refl(a: Seq<u64>)
    ensures
        key_order(a, a) == 0,
    decreases a.len(),
{
    if a.len() > 0 {
        lemma_key_order_refl(a.drop_first());
    }
}

pub(crate) proof fn lemma_key_order_antisym(a: Seq<u64>, b: Seq<u64>)
    ensures
        key_order(a, b) == -key_order(b, a),
    decreases a.len(),
{
    if a.len() > 0 && b.len() > 0 && a[0] == b[0] {
        lemma_key_order_antisym(a.drop_first(), b.drop_first());
    }
}

pub(crate) proof fn lemma_key_order_trans(a: Seq<u64>, b: Seq<u64>, c: Seq<u64>)
    requires
        key_order(a, b) <= 0,
        key_order(b, c) <= 0,
    ensures
        key_order(a, c) <= 0,
        key_order(a, b) < 0 || key_order(b, c) < 0 ==> key_order(a, c) < 0,
    decreases a.len(),
{
    if a.len() > 0 && b.len() > 0 && c.len() > 0 && a[0] == b[0] && b[0] == c[0] {
        lemma_key_order_trans(a.drop_first(), b.drop_first(), c.drop_first());
    }
}

/// The order of guarded formulas is a total preorder: every formula is
/// equal to itself, swapping the arguments reverses the outcome, and it is
/// transitive (strictly so when one step is strict).
pub proof fn guarded_order_is_a_total_preorder(a: GuardedM, b: GuardedM, c: GuardedM)
    ensures
        guarded_order_m(a, a) == Ordering::Equal,
        guarded_order_m(a, b) == Ordering::Less <==> guarded_order_m(b, a) == Ordering::Greater,
        guarded_order_m(a, b) == Ordering::Equal <==> guarded_order_m(b, a) == Ordering::Equal,
        guarded_order_m(a, b) != Ordering::Greater && guarded_order_m(b, c) != Ordering::Greater
            ==> guarded_order_m(a, c) != Ordering::Greater,
        guarded_order_m(a, b) == Ordering::Less && guarded_order_m(b, c) != Ordering::Greater
            ==> guarded_order_m(a, c) == Ordering::Less,
{
    let (ka, kb, kc) = (guarded_key(a), guarded_key(b), guarded_key(c));
    lemma_key_order_refl(ka);
    lemma_key_order_antisym(ka, kb);
    if key_order(ka, kb) <= 0 && key_order(kb, kc) <= 0 {
        lemma_key_order_trans(ka, kb, kc);
    }
}


// ---------------------------------------------------------------------------
// Keys determine their values
// ---------------------------------------------------------------------------

proof fn lemma_cons(t1: u64, k1: Seq<u64>, r1: Seq<u64>, t2: u64, k2: Seq<u64>, r2: Seq<u64>)
    requires
        (seq![t1] + k1) + r1 == (seq![t2] + k2) + r2,
    ensures
        t1 == t2,
        k1 + r1 == k2 + r2,
{
    let l = (seq![t1] + k1) + r1;
    let m = (seq![t2] + k2) + r2;
    assert(l[0] == t1);
    assert(m[0] == t2);
    assert(l.drop_first() =~= k1 + r1);
    assert(m.drop_first() =~= k2 + r2);
}

proof fn lemma_assoc(a: Seq<u64>, b: Seq<u64>, r: Seq<u64>)
    ensures
        (a + b) + r == a + (b + r),
{
    assert((a + b) + r =~= a + (b + r));
}

proof fn lemma_chars_key_unfold(s: Seq<char>)
    ensures
        chars_key(s) == if s.len() == 0 {
            seq![0u64]
        } else {
            (seq![1u64] + (seq![s[0] as u64] + chars_key(s.drop_first())))
        },
{
    if s.len() > 0 {
        let t = s.drop_first();
        let rhs = seq![1u64] + (seq![s[0] as u64] + chars_key(t));
        assert forall|j: int| 0 <= j < chars_key(s).len() implies #[trigger] chars_key(s)[j] == rhs[j] by {
            if j >= 2 && j < 2 * s.len() {
                assert(chars_key(t)[j - 2] == (if (j - 2) % 2 == 0 { 1u64 } else { t[(j - 2) / 2] as u64 }));
                assert((j - 2) % 2 == j % 2);
                assert((j - 2) / 2 + 1 == j / 2);
            }
        }
        assert(chars_key(s) =~= rhs);
    } else {
        assert(chars_key(s) =~= seq![0u64]);
    }
}

proof fn lemma_char_key(c: char, d: char)
    requires
        c as u64 == d as u64,
    ensures
        c == d,
{
    assert(0 <= (c as int) <= 0x10FFFF);
    assert(0 <= (d as int) <= 0x10FFFF);
    assert((c as u64) as int == c as int);
    assert((d as u64) as int == d as int);
}

proof fn lemma_chars_key_unique(s: Seq<char>, t: Seq<char>, r1: Seq<u64>, r2: Seq<u64>)
    requires
        chars_key(s) + r1 == chars_key(t) + r2,
    ensures
        s == t,
        r1 == r2,
    decreases s.len(),
{
    lemma_chars_key_unfold(s);
    lemma_chars_key_unfold(t);
    if s.len() == 0 && t.len() == 0 {
        lemma_cons(0, Seq::empty(), r1, 0, Seq::empty(), r2);
        assert(seq![0u64] =~= seq![0u64] + Seq::<u64>::empty());
        assert(Seq::<u64>::empty() + r1 =~= r1);
        assert(Seq::<u64>::empty() + r2 =~= r2);
        assert(s =~= t);
    } else if s.len() == 0 {
        assert((chars_key(s) + r1)[0] == 0);
        assert((chars_key(t) + r2)[0] == 1);
    } else if t.len() == 0 {
        assert((chars_key(s) + r1)[0] == 1);
        assert((chars_key(t) + r2)[0] == 0);
    } else {
        let (s1, t1) = (s.drop_first(), t.drop_first());
        lemma_cons(1, seq![s[0] as u64] + chars_key(s1), r1, 1, seq![t[0] as u64] + chars_key(t1), r2);
        lemma_cons(s[0] as u64, chars_key(s1), r1, t[0] as u64, chars_key(t1), r2);
        lemma_char_key(s[0], t[0]);
        lemma_chars_key_unique(s1, t1, r1, r2);
        assert(s =~= t) by {
            assert forall|i: int| 0 <= i < s.len() implies s[i] == t[i] by {
                if i > 0 {
                    assert(s[i] == s1[i - 1]);
                    assert(t[i] == t1[i - 1]);
                }
            }
        }
    }
}

proof fn lemma_sort_key_unique(a: LSort, b: LSort)
    requires
        sort_key(a) == sort_key(b),
    ensures
        a == b,
{
}

proof fn lemma_lvar_key_unique(x: LVarM, y: LVarM, r1: Seq<u64>, r2: Seq<u64>)
    requires
        lvar_key(x) + r1 == lvar_key(y) + r2,
    ensures
        x == y,
        r1 == r2,
{
    assert(lvar_key(x) + r1 =~= seq![x.idx] + (seq![sort_key(x.sort)] + (chars_key(x.name) + r1)));
    assert(lvar_key(y) + r2 =~= seq![y.idx] + (seq![sort_key(y.sort)] + (chars_key(y.name) + r2)));
    let l = lvar_key(x) + r1;
    assert(l[0] == x.idx && l[1] == sort_key(x.sort));
    let m = lvar_key(y) + r2;
    assert(m[0] == y.idx && m[1] == sort_key(y.sort));
    assert(l.skip(2) =~= chars_key(x.name) + r1);
    assert(m.skip(2) =~= chars_key(y.name) + r2);
    lemma_sort_key_unique(x.sort, y.sort);
    lemma_chars_key_unique(x.name, y.name, r1, r2);
}

proof fn lemma_name_key_unique(x: NameM, y: NameM, r1: Seq<u64>, r2: Seq<u64>)
    requires
        name_key(x) + r1 == name_key(y) + r2,
    ensures
        x == y,
        r1 == r2,
{
    let l = name_key(x) + r1;
    let m = name_key(y) + r2;
    assert(l.drop_first() =~= chars_key(x.id) + r1);
    assert(m.drop_first() =~= chars_key(y.id) + r2);
    assert(l[0] == m[0]);
    lemma_chars_key_unique(x.id, y.id, r1, r2);
    assert(x.tag == y.tag) by {
        match x.tag {
            NameTag::Fresh => assert(l[0] == 0),
            NameTag::Pub => assert(l[0] == 1),
            NameTag::Node => assert(l[0] == 2),
            NameTag::Nat => assert(l[0] == 3),
        }
        match y.tag {
            NameTag::Fresh => assert(m[0] == 0),
            NameTag::Pub => assert(m[0] == 1),
            NameTag::Node => assert(m[0] == 2),
            NameTag::Nat => assert(m[0] == 3),
        }
    }
}

proof fn lemma_sym_key_unique(x: SymInfoM, y: SymInfoM, r1: Seq<u64>, r2: Seq<u64>)
    requires
        sym_key(x) + r1 == sym_key(y) + r2,
    ensures
        x == y,
        r1 == r2,
{
    let tx = seq![x.arity as u64, if x.privacy == Privacy::Public { 0u64 } else { 1 }, if x.constructability
        == Constructability::Constructor { 0u64 } else { 1 }];
    let ty = seq![y.arity as u64, if y.privacy == Privacy::Public { 0u64 } else { 1 }, if y.constructability
        == Constructability::Constructor { 0u64 } else { 1 }];
    lemma_assoc(chars_key(x.name), tx, r1);
    lemma_assoc(chars_key(y.name), ty, r2);
    lemma_chars_key_unique(x.name, y.name, tx + r1, ty + r2);
    assert((tx + r1)[0] == (ty + r2)[0]);
    assert((tx + r1)[1] == (ty + r2)[1]);
    assert((tx + r1)[2] == (ty + r2)[2]);
    assert((tx + r1).skip(3) =~= r1);
    assert((ty + r2).skip(3) =~= r2);
}

proof fn lemma_ac_key_unique(x: AcSymM, y: AcSymM, r1: Seq<u64>, r2: Seq<u64>)
    requires
        funsym_key(FunSymM::Ac(x)).drop_first() + r1 == funsym_key(FunSymM::Ac(y)).drop_first() + r2,
    ensures
        x == y,
        r1 == r2,
{
    let l = funsym_key(FunSymM::Ac(x)).drop_first() + r1;
    let m = funsym_key(FunSymM::Ac(y)).drop_first() + r2;
    assert(l[0] == m[0]);
    match (x, y) {
        (AcSymM::AcFct(p), AcSymM::AcFct(q)) => {
            assert(l.drop_first() =~= sym_key(p) + r1);
            assert(m.drop_first() =~= sym_key(q) + r2);
            lemma_sym_key_unique(p, q, r1, r2);
        },
        (AcSymM::AcFct(_), _) => {},
        (_, AcSymM::AcFct(_)) => {},
        _ => {
            assert(l.drop_first() =~= r1);
            assert(m.drop_first() =~= r2);
        },
    }
}

proof fn lemma_funsym_key_unique(x: FunSymM, y: FunSymM, r1: Seq<u64>, r2: Seq<u64>)
    requires
        funsym_key(x) + r1 == funsym_key(y) + r2,
    ensures
        x == y,
        r1 == r2,
{
    let l = funsym_key(x) + r1;
    let m = funsym_key(y) + r2;
    assert(l[0] == m[0]);
    match (x, y) {
        (FunSymM::NoEq(a), FunSymM::NoEq(b)) => {
            assert(l.drop_first() =~= sym_key(a) + r1);
            assert(m.drop_first() =~= sym_key(b) + r2);
            lemma_sym_key_unique(a, b, r1, r2);
        },
        (FunSymM::Ac(a), FunSymM::Ac(b)) => {
            assert(l.drop_first() =~= funsym_key(x).drop_first() + r1);
            assert(m.drop_first() =~= funsym_key(y).drop_first() + r2);
            lemma_ac_key_unique(a, b, r1, r2);
        },
        (FunSymM::C(a), FunSymM::C(b)) => {
            assert(l.skip(2) =~= r1);
            assert(m.skip(2) =~= r2);
            match a {
                crate::term::CSym::EMap => {},
            }
            match b {
                crate::term::CSym::EMap => {},
            }
        },
        (FunSymM::List, FunSymM::List) => {
            assert(l.drop_first() =~= r1);
            assert(m.drop_first() =~= r2);
        },
        _ => {},
    }
}


proof fn lemma_terms_body_front(ts: Seq<TermM>)
    requires
        ts.len() > 0,
    ensures
        terms_body(ts) == (seq![1u64] + term_key(ts[0])) + terms_body(ts.drop_first()),
    decreases ts.len(),
{
    if ts.len() == 1 {
        assert(ts.drop_last() =~= Seq::<TermM>::empty());
        assert(ts.drop_first() =~= Seq::<TermM>::empty());
        assert(terms_body(ts) =~= (seq![1u64] + term_key(ts[0])) + terms_body(ts.drop_first()));
    } else {
        let dl = ts.drop_last();
        lemma_terms_body_front(dl);
        assert(dl.drop_first() =~= ts.drop_first().drop_last());
        assert(ts.drop_first().last() == ts.last());
        assert(dl[0] == ts[0]);
        assert(terms_body(ts) =~= (seq![1u64] + term_key(ts[0])) + terms_body(ts.drop_first()));
    }
}

#[verifier::spinoff_prover]
#[verifier::rlimit(60)]
pub(crate) proof fn lemma_term_key_unique(x: TermM, y: TermM, r1: Seq<u64>, r2: Seq<u64>)
    requires
        term_key(x) + r1 == term_key(y) + r2,
    ensures
        x == y,
        r1 == r2,
    decreases x, 0nat,
{
    let l = term_key(x) + r1;
    let m = term_key(y) + r2;
    assert(l[0] == m[0]);
    match (x, y) {
        (TermM::Con(a), TermM::Con(b)) => {
            assert(l.drop_first() =~= name_key(a) + r1);
            assert(m.drop_first() =~= name_key(b) + r2);
            lemma_name_key_unique(a, b, r1, r2);
        },
        (TermM::Var(a), TermM::Var(b)) => {
            assert(l[1] == m[1]);
            match (a, b) {
                (BVarM::Bound(i), BVarM::Bound(j)) => {
                    assert(l[2] == m[2]);
                    assert(l.skip(3) =~= r1);
                    assert(m.skip(3) =~= r2);
                },
                (BVarM::Free(v), BVarM::Free(w)) => {
                    assert(l.skip(2) =~= lvar_key(v) + r1);
                    assert(m.skip(2) =~= lvar_key(w) + r2);
                    lemma_lvar_key_unique(v, w, r1, r2);
                },
                _ => {},
            }
        },
        (TermM::App(f, xs), TermM::App(g, ys)) => {
            assert(l.drop_first() =~= funsym_key(f) + (terms_key(xs) + r1));
            assert(m.drop_first() =~= funsym_key(g) + (terms_key(ys) + r2));
            lemma_funsym_key_unique(f, g, terms_key(xs) + r1, terms_key(ys) + r2);
            lemma_terms_key_unique(xs, ys, r1, r2);
        },
        _ => {},
    }
}

#[verifier::spinoff_prover]
#[verifier::rlimit(60)]
proof fn lemma_terms_key_unique(xs: Seq<TermM>, ys: Seq<TermM>, r1: Seq<u64>, r2: Seq<u64>)
    requires
        terms_key(xs) + r1 == terms_key(ys) + r2,
    ensures
        xs == ys,
        r1 == r2,
    decreases xs, 1nat,
{
    let l = terms_key(xs) + r1;
    let m = terms_key(ys) + r2;
    if xs.len() == 0 {
        assert(terms_body(xs) =~= Seq::<u64>::empty());
        if ys.len() > 0 {
            lemma_terms_body_front(ys);
            assert(m[0] == 1);
            assert(l[0] == 0);
        } else {
            assert(terms_body(ys) =~= Seq::<u64>::empty());
            assert(l.drop_first() =~= r1);
            assert(m.drop_first() =~= r2);
            assert(xs =~= ys);
        }
    } else if ys.len() == 0 {
        assert(terms_body(ys) =~= Seq::<u64>::empty());
        lemma_terms_body_front(xs);
        assert(l[0] == 1);
        assert(m[0] == 0);
    } else {
        lemma_terms_body_front(xs);
        lemma_terms_body_front(ys);
        let (x1, y1) = (xs.drop_first(), ys.drop_first());
        assert(l.drop_first() =~= term_key(xs[0]) + (terms_key(x1) + r1));
        assert(m.drop_first() =~= term_key(ys[0]) + (terms_key(y1) + r2));
        assert(l[0] == m[0]);
        lemma_term_key_unique(xs[0], ys[0], terms_key(x1) + r1, terms_key(y1) + r2);
        lemma_terms_key_unique(x1, y1, r1, r2);
        assert(xs =~= ys) by {
            assert forall|i: int| 0 <= i < xs.len() implies xs[i] == ys[i] by {
                if i > 0 {
                    assert(xs[i] == x1[i - 1]);
                    assert(ys[i] == y1[i - 1]);
                }
            }
        }
    }
}

#[verifier::spinoff_prover]
#[verifier::rlimit(60)]
proof fn lemma_fact_key_unique(x: FactM, y: FactM, r1: Seq<u64>, r2: Seq<u64>)
    requires
        fact_key(x) + r1 == fact_key(y) + r2,
    ensures
        x == y,
        r1 == r2,
{
    let l = fact_key(x) + r1;
    let m = fact_key(y) + r2;
    assert(l[0] == m[0]);
    match (x.tag, y.tag) {
        (FactTagM::Proto(p, n, a), FactTagM::Proto(q, o, b)) => {
            assert(l[1] == m[1]);
            assert(l.skip(2) =~= chars_key(n) + (seq![a as u64] + (terms_key(x.terms) + r1)));
            assert(m.skip(2) =~= chars_key(o) + (seq![b as u64] + (terms_key(y.terms) + r2)));
            lemma_chars_key_unique(n, o, seq![a as u64] + (terms_key(x.terms) + r1), seq![b as u64] + (
            terms_key(y.terms) + r2));
            assert((seq![a as u64] + (terms_key(x.terms) + r1))[0] == (seq![b as u64] + (terms_key(y.terms)
                + r2))[0]);
            assert((seq![a as u64] + (terms_key(x.terms) + r1)).drop_first() =~= terms_key(x.terms) + r1);
            assert((seq![b as u64] + (terms_key(y.terms) + r2)).drop_first() =~= terms_key(y.terms) + r2);
            lemma_terms_key_unique(x.terms, y.terms, r1, r2);
        },
        (FactTagM::Proto(..), _) => {},
        (_, FactTagM::Proto(..)) => {},
        _ => {
            assert(l.drop_first() =~= terms_key(x.terms) + r1);
            assert(m.drop_first() =~= terms_key(y.terms) + r2);
            lemma_terms_key_unique(x.terms, y.terms, r1, r2);
        },
    }
}

proof fn lemma_two_terms(a: TermM, b: TermM, c: TermM, d: TermM, r1: Seq<u64>, r2: Seq<u64>)
    requires
        term_key(a) + (term_key(b) + r1) == term_key(c) + (term_key(d) + r2),
    ensures
        a == c,
        b == d,
        r1 == r2,
{
    lemma_term_key_unique(a, c, term_key(b) + r1, term_key(d) + r2);
    lemma_term_key_unique(b, d, r1, r2);
}

#[verifier::spinoff_prover]
#[verifier::rlimit(60)]
proof fn lemma_atom_key_unique(x: AtomM, y: AtomM, r1: Seq<u64>, r2: Seq<u64>)
    requires
        atom_key(x) + r1 == atom_key(y) + r2,
    ensures
        x == y,
        r1 == r2,
{
    let l = atom_key(x) + r1;
    let m = atom_key(y) + r2;
    assert(l[0] == m[0]);
    match (x, y) {
        (AtomM::EqE(a, b), AtomM::EqE(c, d)) | (AtomM::Less(a, b), AtomM::Less(c, d)) | (
            AtomM::Subterm(a, b),
            AtomM::Subterm(c, d),
        ) => {
            assert(l.drop_first() =~= term_key(a) + (term_key(b) + r1));
            assert(m.drop_first() =~= term_key(c) + (term_key(d) + r2));
            lemma_two_terms(a, b, c, d, r1, r2);
        },
        (AtomM::Action(t, f), AtomM::Action(u, g)) => {
            assert(l.drop_first() =~= term_key(t) + (fact_key(f) + r1));
            assert(m.drop_first() =~= term_key(u) + (fact_key(g) + r2));
            lemma_term_key_unique(t, u, fact_key(f) + r1, fact_key(g) + r2);
            lemma_fact_key_unique(f, g, r1, r2);
        },
        (AtomM::Last(t), AtomM::Last(u)) => {
            assert(l.drop_first() =~= term_key(t) + r1);
            assert(m.drop_first() =~= term_key(u) + r2);
            lemma_term_key_unique(t, u, r1, r2);
        },
        (AtomM::Pred(f), AtomM::Pred(g)) => {
            assert(l.drop_first() =~= fact_key(f) + r1);
            assert(m.drop_first() =~= fact_key(g) + r2);
            lemma_fact_key_unique(f, g, r1, r2);
        },
        _ => {},
    }
}


proof fn lemma_atoms_body_front(ts: Seq<AtomM>)
    requires
        ts.len() > 0,
    ensures
        atoms_body(ts) == (seq![1u64] + atom_key(ts[0])) + atoms_body(ts.drop_first()),
    decreases ts.len(),
{
    if ts.len() == 1 {
        assert(ts.drop_last() =~= Seq::<AtomM>::empty());
        assert(ts.drop_first() =~= Seq::<AtomM>::empty());
        assert(atoms_body(ts) =~= (seq![1u64] + atom_key(ts[0])) + atoms_body(ts.drop_first()));
    } else {
        let dl = ts.drop_last();
        lemma_atoms_body_front(dl);
        assert(dl.drop_first() =~= ts.drop_first().drop_last());
        assert(ts.drop_first().last() == ts.last());
        assert(dl[0] == ts[0]);
        assert(atoms_body(ts) =~= (seq![1u64] + atom_key(ts[0])) + atoms_body(ts.drop_first()));
    }
}

#[verifier::spinoff_prover]
#[verifier::rlimit(60)]
proof fn lemma_atoms_body_unique(xs: Seq<AtomM>, ys: Seq<AtomM>, r1: Seq<u64>, r2: Seq<u64>)
    requires
        atoms_body(xs).push(0) + r1 == atoms_body(ys).push(0) + r2,
    ensures
        xs == ys,
        r1 == r2,
    decreases xs.len(),
{
    let l = atoms_body(xs).push(0) + r1;
    let m = atoms_body(ys).push(0) + r2;
    if xs.len() == 0 {
        assert(atoms_body(xs) =~= Seq::<u64>::empty());
        if ys.len() > 0 {
            lemma_atoms_body_front(ys);
            assert(m[0] == 1);
            assert(l[0] == 0);
        } else {
            assert(atoms_body(ys) =~= Seq::<u64>::empty());
            assert(l.drop_first() =~= r1);
            assert(m.drop_first() =~= r2);
            assert(xs =~= ys);
        }
    } else if ys.len() == 0 {
        assert(atoms_body(ys) =~= Seq::<u64>::empty());
        lemma_atoms_body_front(xs);
        assert(l[0] == 1);
        assert(m[0] == 0);
    } else {
        lemma_atoms_body_front(xs);
        lemma_atoms_body_front(ys);
        let (x1, y1) = (xs.drop_first(), ys.drop_first());
        assert(l.drop_first() =~= atom_key(xs[0]) + (atoms_body(x1).push(0) + r1));
        assert(m.drop_first() =~= atom_key(ys[0]) + (atoms_body(y1).push(0) + r2));
        assert(l[0] == m[0]);
        lemma_atom_key_unique(xs[0], ys[0], atoms_body(x1).push(0) + r1, atoms_body(y1).push(0) + r2);
        lemma_atoms_body_unique(x1, y1, r1, r2);
        assert(xs =~= ys) by {
            assert forall|i: int| 0 <= i < xs.len() implies xs[i] == ys[i] by {
                if i > 0 {
                    assert(xs[i] == x1[i - 1]);
                    assert(ys[i] == y1[i - 1]);
                }
            }
        }
    }
}

proof fn lemma_binders_body_front(ts: Seq<BinderM>)
    requires
        ts.len() > 0,
    ensures
        binders_body(ts) == (seq![1u64] + binder_key(ts[0])) + binders_body(ts.drop_first()),
    decreases ts.len(),
{
    if ts.len() == 1 {
        assert(ts.drop_last() =~= Seq::<BinderM>::empty());
        assert(ts.drop_first() =~= Seq::<BinderM>::empty());
        assert(binders_body(ts) =~= (seq![1u64] + binder_key(ts[0])) + binders_body(ts.drop_first()));
    } else {
        let dl = ts.drop_last();
        lemma_binders_body_front(dl);
        assert(dl.drop_first() =~= ts.drop_first().drop_last());
        assert(ts.drop_first().last() == ts.last());
        assert(dl[0] == ts[0]);
        assert(binders_body(ts) =~= (seq![1u64] + binder_key(ts[0])) + binders_body(ts.drop_first()));
    }
}

#[verifier::spinoff_prover]
#[verifier::rlimit(60)]
proof fn lemma_binders_body_unique(xs: Seq<BinderM>, ys: Seq<BinderM>, r1: Seq<u64>, r2: Seq<u64>)
    requires
        binders_body(xs).push(0) + r1 == binders_body(ys).push(0) + r2,
    ensures
        xs == ys,
        r1 == r2,
    decreases xs.len(),
{
    let l = binders_body(xs).push(0) + r1;
    let m = binders_body(ys).push(0) + r2;
    if xs.len() == 0 {
        assert(binders_body(xs) =~= Seq::<u64>::empty());
        if ys.len() > 0 {
            lemma_binders_body_front(ys);
            assert(m[0] == 1);
            assert(l[0] == 0);
        } else {
            assert(binders_body(ys) =~= Seq::<u64>::empty());
            assert(l.drop_first() =~= r1);
            assert(m.drop_first() =~= r2);
            assert(xs =~= ys);
        }
    } else if ys.len() == 0 {
        assert(binders_body(ys) =~= Seq::<u64>::empty());
        lemma_binders_body_front(xs);
        assert(l[0] == 1);
        assert(m[0] == 0);
    } else {
        lemma_binders_body_front(xs);
        lemma_binders_body_front(ys);
        let (x1, y1) = (xs.drop_first(), ys.drop_first());
        assert(l.drop_first() =~= binder_key(xs[0]) + (binders_body(x1).push(0) + r1));
        assert(m.drop_first() =~= binder_key(ys[0]) + (binders_body(y1).push(0) + r2));
        assert(l[0] == m[0]);
        lemma_binder_key_unique(xs[0], ys[0], binders_body(x1).push(0) + r1, binders_body(y1).push(0) + r2);
        lemma_binders_body_unique(x1, y1, r1, r2);
        assert(xs =~= ys) by {
            assert forall|i: int| 0 <= i < xs.len() implies xs[i] == ys[i] by {
                if i > 0 {
                    assert(xs[i] == x1[i - 1]);
                    assert(ys[i] == y1[i - 1]);
                }
            }
        }
    }
}

proof fn lemma_binder_key_unique(x: BinderM, y: BinderM, r1: Seq<u64>, r2: Seq<u64>)
    requires
        binder_key(x) + r1 == binder_key(y) + r2,
    ensures
        x == y,
        r1 == r2,
{
    lemma_assoc(chars_key(x.name), seq![sort_key(x.sort)], r1);
    lemma_assoc(chars_key(y.name), seq![sort_key(y.sort)], r2);
    lemma_chars_key_unique(x.name, y.name, seq![sort_key(x.sort)] + r1, seq![sort_key(y.sort)] + r2);
    assert((seq![sort_key(x.sort)] + r1)[0] == (seq![sort_key(y.sort)] + r2)[0]);
    assert((seq![sort_key(x.sort)] + r1).drop_first() =~= r1);
    assert((seq![sort_key(y.sort)] + r2).drop_first() =~= r2);
    lemma_sort_key_unique(x.sort, y.sort);
}

proof fn lemma_guardeds_body_front(ts: Seq<GuardedM>)
    requires
        ts.len() > 0,
    ensures
        guardeds_body(ts) == (seq![1u64] + guarded_key(ts[0])) + guardeds_body(ts.drop_first()),
    decreases ts.len(),
{
    if ts.len() == 1 {
        assert(ts.drop_last() =~= Seq::<GuardedM>::empty());
        assert(ts.drop_first() =~= Seq::<GuardedM>::empty());
        assert(guardeds_body(ts) =~= (seq![1u64] + guarded_key(ts[0])) + guardeds_body(ts.drop_first()));
    } else {
        let dl = ts.drop_last();
        lemma_guardeds_body_front(dl);
        assert(dl.drop_first() =~= ts.drop_first().drop_last());
        assert(ts.drop_first().last() == ts.last());
        assert(dl[0] == ts[0]);
        assert(guardeds_body(ts) =~= (seq![1u64] + guarded_key(ts[0])) + guardeds_body(ts.drop_first()));
    }
}

#[verifier::spinoff_prover]
#[verifier::rlimit(60)]
proof fn lemma_guarded_key_unique(x: GuardedM, y: GuardedM, r1: Seq<u64>, r2: Seq<u64>)
    requires
        guarded_key(x) + r1 == guarded_key(y) + r2,
    ensures
        x == y,
        r1 == r2,
    decreases x, 0nat,
{
    let l = guarded_key(x) + r1;
    let m = guarded_key(y) + r2;
    assert(l[0] == m[0]);
    match (x, y) {
        (GuardedM::Atom(a), GuardedM::Atom(b)) => {
            assert(l.drop_first() =~= atom_key(a) + r1);
            assert(m.drop_first() =~= atom_key(b) + r2);
            lemma_atom_key_unique(a, b, r1, r2);
        },
        (GuardedM::Disj(xs), GuardedM::Disj(ys)) | (GuardedM::Conj(xs), GuardedM::Conj(ys)) => {
            assert(l.drop_first() =~= guardeds_body(xs).push(0) + r1);
            assert(m.drop_first() =~= guardeds_body(ys).push(0) + r2);
            lemma_guardeds_unique(xs, ys, r1, r2);
        },
        (
            GuardedM::GGuarded { qua: q1, vars: v1, guards: g1, body: b1 },
            GuardedM::GGuarded { qua: q2, vars: v2, guards: g2, body: b2 },
        ) => {
            assert(l[1] == m[1]);
            let t1 = atoms_body(g1).push(0) + (guarded_key(*b1) + r1);
            let t2 = atoms_body(g2).push(0) + (guarded_key(*b2) + r2);
            assert(l.skip(2) =~= binders_body(v1).push(0) + t1);
            assert(m.skip(2) =~= binders_body(v2).push(0) + t2);
            lemma_binders_body_unique(v1, v2, t1, t2);
            lemma_atoms_body_unique(g1, g2, guarded_key(*b1) + r1, guarded_key(*b2) + r2);
            lemma_guarded_key_unique(*b1, *b2, r1, r2);
        },
        _ => {},
    }
}

#[verifier::spinoff_prover]
#[verifier::rlimit(60)]
proof fn lemma_guardeds_unique(xs: Seq<GuardedM>, ys: Seq<GuardedM>, r1: Seq<u64>, r2: Seq<u64>)
    requires
        guardeds_body(xs).push(0) + r1 == guardeds_body(ys).push(0) + r2,
    ensures
        xs == ys,
        r1 == r2,
    decreases xs, 1nat,
{
    let l = guardeds_body(xs).push(0) + r1;
    let m = guardeds_body(ys).push(0) + r2;
    if xs.len() == 0 {
        assert(guardeds_body(xs) =~= Seq::<u64>::empty());
        if ys.len() > 0 {
            lemma_guardeds_body_front(ys);
            assert(m[0] == 1);
            assert(l[0] == 0);
        } else {
            assert(guardeds_body(ys) =~= Seq::<u64>::empty());
            assert(l.drop_first() =~= r1);
            assert(m.drop_first() =~= r2);
            assert(xs =~= ys);
        }
    } else if ys.len() == 0 {
        assert(guardeds_body(ys) =~= Seq::<u64>::empty());
        lemma_guardeds_body_front(xs);
        assert(l[0] == 1);
        assert(m[0] == 0);
    } else {
        lemma_guardeds_body_front(xs);
        lemma_guardeds_body_front(ys);
        let (x1, y1) = (xs.drop_first(), ys.drop_first());
        assert(l.drop_first() =~= guarded_key(xs[0]) + (guardeds_body(x1).push(0) + r1));
        assert(m.drop_first() =~= guarded_key(ys[0]) + (guardeds_body(y1).push(0) + r2));
        assert(l[0] == m[0]);
        lemma_guarded_key_unique(xs[0], ys[0], guardeds_body(x1).push(0) + r1, guardeds_body(y1).push(0) + r2);
        lemma_guardeds_unique(x1, y1, r1, r2);
        assert(xs =~= ys) by {
            assert forall|i: int| 0 <= i < xs.len() implies xs[i] == ys[i] by {
                if i > 0 {
                    assert(xs[i] == x1[i - 1]);
                    assert(ys[i] == y1[i - 1]);
                }
            }
        }
    }
}

/// The order of guarded formulas agrees with their equality: two formulas
/// compare equal exactly when they are equal.
pub proof fn guarded_order_agrees_with_equality(a: GuardedM, b: GuardedM)
    ensures
        guarded_order_m(a, b) == Ordering::Equal <==> a == b,
{
    lemma_key_order_refl(guarded_key(a));
    if key_order(guarded_key(a), guarded_key(b)) == 0 {
        lemma_key_order_zero(guarded_key(a), guarded_key(b));
        assert(guarded_key(a) + Seq::<u64>::empty() =~= guarded_key(a));
        assert(guarded_key(b) + Seq::<u64>::empty() =~= guarded_key(b));
        lemma_guarded_key_unique(a, b, Seq::empty(), Seq::empty());
    }
}

pub(crate) proof fn lemma_key_order_zero(a: Seq<u64>, b: Seq<u64>)
    requires
        key_order(a, b) == 0,
    ensures
        a == b,
    decreases a.len(),
{
    if a.len() > 0 && b.len() > 0 {
        lemma_key_order_zero(a.drop_first(), b.drop_first());
        assert(a =~= seq![a[0]] + a.drop_first());
        assert(b =~= seq![b[0]] + b.drop_first());
    } else {
        assert(a =~= b);
    }
}

// ---------------------------------------------------------------------------
// Writing keys
// ---------------------------------------------------------------------------

fn push_chars(s: &String, out: &mut Vec<u64>)
    ensures
        final(out)@ == old(out)@ + chars_key(s@),
{
    let ghost o0 = out@;
    let n = s.as_str().unicode_len();
    let mut i: usize = 0;
    while i < n
        invariant
            i <= n,
            n == s@.len(),
            out@ == o0 + Seq::new(2 * i as nat, |j: int| if j % 2 == 0 { 1u64 } else { s@[j / 2] as u64 }),
        decreases n - i,
    {
        let c = s.as_str().get_char(i);
        out.push(1);
        out.push(c as u64);
        i += 1;
        assert(out@ =~= o0 + Seq::new(2 * i as nat, |j: int| if j % 2 == 0 { 1u64 } else { s@[j / 2] as u64 }));
    }
    out.push(0);
    assert(out@ =~= o0 + chars_key(s@));
}

fn sort_num(s: LSort) -> (r: u64)
    ensures
        r == sort_key(s),
{
    match s {
        LSort::Pub => 0,
        LSort::Fresh => 1,
        LSort::Msg => 2,
        LSort::Node => 3,
        LSort::Nat => 4,
    }
}

fn push_lvar(v: &LVar, out: &mut Vec<u64>)
    ensures
        final(out)@ == old(out)@ + lvar_key(v@),
{
    let ghost o0 = out@;
    out.push(v.idx);
    out.push(sort_num(v.sort));
    push_chars(&v.name, out);
    assert(out@ =~= o0 + lvar_key(v@));
}

fn push_name(n: &Name, out: &mut Vec<u64>)
    ensures
        final(out)@ == old(out)@ + name_key(n@),
{
    let ghost o0 = out@;
    out.push(
        match n.tag {
            NameTag::Fresh => 0,
            NameTag::Pub => 1,
            NameTag::Node => 2,
            NameTag::Nat => 3,
        },
    );
    push_chars(&n.id, out);
    assert(out@ =~= o0 + name_key(n@));
}

fn push_sym(s: &SymInfo, out: &mut Vec<u64>)
    ensures
        final(out)@ == old(out)@ + sym_key(s@),
{
    let ghost o0 = out@;
    push_chars(&s.name, out);
    out.push(s.arity as u64);
    out.push(if s.privacy == Privacy::Public { 0 } else { 1 });
    out.push(if s.constructability == Constructability::Constructor { 0 } else { 1 });
    assert(out@ =~= o0 + sym_key(s@));
}

fn push_funsym(f: &FunSym, out: &mut Vec<u64>)
    ensures
        final(out)@ == old(out)@ + funsym_key(f@),
{
    let ghost o0 = out@;
    match f {
        FunSym::NoEq(s) => {
            out.push(0);
            push_sym(s, out);
        },
        FunSym::Ac(a) => {
            out.push(1);
            match a {
                AcSym::Union => out.push(0),
                AcSym::Mult => out.push(1),
                AcSym::Xor => out.push(2),
                AcSym::NatPlus => out.push(3),
                AcSym::AcFct(s) => {
                    out.push(4);
                    push_sym(s, out);
                },
            }
        },
        FunSym::C(_) => {
            out.push(2);
            out.push(0);
        },
        FunSym::List => out.push(3),
    }
    assert(out@ =~= o0 + funsym_key(f@));
}

pub(crate) fn push_term(t: &Term, out: &mut Vec<u64>)
    ensures
        final(out)@ == old(out)@ + term_key(t@),
    decreases t, 0nat,
{
    let ghost o0 = out@;
    match t {
        Term::Con(n) => {
            out.push(0);
            push_name(n, out);
        },
        Term::Var(BVar::Bound(i)) => {
            out.push(1);
            out.push(0);
            out.push(*i);
        },
        Term::Var(BVar::Free(v)) => {
            out.push(1);
            out.push(1);
            push_lvar(v, out);
        },
        Term::App(f, args) => {
            out.push(2);
            push_funsym(f, out);
            push_terms(args, out);
        },
    }
    assert(out@ =~= o0 + term_key(t@));
}

fn push_terms(ts: &Vec<Term>, out: &mut Vec<u64>)
    ensures
        final(out)@ == old(out)@ + terms_key(terms_m(ts@)),
    decreases ts, 1nat,
{
    let ghost o0 = out@;
    let ghost s = terms_m(ts@);
    let mut i: usize = 0;
    assert(s.take(0) =~= Seq::<TermM>::empty());
    assert(out@ =~= o0 + terms_body(s.take(0)));
    while i < ts.len()
        invariant
            i <= ts.len(),
            s == terms_m(ts@),
            out@ == o0 + terms_body(s.take(i as int)),
        decreases ts.len() - i,
    {
        assert(s.take(i + 1).drop_last() =~= s.take(i as int));
        assert(s.take(i + 1).last() == ts@[i as int]@);
        out.push(1);
        push_term(&ts[i], out);
        assert(out@ =~= o0 + terms_body(s.take(i + 1)));
        i += 1;
    }
    assert(s.take(ts.len() as int) =~= s);
    out.push(0);
    assert(out@ =~= o0 + terms_key(s));
}

fn push_fact(f: &Fact, out: &mut Vec<u64>)
    ensures
        final(out)@ == old(out)@ + fact_key(f@),
{
    let ghost o0 = out@;
    match &f.tag {
        FactTag::Proto(p, n, a) => {
            out.push(0);
            out.push(if *p { 1 } else { 0 });
            push_chars(n, out);
            out.push(*a as u64);
        },
        FactTag::Fresh => out.push(1),
        FactTag::Out => out.push(2),
        FactTag::In => out.push(3),
        FactTag::Ku => out.push(4),
        FactTag::Kd => out.push(5),
        FactTag::KLog => out.push(6),
        FactTag::Ded => out.push(7),
    }
    assert(out@ =~= o0 + tag_key(f@.tag));
    push_terms(&f.terms, out);
    assert(out@ =~= o0 + fact_key(f@));
}

fn push_atom(a: &Atom, out: &mut Vec<u64>)
    ensures
        final(out)@ == old(out)@ + atom_key(a@),
{
    let ghost o0 = out@;
    match a {
        Atom::EqE(x, y) => {
            out.push(0);
            push_term(x, out);
            push_term(y, out);
        },
        Atom::Less(x, y) => {
            out.push(1);
            push_term(x, out);
            push_term(y, out);
        },
        Atom::Subterm(x, y) => {
            out.push(2);
            push_term(x, out);
            push_term(y, out);
        },
        Atom::Action(t, f) => {
            out.push(3);
            push_term(t, out);
            push_fact(f, out);
        },
        Atom::Last(t) => {
            out.push(4);
            push_term(t, out);
        },
        Atom::Pred(f) => {
            out.push(5);
            push_fact(f, out);
        },
    }
    assert(out@ =~= o0 + atom_key(a@));
}

fn push_atoms(xs: &Vec<Atom>, out: &mut Vec<u64>)
    ensures
        final(out)@ == old(out)@ + atoms_body(atoms_m(xs@)).push(0),
{
    let ghost o0 = out@;
    let ghost s = atoms_m(xs@);
    let mut i: usize = 0;
    assert(s.take(0) =~= Seq::<AtomM>::empty());
    assert(out@ =~= o0 + atoms_body(s.take(0)));
    while i < xs.len()
        invariant
            i <= xs.len(),
            s == atoms_m(xs@),
            out@ == o0 + atoms_body(s.take(i as int)),
        decreases xs.len() - i,
    {
        assert(s.take(i + 1).drop_last() =~= s.take(i as int));
        assert(s.take(i + 1).last() == xs@[i as int]@);
        out.push(1);
        push_atom(&xs[i], out);
        assert(out@ =~= o0 + atoms_body(s.take(i + 1)));
        i += 1;
    }
    assert(s.take(xs.len() as int) =~= s);
    out.push(0);
    assert(out@ =~= o0 + atoms_body(s).push(0));
}

fn push_binders(xs: &Vec<Binder>, out: &mut Vec<u64>)
    ensures
        final(out)@ == old(out)@ + binders_body(binders_m(xs@)).push(0),
{
    let ghost o0 = out@;
    let ghost s = binders_m(xs@);
    let mut i: usize = 0;
    assert(s.take(0) =~= Seq::<BinderM>::empty());
    assert(out@ =~= o0 + binders_body(s.take(0)));
    while i < xs.len()
        invariant
            i <= xs.len(),
            s == binders_m(xs@),
            out@ == o0 + binders_body(s.take(i as int)),
        decreases xs.len() - i,
    {
        assert(s.take(i + 1).drop_last() =~= s.take(i as int));
        assert(s.take(i + 1).last() == xs@[i as int]@);
        out.push(1);
        let ghost o1 = out@;
        push_chars(&xs[i].name, out);
        out.push(sort_num(xs[i].sort));
        assert(out@ =~= o1 + binder_key(xs@[i as int]@));
        assert(out@ =~= o0 + binders_body(s.take(i + 1)));
        i += 1;
    }
    assert(s.take(xs.len() as int) =~= s);
    out.push(0);
    assert(out@ =~= o0 + binders_body(s).push(0));
}

fn push_guarded(g: &Guarded, out: &mut Vec<u64>)
    ensures
        final(out)@ == old(out)@ + guarded_key(g@),
    decreases g, 0nat,
{
    let ghost o0 = out@;
    match g {
        Guarded::Atom(a) => {
            out.push(0);
            push_atom(a, out);
        },
        Guarded::Disj(xs) => {
            out.push(1);
            push_guardeds(xs, out);
        },
        Guarded::Conj(xs) => {
            out.push(2);
            push_guardeds(xs, out);
        },
        Guarded::GGuarded { qua, vars, guards, body } => {
            out.push(3);
            out.push(if *qua == Quantifier::All { 0 } else { 1 });
            push_binders(vars, out);
            push_atoms(guards, out);
            push_guarded(body, out);
        },
    }
    assert(out@ =~= o0 + guarded_key(g@));
}

fn push_guardeds(xs: &Vec<Guarded>, out: &mut Vec<u64>)
    ensures
        final(out)@ == old(out)@ + guardeds_body(guardeds_m(xs@)).push(0),
    decreases xs, 1nat,
{
    let ghost o0 = out@;
    let ghost s = guardeds_m(xs@);
    let mut i: usize = 0;
    assert(s.take(0) =~= Seq::<GuardedM>::empty());
    assert(out@ =~= o0 + guardeds_body(s.take(0)));
    while i < xs.len()
        invariant
            i <= xs.len(),
            s == guardeds_m(xs@),
            out@ == o0 + guardeds_body(s.take(i as int)),
        decreases xs.len() - i,
    {
        assert(s.take(i + 1).drop_last() =~= s.take(i as int));
        assert(s.take(i + 1).last() == xs@[i as int]@);
        out.push(1);
        push_guarded(&xs[i], out);
        assert(out@ =~= o0 + guardeds_body(s.take(i + 1)));
        i += 1;
    }
    assert(s.take(xs.len() as int) =~= s);
    out.push(0);
    assert(out@ =~= o0 + guardeds_body(s).push(0));
}

/// The key of a guarded formula (see [`guarded_key`]).
pub fn guarded_key_of(g: &Guarded) -> (r: Vec<u64>)
    ensures
        r@ == guarded_key(g@),
{
    let mut out: Vec<u64> = Vec::new();
    push_guarded(g, &mut out);
    assert(out@ =~= guarded_key(g@));
    out
}

/// The lexicographic order of two keys (see [`key_order`]).
pub fn key_order_of(a: &Vec<u64>, b: &Vec<u64>) -> (r: i8)
    ensures
        r == key_order(a@, b@),
{
    let mut i: usize = 0;
    assert(a@.skip(0) =~= a@);
    assert(b@.skip(0) =~= b@);
    while i < a.len() && i < b.len()
        invariant
            i <= a.len(),
            i <= b.len(),
            key_order(a@, b@) == key_order(a@.skip(i as int), b@.skip(i as int)),
        decreases a.len() - i,
    {
        assert(a@.skip(i as int)[0] == a@[i as int]);
        assert(b@.skip(i as int)[0] == b@[i as int]);
        if a[i] < b[i] {
            return -1;
        }
        if a[i] > b[i] {
            return 1;
        }
        assert(a@.skip(i as int).drop_first() =~= a@.skip(i + 1));
        assert(b@.skip(i as int).drop_first() =~= b@.skip(i + 1));
        i += 1;
    }
    if i == a.len() && i == b.len() {
        0
    } else if i == a.len() {
        -1
    } else {
        1
    }
}

/// The order of guarded formulas: by their keys (see [`guarded_key`]).
pub open spec fn guarded_order_m(a: GuardedM, b: GuardedM) -> Ordering {
    let k = key_order(guarded_key(a), guarded_key(b));
    if k < 0 {
        Ordering::Less
    } else if k == 0 {
        Ordering::Equal
    } else {
        Ordering::Greater
    }
}

/// Compare two guarded formulas (see [`guarded_order_m`]): constructors in
/// declaration order, then their fields in turn.
pub fn compare_guarded(a: &Guarded, b: &Guarded) -> (r: Ordering)
    ensures
        r == guarded_order_m(a@, b@),
{
    let ka = guarded_key_of(a);
    let kb = guarded_key_of(b);
    let o = key_order_of(&ka, &kb);
    if o < 0 {
        Ordering::Less
    } else if o == 0 {
        Ordering::Equal
    } else {
        Ordering::Greater
    }
}

impl PartialOrd for Guarded {
    fn partial_cmp(&self, other: &Guarded) -> (r: Option<Ordering>) {
        Some(compare_guarded(self, other))
    }
}

impl vstd::std_specs::cmp::PartialOrdSpecImpl for Guarded {
    open spec fn obeys_partial_cmp_spec() -> bool {
        true
    }

    open spec fn partial_cmp_spec(&self, other: &Guarded) -> Option<Ordering> {
        Some(guarded_order_m(self@, other@))
    }
}

} // verus!
