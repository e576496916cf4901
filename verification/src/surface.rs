//! Terms, facts, atoms and formulas as a theory file writes them, before
//! they are elaborated, and the expansion of the theory's macros in them.
use vstd::prelude::*;
use crate::vars::{VarSpec, VarSpecM};

verus! {

broadcast use vstd::std_specs::vec::group_vec_axioms;

/// A term as written: a variable, a literal, an application by name, an
/// infix operator, a tuple, a `diff`, or a pattern.
#[derive(Debug, PartialEq, Eq)]
pub enum SurfaceTerm {
    Var(VarSpec),
    PubLit(String),
    FreshLit(String),
    NatLit(String),
    Number(u64),
    NumberOne,
    NatOne,
    DhNeutral,
    App(String, Vec<SurfaceTerm>),
    AlgApp(String, Box<SurfaceTerm>, Box<SurfaceTerm>),
    Pair(Vec<SurfaceTerm>),
    Diff(Box<SurfaceTerm>, Box<SurfaceTerm>),
    BinOp(String, Box<SurfaceTerm>, Box<SurfaceTerm>),
    PatMatch(Box<SurfaceTerm>),
}

/// The model of a [`SurfaceTerm`].
pub enum STermM {
    Var(VarSpecM),
    PubLit(Seq<char>),
    FreshLit(Seq<char>),
    NatLit(Seq<char>),
    Number(u64),
    NumberOne,
    NatOne,
    DhNeutral,
    App(Seq<char>, Seq<STermM>),
    AlgApp(Seq<char>, Box<STermM>, Box<STermM>),
    Pair(Seq<STermM>),
    Diff(Box<STermM>, Box<STermM>),
    BinOp(Seq<char>, Box<STermM>, Box<STermM>),
    PatMatch(Box<STermM>),
}

/// The models of a sequence of terms.
pub open spec fn sterms_m(ts: Seq<SurfaceTerm>) -> Seq<STermM>
    decreases ts, 1nat,
{
    Seq::new(ts.len(), |i: int| if 0 <= i < ts.len() { ts[i].view() } else { STermM::NumberOne })
}

pub broadcast proof fn lemma_sterms_m_len(ts: Seq<SurfaceTerm>)
    ensures
        #[trigger] sterms_m(ts).len() == ts.len(),
{
}

pub broadcast proof fn lemma_sterms_m_index(ts: Seq<SurfaceTerm>, j: int)
    requires
        0 <= j < ts.len(),
    ensures
        #[trigger] sterms_m(ts)[j] == ts[j]@,
{
}

pub broadcast group group_sterm_lemmas {
    lemma_sterms_m_len,
    lemma_sterms_m_index,
}

impl SurfaceTerm {
    pub open spec fn view(&self) -> STermM
        decreases self, 0nat,
    {
        match self {
            SurfaceTerm::Var(v) => STermM::Var(v@),
            SurfaceTerm::PubLit(s) => STermM::PubLit(s@),
            SurfaceTerm::FreshLit(s) => STermM::FreshLit(s@),
            SurfaceTerm::NatLit(s) => STermM::NatLit(s@),
            SurfaceTerm::Number(n) => STermM::Number(*n),
            SurfaceTerm::NumberOne => STermM::NumberOne,
            SurfaceTerm::NatOne => STermM::NatOne,
            SurfaceTerm::DhNeutral => STermM::DhNeutral,
            SurfaceTerm::App(n, args) => STermM::App(n@, sterms_m(args@)),
            SurfaceTerm::AlgApp(n, a, b) => STermM::AlgApp(n@, Box::new(a.view()), Box::new(b.view())),
            SurfaceTerm::Pair(items) => STermM::Pair(sterms_m(items@)),
            SurfaceTerm::Diff(a, b) => STermM::Diff(Box::new(a.view()), Box::new(b.view())),
            SurfaceTerm::BinOp(op, a, b) => STermM::BinOp(op@, Box::new(a.view()), Box::new(b.view())),
            SurfaceTerm::PatMatch(a) => STermM::PatMatch(Box::new(a.view())),
        }
    }

    /// A deep copy of the term.
    pub fn copy(&self) -> (r: SurfaceTerm)
        ensures
            r@ == self@,
        decreases self,
    {
        match self {
            SurfaceTerm::Var(v) => SurfaceTerm::Var(v.copy()),
            SurfaceTerm::PubLit(s) => SurfaceTerm::PubLit(s.clone()),
            SurfaceTerm::FreshLit(s) => SurfaceTerm::FreshLit(s.clone()),
            SurfaceTerm::NatLit(s) => SurfaceTerm::NatLit(s.clone()),
            SurfaceTerm::Number(n) => SurfaceTerm::Number(*n),
            SurfaceTerm::NumberOne => SurfaceTerm::NumberOne,
            SurfaceTerm::NatOne => SurfaceTerm::NatOne,
            SurfaceTerm::DhNeutral => SurfaceTerm::DhNeutral,
            SurfaceTerm::App(n, args) => SurfaceTerm::App(n.clone(), copy_sterms(args)),
            SurfaceTerm::AlgApp(n, a, b) => SurfaceTerm::AlgApp(
                n.clone(),
                Box::new((**a).copy()),
                Box::new((**b).copy()),
            ),
            SurfaceTerm::Pair(items) => SurfaceTerm::Pair(copy_sterms(items)),
            SurfaceTerm::Diff(a, b) => SurfaceTerm::Diff(Box::new((**a).copy()), Box::new((**b).copy())),
            SurfaceTerm::BinOp(op, a, b) => SurfaceTerm::BinOp(
                op.clone(),
                Box::new((**a).copy()),
                Box::new((**b).copy()),
            ),
            SurfaceTerm::PatMatch(a) => SurfaceTerm::PatMatch(Box::new((**a).copy())),
        }
    }
}

/// A deep copy of a list of terms.
pub fn copy_sterms(ts: &Vec<SurfaceTerm>) -> (r: Vec<SurfaceTerm>)
    ensures
        sterms_m(r@) == sterms_m(ts@),
    decreases ts,
{
    let mut out: Vec<SurfaceTerm> = Vec::new();
    let mut i: usize = 0;
    while i < ts.len()
        invariant
            i <= ts.len(),
            out@.len() == i,
            forall|j: int| 0 <= j < i ==> #[trigger] out@[j]@ == ts@[j]@,
        decreases ts.len() - i,
    {
        out.push(ts[i].copy());
        i += 1;
    }
    assert(sterms_m(out@) =~= sterms_m(ts@)) by {
        broadcast use group_sterm_lemmas;
    }
    out
}

// ---------------------------------------------------------------------------
// Macros
// ---------------------------------------------------------------------------

/// A macro: `name(params) = body`.
#[derive(Debug, PartialEq, Eq)]
pub struct Macro {
    pub name: String,
    pub args: Vec<VarSpec>,
    pub body: SurfaceTerm,
}

/// The model of a macro: its name, the names of its parameters, its body.
pub struct MacroM {
    pub name: Seq<char>,
    pub params: Seq<Seq<char>>,
    pub body: STermM,
}

impl Macro {
    pub open spec fn view(&self) -> MacroM {
        MacroM {
            name: self.name@,
            params: Seq::new(self.args@.len(), |i: int| self.args@[i].name@),
            body: self.body@,
        }
    }
}

/// The models of a list of macros.
pub open spec fn macros_m(ms: Seq<Macro>) -> Seq<MacroM> {
    Seq::new(ms.len(), |i: int| ms[i]@)
}

/// The index of the first macro named `n` with `k` parameters.
pub open spec fn find_macro(ms: Seq<MacroM>, n: Seq<char>, k: nat) -> Option<int>
    decreases ms.len(),
{
    if ms.len() == 0 {
        None
    } else if ms[0].name == n && ms[0].params.len() == k {
        Some(0)
    } else {
        match find_macro(ms.drop_first(), n, k) {
            Some(j) => Some(j + 1),
            None => None,
        }
    }
}

pub proof fn lemma_find_macro(ms: Seq<MacroM>, n: Seq<char>, k: nat)
    ensures
        match find_macro(ms, n, k) {
            Some(j) => 0 <= j < ms.len() && ms[j].name == n && ms[j].params.len() == k && forall|i: int|
                0 <= i < j ==> !(ms[i].name == n && ms[i].params.len() == k),
            None => forall|i: int| 0 <= i < ms.len() ==> !(ms[i].name == n && ms[i].params.len() == k),
        },
    decreases ms.len(),
{
    if ms.len() > 0 && !(ms[0].name == n && ms[0].params.len() == k) {
        lemma_find_macro(ms.drop_first(), n, k);
        match find_macro(ms.drop_first(), n, k) {
            Some(j) => {
                assert(ms.drop_first()[j] == ms[j + 1]);
                assert forall|i: int| 0 <= i < j + 1 implies !(ms[i].name == n && ms[i].params.len() == k) by {
                    if i > 0 {
                        assert(ms.drop_first()[i - 1] == ms[i]);
                    }
                }
            },
            None => {
                assert forall|i: int| 0 <= i < ms.len() implies !(ms[i].name == n && ms[i].params.len() == k) by {
                    if i > 0 {
                        assert(ms.drop_first()[i - 1] == ms[i]);
                    }
                }
            },
        }
    }
}

/// The term the last binding for `n` gives, if any (a later binding of a
/// name replaces an earlier one).
pub open spec fn bind_lookup(s: Seq<(Seq<char>, STermM)>, n: Seq<char>) -> Option<STermM>
    decreases s.len(),
{
    if s.len() == 0 {
        None
    } else if s.last().0 == n {
        Some(s.last().1)
    } else {
        bind_lookup(s.drop_last(), n)
    }
}

/// The parameters bound to the arguments, pairwise.
pub open spec fn binding(params: Seq<Seq<char>>, args: Seq<STermM>) -> Seq<(Seq<char>, STermM)> {
    Seq::new(params.len(), |i: int| (params[i], args[i]))
}

/// Replace every variable whose name the binding binds by its term.
pub open spec fn subst_name_m(t: STermM, s: Seq<(Seq<char>, STermM)>) -> STermM
    decreases t,
{
    match t {
        STermM::Var(v) => match bind_lookup(s, v.name) {
            Some(x) => x,
            None => t,
        },
        STermM::App(n, args) => STermM::App(
            n,
            Seq::new(args.len(), |i: int| if 0 <= i < args.len() { subst_name_m(args[i], s) } else { t }),
        ),
        STermM::AlgApp(n, a, b) => STermM::AlgApp(n, Box::new(subst_name_m(*a, s)), Box::new(subst_name_m(*b, s))),
        STermM::Pair(items) => STermM::Pair(
            Seq::new(items.len(), |i: int| if 0 <= i < items.len() { subst_name_m(items[i], s) } else { t }),
        ),
        STermM::Diff(a, b) => STermM::Diff(Box::new(subst_name_m(*a, s)), Box::new(subst_name_m(*b, s))),
        STermM::BinOp(op, a, b) => STermM::BinOp(op, Box::new(subst_name_m(*a, s)), Box::new(subst_name_m(*b, s))),
        STermM::PatMatch(a) => STermM::PatMatch(Box::new(subst_name_m(*a, s))),
        _ => t,
    }
}

/// Does every macro call in `t` go to a macro of rank below `r`?  (With
/// `r == 0`: is there no macro call left?)
pub open spec fn calls_below(ms: Seq<MacroM>, rk: Seq<nat>, t: STermM, r: nat) -> bool
    decreases t,
{
    match t {
        STermM::App(n, args) => {
            &&& (match find_macro(ms, n, args.len()) {
                Some(j) => 0 <= j < rk.len() && rk[j] < r,
                None => true,
            })
            &&& forall|i: int| 0 <= i < args.len() ==> calls_below(ms, rk, #[trigger] args[i], r)
        },
        STermM::AlgApp(_, a, b) => calls_below(ms, rk, *a, r) && calls_below(ms, rk, *b, r),
        STermM::Pair(items) => forall|i: int| 0 <= i < items.len() ==> calls_below(ms, rk, #[trigger] items[i], r),
        STermM::Diff(a, b) => calls_below(ms, rk, *a, r) && calls_below(ms, rk, *b, r),
        STermM::BinOp(_, a, b) => calls_below(ms, rk, *a, r) && calls_below(ms, rk, *b, r),
        STermM::PatMatch(a) => calls_below(ms, rk, *a, r),
        _ => true,
    }
}

/// A ranking of the macros under which every macro's body calls only
/// macros of lower rank: the macros do not call each other in a cycle.
pub open spec fn ranked(ms: Seq<MacroM>, rk: Seq<nat>) -> bool {
    &&& rk.len() == ms.len()
    &&& forall|j: int| 0 <= j < ms.len() ==> #[trigger] rk[j] < ms.len()
    &&& forall|j: int| 0 <= j < ms.len() ==> calls_below(ms, rk, #[trigger] ms[j].body, rk[j])
}

/// The arguments of an application, or the items of a tuple, each with its
/// macros expanded below rank `r` (empty for any other term).
pub open spec fn expand_args_m(ms: Seq<MacroM>, rk: Seq<nat>, t: STermM, r: nat) -> Seq<STermM>
    decreases r, t, 0nat,
{
    match t {
        STermM::App(_, args) => Seq::new(
            args.len(),
            |i: int| if 0 <= i < args.len() { expand_m(ms, rk, args[i], r) } else { STermM::NumberOne },
        ),
        STermM::Pair(items) => Seq::new(
            items.len(),
            |i: int| if 0 <= i < items.len() { expand_m(ms, rk, items[i], r) } else { STermM::NumberOne },
        ),
        _ => Seq::empty(),
    }
}

/// Expand the macros in `t`: the arguments of an application first; then,
/// when the first macro with its name and arity has rank below `r`, the
/// macro's body with its parameters bound to the expanded arguments,
/// expanded again (below that macro's rank).
pub open spec fn expand_m(ms: Seq<MacroM>, rk: Seq<nat>, t: STermM, r: nat) -> STermM
    decreases r, t, 1nat,
{
    match t {
        STermM::App(n, args) => {
            let pargs = expand_args_m(ms, rk, t, r);
            match find_macro(ms, n, args.len()) {
                Some(j) => if 0 <= j < rk.len() && 0 <= j < ms.len() && rk[j] < r {
                    expand_m(ms, rk, subst_name_m(ms[j].body, binding(ms[j].params, pargs)), rk[j])
                } else {
                    STermM::App(n, pargs)
                },
                None => STermM::App(n, pargs),
            }
        },
        STermM::AlgApp(n, a, b) => STermM::AlgApp(
            n,
            Box::new(expand_m(ms, rk, *a, r)),
            Box::new(expand_m(ms, rk, *b, r)),
        ),
        STermM::Pair(_) => STermM::Pair(expand_args_m(ms, rk, t, r)),
        STermM::Diff(a, b) => STermM::Diff(Box::new(expand_m(ms, rk, *a, r)), Box::new(expand_m(ms, rk, *b, r))),
        STermM::BinOp(op, a, b) => STermM::BinOp(
            op,
            Box::new(expand_m(ms, rk, *a, r)),
            Box::new(expand_m(ms, rk, *b, r)),
        ),
        STermM::PatMatch(a) => STermM::PatMatch(Box::new(expand_m(ms, rk, *a, r))),
        _ => t,
    }
}

/// The term with its macros expanded (see [`expand_m`]), under a ranking
/// that shows the macros do not call each other in a cycle.
pub open spec fn apply_macros_m(ms: Seq<MacroM>, t: STermM) -> STermM {
    expand_m(ms, choose|rk: Seq<nat>| ranked(ms, rk), t, ms.len())
}

proof fn lemma_calls_below_items(ms: Seq<MacroM>, rk: Seq<nat>, t: STermM, r: nat)
    requires
        calls_below(ms, rk, t, r),
        t is Pair,
    ensures
        forall|i: int| 0 <= i < t->Pair_0.len() ==> calls_below(ms, rk, #[trigger] t->Pair_0[i], r),
{
}

proof fn lemma_calls_below_mono(ms: Seq<MacroM>, rk: Seq<nat>, t: STermM, r: nat, r2: nat)
    requires
        calls_below(ms, rk, t, r),
        r <= r2,
    ensures
        calls_below(ms, rk, t, r2),
    decreases t,
{
    match t {
        STermM::App(n, args) => {
            assert forall|i: int| 0 <= i < args.len() implies calls_below(ms, rk, #[trigger] args[i], r2) by {
                lemma_calls_below_mono(ms, rk, args[i], r, r2);
            }
        },
        STermM::AlgApp(_, a, b) | STermM::Diff(a, b) | STermM::BinOp(_, a, b) => {
            lemma_calls_below_mono(ms, rk, *a, r, r2);
            lemma_calls_below_mono(ms, rk, *b, r, r2);
        },
        STermM::Pair(items) => {
            assert forall|i: int| 0 <= i < items.len() implies calls_below(ms, rk, #[trigger] items[i], r2) by {
                lemma_calls_below_mono(ms, rk, items[i], r, r2);
            }
        },
        STermM::PatMatch(a) => lemma_calls_below_mono(ms, rk, *a, r, r2),
        _ => {},
    }
}

proof fn lemma_bind_lookup_origin(s: Seq<(Seq<char>, STermM)>, n: Seq<char>)
    ensures
        bind_lookup(s, n) matches Some(x) ==> exists|k: int| 0 <= k < s.len() && s[k].1 == x,
    decreases s.len(),
{
    if s.len() > 0 && s.last().0 != n {
        lemma_bind_lookup_origin(s.drop_last(), n);
        if let Some(x) = bind_lookup(s, n) {
            let k = choose|k: int| 0 <= k < s.drop_last().len() && s.drop_last()[k].1 == x;
            assert(s[k] == s.drop_last()[k]);
        }
    } else if s.len() > 0 {
        assert(s[s.len() - 1] == s.last());
    }
}

proof fn lemma_subst_calls_below(ms: Seq<MacroM>, rk: Seq<nat>, t: STermM, s: Seq<(Seq<char>, STermM)>, r: nat)
    requires
        calls_below(ms, rk, t, r),
        forall|k: int| 0 <= k < s.len() ==> calls_below(ms, rk, #[trigger] s[k].1, r),
    ensures
        calls_below(ms, rk, subst_name_m(t, s), r),
    decreases t,
{
    match t {
        STermM::Var(v) => {
            lemma_bind_lookup_origin(s, v.name);
        },
        STermM::App(n, args) => {
            if let STermM::App(_, a2) = subst_name_m(t, s) {
                assert(a2.len() == args.len());
                assert forall|i: int| 0 <= i < a2.len() implies calls_below(ms, rk, #[trigger] a2[i], r) by {
                    assert(a2[i] == subst_name_m(args[i], s));
                    lemma_subst_calls_below(ms, rk, args[i], s, r);
                }
            }
        },
        STermM::AlgApp(_, a, b) | STermM::Diff(a, b) | STermM::BinOp(_, a, b) => {
            lemma_subst_calls_below(ms, rk, *a, s, r);
            lemma_subst_calls_below(ms, rk, *b, s, r);
        },
        STermM::Pair(items) => {
            if let STermM::Pair(a2) = subst_name_m(t, s) {
                assert forall|i: int| 0 <= i < a2.len() implies calls_below(ms, rk, #[trigger] a2[i], r) by {
                    assert(a2[i] == subst_name_m(items[i], s));
                    lemma_subst_calls_below(ms, rk, items[i], s, r);
                }
            }
        },
        STermM::PatMatch(a) => lemma_subst_calls_below(ms, rk, *a, s, r),
        _ => {},
    }
}

/// Every term calls only macros of rank below the number of macros.
proof fn lemma_calls_below_top(ms: Seq<MacroM>, rk: Seq<nat>, t: STermM)
    requires
        ranked(ms, rk),
    ensures
        calls_below(ms, rk, t, ms.len()),
    decreases t,
{
    match t {
        STermM::App(n, args) => {
            lemma_find_macro(ms, n, args.len());
            assert forall|i: int| 0 <= i < args.len() implies calls_below(ms, rk, #[trigger] args[i], ms.len()) by {
                lemma_calls_below_top(ms, rk, args[i]);
            }
        },
        STermM::AlgApp(_, a, b) | STermM::Diff(a, b) | STermM::BinOp(_, a, b) => {
            lemma_calls_below_top(ms, rk, *a);
            lemma_calls_below_top(ms, rk, *b);
        },
        STermM::Pair(items) => {
            assert forall|i: int| 0 <= i < items.len() implies calls_below(ms, rk, #[trigger] items[i], ms.len()) by {
                lemma_calls_below_top(ms, rk, items[i]);
            }
        },
        STermM::PatMatch(a) => lemma_calls_below_top(ms, rk, *a),
        _ => {},
    }
}

/// Does `t` call no macro: no application in it has the name and arity
/// of a macro?
pub open spec fn macro_free(ms: Seq<MacroM>, t: STermM) -> bool
    decreases t,
{
    match t {
        STermM::App(n, args) => find_macro(ms, n, args.len()) is None && forall|i: int|
            0 <= i < args.len() ==> macro_free(ms, #[trigger] args[i]),
        STermM::AlgApp(_, a, b) => macro_free(ms, *a) && macro_free(ms, *b),
        STermM::Pair(items) => forall|i: int| 0 <= i < items.len() ==> macro_free(ms, #[trigger] items[i]),
        STermM::Diff(a, b) => macro_free(ms, *a) && macro_free(ms, *b),
        STermM::BinOp(_, a, b) => macro_free(ms, *a) && macro_free(ms, *b),
        STermM::PatMatch(a) => macro_free(ms, *a),
        _ => true,
    }
}

proof fn lemma_macro_free_of_calls_below_zero(ms: Seq<MacroM>, rk: Seq<nat>, t: STermM)
    requires
        calls_below(ms, rk, t, 0),
    ensures
        macro_free(ms, t),
    decreases t,
{
    match t {
        STermM::App(n, args) => {
            assert forall|i: int| 0 <= i < args.len() implies macro_free(ms, #[trigger] args[i]) by {
                lemma_macro_free_of_calls_below_zero(ms, rk, args[i]);
            }
        },
        STermM::AlgApp(_, a, b) | STermM::Diff(a, b) | STermM::BinOp(_, a, b) => {
            lemma_macro_free_of_calls_below_zero(ms, rk, *a);
            lemma_macro_free_of_calls_below_zero(ms, rk, *b);
        },
        STermM::Pair(items) => {
            lemma_calls_below_items(ms, rk, t, 0);
            assert forall|i: int| 0 <= i < items.len() implies macro_free(ms, #[trigger] items[i]) by {
                lemma_macro_free_of_calls_below_zero(ms, rk, items[i]);
            }
        },
        STermM::PatMatch(a) => lemma_macro_free_of_calls_below_zero(ms, rk, *a),
        _ => {},
    }
}

proof fn lemma_expand_macro_free(ms: Seq<MacroM>, rk: Seq<nat>, t: STermM, r: nat)
    requires
        macro_free(ms, t),
    ensures
        expand_m(ms, rk, t, r) == t,
    decreases t,
{
    match t {
        STermM::App(n, args) => {
            let pm = expand_args_m(ms, rk, t, r);
            assert forall|i: int| 0 <= i < args.len() implies #[trigger] pm[i] == args[i] by {
                lemma_expand_macro_free(ms, rk, args[i], r);
            }
            assert(pm =~= args);
        },
        STermM::AlgApp(_, a, b) | STermM::Diff(a, b) | STermM::BinOp(_, a, b) => {
            lemma_expand_macro_free(ms, rk, *a, r);
            lemma_expand_macro_free(ms, rk, *b, r);
        },
        STermM::Pair(items) => {
            let pm = expand_args_m(ms, rk, t, r);
            assert forall|i: int| 0 <= i < items.len() implies #[trigger] pm[i] == items[i] by {
                assert(macro_free(ms, items[i]));
                lemma_expand_macro_free(ms, rk, items[i], r);
            }
            assert(pm =~= items);
        },
        STermM::PatMatch(a) => lemma_expand_macro_free(ms, rk, *a, r),
        _ => {},
    }
}

/// Expansion below rank `r` of a term whose calls are all below `r` leaves
/// no macro call.
proof fn lemma_expand_leaves_no_call(ms: Seq<MacroM>, rk: Seq<nat>, t: STermM, r: nat)
    requires
        ranked(ms, rk),
        calls_below(ms, rk, t, r),
    ensures
        calls_below(ms, rk, expand_m(ms, rk, t, r), 0),
    decreases r, t,
{
    match t {
        STermM::App(n, args) => {
            let pm = expand_args_m(ms, rk, t, r);
            assert forall|i: int| 0 <= i < pm.len() implies calls_below(ms, rk, #[trigger] pm[i], 0) by {
                lemma_expand_leaves_no_call(ms, rk, args[i], r);
            }
            lemma_find_macro(ms, n, args.len());
            match find_macro(ms, n, args.len()) {
                Some(j) => {
                    let bs = binding(ms[j].params, pm);
                    assert forall|k: int| 0 <= k < bs.len() implies calls_below(ms, rk, #[trigger] bs[k].1, rk[j]) by {
                        assert(bs[k].1 == pm[k]);
                        lemma_calls_below_mono(ms, rk, pm[k], 0, rk[j]);
                    }
                    lemma_subst_calls_below(ms, rk, ms[j].body, bs, rk[j]);
                    lemma_expand_leaves_no_call(ms, rk, subst_name_m(ms[j].body, bs), rk[j]);
                },
                None => {},
            }
        },
        STermM::AlgApp(_, a, b) | STermM::Diff(a, b) | STermM::BinOp(_, a, b) => {
            lemma_expand_leaves_no_call(ms, rk, *a, r);
            lemma_expand_leaves_no_call(ms, rk, *b, r);
        },
        STermM::Pair(items) => {
            lemma_calls_below_items(ms, rk, t, r);
            let pm = expand_args_m(ms, rk, t, r);
            assert forall|i: int| 0 <= i < pm.len() implies calls_below(ms, rk, #[trigger] pm[i], 0) by {
                lemma_expand_leaves_no_call(ms, rk, items[i], r);
            }
        },
        STermM::PatMatch(a) => lemma_expand_leaves_no_call(ms, rk, *a, r),
        _ => {},
    }
}

/// Expanding the macros leaves no macro call behind, whenever the macros
/// do not call each other in a cycle.
pub proof fn expansion_leaves_no_macro_call(ms: Seq<MacroM>, t: STermM)
    requires
        exists|rk: Seq<nat>| ranked(ms, rk),
    ensures
        macro_free(ms, apply_macros_m(ms, t)),
{
    let rk = choose|rk: Seq<nat>| ranked(ms, rk);
    lemma_calls_below_top(ms, rk, t);
    lemma_expand_leaves_no_call(ms, rk, t, ms.len());
    lemma_macro_free_of_calls_below_zero(ms, rk, apply_macros_m(ms, t));
}

/// Expanding the macros twice gives what expanding them once gives.
pub proof fn macro_expansion_is_idempotent(ms: Seq<MacroM>, t: STermM)
    requires
        exists|rk: Seq<nat>| ranked(ms, rk),
    ensures
        apply_macros_m(ms, apply_macros_m(ms, t)) == apply_macros_m(ms, t),
{
    let rk = choose|rk: Seq<nat>| ranked(ms, rk);
    expansion_leaves_no_macro_call(ms, t);
    lemma_expand_macro_free(ms, rk, apply_macros_m(ms, t), ms.len());
}

proof fn lemma_expand_rank_independent(
    ms: Seq<MacroM>,
    rk1: Seq<nat>,
    rk2: Seq<nat>,
    t: STermM,
    r1: nat,
    r2: nat,
)
    requires
        ranked(ms, rk1),
        ranked(ms, rk2),
        calls_below(ms, rk1, t, r1),
        calls_below(ms, rk2, t, r2),
    ensures
        expand_m(ms, rk1, t, r1) == expand_m(ms, rk2, t, r2),
    decreases r1, t,
{
    match t {
        STermM::App(n, args) => {
            let pm1 = expand_args_m(ms, rk1, t, r1);
            let pm2 = expand_args_m(ms, rk2, t, r2);
            assert forall|i: int| 0 <= i < args.len() implies #[trigger] pm1[i] == pm2[i] by {
                lemma_expand_rank_independent(ms, rk1, rk2, args[i], r1, r2);
            }
            assert(pm1 =~= pm2);
            lemma_find_macro(ms, n, args.len());
            if let Some(j) = find_macro(ms, n, args.len()) {
                let bs = binding(ms[j].params, pm1);
                assert forall|k: int| 0 <= k < bs.len() implies calls_below(ms, rk1, #[trigger] bs[k].1, rk1[j])
                    && calls_below(ms, rk2, bs[k].1, rk2[j]) by {
                    assert(bs[k].1 == pm1[k]);
                    lemma_expand_leaves_no_call(ms, rk1, args[k], r1);
                    lemma_expand_leaves_no_call(ms, rk2, args[k], r2);
                    lemma_calls_below_mono(ms, rk1, pm1[k], 0, rk1[j]);
                    lemma_calls_below_mono(ms, rk2, pm2[k], 0, rk2[j]);
                }
                lemma_subst_calls_below(ms, rk1, ms[j].body, bs, rk1[j]);
                lemma_subst_calls_below(ms, rk2, ms[j].body, bs, rk2[j]);
                lemma_expand_rank_independent(ms, rk1, rk2, subst_name_m(ms[j].body, bs), rk1[j], rk2[j]);
            }
        },
        STermM::Pair(items) => {
            lemma_calls_below_items(ms, rk1, t, r1);
            lemma_calls_below_items(ms, rk2, t, r2);
            let pm1 = expand_args_m(ms, rk1, t, r1);
            let pm2 = expand_args_m(ms, rk2, t, r2);
            assert forall|i: int| 0 <= i < items.len() implies #[trigger] pm1[i] == pm2[i] by {
                lemma_expand_rank_independent(ms, rk1, rk2, items[i], r1, r2);
            }
            assert(pm1 =~= pm2);
        },
        STermM::AlgApp(_, a, b) | STermM::Diff(a, b) | STermM::BinOp(_, a, b) => {
            lemma_expand_rank_independent(ms, rk1, rk2, *a, r1, r2);
            lemma_expand_rank_independent(ms, rk1, rk2, *b, r1, r2);
        },
        STermM::PatMatch(a) => lemma_expand_rank_independent(ms, rk1, rk2, *a, r1, r2),
        _ => {},
    }
}

/// The expansion does not depend on which ranking shows the macros free of
/// cycles: expanding under any such ranking gives [`apply_macros_m`].
pub proof fn macro_expansion_does_not_depend_on_the_ranking(ms: Seq<MacroM>, rk: Seq<nat>, t: STermM)
    requires
        ranked(ms, rk),
    ensures
        expand_m(ms, rk, t, ms.len()) == apply_macros_m(ms, t),
{
    let rk0 = choose|rk: Seq<nat>| ranked(ms, rk);
    lemma_calls_below_top(ms, rk, t);
    lemma_calls_below_top(ms, rk0, t);
    lemma_expand_rank_independent(ms, rk, rk0, t, ms.len(), ms.len());
}

/// The models of name bindings.
pub open spec fn bindings_m(s: Seq<(String, SurfaceTerm)>) -> Seq<(Seq<char>, STermM)> {
    Seq::new(s.len(), |i: int| (s[i].0@, s[i].1@))
}

/// The index of the first macro named `name` with `arity` parameters.
#[verifier::loop_isolation(false)]
fn find_matching_macro(macros: &Vec<Macro>, name: &String, arity: usize) -> (r: Option<usize>)
    ensures
        match r {
            Some(j) => find_macro(macros_m(macros@), name@, arity as nat) == Some(j as int),
            None => find_macro(macros_m(macros@), name@, arity as nat) is None,
        },
{
    let ghost ms = macros_m(macros@);
    proof {
        lemma_find_macro(ms, name@, arity as nat);
    }
    let mut i: usize = 0;
    while i < macros.len()
        invariant
            i <= macros@.len(),
            ms == macros_m(macros@),
            forall|k: int| 0 <= k < i ==> !(ms[k].name == name@ && ms[k].params.len() == arity),
        decreases macros.len() - i,
    {
        assert(ms[i as int].params.len() == macros@[i as int].args@.len());
        if macros[i].name == *name && macros[i].args.len() == arity {
            assert(ms[i as int].name == name@);
            return Some(i);
        }
        i += 1;
    }
    None
}

/// The term the last binding for `n` gives, if any.
fn lookup_binding<'a>(s: &'a Vec<(String, SurfaceTerm)>, n: &String) -> (r: Option<&'a SurfaceTerm>)
    ensures
        match r {
            Some(x) => bind_lookup(bindings_m(s@), n@) == Some(x@),
            None => bind_lookup(bindings_m(s@), n@) is None,
        },
{
    let ghost bm = bindings_m(s@);
    let mut i: usize = s.len();
    assert(bm.take(i as int) =~= bm);
    while i > 0
        invariant
            i <= s@.len(),
            bm == bindings_m(s@),
            bind_lookup(bm, n@) == bind_lookup(bm.take(i as int), n@),
        decreases i,
    {
        let ghost t = bm.take(i as int);
        assert(t.last() == bm[i - 1]);
        assert(t.drop_last() =~= bm.take(i - 1));
        if s[i - 1].0 == *n {
            return Some(&s[i - 1].1);
        }
        i -= 1;
    }
    None
}

/// Replace every variable whose name the bindings bind by its term (see
/// [`subst_name_m`]).
pub fn subst_term_by_name(t: &SurfaceTerm, s: &Vec<(String, SurfaceTerm)>) -> (r: SurfaceTerm)
    ensures
        r@ == subst_name_m(t@, bindings_m(s@)),
    decreases t,
{
    broadcast use group_sterm_lemmas;

    match t {
        SurfaceTerm::Var(v) => match lookup_binding(s, &v.name) {
            Some(x) => x.copy(),
            None => t.copy(),
        },
        SurfaceTerm::App(n, args) => {
            let a2 = subst_terms_by_name(args, s);
            proof {
                let sp = subst_name_m(t@, bindings_m(s@));
                let am = sterms_m(args@);
                if let STermM::App(_, b2) = sp {
                    assert forall|i: int| 0 <= i < b2.len() implies #[trigger] sterms_m(a2@)[i] == b2[i] by {
                        assert(am[i] == args@[i]@);
                        assert(b2[i] == subst_name_m(am[i], bindings_m(s@)));
                    }
                    assert(sterms_m(a2@) =~= b2);
                }
            }
            SurfaceTerm::App(n.clone(), a2)
        },
        SurfaceTerm::AlgApp(n, a, b) => SurfaceTerm::AlgApp(
            n.clone(),
            Box::new(subst_term_by_name(a, s)),
            Box::new(subst_term_by_name(b, s)),
        ),
        SurfaceTerm::Pair(items) => {
            let a2 = subst_terms_by_name(items, s);
            proof {
                let sp = subst_name_m(t@, bindings_m(s@));
                let am = sterms_m(items@);
                if let STermM::Pair(b2) = sp {
                    assert forall|i: int| 0 <= i < b2.len() implies #[trigger] sterms_m(a2@)[i] == b2[i] by {
                        assert(am[i] == items@[i]@);
                        assert(b2[i] == subst_name_m(am[i], bindings_m(s@)));
                    }
                    assert(sterms_m(a2@) =~= b2);
                }
            }
            SurfaceTerm::Pair(a2)
        },
        SurfaceTerm::Diff(a, b) => SurfaceTerm::Diff(
            Box::new(subst_term_by_name(a, s)),
            Box::new(subst_term_by_name(b, s)),
        ),
        SurfaceTerm::BinOp(op, a, b) => SurfaceTerm::BinOp(
            op.clone(),
            Box::new(subst_term_by_name(a, s)),
            Box::new(subst_term_by_name(b, s)),
        ),
        SurfaceTerm::PatMatch(a) => SurfaceTerm::PatMatch(Box::new(subst_term_by_name(a, s))),
        _ => t.copy(),
    }
}

fn subst_terms_by_name(ts: &Vec<SurfaceTerm>, s: &Vec<(String, SurfaceTerm)>) -> (r: Vec<SurfaceTerm>)
    ensures
        r@.len() == ts@.len(),
        forall|i: int| 0 <= i < ts@.len() ==> (#[trigger] r@[i])@ == subst_name_m(ts@[i]@, bindings_m(s@)),
    decreases ts,
{
    let mut out: Vec<SurfaceTerm> = Vec::new();
    let mut i: usize = 0;
    while i < ts.len()
        invariant
            i <= ts.len(),
            out@.len() == i,
            forall|j: int| 0 <= j < i ==> (#[trigger] out@[j])@ == subst_name_m(ts@[j]@, bindings_m(s@)),
        decreases ts.len() - i,
    {
        out.push(subst_term_by_name(&ts[i], s));
        i += 1;
    }
    out
}

/// The parameters of a macro bound to terms, pairwise.
fn bind_params(params: &Vec<VarSpec>, args: &Vec<SurfaceTerm>) -> (r: Vec<(String, SurfaceTerm)>)
    requires
        params@.len() == args@.len(),
    ensures
        bindings_m(r@) == binding(Seq::new(params@.len(), |i: int| params@[i].name@), sterms_m(args@)),
{
    broadcast use group_sterm_lemmas;

    let mut out: Vec<(String, SurfaceTerm)> = Vec::new();
    let mut i: usize = 0;
    while i < params.len()
        invariant
            i <= params@.len(),
            params@.len() == args@.len(),
            out@.len() == i,
            forall|j: int| 0 <= j < i ==> (#[trigger] out@[j]).0@ == params@[j].name@ && out@[j].1@ == args@[j]@,
        decreases params.len() - i,
    {
        out.push((params[i].name.clone(), args[i].copy()));
        i += 1;
    }
    assert(bindings_m(out@) =~= binding(Seq::new(params@.len(), |i: int| params@[i].name@), sterms_m(args@)));
    out
}

fn expand(macros: &Vec<Macro>, t: &SurfaceTerm, Ghost(rk): Ghost<Seq<nat>>, Ghost(r): Ghost<nat>) -> (out: SurfaceTerm)
    requires
        ranked(macros_m(macros@), rk),
        calls_below(macros_m(macros@), rk, t@, r),
    ensures
        out@ == expand_m(macros_m(macros@), rk, t@, r),
        calls_below(macros_m(macros@), rk, out@, 0),
    decreases r, t,
{
    broadcast use group_sterm_lemmas;

    let ghost ms = macros_m(macros@);
    match t {
        SurfaceTerm::App(n, args) => {
            let ghost am = sterms_m(args@);
            proof {
                assert forall|i: int| 0 <= i < args@.len() implies calls_below(ms, rk, #[trigger] args@[i]@, r) by {
                    assert(am[i] == args@[i]@);
                }
            }
            let pargs = expand_all(macros, args, Ghost(rk), Ghost(r));
            let ghost pm = expand_args_m(ms, rk, t@, r);
            assert(sterms_m(pargs@) =~= pm);
            assert(pargs@.len() == args@.len());
            proof {
                lemma_find_macro(ms, n@, am.len());
            }
            match find_matching_macro(macros, n, pargs.len()) {
                Some(j) => {
                    let m = &macros[j];
                    assert(ms[j as int] == m@);
                    assert(0 <= j < rk.len() && rk[j as int] < r);
                    let bind = bind_params(&m.args, &pargs);
                    let body = subst_term_by_name(&m.body, &bind);
                    proof {
                        let bs = bindings_m(bind@);
                        assert(bs == binding(ms[j as int].params, pm));
                        assert forall|k: int| 0 <= k < bs.len() implies calls_below(ms, rk, #[trigger] bs[k].1, rk[j as int]) by {
                            assert(bs[k].1 == pm[k]);
                            assert(pm[k] == sterms_m(pargs@)[k]);
                            assert(sterms_m(pargs@)[k] == pargs@[k]@);
                            lemma_calls_below_mono(ms, rk, bs[k].1, 0, rk[j as int]);
                        }
                        lemma_subst_calls_below(ms, rk, m.body@, bs, rk[j as int]);
                    }
                    let out = expand(macros, &body, Ghost(rk), Ghost(rk[j as int]));
                    assert(out@ == expand_m(ms, rk, t@, r));
                    out
                },
                None => {
                    let out = SurfaceTerm::App(n.clone(), pargs);
                    proof {
                        assert forall|i: int| 0 <= i < pm.len() implies calls_below(ms, rk, #[trigger] pm[i], 0) by {
                            assert(pm[i] == sterms_m(pargs@)[i]);
                        }
                    }
                    assert(out@ == expand_m(ms, rk, t@, r));
                    out
                },
            }
        },
        SurfaceTerm::AlgApp(n, a, b) => SurfaceTerm::AlgApp(
            n.clone(),
            Box::new(expand(macros, a, Ghost(rk), Ghost(r))),
            Box::new(expand(macros, b, Ghost(rk), Ghost(r))),
        ),
        SurfaceTerm::Pair(items) => {
            let ghost am = sterms_m(items@);
            proof {
                assert(t@ == STermM::Pair(am));
                lemma_calls_below_items(ms, rk, t@, r);
                assert forall|i: int| 0 <= i < items@.len() implies calls_below(ms, rk, #[trigger] items@[i]@, r) by {
                    assert(am[i] == items@[i]@);
                }
            }
            let out_items = expand_all(macros, items, Ghost(rk), Ghost(r));
            let ghost pm = expand_args_m(ms, rk, t@, r);
            assert(sterms_m(out_items@) =~= pm);
            SurfaceTerm::Pair(out_items)
        },
        SurfaceTerm::Diff(a, b) => SurfaceTerm::Diff(
            Box::new(expand(macros, a, Ghost(rk), Ghost(r))),
            Box::new(expand(macros, b, Ghost(rk), Ghost(r))),
        ),
        SurfaceTerm::BinOp(op, a, b) => SurfaceTerm::BinOp(
            op.clone(),
            Box::new(expand(macros, a, Ghost(rk), Ghost(r))),
            Box::new(expand(macros, b, Ghost(rk), Ghost(r))),
        ),
        SurfaceTerm::PatMatch(a) => SurfaceTerm::PatMatch(Box::new(expand(macros, a, Ghost(rk), Ghost(r)))),
        _ => t.copy(),
    }
}

fn expand_all(macros: &Vec<Macro>, ts: &Vec<SurfaceTerm>, Ghost(rk): Ghost<Seq<nat>>, Ghost(r): Ghost<nat>) -> (out: Vec<
    SurfaceTerm,
>)
    requires
        ranked(macros_m(macros@), rk),
        forall|i: int| 0 <= i < ts@.len() ==> calls_below(macros_m(macros@), rk, #[trigger] ts@[i]@, r),
    ensures
        out@.len() == ts@.len(),
        forall|i: int| 0 <= i < ts@.len() ==> (#[trigger] out@[i])@ == expand_m(macros_m(macros@), rk, ts@[i]@, r),
        forall|i: int| 0 <= i < ts@.len() ==> calls_below(macros_m(macros@), rk, (#[trigger] out@[i])@, 0),
    decreases r, ts,
{
    let mut out: Vec<SurfaceTerm> = Vec::new();
    let mut i: usize = 0;
    while i < ts.len()
        invariant
            i <= ts.len(),
            out@.len() == i,
            ranked(macros_m(macros@), rk),
            forall|k: int| 0 <= k < ts@.len() ==> calls_below(macros_m(macros@), rk, #[trigger] ts@[k]@, r),
            forall|j: int| 0 <= j < i ==> (#[trigger] out@[j])@ == expand_m(macros_m(macros@), rk, ts@[j]@, r),
            forall|j: int| 0 <= j < i ==> calls_below(macros_m(macros@), rk, (#[trigger] out@[j])@, 0),
        decreases ts.len() - i,
    {
        out.push(expand(macros, &ts[i], Ghost(rk), Ghost(r)));
        i += 1;
    }
    out
}

/// Expand the macros in a term (see [`apply_macros_m`]): the arguments of
/// an application first, then the body of the first macro with the
/// application's name and arity, its parameters bound to the expanded
/// arguments, expanded again.  The macros may not call each other in a
/// cycle, which would not end.
pub fn apply_macros_term(macros: &Vec<Macro>, t: &SurfaceTerm) -> (r: SurfaceTerm)
    requires
        exists|rk: Seq<nat>| ranked(macros_m(macros@), rk),
    ensures
        r@ == apply_macros_m(macros_m(macros@), t@),
        macro_free(macros_m(macros@), r@),
{
    let ghost ms = macros_m(macros@);
    let ghost rk = choose|rk: Seq<nat>| ranked(ms, rk);
    proof {
        lemma_calls_below_top(ms, rk, t@);
    }
    let r = expand(macros, t, Ghost(rk), Ghost(ms.len()));
    proof {
        lemma_macro_free_of_calls_below_zero(ms, rk, r@);
    }
    r
}

// ---------------------------------------------------------------------------
// Facts, atoms and formulas as written
// ---------------------------------------------------------------------------

/// A fact as written: persistent or not, its name, its arguments and its
/// annotations.
#[derive(Debug, PartialEq, Eq)]
pub struct SurfaceFact {
    pub persistent: bool,
    pub name: String,
    pub args: Vec<SurfaceTerm>,
    pub annotations: Vec<String>,
}

/// The model of a [`SurfaceFact`].
pub struct SFactM {
    pub persistent: bool,
    pub name: Seq<char>,
    pub args: Seq<STermM>,
    pub annotations: Seq<Seq<char>>,
}

/// The models of a list of strings.
pub open spec fn strings_m(v: Seq<String>) -> Seq<Seq<char>> {
    Seq::new(v.len(), |i: int| v[i]@)
}

impl SurfaceFact {
    pub open spec fn view(&self) -> SFactM {
        SFactM {
            persistent: self.persistent,
            name: self.name@,
            args: sterms_m(self.args@),
            annotations: strings_m(self.annotations@),
        }
    }
}

/// An atom as written.
#[derive(Debug, PartialEq, Eq)]
pub enum SurfaceAtom {
    Eq(SurfaceTerm, SurfaceTerm),
    Less(SurfaceTerm, SurfaceTerm),
    LessMset(SurfaceTerm, SurfaceTerm),
    Subterm(SurfaceTerm, SurfaceTerm),
    Action(SurfaceFact, SurfaceTerm),
    Last(SurfaceTerm),
    Pred(SurfaceFact),
}

/// The model of a [`SurfaceAtom`].
pub enum SAtomM {
    Eq(STermM, STermM),
    Less(STermM, STermM),
    LessMset(STermM, STermM),
    Subterm(STermM, STermM),
    Action(SFactM, STermM),
    Last(STermM),
    Pred(SFactM),
}

impl SurfaceAtom {
    pub open spec fn view(&self) -> SAtomM {
        match self {
            SurfaceAtom::Eq(x, y) => SAtomM::Eq(x@, y@),
            SurfaceAtom::Less(x, y) => SAtomM::Less(x@, y@),
            SurfaceAtom::LessMset(x, y) => SAtomM::LessMset(x@, y@),
            SurfaceAtom::Subterm(x, y) => SAtomM::Subterm(x@, y@),
            SurfaceAtom::Action(f, t) => SAtomM::Action(f@, t@),
            SurfaceAtom::Last(t) => SAtomM::Last(t@),
            SurfaceAtom::Pred(f) => SAtomM::Pred(f@),
        }
    }
}

/// A formula as written, its quantifiers binding written variables.
#[derive(Debug, PartialEq, Eq)]
pub enum SurfaceFormula {
    False,
    True,
    Atom(SurfaceAtom),
    Not(Box<SurfaceFormula>),
    And(Box<SurfaceFormula>, Box<SurfaceFormula>),
    Or(Box<SurfaceFormula>, Box<SurfaceFormula>),
    Implies(Box<SurfaceFormula>, Box<SurfaceFormula>),
    Iff(Box<SurfaceFormula>, Box<SurfaceFormula>),
    Forall(Vec<VarSpec>, Box<SurfaceFormula>),
    Exists(Vec<VarSpec>, Box<SurfaceFormula>),
}

/// The model of a [`SurfaceFormula`].
pub enum SFormulaM {
    False,
    True,
    Atom(SAtomM),
    Not(Box<SFormulaM>),
    And(Box<SFormulaM>, Box<SFormulaM>),
    Or(Box<SFormulaM>, Box<SFormulaM>),
    Implies(Box<SFormulaM>, Box<SFormulaM>),
    Iff(Box<SFormulaM>, Box<SFormulaM>),
    Forall(Seq<VarSpecM>, Box<SFormulaM>),
    Exists(Seq<VarSpecM>, Box<SFormulaM>),
}

/// The models of a list of written variables.
pub open spec fn varspecs_m(v: Seq<VarSpec>) -> Seq<VarSpecM> {
    Seq::new(v.len(), |i: int| v[i]@)
}

impl SurfaceFormula {
    pub open spec fn view(&self) -> SFormulaM
        decreases self,
    {
        match self {
            SurfaceFormula::False => SFormulaM::False,
            SurfaceFormula::True => SFormulaM::True,
            SurfaceFormula::Atom(a) => SFormulaM::Atom(a@),
            SurfaceFormula::Not(x) => SFormulaM::Not(Box::new(x.view())),
            SurfaceFormula::And(x, y) => SFormulaM::And(Box::new(x.view()), Box::new(y.view())),
            SurfaceFormula::Or(x, y) => SFormulaM::Or(Box::new(x.view()), Box::new(y.view())),
            SurfaceFormula::Implies(x, y) => SFormulaM::Implies(Box::new(x.view()), Box::new(y.view())),
            SurfaceFormula::Iff(x, y) => SFormulaM::Iff(Box::new(x.view()), Box::new(y.view())),
            SurfaceFormula::Forall(vs, x) => SFormulaM::Forall(varspecs_m(vs@), Box::new(x.view())),
            SurfaceFormula::Exists(vs, x) => SFormulaM::Exists(varspecs_m(vs@), Box::new(x.view())),
        }
    }
}

/// `us` is `ts` term by term under `rel`.
pub open spec fn sterms_related(rel: spec_fn(STermM, STermM) -> bool, ts: Seq<STermM>, us: Seq<STermM>) -> bool {
    ts.len() == us.len() && forall|i: int| 0 <= i < ts.len() ==> #[trigger] rel(ts[i], us[i])
}

/// `g` is `f` with its arguments related by `rel`; persistence, name and
/// annotations stay.
pub open spec fn sfact_related(rel: spec_fn(STermM, STermM) -> bool, f: SFactM, g: SFactM) -> bool {
    &&& g.persistent == f.persistent
    &&& g.name == f.name
    &&& g.annotations == f.annotations
    &&& sterms_related(rel, f.args, g.args)
}

/// `b` is the atom `a` with every term related by `rel`.
pub open spec fn satom_related(rel: spec_fn(STermM, STermM) -> bool, a: SAtomM, b: SAtomM) -> bool {
    match (a, b) {
        (SAtomM::Eq(x, y), SAtomM::Eq(x2, y2)) => rel(x, x2) && rel(y, y2),
        (SAtomM::Less(x, y), SAtomM::Less(x2, y2)) => rel(x, x2) && rel(y, y2),
        (SAtomM::LessMset(x, y), SAtomM::LessMset(x2, y2)) => rel(x, x2) && rel(y, y2),
        (SAtomM::Subterm(x, y), SAtomM::Subterm(x2, y2)) => rel(x, x2) && rel(y, y2),
        (SAtomM::Action(f, t), SAtomM::Action(f2, t2)) => sfact_related(rel, f, f2) && rel(t, t2),
        (SAtomM::Last(t), SAtomM::Last(t2)) => rel(t, t2),
        (SAtomM::Pred(f), SAtomM::Pred(f2)) => sfact_related(rel, f, f2),
        _ => false,
    }
}

/// `r` is the formula `fm` with every term of its atoms related by `rel`:
/// connectives, quantifiers and their variables stay.
pub open spec fn sformula_related(rel: spec_fn(STermM, STermM) -> bool, fm: SFormulaM, r: SFormulaM) -> bool
    decreases fm,
{
    match (fm, r) {
        (SFormulaM::False, SFormulaM::False) => true,
        (SFormulaM::True, SFormulaM::True) => true,
        (SFormulaM::Atom(a), SFormulaM::Atom(b)) => satom_related(rel, a, b),
        (SFormulaM::Not(x), SFormulaM::Not(x2)) => sformula_related(rel, *x, *x2),
        (SFormulaM::And(x, y), SFormulaM::And(x2, y2)) => sformula_related(rel, *x, *x2) && sformula_related(rel, *y, *y2),
        (SFormulaM::Or(x, y), SFormulaM::Or(x2, y2)) => sformula_related(rel, *x, *x2) && sformula_related(rel, *y, *y2),
        (SFormulaM::Implies(x, y), SFormulaM::Implies(x2, y2)) => sformula_related(rel, *x, *x2)
            && sformula_related(rel, *y, *y2),
        (SFormulaM::Iff(x, y), SFormulaM::Iff(x2, y2)) => sformula_related(rel, *x, *x2) && sformula_related(rel, *y, *y2),
        (SFormulaM::Forall(vs, x), SFormulaM::Forall(vs2, x2)) => vs == vs2 && sformula_related(rel, *x, *x2),
        (SFormulaM::Exists(vs, x), SFormulaM::Exists(vs2, x2)) => vs == vs2 && sformula_related(rel, *x, *x2),
        _ => false,
    }
}

/// The relation between a term and what `g` may return for it.
pub open spec fn maps_by<F: Fn(&SurfaceTerm) -> SurfaceTerm>(g: F) -> spec_fn(STermM, STermM) -> bool {
    |t: STermM, u: STermM| exists|x: SurfaceTerm, y: SurfaceTerm| x@ == t && y@ == u && #[trigger] g.ensures((&x,), y)
}

/// A term related to its macro expansion.
pub open spec fn expands_to(ms: Seq<MacroM>) -> spec_fn(STermM, STermM) -> bool {
    |t: STermM, u: STermM| u == apply_macros_m(ms, t)
}

proof fn lemma_sformula_related_weaken(
    r1: spec_fn(STermM, STermM) -> bool,
    r2: spec_fn(STermM, STermM) -> bool,
    fm: SFormulaM,
    r: SFormulaM,
)
    requires
        sformula_related(r1, fm, r),
        forall|t: STermM, u: STermM| #[trigger] r1(t, u) ==> r2(t, u),
    ensures
        sformula_related(r2, fm, r),
    decreases fm,
{
    match (fm, r) {
        (SFormulaM::Not(x), SFormulaM::Not(x2)) => lemma_sformula_related_weaken(r1, r2, *x, *x2),
        (SFormulaM::And(x, y), SFormulaM::And(x2, y2)) | (SFormulaM::Or(x, y), SFormulaM::Or(x2, y2))
        | (SFormulaM::Implies(x, y), SFormulaM::Implies(x2, y2)) | (SFormulaM::Iff(x, y), SFormulaM::Iff(x2, y2)) => {
            lemma_sformula_related_weaken(r1, r2, *x, *x2);
            lemma_sformula_related_weaken(r1, r2, *y, *y2);
        },
        (SFormulaM::Forall(_, x), SFormulaM::Forall(_, x2)) | (SFormulaM::Exists(_, x), SFormulaM::Exists(_, x2)) => {
            lemma_sformula_related_weaken(r1, r2, *x, *x2);
        },
        (SFormulaM::Atom(a), SFormulaM::Atom(b)) => {
            match (a, b) {
                (SAtomM::Action(f, _), SAtomM::Action(f2, _)) | (SAtomM::Pred(f), SAtomM::Pred(f2)) => {
                    assert forall|i: int| 0 <= i < f.args.len() implies #[trigger] r2(f.args[i], f2.args[i]) by {
                        assert(r1(f.args[i], f2.args[i]));
                    }
                },
                _ => {},
            }
        },
        _ => {},
    }
}

/// A copy of a list of strings.
pub(crate) fn copy_strings(v: &Vec<String>) -> (r: Vec<String>)
    ensures
        strings_m(r@) == strings_m(v@),
{
    let mut out: Vec<String> = Vec::new();
    let mut i: usize = 0;
    while i < v.len()
        invariant
            i <= v@.len(),
            out@.len() == i,
            forall|j: int| 0 <= j < i ==> (#[trigger] out@[j])@ == v@[j]@,
        decreases v.len() - i,
    {
        out.push(v[i].clone());
        i += 1;
    }
    assert(strings_m(out@) =~= strings_m(v@));
    out
}

/// A copy of a list of written variables.
pub(crate) fn copy_varspecs(v: &Vec<VarSpec>) -> (r: Vec<VarSpec>)
    ensures
        varspecs_m(r@) == varspecs_m(v@),
{
    let mut out: Vec<VarSpec> = Vec::new();
    let mut i: usize = 0;
    while i < v.len()
        invariant
            i <= v@.len(),
            out@.len() == i,
            forall|j: int| 0 <= j < i ==> (#[trigger] out@[j])@ == v@[j]@,
        decreases v.len() - i,
    {
        out.push(v[i].copy());
        i += 1;
    }
    assert(varspecs_m(out@) =~= varspecs_m(v@));
    out
}

/// Each term mapped by `g`.
fn map_terms<F: Fn(&SurfaceTerm) -> SurfaceTerm>(ts: &Vec<SurfaceTerm>, g: &F) -> (r: Vec<SurfaceTerm>)
    requires
        forall|t: &SurfaceTerm| #[trigger] g.requires((t,)),
    ensures
        sterms_related(maps_by(*g), sterms_m(ts@), sterms_m(r@)),
{
    broadcast use group_sterm_lemmas;

    let mut out: Vec<SurfaceTerm> = Vec::new();
    let mut i: usize = 0;
    while i < ts.len()
        invariant
            i <= ts@.len(),
            out@.len() == i,
            forall|t: &SurfaceTerm| #[trigger] g.requires((t,)),
            forall|j: int| 0 <= j < i ==> #[trigger] g.ensures((&ts@[j],), out@[j]),
        decreases ts.len() - i,
    {
        let u = g(&ts[i]);
        out.push(u);
        i += 1;
    }
    assert forall|j: int| 0 <= j < ts@.len() implies #[trigger] (maps_by(*g))(sterms_m(ts@)[j], sterms_m(out@)[j]) by {
        assert(g.ensures((&ts@[j],), out@[j]));
    }
    out
}

/// The fact with `g` mapped over its arguments.
pub(crate) fn map_fact_terms<F: Fn(&SurfaceTerm) -> SurfaceTerm>(f: &SurfaceFact, g: &F) -> (r: SurfaceFact)
    requires
        forall|t: &SurfaceTerm| #[trigger] g.requires((t,)),
    ensures
        sfact_related(maps_by(*g), f@, r@),
{
    SurfaceFact {
        persistent: f.persistent,
        name: f.name.clone(),
        args: map_terms(&f.args, g),
        annotations: copy_strings(&f.annotations),
    }
}

/// The atom with `g` mapped over its terms and over the arguments of its
/// fact.
pub(crate) fn map_atom_terms<F: Fn(&SurfaceTerm) -> SurfaceTerm>(a: &SurfaceAtom, g: &F) -> (r: SurfaceAtom)
    requires
        forall|t: &SurfaceTerm| #[trigger] g.requires((t,)),
    ensures
        satom_related(maps_by(*g), a@, r@),
{
    match a {
        SurfaceAtom::Eq(x, y) => SurfaceAtom::Eq(g(x), g(y)),
        SurfaceAtom::Less(x, y) => SurfaceAtom::Less(g(x), g(y)),
        SurfaceAtom::LessMset(x, y) => SurfaceAtom::LessMset(g(x), g(y)),
        SurfaceAtom::Subterm(x, y) => SurfaceAtom::Subterm(g(x), g(y)),
        SurfaceAtom::Action(f, t) => SurfaceAtom::Action(map_fact_terms(f, g), g(t)),
        SurfaceAtom::Last(t) => SurfaceAtom::Last(g(t)),
        SurfaceAtom::Pred(f) => SurfaceAtom::Pred(map_fact_terms(f, g)),
    }
}

/// The formula with `g` mapped over every term of its atoms; connectives,
/// quantifiers and their variables stay.
pub fn map_formula_terms<F: Fn(&SurfaceTerm) -> SurfaceTerm>(f: &SurfaceFormula, g: &F) -> (r: SurfaceFormula)
    requires
        forall|t: &SurfaceTerm| #[trigger] g.requires((t,)),
    ensures
        sformula_related(maps_by(*g), f@, r@),
    decreases f,
{
    match f {
        SurfaceFormula::False => SurfaceFormula::False,
        SurfaceFormula::True => SurfaceFormula::True,
        SurfaceFormula::Atom(a) => SurfaceFormula::Atom(map_atom_terms(a, g)),
        SurfaceFormula::Not(x) => SurfaceFormula::Not(Box::new(map_formula_terms(x, g))),
        SurfaceFormula::And(x, y) => SurfaceFormula::And(
            Box::new(map_formula_terms(x, g)),
            Box::new(map_formula_terms(y, g)),
        ),
        SurfaceFormula::Or(x, y) => SurfaceFormula::Or(
            Box::new(map_formula_terms(x, g)),
            Box::new(map_formula_terms(y, g)),
        ),
        SurfaceFormula::Implies(x, y) => SurfaceFormula::Implies(
            Box::new(map_formula_terms(x, g)),
            Box::new(map_formula_terms(y, g)),
        ),
        SurfaceFormula::Iff(x, y) => SurfaceFormula::Iff(
            Box::new(map_formula_terms(x, g)),
            Box::new(map_formula_terms(y, g)),
        ),
        SurfaceFormula::Forall(vs, x) => SurfaceFormula::Forall(copy_varspecs(vs), Box::new(map_formula_terms(x, g))),
        SurfaceFormula::Exists(vs, x) => SurfaceFormula::Exists(copy_varspecs(vs), Box::new(map_formula_terms(x, g))),
    }
}

/// The fact with the macros expanded in each argument (see
/// [`apply_macros_m`]); persistence, name and annotations stay.
pub fn apply_macros_fact(macros: &Vec<Macro>, f: &SurfaceFact) -> (r: SurfaceFact)
    requires
        exists|rk: Seq<nat>| ranked(macros_m(macros@), rk),
    ensures
        sfact_related(expands_to(macros_m(macros@)), f@, r@),
{
    let ghost ms = macros_m(macros@);
    let g = |t: &SurfaceTerm| -> (u: SurfaceTerm)
        requires
            exists|rk: Seq<nat>| ranked(macros_m(macros@), rk),
        ensures
            u@ == apply_macros_m(macros_m(macros@), t@),
        { apply_macros_term(macros, t) };
    let r = map_fact_terms(f, &g);
    assert forall|i: int| 0 <= i < f@.args.len() implies #[trigger] (expands_to(ms))(f@.args[i], r@.args[i]) by {
        assert((maps_by(g))(f@.args[i], r@.args[i]));
    }
    r
}

/// The formula with the macros expanded in every term of its atoms (see
/// [`apply_macros_m`]).
pub fn apply_macros_formula(macros: &Vec<Macro>, f: &SurfaceFormula) -> (r: SurfaceFormula)
    requires
        exists|rk: Seq<nat>| ranked(macros_m(macros@), rk),
    ensures
        sformula_related(expands_to(macros_m(macros@)), f@, r@),
{
    let ghost ms = macros_m(macros@);
    let g = |t: &SurfaceTerm| -> (u: SurfaceTerm)
        requires
            exists|rk: Seq<nat>| ranked(macros_m(macros@), rk),
        ensures
            u@ == apply_macros_m(macros_m(macros@), t@),
        { apply_macros_term(macros, t) };
    let r = map_formula_terms(f, &g);
    proof {
        lemma_sformula_related_weaken(maps_by(g), expands_to(ms), f@, r@);
    }
    r
}

// ---------------------------------------------------------------------------
// Copies
// ---------------------------------------------------------------------------

impl Macro {
    /// A deep copy of the macro.
    pub fn copy(&self) -> (r: Macro)
        ensures
            r@ == self@,
    {
        let args = copy_varspecs(&self.args);
        proof {
            assert(varspecs_m(args@).len() == args@.len());
            assert(varspecs_m(self.args@).len() == self.args@.len());
            assert forall|i: int| 0 <= i < self.args@.len() implies #[trigger] args@[i].name@ == self.args@[i].name@ by {
                assert(varspecs_m(args@)[i] == args@[i]@);
                assert(varspecs_m(self.args@)[i] == self.args@[i]@);
            }
        }
        let r = Macro { name: self.name.clone(), args, body: self.body.copy() };
        assert(r@.params =~= self@.params);
        r
    }
}

/// A deep copy of a list of macros.
pub fn copy_macros(ms: &Vec<Macro>) -> (r: Vec<Macro>)
    ensures
        macros_m(r@) == macros_m(ms@),
{
    let mut out: Vec<Macro> = Vec::new();
    let mut i: usize = 0;
    while i < ms.len()
        invariant
            i <= ms@.len(),
            out@.len() == i,
            forall|j: int| 0 <= j < i ==> (#[trigger] out@[j])@ == ms@[j]@,
        decreases ms.len() - i,
    {
        out.push(ms[i].copy());
        i += 1;
    }
    assert(macros_m(out@) =~= macros_m(ms@));
    out
}

impl SurfaceFact {
    /// A deep copy of the fact.
    pub fn copy(&self) -> (r: SurfaceFact)
        ensures
            r@ == self@,
    {
        SurfaceFact {
            persistent: self.persistent,
            name: self.name.clone(),
            args: copy_sterms(&self.args),
            annotations: copy_strings(&self.annotations),
        }
    }
}

impl SurfaceAtom {
    /// A deep copy of the atom.
    pub fn copy(&self) -> (r: SurfaceAtom)
        ensures
            r@ == self@,
    {
        match self {
            SurfaceAtom::Eq(x, y) => SurfaceAtom::Eq(x.copy(), y.copy()),
            SurfaceAtom::Less(x, y) => SurfaceAtom::Less(x.copy(), y.copy()),
            SurfaceAtom::LessMset(x, y) => SurfaceAtom::LessMset(x.copy(), y.copy()),
            SurfaceAtom::Subterm(x, y) => SurfaceAtom::Subterm(x.copy(), y.copy()),
            SurfaceAtom::Action(f, t) => SurfaceAtom::Action(f.copy(), t.copy()),
            SurfaceAtom::Last(t) => SurfaceAtom::Last(t.copy()),
            SurfaceAtom::Pred(f) => SurfaceAtom::Pred(f.copy()),
        }
    }
}

impl SurfaceFormula {
    /// A deep copy of the formula.
    pub fn copy(&self) -> (r: SurfaceFormula)
        ensures
            r@ == self@,
        decreases self,
    {
        match self {
            SurfaceFormula::False => SurfaceFormula::False,
            SurfaceFormula::True => SurfaceFormula::True,
            SurfaceFormula::Atom(a) => SurfaceFormula::Atom(a.copy()),
            SurfaceFormula::Not(x) => SurfaceFormula::Not(Box::new((**x).copy())),
            SurfaceFormula::And(x, y) => SurfaceFormula::And(Box::new((**x).copy()), Box::new((**y).copy())),
            SurfaceFormula::Or(x, y) => SurfaceFormula::Or(Box::new((**x).copy()), Box::new((**y).copy())),
            SurfaceFormula::Implies(x, y) => SurfaceFormula::Implies(Box::new((**x).copy()), Box::new((**y).copy())),
            SurfaceFormula::Iff(x, y) => SurfaceFormula::Iff(Box::new((**x).copy()), Box::new((**y).copy())),
            SurfaceFormula::Forall(vs, x) => SurfaceFormula::Forall(copy_varspecs(vs), Box::new((**x).copy())),
            SurfaceFormula::Exists(vs, x) => SurfaceFormula::Exists(copy_varspecs(vs), Box::new((**x).copy())),
        }
    }
}

// ---------------------------------------------------------------------------
// Checking that the macros are free of cycles
// ---------------------------------------------------------------------------

/// The ranking of the macros by their position in the list.
pub open spec fn rank_by_position(n: nat) -> Seq<nat> {
    Seq::new(n, |i: int| i as nat)
}

/// Does every macro call in the term go to a macro before position
/// `bound`?
fn calls_only_before(macros: &Vec<Macro>, t: &SurfaceTerm, bound: usize) -> (b: bool)
    ensures
        b == calls_below(macros_m(macros@), rank_by_position(macros@.len()), t@, bound as nat),
    decreases t,
{
    broadcast use group_sterm_lemmas;

    let ghost ms = macros_m(macros@);
    let ghost rk = rank_by_position(macros@.len());
    match t {
        SurfaceTerm::App(n, args) => {
            proof {
                lemma_find_macro(ms, n@, args@.len());
            }
            let head_ok = match find_matching_macro(macros, n, args.len()) {
                Some(j) => {
                    assert(rk[j as int] == j);
                    j < bound
                },
                None => true,
            };
            head_ok && all_call_only_before(macros, args, bound)
        },
        SurfaceTerm::Pair(items) => {
            let ghost am = sterms_m(items@);
            proof {
                assert(t@ == STermM::Pair(am));
                if calls_below(ms, rk, t@, bound as nat) {
                    lemma_calls_below_items(ms, rk, t@, bound as nat);
                }
            }
            let r = all_call_only_before(macros, items, bound);
            proof {
                if r {
                    lemma_calls_below_pair_intro(ms, rk, am, bound as nat);
                }
            }
            assert(r == calls_below(ms, rk, t@, bound as nat));
            r
        },
        SurfaceTerm::AlgApp(_, a, b) | SurfaceTerm::Diff(a, b) | SurfaceTerm::BinOp(_, a, b) => {
            calls_only_before(macros, a, bound) && calls_only_before(macros, b, bound)
        },
        SurfaceTerm::PatMatch(a) => calls_only_before(macros, a, bound),
        _ => true,
    }
}

proof fn lemma_calls_below_pair_intro(ms: Seq<MacroM>, rk: Seq<nat>, items: Seq<STermM>, r: nat)
    requires
        forall|k: int| 0 <= k < items.len() ==> calls_below(ms, rk, #[trigger] items[k], r),
    ensures
        calls_below(ms, rk, STermM::Pair(items), r),
{
}

/// Does every term call only macros before position `bound`?
fn all_call_only_before(macros: &Vec<Macro>, ts: &Vec<SurfaceTerm>, bound: usize) -> (b: bool)
    ensures
        b == (forall|k: int| 0 <= k < ts@.len() ==> calls_below(
            macros_m(macros@),
            rank_by_position(macros@.len()),
            #[trigger] sterms_m(ts@)[k],
            bound as nat,
        )),
    decreases ts,
{
    broadcast use group_sterm_lemmas;

    let ghost ms = macros_m(macros@);
    let ghost rk = rank_by_position(macros@.len());
    let mut i: usize = 0;
    while i < ts.len()
        invariant
            i <= ts@.len(),
            ms == macros_m(macros@),
            rk == rank_by_position(macros@.len()),
            forall|k: int| 0 <= k < i ==> calls_below(ms, rk, #[trigger] sterms_m(ts@)[k], bound as nat),
        decreases ts.len() - i,
    {
        if !calls_only_before(macros, &ts[i], bound) {
            assert(sterms_m(ts@)[i as int] == ts@[i as int]@);
            return false;
        }
        i += 1;
    }
    true
}

/// Does each macro's body call only macros declared before it?  Then the
/// macros do not call each other in a cycle, and expanding them ends.
pub fn macros_call_only_earlier_ones(macros: &Vec<Macro>) -> (b: bool)
    ensures
        b == (forall|j: int| 0 <= j < macros@.len() ==> calls_below(
            macros_m(macros@),
            rank_by_position(macros@.len()),
            #[trigger] macros@[j].body@,
            j as nat,
        )),
        b ==> exists|rk: Seq<nat>| ranked(macros_m(macros@), rk),
{
    let ghost ms = macros_m(macros@);
    let ghost rk = rank_by_position(macros@.len());
    let mut j: usize = 0;
    while j < macros.len()
        invariant
            j <= macros@.len(),
            ms == macros_m(macros@),
            rk == rank_by_position(macros@.len()),
            forall|k: int| 0 <= k < j ==> calls_below(ms, rk, #[trigger] macros@[k].body@, k as nat),
        decreases macros.len() - j,
    {
        if !calls_only_before(macros, &macros[j].body, j) {
            return false;
        }
        j += 1;
    }
    assert(ranked(ms, rk)) by {
        assert forall|k: int| 0 <= k < ms.len() implies calls_below(ms, rk, #[trigger] ms[k].body, rk[k]) by {
            assert(ms[k].body == macros@[k].body@);
        }
    }
    true
}

/// Does some variable of the term, at any depth, have a name `p` accepts?
pub open spec fn mentions_name(t: STermM, p: spec_fn(Seq<char>) -> bool) -> bool
    decreases t,
{
    match t {
        STermM::Var(v) => p(v.name),
        STermM::App(_, args) => exists|i: int| 0 <= i < args.len() && mentions_name(#[trigger] args[i], p),
        STermM::AlgApp(_, a, b) => mentions_name(*a, p) || mentions_name(*b, p),
        STermM::Pair(items) => exists|i: int| 0 <= i < items.len() && mentions_name(#[trigger] items[i], p),
        STermM::Diff(a, b) => mentions_name(*a, p) || mentions_name(*b, p),
        STermM::BinOp(_, a, b) => mentions_name(*a, p) || mentions_name(*b, p),
        STermM::PatMatch(a) => mentions_name(*a, p),
        _ => false,
    }
}

/// The names a binding binds.
pub open spec fn bound_by(s: Seq<(Seq<char>, STermM)>) -> spec_fn(Seq<char>) -> bool {
    |n: Seq<char>| exists|k: int| 0 <= k < s.len() && (#[trigger] s[k]).0 == n
}

proof fn lemma_bind_lookup_source(s: Seq<(Seq<char>, STermM)>, n: Seq<char>)
    ensures
        bind_lookup(s, n) is Some ==> exists|k: int| 0 <= k < s.len() && (#[trigger] s[k]).1 == bind_lookup(s, n)->0,
        bind_lookup(s, n) is None ==> !bound_by(s)(n),
    decreases s.len(),
{
    if s.len() > 0 {
        let p = s.drop_last();
        lemma_bind_lookup_source(p, n);
        let l = s.len() - 1;
        assert(s[l] == s.last());
        if bind_lookup(s, n) is Some && s.last().0 != n {
            let k = choose|k: int| 0 <= k < p.len() && (#[trigger] p[k]).1 == bind_lookup(p, n)->0;
            assert(s[k] == p[k]);
        }
        if bind_lookup(s, n) is None {
            assert forall|k: int| 0 <= k < s.len() implies (#[trigger] s[k]).0 != n by {
                if k < l {
                    assert(s[k] == p[k]);
                    assert(!bound_by(p)(n));
                }
            }
        }
    }
}

/// Substituting a binding replaces every variable it binds, at every depth
/// and under every operator: when no bound term mentions a bound name, the
/// result mentions none either.
pub proof fn substitution_leaves_no_bound_name(t: STermM, s: Seq<(Seq<char>, STermM)>)
    requires
        forall|k: int| 0 <= k < s.len() ==> !mentions_name(#[trigger] s[k].1, bound_by(s)),
    ensures
        !mentions_name(subst_name_m(t, s), bound_by(s)),
    decreases t,
{
    match t {
        STermM::Var(v) => {
            lemma_bind_lookup_source(s, v.name);
        },
        STermM::App(n, args) => {
            let r = subst_name_m(t, s);
            assert forall|i: int| 0 <= i < args.len() implies !mentions_name(
                #[trigger] subst_name_m(args[i], s),
                bound_by(s),
            ) by {
                substitution_leaves_no_bound_name(args[i], s);
            }
            if let STermM::App(_, ra) = r {
                assert forall|i: int| 0 <= i < ra.len() implies !mentions_name(#[trigger] ra[i], bound_by(s)) by {
                    assert(ra[i] == subst_name_m(args[i], s));
                }
            }
        },
        STermM::Pair(items) => {
            let r = subst_name_m(t, s);
            assert forall|i: int| 0 <= i < items.len() implies !mentions_name(
                #[trigger] subst_name_m(items[i], s),
                bound_by(s),
            ) by {
                substitution_leaves_no_bound_name(items[i], s);
            }
            if let STermM::Pair(ra) = r {
                assert forall|i: int| 0 <= i < ra.len() implies !mentions_name(#[trigger] ra[i], bound_by(s)) by {
                    assert(ra[i] == subst_name_m(items[i], s));
                }
            }
        },
        STermM::AlgApp(_, a, b) | STermM::Diff(a, b) | STermM::BinOp(_, a, b) => {
            substitution_leaves_no_bound_name(*a, s);
            substitution_leaves_no_bound_name(*b, s);
        },
        STermM::PatMatch(a) => {
            substitution_leaves_no_bound_name(*a, s);
        },
        _ => {},
    }
}

} // verus!
