//! The private constants that the equations of a signature let the intruder
//! derive, and the constructor rules that hand them out.
use vstd::prelude::*;
use crate::term::{Term, TermM, FunSym, FunSymM, Privacy, terms_m};
use crate::intruder::{
    funsyms_m, CtxtStRule, IntrRuleAC, IntrRuleACM, IntrRuleACInfo, IntrRuleACInfoM, rule_m, rules_m, fact1_m,
    fun_sym_name_m, ku_fact, facts1, no_facts, underscore_prefixed,
};
use crate::term::FactTagM;

verus! {

broadcast use vstd::std_specs::vec::group_vec_axioms;

/// Is the symbol a private free symbol?
pub open spec fn is_private_noeq(f: FunSymM) -> bool {
    f matches FunSymM::NoEq(s) && s.privacy == Privacy::Private
}

/// Does the term apply no private free symbol other than those in
/// `except`?
pub open spec fn no_private_except_m(except: Seq<FunSymM>, t: TermM) -> bool
    decreases t,
{
    match t {
        TermM::App(f, args) => (!is_private_noeq(f) || except.contains(f)) && all_no_private_except_m(
            except,
            args,
        ),
        _ => true,
    }
}

/// Does each of the terms apply no private free symbol other than those in
/// `except`?
pub open spec fn all_no_private_except_m(except: Seq<FunSymM>, ts: Seq<TermM>) -> bool
    decreases ts,
{
    if ts.len() == 0 {
        true
    } else {
        all_no_private_except_m(except, ts.drop_last()) && no_private_except_m(except, ts.last())
    }
}

/// The private constant a right-hand side is: an application of a private
/// free symbol declared without arguments.
pub open spec fn private_constant(t: TermM) -> Option<FunSymM> {
    match t {
        TermM::App(FunSymM::NoEq(s), _) => if s.arity == 0 && s.privacy == Privacy::Private {
            Some(FunSymM::NoEq(s))
        } else {
            None
        },
        _ => None,
    }
}

/// The equations `lhs = c` of the rules whose right-hand side is a private
/// constant `c`, as `(lhs, c)`, in order.
pub open spec fn private_equations(rules: Seq<(TermM, TermM)>) -> Seq<(TermM, FunSymM)>
    decreases rules.len(),
{
    if rules.len() == 0 {
        Seq::empty()
    } else {
        let r = private_equations(rules.drop_last());
        match private_constant(rules.last().1) {
            Some(f) => r.push((rules.last().0, f)),
            None => r,
        }
    }
}

/// The constants of the equations whose left-hand side needs no private
/// symbol outside `except`, in order.
pub open spec fn ready_m(eqs: Seq<(TermM, FunSymM)>, except: Seq<FunSymM>) -> Seq<FunSymM>
    decreases eqs.len(),
{
    if eqs.len() == 0 {
        Seq::empty()
    } else {
        let r = ready_m(eqs.drop_last(), except);
        if no_private_except_m(except, eqs.last().0) {
            r.push(eqs.last().1)
        } else {
            r
        }
    }
}

/// The other equations, in order.
pub open spec fn waiting_m(eqs: Seq<(TermM, FunSymM)>, except: Seq<FunSymM>) -> Seq<(TermM, FunSymM)>
    decreases eqs.len(),
{
    if eqs.len() == 0 {
        Seq::empty()
    } else {
        let r = waiting_m(eqs.drop_last(), except);
        if no_private_except_m(except, eqs.last().0) {
            r
        } else {
            r.push(eqs.last())
        }
    }
}

/// An equation is either ready or waiting.
pub proof fn lemma_partition_len(eqs: Seq<(TermM, FunSymM)>, except: Seq<FunSymM>)
    ensures
        ready_m(eqs, except).len() + waiting_m(eqs, except).len() == eqs.len(),
    decreases eqs.len(),
{
    if eqs.len() > 0 {
        lemma_partition_len(eqs.drop_last(), except);
    }
}

/// The derivable private constants: starting from `except`, add the
/// constants of every equation whose left-hand side needs no private
/// symbol but those already derivable, until no equation is left that
/// does.
pub open spec fn derivable_m(eqs: Seq<(TermM, FunSymM)>, except: Seq<FunSymM>) -> Seq<FunSymM>
    decreases eqs.len(),
{
    let ready = ready_m(eqs, except);
    if ready.len() == 0 {
        except
    } else {
        proof {
            lemma_partition_len(eqs, except);
        }
        derivable_m(waiting_m(eqs, except), except + ready)
    }
}

/// The constructor rule of a private constant `c`: `[] --[KU(c)]-> [KU(c)]`.
pub open spec fn const_rule_m(f: FunSymM) -> IntrRuleACM {
    let m = TermM::App(f, Seq::empty());
    rule_m(
        IntrRuleACInfoM::ConstrRule(seq!['_'] + fun_sym_name_m(f), f),
        Seq::empty(),
        seq![fact1_m(FactTagM::Ku, m)],
        seq![fact1_m(FactTagM::Ku, m)],
        Seq::empty(),
    )
}

/// The models of subterm rewrite rules as `(lhs, rhs)`.
pub open spec fn st_rules_m(rules: Seq<CtxtStRule>) -> Seq<(TermM, TermM)> {
    Seq::new(rules.len(), |i: int| (rules[i].lhs@, rules[i].rhs.term@))
}

/// The constructor rules of the private constants the equations make
/// derivable, in the order they become derivable.
pub open spec fn private_constructor_rules_m(rules: Seq<(TermM, TermM)>) -> Seq<IntrRuleACM> {
    let d = derivable_m(private_equations(rules), Seq::empty());
    Seq::new(d.len(), |i: int| const_rule_m(d[i]))
}

/// Is `f` among the symbols?
fn funsyms_contain(v: &Vec<FunSym>, f: &FunSym) -> (r: bool)
    ensures
        r == funsyms_m(v@).contains(f@),
{
    let mut i: usize = 0;
    while i < v.len()
        invariant
            i <= v@.len(),
            forall|j: int| 0 <= j < i ==> funsyms_m(v@)[j] != f@,
        decreases v.len() - i,
    {
        if v[i].same(f) {
            assert(funsyms_m(v@)[i as int] == f@);
            return true;
        }
        i += 1;
    }
    false
}

proof fn lemma_all_no_private_prefix(except: Seq<FunSymM>, s: Seq<TermM>, k: int)
    requires
        0 <= k <= s.len(),
        !all_no_private_except_m(except, s.take(k)),
    ensures
        !all_no_private_except_m(except, s),
    decreases s.len(),
{
    if k < s.len() {
        assert(s.drop_last().take(k) =~= s.take(k));
        lemma_all_no_private_prefix(except, s.drop_last(), k);
    } else {
        assert(s.take(k) =~= s);
    }
}

/// Does the term apply no private free symbol outside `except`?
#[verifier::loop_isolation(false)]
pub fn no_private_except(except: &Vec<FunSym>, t: &Term) -> (r: bool)
    ensures
        r == no_private_except_m(funsyms_m(except@), t@),
    decreases t,
{
    broadcast use crate::term::group_term_lemmas;

    match t {
        Term::App(f, args) => {
            let private_head = match f {
                FunSym::NoEq(s) => s.privacy == Privacy::Private,
                _ => false,
            };
            if private_head && !funsyms_contain(except, f) {
                return false;
            }
            let ghost x = funsyms_m(except@);
            let ghost s = terms_m(args@);
            let mut i: usize = 0;
            assert(s.take(0) =~= Seq::<TermM>::empty());
            while i < args.len()
                invariant
                    i <= args.len(),
                    s == terms_m(args@),
                    x == funsyms_m(except@),
                    all_no_private_except_m(x, s.take(i as int)),
                decreases args.len() - i,
            {
                assert(s.take(i + 1).drop_last() =~= s.take(i as int));
                if !no_private_except(except, &args[i]) {
                    proof {
                        lemma_all_no_private_prefix(x, s, i + 1);
                    }
                    return false;
                }
                i += 1;
            }
            assert(s.take(args.len() as int) =~= s);
            true
        },
        _ => true,
    }
}

/// The model of equations held as indices of left-hand sides.
pub open spec fn eqs_m(rules: Seq<CtxtStRule>, eqs: Seq<(usize, FunSym)>) -> Seq<(TermM, FunSymM)> {
    Seq::new(eqs.len(), |i: int| (rules[eqs[i].0 as int].lhs@, eqs[i].1@))
}

/// The constructor rule of a private constant (see [`const_rule_m`]).
fn const_rule(f: &FunSym) -> (r: IntrRuleAC)
    ensures
        r@ == const_rule_m(f@),
{
    let name = crate::intruder::show_fun_sym_name(f);
    let args: Vec<Term> = Vec::new();
    assert(terms_m(args@) =~= Seq::<TermM>::empty());
    let m = Term::App(f.copy(), args);
    IntrRuleAC::new(
        crate::intruder::intr_constr_info(name.as_str(), f.copy()),
        no_facts(),
        facts1(ku_fact(m.copy())),
        facts1(ku_fact(m)),
    )
}

/// The constructor rules of the private constants the equations make
/// derivable (see [`private_constructor_rules_m`]): `[] --[KU(c)]-> [KU(c)]`
/// for each, in the order they become derivable.  The rules form a set: no
/// rule occurs twice (the positions of a rule follow from its two sides),
/// and they are read in the order given.
pub fn private_constructor_rules(st_rules: &Vec<CtxtStRule>) -> (r: Vec<IntrRuleAC>)
    requires
        st_rules_m(st_rules@).no_duplicates(),
    ensures
        rules_m(r@) == private_constructor_rules_m(st_rules_m(st_rules@)),
{
    let ghost all = st_rules_m(st_rules@);
    let mut eqs: Vec<(usize, FunSym)> = Vec::new();
    let mut i: usize = 0;
    assert(all.take(0) =~= Seq::<(TermM, TermM)>::empty());
    assert(eqs_m(st_rules@, eqs@) =~= Seq::<(TermM, FunSymM)>::empty());
    while i < st_rules.len()
        invariant
            i <= st_rules@.len(),
            all == st_rules_m(st_rules@),
            forall|j: int| 0 <= j < eqs@.len() ==> (#[trigger] eqs@[j]).0 < st_rules@.len(),
            eqs_m(st_rules@, eqs@) == private_equations(all.take(i as int)),
        decreases st_rules.len() - i,
    {
        assert(all.take(i + 1).drop_last() =~= all.take(i as int));
        assert(all.take(i + 1).last() == (st_rules@[i as int].lhs@, st_rules@[i as int].rhs.term@));
        let ghost before = eqs_m(st_rules@, eqs@);
        match &st_rules[i].rhs.term {
            Term::App(FunSym::NoEq(s), _) => {
                if s.arity == 0 && s.privacy == Privacy::Private {
                    eqs.push((i, FunSym::NoEq(s.copy())));
                    assert(eqs_m(st_rules@, eqs@) =~= before.push((st_rules@[i as int].lhs@, FunSymM::NoEq(s@))));
                }
            },
            _ => {},
        }
        i += 1;
    }
    assert(all.take(st_rules@.len() as int) =~= all);
    let ghost target = derivable_m(private_equations(all), Seq::empty());
    let mut except: Vec<FunSym> = Vec::new();
    assert(funsyms_m(except@) =~= Seq::<FunSymM>::empty());
    loop
        invariant
            forall|j: int| 0 <= j < eqs@.len() ==> (#[trigger] eqs@[j]).0 < st_rules@.len(),
            derivable_m(eqs_m(st_rules@, eqs@), funsyms_m(except@)) == target,
        ensures
            funsyms_m(except@) == target,
        decreases eqs@.len(),
    {
        let ghost e = eqs_m(st_rules@, eqs@);
        let ghost x = funsyms_m(except@);
        let mut ready: Vec<FunSym> = Vec::new();
        let mut waiting: Vec<(usize, FunSym)> = Vec::new();
        let mut j: usize = 0;
        assert(e.take(0) =~= Seq::<(TermM, FunSymM)>::empty());
        assert(funsyms_m(ready@) =~= Seq::<FunSymM>::empty());
        assert(eqs_m(st_rules@, waiting@) =~= Seq::<(TermM, FunSymM)>::empty());
        while j < eqs.len()
            invariant
                j <= eqs@.len(),
                e == eqs_m(st_rules@, eqs@),
                x == funsyms_m(except@),
                forall|k: int| 0 <= k < eqs@.len() ==> (#[trigger] eqs@[k]).0 < st_rules@.len(),
                forall|k: int| 0 <= k < waiting@.len() ==> (#[trigger] waiting@[k]).0 < st_rules@.len(),
                funsyms_m(ready@) == ready_m(e.take(j as int), x),
                eqs_m(st_rules@, waiting@) == waiting_m(e.take(j as int), x),
            decreases eqs.len() - j,
        {
            assert(e.take(j + 1).drop_last() =~= e.take(j as int));
            assert(e.take(j + 1).last() == e[j as int]);
            let idx = eqs[j].0;
            if no_private_except(&except, &st_rules[idx].lhs) {
                let ghost before = funsyms_m(ready@);
                ready.push(eqs[j].1.copy());
                assert(funsyms_m(ready@) =~= before.push(e[j as int].1));
            } else {
                let ghost before = eqs_m(st_rules@, waiting@);
                waiting.push((idx, eqs[j].1.copy()));
                assert(eqs_m(st_rules@, waiting@) =~= before.push(e[j as int]));
            }
            j += 1;
        }
        assert(e.take(eqs@.len() as int) =~= e);
        if ready.len() == 0 {
            break;
        }
        proof {
            lemma_partition_len(e, x);
        }
        let mut k: usize = 0;
        let ghost r = funsyms_m(ready@);
        while k < ready.len()
            invariant
                k <= ready@.len(),
                r == funsyms_m(ready@),
                funsyms_m(except@) == x + r.take(k as int),
            decreases ready.len() - k,
        {
            let ghost before = funsyms_m(except@);
            except.push(ready[k].copy());
            assert(funsyms_m(except@) =~= before.push(r[k as int]));
            assert(r.take(k + 1) =~= r.take(k as int).push(r[k as int]));
            k += 1;
        }
        assert(r.take(ready@.len() as int) =~= r);
        eqs = waiting;
    }
    let ghost d = funsyms_m(except@);
    let mut out: Vec<IntrRuleAC> = Vec::new();
    let mut k: usize = 0;
    while k < except.len()
        invariant
            k <= except@.len(),
            d == funsyms_m(except@),
            rules_m(out@) == Seq::new(k as nat, |i: int| const_rule_m(d[i])),
        decreases except.len() - k,
    {
        let ghost before = rules_m(out@);
        let ghost old_out = out@;
        assert(before.len() == k);
        assert(d[k as int] == except@[k as int]@);
        out.push(const_rule(&except[k]));
        assert forall|i: int| 0 <= i < k + 1 implies #[trigger] rules_m(out@)[i] == const_rule_m(d[i]) by {
            if i < k {
                assert(out@[i] == old_out[i]);
                assert(before[i] == old_out[i]@);
            }
        }
        assert(rules_m(out@) =~= Seq::new((k + 1) as nat, |i: int| const_rule_m(d[i])));
        k += 1;
    }
    out
}

proof fn lemma_ready_waiting_members(eqs: Seq<(TermM, FunSymM)>, except: Seq<FunSymM>, i: int)
    requires
        0 <= i < eqs.len(),
    ensures
        no_private_except_m(except, eqs[i].0) ==> ready_m(eqs, except).contains(eqs[i].1),
        !no_private_except_m(except, eqs[i].0) ==> waiting_m(eqs, except).contains(eqs[i]),
    decreases eqs.len(),
{
    let p = eqs.drop_last();
    let r = ready_m(p, except);
    let w = waiting_m(p, except);
    if i < eqs.len() - 1 {
        lemma_ready_waiting_members(p, except, i);
        assert(p[i] == eqs[i]);
        if no_private_except_m(except, eqs[i].0) {
            let k = choose|k: int| 0 <= k < r.len() && r[k] == eqs[i].1;
            if no_private_except_m(except, eqs.last().0) {
                assert(r.push(eqs.last().1)[k] == eqs[i].1);
            }
        } else {
            let k = choose|k: int| 0 <= k < w.len() && w[k] == eqs[i];
            if !no_private_except_m(except, eqs.last().0) {
                assert(w.push(eqs.last())[k] == eqs[i]);
            }
        }
    } else {
        if no_private_except_m(except, eqs[i].0) {
            assert(r.push(eqs.last().1)[r.len() as int] == eqs[i].1);
        } else {
            assert(w.push(eqs.last())[w.len() as int] == eqs[i]);
        }
    }
}

proof fn lemma_derivable_keeps_except(eqs: Seq<(TermM, FunSymM)>, except: Seq<FunSymM>, f: FunSymM)
    requires
        except.contains(f),
    ensures
        derivable_m(eqs, except).contains(f),
    decreases eqs.len(),
{
    let ready = ready_m(eqs, except);
    if ready.len() > 0 {
        lemma_partition_len(eqs, except);
        let k = choose|k: int| 0 <= k < except.len() && except[k] == f;
        assert((except + ready)[k] == f);
        lemma_derivable_keeps_except(waiting_m(eqs, except), except + ready, f);
    }
}

/// The derivable constants are closed: every equation whose left-hand
/// side needs no private symbol outside them has its constant among them.
pub proof fn derivable_constants_are_closed(eqs: Seq<(TermM, FunSymM)>, except: Seq<FunSymM>)
    ensures
        forall|i: int|
            0 <= i < eqs.len() && no_private_except_m(derivable_m(eqs, except), #[trigger] eqs[i].0)
                ==> derivable_m(eqs, except).contains(eqs[i].1),
    decreases eqs.len(),
{
    let d = derivable_m(eqs, except);
    let ready = ready_m(eqs, except);
    assert forall|i: int| 0 <= i < eqs.len() && no_private_except_m(d, #[trigger] eqs[i].0) implies d.contains(
        eqs[i].1,
    ) by {
        lemma_ready_waiting_members(eqs, except, i);
        if ready.len() == 0 {
            if no_private_except_m(except, eqs[i].0) {
                assert(ready.contains(eqs[i].1));
            }
        } else {
            lemma_partition_len(eqs, except);
            let w = waiting_m(eqs, except);
            if no_private_except_m(except, eqs[i].0) {
                let k = choose|k: int| 0 <= k < ready.len() && ready[k] == eqs[i].1;
                assert((except + ready)[except.len() + k] == eqs[i].1);
                lemma_derivable_keeps_except(w, except + ready, eqs[i].1);
            } else {
                derivable_constants_are_closed(w, except + ready);
                let j = choose|j: int| 0 <= j < w.len() && w[j] == eqs[i];
                assert(no_private_except_m(d, w[j].0));
            }
        }
    }
}

proof fn lemma_ready_waiting_origin(eqs: Seq<(TermM, FunSymM)>, except: Seq<FunSymM>)
    ensures
        forall|k: int| 0 <= k < ready_m(eqs, except).len() ==> exists|i: int| 0 <= i < eqs.len() && eqs[i].1 == #[trigger] ready_m(eqs, except)[k],
        forall|k: int| 0 <= k < waiting_m(eqs, except).len() ==> eqs.contains(#[trigger] waiting_m(eqs, except)[k]),
    decreases eqs.len(),
{
    if eqs.len() > 0 {
        let p = eqs.drop_last();
        lemma_ready_waiting_origin(p, except);
        let r = ready_m(eqs, except);
        let w = waiting_m(eqs, except);
        assert forall|k: int| 0 <= k < r.len() implies exists|i: int| 0 <= i < eqs.len() && eqs[i].1 == #[trigger] r[k] by {
            if k < ready_m(p, except).len() {
                assert(r[k] == ready_m(p, except)[k]);
                let i = choose|i: int| 0 <= i < p.len() && p[i].1 == ready_m(p, except)[k];
                assert(eqs[i] == p[i]);
            } else {
                assert(eqs[eqs.len() - 1].1 == r[k]);
            }
        }
        assert forall|k: int| 0 <= k < w.len() implies eqs.contains(#[trigger] w[k]) by {
            if k < waiting_m(p, except).len() {
                assert(w[k] == waiting_m(p, except)[k]);
                let i = choose|i: int| 0 <= i < p.len() && p[i] == waiting_m(p, except)[k];
                assert(eqs[i] == p[i]);
            } else {
                assert(eqs[eqs.len() - 1] == w[k]);
            }
        }
    }
}

/// Every derivable constant was given from the start or is the constant of
/// one of the equations.
pub proof fn derivable_constants_come_from_equations(eqs: Seq<(TermM, FunSymM)>, except: Seq<FunSymM>)
    ensures
        forall|f: FunSymM| #[trigger] derivable_m(eqs, except).contains(f) ==> except.contains(f) || exists|i: int|
            0 <= i < eqs.len() && eqs[i].1 == f,
    decreases eqs.len(),
{
    let ready = ready_m(eqs, except);
    if ready.len() > 0 {
        lemma_partition_len(eqs, except);
        let w = waiting_m(eqs, except);
        derivable_constants_come_from_equations(w, except + ready);
        lemma_ready_waiting_origin(eqs, except);
        assert(derivable_m(eqs, except) == derivable_m(w, except + ready));
        assert forall|f: FunSymM| #[trigger] derivable_m(eqs, except).contains(f) implies except.contains(f)
            || exists|i: int| 0 <= i < eqs.len() && eqs[i].1 == f by {
            if (except + ready).contains(f) {
                let k = choose|k: int| 0 <= k < (except + ready).len() && (except + ready)[k] == f;
                if k < except.len() {
                    assert(except[k] == f);
                } else {
                    assert(ready[k - except.len()] == f);
                }
            } else {
                assert(exists|j: int| 0 <= j < w.len() && w[j].1 == f);
                let j = choose|j: int| 0 <= j < w.len() && w[j].1 == f;
                assert(eqs.contains(waiting_m(eqs, except)[j]));
                let i = choose|i: int| 0 <= i < eqs.len() && eqs[i] == w[j];
                assert(eqs[i].1 == f);
            }
        }
    }
}

/// Is `t` the application of a free symbol declared private and without
/// arguments?
pub open spec fn is_private_constant_term(t: TermM) -> bool {
    t matches TermM::App(FunSymM::NoEq(s), _) && s.arity == 0 && s.privacy == Privacy::Private
}

/// The equation `eq` comes from the `i`th rule, whose right-hand side is a
/// private constant.
pub open spec fn equation_from_rule(rules: Seq<(TermM, TermM)>, eq: (TermM, FunSymM), i: int) -> bool {
    &&& 0 <= i < rules.len()
    &&& is_private_constant_term(rules[i].1)
    &&& eq == (rules[i].0, rules[i].1->App_0)
}

/// Some rule gives the equation `eq` (see [`equation_from_rule`]).
pub open spec fn equation_has_rule(rules: Seq<(TermM, TermM)>, eq: (TermM, FunSymM)) -> bool {
    exists|i: int| #[trigger] equation_from_rule(rules, eq, i)
}

proof fn lemma_private_equations_origin(rules: Seq<(TermM, TermM)>)
    ensures
        forall|k: int| 0 <= k < private_equations(rules).len() ==> equation_has_rule(rules, #[trigger] private_equations(rules)[k]),
    decreases rules.len(),
{
    if rules.len() > 0 {
        let p = rules.drop_last();
        lemma_private_equations_origin(p);
        let l = rules.len() - 1;
        assert(rules[l] == rules.last());
        let e = private_equations(rules);
        assert forall|k: int| 0 <= k < e.len() implies equation_has_rule(rules, #[trigger] e[k]) by {
            if k < private_equations(p).len() {
                assert(e[k] == private_equations(p)[k]);
                assert(equation_has_rule(p, private_equations(p)[k]));
                let i = choose|i: int| #[trigger] equation_from_rule(p, private_equations(p)[k], i);
                assert(rules[i] == p[i]);
                assert(equation_from_rule(rules, e[k], i));
            } else {
                assert(equation_from_rule(rules, e[k], l));
            }
        }
    }
}

/// Every rule returned is the constructor rule of a private constant that
/// the right-hand side of one of the equations is: only free symbols
/// declared private and without arguments get a rule.
pub proof fn only_private_constants_get_constructor_rules(rules: Seq<(TermM, TermM)>)
    ensures
        forall|k: int| #![trigger private_constructor_rules_m(rules)[k]] 0 <= k < private_constructor_rules_m(rules).len()
            ==> exists|i: int|
            0 <= i < rules.len() && is_private_constant_term((#[trigger] rules[i]).1)
                && private_constructor_rules_m(rules)[k] == const_rule_m(rules[i].1->App_0),
{
    let eqs = private_equations(rules);
    let d = derivable_m(eqs, Seq::empty());
    lemma_private_equations_origin(rules);
    derivable_constants_come_from_equations(eqs, Seq::empty());
    assert forall|k: int| #![trigger private_constructor_rules_m(rules)[k]] 0 <= k < private_constructor_rules_m(rules).len() implies exists|i: int|
        0 <= i < rules.len() && is_private_constant_term((#[trigger] rules[i]).1)
            && private_constructor_rules_m(rules)[k] == const_rule_m(rules[i].1->App_0) by {
        assert(private_constructor_rules_m(rules)[k] == const_rule_m(d[k]));
        assert(d.contains(d[k]));
        let j = choose|j: int| 0 <= j < eqs.len() && eqs[j].1 == d[k];
        assert(equation_has_rule(rules, eqs[j]));
        let i = choose|i: int| #[trigger] equation_from_rule(rules, eqs[j], i);
        assert(d[k] == rules[i].1->App_0);
    }
}

} // verus!
