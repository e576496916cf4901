use lib::order::compare_guarded;
use std::cmp::Ordering;
use std::collections::hash_map::DefaultHasher;
use std::hash::{Hash, Hasher};
use lib::convert::{formula_to_guarded, formula_to_guarded_parsed, GuardError};
use lib::formula::{exists_var, for_all_var, Formula, Quantifier};
use lib::fresh::FreshState;
use lib::guarded::{
    bvar_to_lvar, close_guarded, contains_action, close_subst, frees, gconj, gdisj, gfalse, ginduct, gnot, gtrue,
    is_safety_formula, map_free, normalise, normalise_guarded_cow, normalize_witness_lvars_cow, open_guarded, open_subst, satisfied_by_empty_trace,
    simplify_guarded_with, subst_bound_atom, subst_free_atom, subst_guarded, to_induction_hypothesis,
    AtomTable, Guarded,
};
use lib::term::{
    Atom, BVar, Binder, Constructability, Fact, FactTag, FunSym, LSort, LVar, Name, NameTag,
    Privacy, Subst, SymInfo, Term,
};

fn lvar(name: &str, sort: LSort, idx: u64) -> LVar {
    LVar::new(name, sort, idx)
}

fn fv(name: &str, sort: LSort, idx: u64) -> Term {
    Term::Var(BVar::Free(lvar(name, sort, idx)))
}

fn msg(name: &str) -> Term {
    fv(name, LSort::Msg, 0)
}

fn node(name: &str) -> Term {
    fv(name, LSort::Node, 0)
}

fn pubc(s: &str) -> Term {
    Term::Con(Name { tag: NameTag::Pub, id: s.to_string() })
}

fn pair(a: Term, b: Term) -> Term {
    let sym = SymInfo {
        name: "pair".to_string(),
        arity: 2,
        privacy: Privacy::Public,
        constructability: Constructability::Constructor,
    };
    Term::App(FunSym::NoEq(sym), vec![a, b])
}

fn fact(name: &str, args: Vec<Term>) -> Fact {
    Fact { tag: FactTag::Proto(false, name.to_string(), args.len()), terms: args }
}

/// `name(args) @ t`.
fn action(name: &str, args: Vec<Term>, t: Term) -> Formula {
    Formula::Atom(Atom::Action(t, fact(name, args)))
}

fn last(t: Term) -> Formula {
    Formula::Atom(Atom::Last(t))
}

fn eq(a: Term, b: Term) -> Formula {
    Formula::Atom(Atom::EqE(a, b))
}

fn less(a: Term, b: Term) -> Formula {
    Formula::Atom(Atom::Less(a, b))
}

/// `All v1 .. vn. body`, each binder closing its free variable (index 0
/// unless given).
fn all(vars: &[(&str, LSort, u64)], body: Formula) -> Formula {
    let mut f = body;
    for (name, sort, idx) in vars.iter().rev() {
        f = for_all_var(Binder::new(name, *sort), &lvar(name, *sort, *idx), &f);
    }
    f
}

fn ex(vars: &[(&str, LSort, u64)], body: Formula) -> Formula {
    let mut f = body;
    for (name, sort, idx) in vars.iter().rev() {
        f = exists_var(Binder::new(name, *sort), &lvar(name, *sort, *idx), &f);
    }
    f
}

fn g(f: &Formula) -> Result<Guarded, GuardError> {
    formula_to_guarded(f)
}

fn last_atom(n: &str) -> Guarded {
    g(&last(node(n))).unwrap()
}

const M: LSort = LSort::Msg;
const N: LSort = LSort::Node;

#[test]
fn ground_truth() {
    let r = g(&Formula::ltrue()).unwrap();
    assert_eq!(r, gtrue());
}

#[test]
fn ground_false() {
    let r = g(&Formula::lfalse()).unwrap();
    assert_eq!(r, gfalse());
}

#[test]
fn gnot_true_is_false() {
    assert_eq!(gnot(&gtrue()), gfalse());
}

#[test]
fn gnot_false_is_true() {
    assert_eq!(gnot(&gfalse()), gtrue());
}

#[test]
fn gnot_conj_becomes_disj() {
    let a = last_atom("i");
    let b = last_atom("j");
    let neg = gnot(&Guarded::Conj(vec![a.copy(), b.copy()]));
    match &neg {
        Guarded::Disj(items) => {
            assert_eq!(items.len(), 2);
            assert_eq!(items[0], gnot(&a));
            assert_eq!(items[1], gnot(&b));
        }
        other => panic!("expected Disj([not a, not b]), got {:?}", other),
    }
}

#[test]
fn ginduct_rejects_action_free_formula() {
    assert!(ginduct(&gtrue()).is_err());
    assert!(ginduct(&gfalse()).is_err());
}

#[test]
fn satisfied_by_empty_trace_handles_quants() {
    let x = msg("x");
    let i = node("i");
    let all_f = all(
        &[("x", M, 0), ("i", N, 0)],
        action("P", vec![x.copy()], i.copy()).implies(action("Q", vec![x.copy()], i.copy())),
    );
    let all_g = g(&all_f).expect("guarded");
    assert!(satisfied_by_empty_trace(&all_g).unwrap());
    let ex_g = g(&ex(&[("x", M, 0), ("i", N, 0)], action("P", vec![x.copy()], i.copy()))).expect("guarded");
    assert!(!satisfied_by_empty_trace(&ex_g).unwrap());
    let atom = last_atom("i");
    assert!(satisfied_by_empty_trace(&atom).is_err());
}

#[test]
fn ginduct_existential_action_succeeds() {
    let gf = g(&ex(&[("k", M, 0), ("i", N, 0)], action("P", vec![msg("k")], node("i")))).expect("guarded");
    let (base, step) = ginduct(&gf).expect("ginduct");
    assert_eq!(base, gfalse());
    match &step {
        Guarded::Conj(items) => {
            assert!(items.iter().any(|x| x == &gf));
        }
        other => panic!("expected Conj, got {:?}", other),
    }
}

#[test]
fn simple_action_under_all() {
    let f = all(
        &[("k", M, 0), ("i", N, 0)],
        action("Setup", vec![msg("k")], node("i")).implies(Formula::lfalse()),
    );
    match g(&f).unwrap() {
        Guarded::GGuarded { qua, vars, guards, .. } => {
            assert_eq!(qua, Quantifier::All);
            assert_eq!(vars.len(), 2);
            assert_eq!(guards.len(), 1);
        }
        x => panic!("expected GGuarded, got {:?}", x),
    }
}

#[test]
fn unguarded_variable_rejected() {
    let res = g(&all(&[("k", M, 0)], Formula::lfalse()));
    assert!(res.is_err());
}

#[test]
fn exists_with_guarded_var() {
    let f = ex(&[("k", M, 0), ("i", N, 0)], action("Setup", vec![msg("k")], node("i")));
    match g(&f).unwrap() {
        Guarded::GGuarded { qua, vars, .. } => {
            assert_eq!(qua, Quantifier::Ex);
            assert_eq!(vars.len(), 2);
        }
        x => panic!("expected GGuarded(Ex), got {:?}", x),
    }
}

#[test]
fn safety_no_existential() {
    let f = all(
        &[("k", M, 0), ("i", N, 0)],
        action("Setup", vec![msg("k")], node("i")).implies(Formula::lfalse()),
    );
    assert!(is_safety_formula(&g(&f).unwrap()));
}

#[test]
fn safety_rejects_existential() {
    let f = all(
        &[("k", M, 0), ("i", N, 0)],
        action("Setup", vec![msg("k")], node("i"))
            .implies(ex(&[("j", M, 0), ("t", N, 0)], action("Foo", vec![msg("j")], node("t")))),
    );
    assert!(!is_safety_formula(&g(&f).unwrap()));
}

/// `All x #NOW. Foo(x) @ #NOW ==> (All <inner> z. (<inner, z> = x) ==> F)`.
fn shadow_case(inner: (&str, u64)) -> Formula {
    let (name, idx) = inner;
    let body = all(
        &[(name, M, idx), ("z", M, 0)],
        eq(pair(fv(name, M, idx), msg("z")), msg("x")).implies(Formula::lfalse()),
    );
    all(&[("x", M, 0), ("NOW", N, 0)], action("Foo", vec![msg("x")], node("NOW")).implies(body))
}

#[test]
fn indexed_inner_binder_is_guarded_against_same_named_outer_var() {
    let r = g(&shadow_case(("x", 1))).expect("x.1 and z are guarded by the pair equation");
    assert!(is_safety_formula(&r));
    match &r {
        Guarded::GGuarded { qua, vars, guards, .. } => {
            assert_eq!(*qua, Quantifier::All);
            assert_eq!(vars.len(), 2);
            assert_eq!(guards.len(), 1);
        }
        x => panic!("expected GGuarded, got {:?}", x),
    }
}

#[test]
fn distinctly_named_inner_binders_are_guarded() {
    let r = g(&shadow_case(("y", 0))).expect("y and z are guarded by the pair equation");
    assert!(is_safety_formula(&r));
    let r = g(&shadow_case(("y", 1))).expect("y.1 and z are guarded by the pair equation");
    assert!(is_safety_formula(&r));
}

#[test]
fn unindexed_shadowing_inner_binder_stays_unguarded() {
    let res = g(&shadow_case(("x", 0)));
    assert!(res.is_err(), "expected unguarded error, got {:?}", res);
}

#[test]
fn timepoint_guard_matches_sigilless_occurrence() {
    let f = ex(&[("j", N, 0)], action("Bar", vec![msg("x")], node("j")));
    match &g(&f).expect("#j is guarded by the action's timepoint") {
        Guarded::GGuarded { qua, vars, .. } => {
            assert_eq!(*qua, Quantifier::Ex);
            assert_eq!(vars.len(), 1);
        }
        x => panic!("expected GGuarded(Ex), got {:?}", x),
    }
}

#[test]
fn implication_distributes() {
    let f = all(
        &[("k", M, 0), ("i", N, 0)],
        action("Setup", vec![msg("k")], node("i"))
            .implies(ex(&[("j", M, 0), ("t", N, 0)], action("Setup", vec![msg("j")], node("t")))),
    );
    match &g(&f).unwrap() {
        Guarded::GGuarded { qua, vars, guards, body } => {
            assert_eq!(*qua, Quantifier::All);
            assert_eq!(vars.len(), 2);
            assert_eq!(guards.len(), 1);
            match &**body {
                Guarded::GGuarded { qua, vars, .. } => {
                    assert_eq!(*qua, Quantifier::Ex);
                    assert_eq!(vars.len(), 2);
                }
                other => panic!("expected the consequent as the body, got {:?}", other),
            }
        }
        x => panic!("got {:?}", x),
    }
}

#[test]
fn injectivity_check_ginduct_succeeds() {
    let id = msg("id");
    let (i, j, k) = (node("i"), node("j"), node("k"));
    let body = action("Initiated", vec![id.copy()], i.copy())
        .and(action("Removed", vec![id.copy()], j.copy()))
        .and(action("Copied", vec![id.copy()], k.copy()))
        .and(less(i.copy(), j.copy()))
        .and(less(j.copy(), k.copy()));
    let f = ex(&[("id", M, 0), ("i", N, 0), ("j", N, 0), ("k", N, 0)], body).not();
    let gf = g(&f).expect("guarded");
    let g_neg = gnot(&gf);
    assert!(frees(&g_neg).is_empty());
    assert!(ginduct(&g_neg).is_ok());
}

#[test]
fn applying_a_substitution_to_a_guarded_formula_leaves_bound_leaves_alone() {
    let s = Subst { entries: vec![(lvar("k", M, 0), pubc("OUTER"))] };
    let inner_k = lvar("k", M, 0);
    let gf = close_guarded(
        Quantifier::Ex,
        vec![inner_k],
        Vec::new(),
        Guarded::Atom(Atom::Action(node("i"), fact("Action", vec![msg("k")]))),
    );
    let result = subst_guarded(&gf, &s);
    match result {
        Guarded::GGuarded { body, .. } => match &*body {
            Guarded::Atom(Atom::Action(_, fa)) => match &fa.terms[0] {
                Term::Var(BVar::Bound(0)) => {}
                other => panic!("expected Bound(0), got {:?}", other),
            },
            other => panic!("expected Atom(Action), got {:?}", other),
        },
        other => panic!("expected GGuarded, got {:?}", other),
    }
}

#[test]
fn ginduct_extracts_two_cases() {
    let f = all(
        &[("k", M, 0), ("i", N, 0)],
        action("Setup", vec![msg("k")], node("i")).implies(ex(
            &[("j", N, 0)],
            action("Setup", vec![msg("k")], node("j")).and(less(node("j"), node("i"))),
        )),
    );
    let gf = g(&f).unwrap();
    let (base, step) = ginduct(&gf).expect("ginduct should succeed");
    assert_eq!(base, gtrue());
    match &step {
        Guarded::Conj(items) => {
            assert_eq!(items.len(), 2);
            assert_eq!(items[0], gf);
            assert!(matches!(&items[1], Guarded::GGuarded { qua: Quantifier::Ex, .. }));
        }
        other => panic!("expected Conj of 2 items, got {:?}", other),
    }
}

fn last_bound_indices(g: &Guarded) -> Vec<u64> {
    fn go(g: &Guarded, out: &mut Vec<u64>) {
        match g {
            Guarded::Atom(Atom::Last(Term::Var(BVar::Bound(n)))) => out.push(*n),
            Guarded::Atom(_) => {}
            Guarded::Disj(xs) | Guarded::Conj(xs) => xs.iter().for_each(|x| go(x, out)),
            Guarded::GGuarded { guards, body, .. } => {
                for a in guards.iter() {
                    if let Atom::Last(Term::Var(BVar::Bound(n))) = a {
                        out.push(*n);
                    }
                }
                go(body, out);
            }
        }
    }
    let mut out = Vec::new();
    go(g, &mut out);
    out
}

#[test]
fn induction_hypothesis_emits_last_atoms_for_node_sorted_binders() {
    let f = all(
        &[("i", N, 0)],
        action("Setup", vec![pubc("k")], node("i")).implies(action("G", vec![pubc("x")], node("i"))),
    );
    let gf = g(&f).unwrap();
    let ih = to_induction_hypothesis(&gf).expect("should produce IH");
    match &ih {
        Guarded::GGuarded { qua, vars, body, .. } => {
            assert_eq!(*qua, Quantifier::Ex);
            assert_eq!(vars.len(), 1);
            assert_eq!(last_bound_indices(body), vec![0]);
        }
        other => panic!("expected GGuarded(Ex, ...), got {:?}", other),
    }
}

#[test]
fn induction_hypothesis_skips_non_node_binders() {
    let f = all(
        &[("k", M, 0), ("i", N, 0), ("j", N, 0)],
        action("Setup", vec![msg("k")], node("i"))
            .and(action("Setup", vec![msg("k")], node("j")))
            .implies(Formula::lfalse()),
    );
    let gf = g(&f).unwrap();
    let ih = to_induction_hypothesis(&gf).expect("should produce IH");
    assert_eq!(last_bound_indices(&ih), vec![0, 1]);
}

fn mk_gatom_eq(a: &str, b: &str) -> Atom {
    Atom::EqE(msg(a), msg(b))
}

fn mk_eq(a: &str, b: &str) -> Atom {
    mk_gatom_eq(a, b)
}

fn mk_atom_eq(a: &str, b: &str) -> Guarded {
    Guarded::Atom(mk_gatom_eq(a, b))
}

#[test]
fn simplify_atom_with_known_true_collapses_to_gtrue() {
    let gf = mk_atom_eq("x", "y");
    let val = AtomTable { entries: vec![(mk_eq("x", "y"), true)] };
    assert_eq!(simplify_guarded_with(&gf, &val), gtrue());
}

#[test]
fn simplify_atom_with_known_false_collapses_to_gfalse() {
    let gf = mk_atom_eq("x", "y");
    let val = AtomTable { entries: vec![(mk_eq("x", "y"), false)] };
    assert_eq!(simplify_guarded_with(&gf, &val), gfalse());
}

#[test]
fn simplify_atom_unknown_left_intact() {
    let gf = mk_atom_eq("x", "y");
    let val = AtomTable { entries: vec![] };
    assert_eq!(simplify_guarded_with(&gf, &val), gf);
}

#[test]
fn simplify_disj_drops_false_branches() {
    let a = mk_atom_eq("p", "q");
    let gf = Guarded::Disj(vec![a.copy(), Guarded::Atom(mk_gatom_eq("r", "s"))]);
    let val = AtomTable { entries: vec![(mk_eq("r", "s"), false)] };
    assert_eq!(simplify_guarded_with(&gf, &val), a);
}

#[test]
fn simplify_conj_short_circuits_on_false() {
    let gf = Guarded::Conj(vec![mk_atom_eq("p", "q"), Guarded::Atom(mk_gatom_eq("r", "s"))]);
    let val = AtomTable { entries: vec![(mk_eq("r", "s"), false)] };
    assert_eq!(simplify_guarded_with(&gf, &val), gfalse());
}

fn mk_universal(vars: Vec<(&str, LSort)>, guards: &[(&str, &str)]) -> Guarded {
    Guarded::GGuarded {
        qua: Quantifier::All,
        vars: vars.into_iter().map(|(n, s)| Binder::new(n, s)).collect(),
        guards: guards.iter().map(|(a, b)| mk_gatom_eq(a, b)).collect(),
        body: Box::new(mk_atom_eq("p", "q")),
    }
}

#[test]
fn simplify_universal_with_one_false_guard_is_gtrue() {
    let gf = mk_universal(Vec::new(), &[("a", "b"), ("c", "d")]);
    let val = AtomTable { entries: vec![(mk_eq("a", "b"), false)] };
    assert_eq!(simplify_guarded_with(&gf, &val), gtrue());
}

#[test]
fn simplify_universal_drops_true_guards_keeps_unknown() {
    let gf = mk_universal(Vec::new(), &[("a", "b"), ("c", "d")]);
    let val = AtomTable { entries: vec![(mk_eq("a", "b"), true)] };
    match simplify_guarded_with(&gf, &val) {
        Guarded::GGuarded { vars, guards, .. } => {
            assert!(vars.is_empty());
            assert_eq!(guards, vec![mk_gatom_eq("c", "d")]);
        }
        other => panic!("expected GGuarded with one guard, got {:?}", other),
    }
}

#[test]
fn simplify_universal_with_all_true_guards_returns_body() {
    let gf = mk_universal(Vec::new(), &[("a", "b")]);
    let val = AtomTable { entries: vec![(mk_eq("a", "b"), true)] };
    assert_eq!(simplify_guarded_with(&gf, &val), mk_atom_eq("p", "q"));
}

#[test]
fn simplify_universal_with_quantifier_left_intact() {
    let gf = mk_universal(vec![("x", LSort::Msg)], &[("a", "b")]);
    let val = AtomTable { entries: vec![(mk_eq("a", "b"), true), (mk_eq("p", "q"), true)] };
    assert_eq!(simplify_guarded_with(&gf, &val), gf);
}

#[test]
fn gtrue_is_empty_conj_and_gfalse_is_empty_disj() {
    assert_eq!(gtrue(), Guarded::Conj(vec![]));
    assert_eq!(gfalse(), Guarded::Disj(vec![]));
    assert_ne!(gtrue(), gfalse());
}

#[test]
fn gconj_of_only_gtrue_items_is_gtrue() {
    assert_eq!(gconj(vec![gtrue(), gtrue(), gtrue()]), gtrue());
}

#[test]
fn gconj_short_circuits_on_gfalse() {
    let atom_g = last_atom("i");
    assert_eq!(gconj(vec![gtrue(), gfalse(), atom_g.copy()]), gfalse());
    assert_eq!(gconj(vec![atom_g, gfalse()]), gfalse());
}

#[test]
fn gdisj_of_only_gfalse_items_is_gfalse() {
    assert_eq!(gdisj(vec![gfalse(), gfalse()]), gfalse());
}

#[test]
fn gdisj_short_circuits_on_gtrue() {
    assert_eq!(gdisj(vec![gfalse(), gtrue(), gfalse()]), gtrue());
}

#[test]
fn gconj_dedupes_syntactic_duplicates() {
    let a = last_atom("i");
    let b = last_atom("j");
    match gconj(vec![a.copy(), b.copy(), a.copy()]) {
        Guarded::Conj(items) => {
            assert_eq!(items.len(), 2);
            assert_eq!(items[0], a);
            assert_eq!(items[1], b);
        }
        _ => panic!("expected Conj"),
    }
}

#[test]
fn gconj_duplicates_collapse_to_bare_item() {
    let a = last_atom("i");
    assert_eq!(gconj(vec![a.copy(), a.copy()]), a);
}

#[test]
fn gdisj_dedupes_syntactic_duplicates() {
    let a = last_atom("i");
    let b = last_atom("j");
    match gdisj(vec![a.copy(), b.copy(), a.copy(), b.copy()]) {
        Guarded::Disj(items) => {
            assert_eq!(items.len(), 2);
            assert_eq!(items[0], a);
            assert_eq!(items[1], b);
        }
        _ => panic!("expected Disj"),
    }
}

#[test]
fn gconj_singleton_unwraps() {
    let a = last_atom("i");
    assert_eq!(gconj(vec![a.copy()]), a);
}

#[test]
fn gconj_flattens_nested_conj_one_level() {
    let a = last_atom("i");
    let b = last_atom("j");
    let c = last_atom("k");
    let inner = Guarded::Conj(vec![a.copy(), b.copy()]);
    match gconj(vec![inner, c.copy()]) {
        Guarded::Conj(items) => {
            assert_eq!(items.len(), 3);
            assert_eq!(items, vec![a, b, c]);
        }
        _ => panic!("expected Conj"),
    }
}

#[test]
fn gdisj_deeply_nested_disj_flattens_to_5_alts() {
    let (a, b, c, d, e) = (last_atom("a"), last_atom("b"), last_atom("c"), last_atom("d"), last_atom("e"));
    let lvl1 = Guarded::Disj(vec![a.copy(), b.copy()]);
    let lvl2 = Guarded::Disj(vec![lvl1, c.copy()]);
    let lvl3 = Guarded::Disj(vec![lvl2, d.copy()]);
    let lvl4 = Guarded::Disj(vec![lvl3, e.copy()]);
    match gdisj(vec![lvl4]) {
        Guarded::Disj(items) => {
            assert_eq!(items.len(), 5);
            assert_eq!(items, vec![a, b, c, d, e]);
        }
        other => panic!("expected Disj of 5 items, got {:?}", other),
    }
}

#[test]
fn gconj_deeply_nested_conj_flattens() {
    let (a, b, c, d, e) = (last_atom("a"), last_atom("b"), last_atom("c"), last_atom("d"), last_atom("e"));
    let lvl1 = Guarded::Conj(vec![a.copy(), b.copy()]);
    let lvl2 = Guarded::Conj(vec![lvl1, c.copy()]);
    let lvl3 = Guarded::Conj(vec![lvl2, d.copy()]);
    let lvl4 = Guarded::Conj(vec![lvl3, e.copy()]);
    match gconj(vec![lvl4]) {
        Guarded::Conj(items) => {
            assert_eq!(items.len(), 5);
            assert_eq!(items, vec![a, b, c, d, e]);
        }
        other => panic!("expected Conj of 5 items, got {:?}", other),
    }
}

#[test]
fn gnot_double_negation_is_identity() {
    assert_eq!(gnot(&gnot(&gtrue())), gtrue());
    assert_eq!(gnot(&gnot(&gfalse())), gfalse());
    let a = last_atom("i");
    assert_eq!(gnot(&gnot(&a)), a);
}

#[test]
fn gnot_flips_universal_to_existential() {
    let f = all(
        &[("x", M, 0), ("i", N, 0)],
        action("P", vec![msg("x")], node("i")).implies(action("Q", vec![msg("x")], node("i"))),
    );
    match gnot(&g(&f).unwrap()) {
        Guarded::GGuarded { qua: Quantifier::Ex, .. } => {}
        other => panic!("expected Ex quantifier after negating All; got {:?}", other),
    }
}

#[test]
fn gnot_flips_existential_to_universal() {
    let f = g(&ex(&[("x", M, 0), ("i", N, 0)], action("P", vec![msg("x")], node("i")))).unwrap();
    match &f {
        Guarded::GGuarded { qua: Quantifier::Ex, .. } => {}
        other => panic!("test setup: expected Ex; got {:?}", other),
    }
    match gnot(&f) {
        Guarded::GGuarded { qua: Quantifier::All, .. } => {}
        other => panic!("expected All quantifier after negating Ex; got {:?}", other),
    }
}

#[test]
fn gnot_distributes_over_disj() {
    let a = last_atom("i");
    let b = last_atom("j");
    let or = Guarded::Disj(vec![a.copy(), b.copy()]);
    assert_eq!(gnot(&or), gconj(vec![gnot(&a), gnot(&b)]));
}

#[test]
fn reports_the_unguarded_variable_under_its_freshened_name() {
    let inner = all(
        &[("x", M, 0), ("z", M, 0)],
        eq(pair(msg("x"), msg("z")), msg("x")).implies(Formula::lfalse()),
    );
    let f = action("Foo", vec![fv("x", M, 3)], node("i")).implies(inner);
    let e = g(&f).expect_err("x and z are unguarded");
    assert_eq!(e.message, "unguarded variable(s) 'x.4', 'z' in the subformula");
}

#[test]
fn opens_a_shadowed_binder_under_a_fresh_index() {
    let e = g(&shadow_case(("x", 0))).expect_err("the inner x and z are unguarded");
    assert_eq!(e.message, "unguarded variable(s) 'x.1', 'z' in the subformula");
    let r = g(&shadow_case(("x", 1))).expect("x.1 and z are guarded by the pair equation");
    assert!(is_safety_formula(&r));
}

#[test]
fn rejects_a_universal_without_a_toplevel_implication() {
    let f = all(&[("k", M, 0), ("i", N, 0)], action("Setup", vec![msg("k")], node("i")));
    let e = g(&f).expect_err("the body is an action, not an implication");
    assert_eq!(e.message, "universal quantifier without toplevel implication");
}

#[test]
fn treats_iff_as_two_implications() {
    let lhs = || ex(&[("x", M, 0), ("i", N, 0)], action("A", vec![msg("x")], node("i")));
    let rhs = || ex(&[("y", M, 0), ("j", N, 0)], action("B", vec![msg("y")], node("j")));
    let iff = g(&lhs().iff(rhs())).expect("both sides are guarded");
    let spelled_out = g(&lhs().implies(rhs()).and(rhs().implies(lhs()))).expect("both sides are guarded");
    assert_eq!(iff, spelled_out);
    assert!(matches!(&iff, Guarded::Conj(items) if items.len() == 2));
}

#[test]
fn bvar_to_lvar_frees_an_opened_atom() {
    let a = Atom::Last(node("i"));
    assert_eq!(bvar_to_lvar(&a), Atom::Last(node("i")));
}

fn user_sym(name: &str, arity: usize) -> FunSym {
    FunSym::NoEq(SymInfo {
        name: name.to_string(),
        arity,
        privacy: Privacy::Public,
        constructability: Constructability::Constructor,
    })
}

fn key(name: &str, idx: u64) -> LVar {
    lvar(name, M, idx)
}

fn var(name: &str, idx: u64) -> Term {
    fv(name, M, idx)
}

#[test]
fn subst_var_to_non_var_term() {
    let s = Subst { entries: vec![(key("k", 0), pubc("foo"))] };
    assert_eq!(s.apply_term(&var("k", 0)), pubc("foo"));
}

#[test]
fn subst_descends_into_app_args() {
    let s = Subst { entries: vec![(key("k", 0), pubc("foo"))] };
    let t = Term::App(user_sym("f", 2), vec![var("k", 0), var("m", 0)]);
    let expected = Term::App(user_sym("f", 2), vec![pubc("foo"), var("m", 0)]);
    assert_eq!(s.apply_term(&t), expected);
}

#[test]
fn subst_keys_on_the_whole_variable() {
    let s = Subst { entries: vec![(key("x", 5), var("y", 0))] };
    assert_eq!(s.apply_term(&var("x", 5)), var("y", 0));
    assert_eq!(s.apply_term(&var("x", 6)), var("x", 6));
    let fresh_x = fv("x", LSort::Fresh, 5);
    assert_eq!(s.apply_term(&fresh_x), fresh_x);
}

#[test]
fn subst_pair_descent() {
    let s = Subst { entries: vec![(key("a", 0), pubc("X"))] };
    let t = pair(var("a", 0), var("b", 0));
    assert_eq!(s.apply_term(&t), pair(pubc("X"), var("b", 0)));
}

#[test]
fn witness_subst_keys_distinguish_sorts() {
    let g = Guarded::Atom(Atom::Action(
        node("i"),
        fact("A", vec![fv("x", M, 3), fv("x", LSort::Fresh, 3)]),
    ));
    let normalised = normalize_witness_lvars_cow(&g).expect("both witnesses move to idx 0");
    let Guarded::Atom(Atom::Action(_, fa)) = &normalised else {
        panic!("expected Atom(Action), got {normalised:?}");
    };
    assert_eq!(fa.terms, vec![fv("x", M, 0), fv("x", LSort::Fresh, 0)]);
}

#[test]
fn open_guarded_draws_the_binder_names_the_printer_shows() {
    let a = |x: &str, i: &str| action("A", vec![msg(x)], node(i));
    let f = ex(
        &[("x", M, 0), ("i", N, 0)],
        a("x", "i").and(ex(&[("x", M, 0), ("j", N, 0)], a("x", "j").and(ex(&[("x", M, 0), ("k", N, 0)], a("x", "k"))))),
    );
    let gf = g(&f).expect("guarded conversion");
    let mut fresh = FreshState::new();
    let mut drawn: Vec<String> = Vec::new();
    let mut cur = gf.copy();
    while let Some((_qua, vs, _ats, body)) = open_guarded(&cur, &mut fresh) {
        drawn.extend(vs.iter().map(|v| v.show()));
        cur = body;
    }
    assert_eq!(drawn, vec!["x", "#i", "x.1", "#j", "x.2", "#k"]);
}

#[test]
fn open_guarded_declines_a_non_guarded_formula() {
    let mut fresh = FreshState::new();
    assert!(open_guarded(&gtrue(), &mut fresh).is_none());
    assert!(open_guarded(&gfalse(), &mut fresh).is_none());
}

fn hf_names(g: &Guarded) -> Vec<String> {
    frees(g).iter().map(|v| format!("{}.{}", v.name, v.idx)).collect()
}

#[test]
fn action_atom_visits_timepoint_before_fact() {
    let g = Guarded::Atom(Atom::Action(fv("i", N, 2), fact("A", vec![fv("x", M, 1)])));
    assert_eq!(hf_names(&g), vec!["i.2", "x.1"]);
}

#[test]
fn guards_visited_before_body() {
    let g = Guarded::GGuarded {
        qua: Quantifier::All,
        vars: vec![],
        guards: vec![Atom::EqE(fv("g", M, 1), fv("h", M, 2))],
        body: Box::new(Guarded::Conj(vec![Guarded::Atom(Atom::Last(fv("b", N, 3)))])),
    };
    assert_eq!(hf_names(&g), vec!["g.1", "h.2", "b.3"]);
}

#[test]
fn bound_leaves_are_skipped() {
    let g = Guarded::GGuarded {
        qua: Quantifier::Ex,
        vars: vec![Binder::new("z", M)],
        guards: vec![Atom::EqE(Term::Var(BVar::Bound(0)), fv("y", M, 4))],
        body: Box::new(gtrue()),
    };
    assert_eq!(hf_names(&g), vec!["y.4"]);
    let rename = |v: &LVar| LVar::new("r", v.sort, v.idx + 10);
    let renamed = map_free(&g, &rename);
    let Guarded::GGuarded { guards, vars, .. } = &renamed else {
        panic!("map_free must keep the GGuarded shape")
    };
    assert_eq!(vars[0].name, "z", "the binder list stays verbatim");
    assert_eq!(guards[0], Atom::EqE(Term::Var(BVar::Bound(0)), fv("r", M, 14)));
}

#[test]
fn hasfrees_map_takes_the_mapped_sort() {
    let g = Guarded::Atom(Atom::Last(fv("x", LSort::Fresh, 1)));
    let rename = |v: &LVar| {
        assert_eq!(v.sort, LSort::Fresh);
        LVar::new("w", M, 9)
    };
    assert_eq!(map_free(&g, &rename), Guarded::Atom(Atom::Last(fv("w", M, 9))));
}

#[test]
fn locally_nameless_close_then_open_atom_identity() {
    let x = lvar("x", M, 0);
    let p_atom = Atom::Action(fv("t", N, 0), fact("P", vec![fv("x", M, 0)]));
    let closed = subst_free_atom(&close_subst(&vec![x.clone()]), &p_atom);
    match &closed {
        Atom::Action(_, f) => assert_eq!(f.terms[0], Term::Var(BVar::Bound(0))),
        _ => panic!("expected Action"),
    }
    let opened = subst_bound_atom(&open_subst(&vec![x]), &closed);
    assert_eq!(opened, p_atom);
}

#[test]
fn locally_nameless_close_subst_innermost_is_bound_zero() {
    let binders = vec![lvar("a", M, 0), lvar("b", M, 1), lvar("c", M, 2)];
    let s = close_subst(&binders);
    assert_eq!(s.len(), 3);
    assert_eq!((s[0].0.name.as_str(), s[0].1), ("c", 0));
    assert_eq!((s[1].0.name.as_str(), s[1].1), ("b", 1));
    assert_eq!((s[2].0.name.as_str(), s[2].1), ("a", 2));
}

#[test]
fn locally_nameless_open_subst_bound_zero_is_innermost() {
    let binders = vec![lvar("a", M, 0), lvar("b", M, 1), lvar("c", M, 2)];
    let s = open_subst(&binders);
    assert_eq!(s.len(), 3);
    assert_eq!((s[0].0, s[0].1.name.as_str()), (0, "c"));
    assert_eq!((s[1].0, s[1].1.name.as_str()), (1, "b"));
    assert_eq!((s[2].0, s[2].1.name.as_str()), (2, "a"));
}

#[test]
fn locally_nameless_close_alpha_equivalence() {
    let body = |v: &str, i: u64| Atom::Action(fv("t", N, 0), fact("P", vec![fv(v, M, i)]));
    let closed_x = subst_free_atom(&close_subst(&vec![lvar("x", M, 0)]), &body("x", 0));
    let closed_y = subst_free_atom(&close_subst(&vec![lvar("y", M, 7)]), &body("y", 7));
    assert_eq!(closed_x, closed_y);
}

#[test]
fn close_guarded_binds_the_free_occurrences() {
    let x = lvar("x", M, 0);
    let i = lvar("i", N, 0);
    let guard = Atom::Action(node("i"), fact("A", vec![msg("x")]));
    let r = close_guarded(Quantifier::Ex, vec![x, i], vec![guard], gtrue());
    match &r {
        Guarded::GGuarded { qua: Quantifier::Ex, vars, guards, .. } => {
            assert_eq!(vars.len(), 2);
            assert_eq!(guards[0], Atom::Action(Term::Var(BVar::Bound(0)), fact("A", vec![Term::Var(BVar::Bound(1))])));
        }
        other => panic!("expected Ex, got {other:?}"),
    }
    assert!(frees(&r).is_empty());
}

#[test]
fn gconj_of_its_own_result_changes_nothing() {
    let a = last_atom("i");
    let b = last_atom("j");
    let once = gconj(vec![a.copy(), a.copy()]);
    assert_eq!(once, a);
    assert_eq!(gconj(vec![once.copy()]), once);
    let pair = gconj(vec![Guarded::Conj(vec![a.copy(), b.copy()]), a.copy()]);
    assert_eq!(gconj(vec![pair.copy()]), pair);
    assert_eq!(gconj(vec![gfalse()]), gfalse());
    assert_eq!(gconj(vec![gtrue()]), gtrue());
}

#[test]
fn normalising_twice_is_normalising_once() {
    let a = last_atom("i");
    let b = last_atom("j");
    let messy = Guarded::Disj(vec![
        Guarded::Conj(vec![Guarded::Conj(vec![a.copy()]), b.copy(), b.copy()]),
        Guarded::Disj(vec![a.copy(), a.copy()]),
        a.copy(),
    ]);
    let once = normalise(&messy);
    assert_eq!(
        once,
        Guarded::Disj(vec![Guarded::Conj(vec![a.copy(), b.copy()]), a.copy()])
    );
    assert_eq!(normalise(&once), once);
    assert!(normalise_guarded_cow(&once).is_none());
    assert!(normalise_guarded_cow(&messy).is_some());
}

#[test]
fn variable_ordering_ranks_sorts_in_lsort_declaration_order() {
    let declared = [LSort::Pub, LSort::Fresh, LSort::Msg, LSort::Node, LSort::Nat];
    let v = |sort| LVar::new("x", sort, 0);
    let b = |sort| ("x".to_string(), sort);
    for (i, &s) in declared.iter().enumerate() {
        for (j, &t) in declared.iter().enumerate() {
            let want = i.cmp(&j);
            assert_eq!(v(s).cmp(&v(t)), want, "{s:?} vs {t:?}");
            assert_eq!(b(s).cmp(&b(t)), want, "{s:?} vs {t:?}");
        }
    }
}

#[test]
fn formula_to_guarded_parsed_reports_a_residual_predicate_atom() {
    let body = Formula::Conn(
        lib::formula::Connective::And,
        Box::new(action("A", vec![msg("x")], node("i"))),
        Box::new(Formula::Atom(Atom::Pred(fact("P", vec![msg("x")])))),
    );
    let f = ex(&[("x", M, 0), ("i", N, 0)], body);
    let e = formula_to_guarded_parsed(&f).expect_err("the predicate atom is sugar");
    assert_eq!(e.message, "Syntactic sugar is not allowed, guarded formula expected.");
}

#[test]
fn contains_action_needs_an_action_atom() {
    let last_only = g(&last(node("i"))).unwrap();
    assert!(!contains_action(&last_only));
    let with_action = g(&action("A", vec![msg("x")], node("i"))).unwrap();
    assert!(contains_action(&with_action));
    let guarded_by_action =
        g(&all(&[("x", M, 0), ("i", N, 0)], Formula::Conn(
            lib::formula::Connective::Imp,
            Box::new(action("A", vec![msg("x")], node("i"))),
            Box::new(Formula::lfalse()),
        )))
        .unwrap();
    assert!(contains_action(&guarded_by_action));
    assert!(ginduct(&last_only).is_err());
}

#[test]
fn closing_after_opening_rebuilds_the_quantifier() {
    // All x #i. A(x) @ #i ==> B(x, y) @ #i, with y free.
    let f = all(
        &[("x", M, 0), ("i", N, 0)],
        action("A", vec![msg("x")], node("i")).implies(action("B", vec![msg("x"), msg("y")], node("i"))),
    );
    let gf = g(&f).expect("guarded conversion");
    let mut fresh = FreshState::avoiding(&frees(&gf));
    let (q, xs, ats, body) = open_guarded(&gf, &mut fresh).expect("a guarded quantifier");
    assert_eq!(close_guarded(q, xs, ats, body), gf);
    // An existential with a body: Ex x #i. A(x) @ #i & B(x, y) @ #i.
    let h = ex(
        &[("x", M, 0), ("i", N, 0)],
        action("A", vec![msg("x")], node("i")).and(action("B", vec![msg("x"), msg("y")], node("i"))),
    );
    let gh = g(&h).expect("guarded conversion");
    let mut fresh = FreshState::avoiding(&frees(&gh));
    let (q, xs, ats, body) = open_guarded(&gh, &mut fresh).expect("a guarded quantifier");
    assert_eq!(close_guarded(q, xs, ats, body), gh);
}

#[test]
fn guarded_formulas_order_by_constructor_then_fields() {
    let a = last_atom("i");
    let b = last_atom("j");
    let disj = Guarded::Disj(vec![a.copy(), b.copy()]);
    let conj = Guarded::Conj(vec![a.copy()]);
    let quant = gnot(&a);
    assert_eq!(compare_guarded(&a, &disj), Ordering::Less);
    assert_eq!(compare_guarded(&disj, &conj), Ordering::Less);
    assert_eq!(compare_guarded(&conj, &quant), Ordering::Less);
    assert_eq!(compare_guarded(&quant, &a), Ordering::Greater);
    // Children compare in turn; a proper prefix comes first.
    let shorter = Guarded::Disj(vec![a.copy()]);
    assert_eq!(compare_guarded(&shorter, &disj), Ordering::Less);
    assert_eq!(compare_guarded(&Guarded::Disj(vec![]), &shorter), Ordering::Less);
    assert_eq!(compare_guarded(&disj, &disj.copy()), Ordering::Equal);
    // Atoms order by their terms: #i before #j.
    assert_eq!(compare_guarded(&a, &b), Ordering::Less);
    assert!(a < b);
    assert!(disj > shorter);
}

#[test]
fn equal_guarded_formulas_hash_alike() {
    fn hash_of(g: &Guarded) -> u64 {
        let mut h = DefaultHasher::new();
        g.hash(&mut h);
        h.finish()
    }
    let a = g(&all(&[("x", M, 0), ("i", N, 0)], action("A", vec![msg("x")], node("i")).implies(Formula::lfalse())))
        .unwrap();
    assert_eq!(hash_of(&a), hash_of(&a.copy()));
}
