use lib::formula::{
    apply_rename, apply_subst, map_atoms, map_atoms_ref, exists_var, for_all_var, formula_facts, formula_frees, formula_frees_list, lift_free,
    open_bound_term, open_formula, open_formula_prefix, quantify, shift_free_indices,
    to_lnformula, traverse_formula_atom, Connective, Formula, Quantifier,
};
use lib::fresh::FreshState;
use lib::term::{
    AcSym, Atom, BVar, Binder, Fact, FactTag, FunSym, LSort, LVar, Subst, Term,
};

fn free(name: &str, sort: LSort, idx: u64) -> Term {
    Term::Var(BVar::Free(LVar::new(name, sort, idx)))
}

fn bound(i: u64) -> Term {
    Term::Var(BVar::Bound(i))
}

fn hint(name: &str, sort: LSort) -> Binder {
    Binder::new(name, sort)
}

fn x_var() -> LVar {
    LVar::new("x", LSort::Msg, 0)
}

fn proto_fact(name: &str, args: Vec<Term>) -> Fact {
    Fact { tag: FactTag::Proto(false, name.to_string(), args.len()), terms: args }
}

fn pred(name: &str, args: Vec<Term>) -> Formula {
    Formula::Atom(Atom::Pred(proto_fact(name, args)))
}

fn eq_atom(a: Term, b: Term) -> Formula {
    Formula::Atom(Atom::EqE(a, b))
}

fn action_atom(name: &str) -> Formula {
    Formula::Atom(Atom::Action(free("i", LSort::Node, 0), proto_fact(name, vec![free("x", LSort::Msg, 0)])))
}

fn fact_name(fa: &Fact) -> String {
    match &fa.tag {
        FactTag::Proto(_, n, _) => n.clone(),
        other => format!("{:?}", other),
    }
}

#[test]
fn connective_ord_matches_haskell_declaration() {
    assert!(Connective::And < Connective::Or);
    assert!(Connective::Or < Connective::Imp);
    assert!(Connective::Imp < Connective::Iff);
}

#[test]
fn quantifier_ord_matches_haskell_declaration() {
    assert!(Quantifier::All < Quantifier::Ex);
}

#[test]
fn quantifier_orders_all_before_ex() {
    assert!(Quantifier::All < Quantifier::Ex);
}

#[test]
fn builders_tag_their_own_connective_and_quantifier() {
    let cases = [
        (Formula::ltrue().and(Formula::lfalse()), Connective::And),
        (Formula::ltrue().or(Formula::lfalse()), Connective::Or),
        (Formula::ltrue().implies(Formula::lfalse()), Connective::Imp),
        (Formula::ltrue().iff(Formula::lfalse()), Connective::Iff),
    ];
    for (f, want) in cases {
        match f {
            Formula::Conn(c, l, r) => {
                assert_eq!(c, want);
                assert_eq!((*l, *r), (Formula::ltrue(), Formula::lfalse()), "operand order for {want:?}");
            }
            other => panic!("expected Conn({want:?}), got {other:?}"),
        }
    }
    assert!(matches!(Formula::ltrue().not(), Formula::Not(b) if *b == Formula::ltrue()));
    let all = Formula::for_all(hint("x", LSort::Msg), Formula::ltrue());
    assert!(matches!(all, Formula::Qua(Quantifier::All, h, _) if h.name == "x" && h.sort == LSort::Msg));
    let ex = Formula::ex(hint("x", LSort::Msg), Formula::ltrue());
    assert!(matches!(ex, Formula::Qua(Quantifier::Ex, h, _) if h.name == "x" && h.sort == LSort::Msg));
}

#[test]
fn exists_var_binds_the_free_var() {
    let x = x_var();
    let fm = eq_atom(free("x", LSort::Msg, 0), free("x", LSort::Msg, 0));
    let Formula::Qua(q, h, body) = exists_var(hint("x", LSort::Msg), &x, &fm) else {
        panic!("expected an existential quantifier around the atom");
    };
    assert_eq!(q, Quantifier::Ex);
    assert_eq!((h.name.as_str(), h.sort), ("x", LSort::Msg));
    assert_eq!(*body, eq_atom(bound(0), bound(0)));
}

#[test]
fn quantify_uses_the_enclosing_binder_depth() {
    let x = x_var();
    let inner = Formula::for_all(hint("y", LSort::Node), Formula::Atom(Atom::Last(free("x", LSort::Msg, 0))));
    let Formula::Qua(_, _, body) = quantify(&x, &inner) else {
        panic!("expected the inner quantifier to survive quantify");
    };
    assert_eq!(*body, Formula::Atom(Atom::Last(bound(1))));
}

#[test]
fn shift_free_indices_lifts_only_the_indices_above_the_scope() {
    let atom = |i: u64, j: u64| Formula::Atom(Atom::Less(bound(i), bound(j)));
    let fm = Formula::for_all(hint("y", LSort::Node), atom(0, 1)).and(atom(0, 1));
    let Formula::Conn(_, under, outside) = shift_free_indices(2, &fm) else {
        panic!("expected the conjunction to survive the shift");
    };
    assert_eq!(*under, Formula::for_all(hint("y", LSort::Node), atom(0, 3)), "under the binder only the dangling index moves");
    assert_eq!(*outside, atom(2, 3), "outside it both move");
}

#[test]
fn shift_by_zero_leaves_the_formula_unchanged() {
    let fm = Formula::for_all(hint("y", LSort::Node), Formula::Atom(Atom::Less(bound(0), bound(4))));
    assert_eq!(shift_free_indices(0, &fm), fm);
}

#[test]
fn formula_frees_includes_pred_terms() {
    let fm = pred("F", vec![free("x", LSort::Msg, 0)]);
    assert_eq!(formula_frees(&fm), vec![x_var()]);
    let closed = pred("F", vec![bound(0)]);
    assert_eq!(formula_frees(&closed), Vec::<LVar>::new());
}

#[test]
fn quantify_closes_pred_terms() {
    let fm = pred("F", vec![free("x", LSort::Msg, 0)]);
    let want = Formula::ex(hint("x", LSort::Msg), pred("F", vec![bound(0)]));
    assert_eq!(exists_var(hint("x", LSort::Msg), &x_var(), &fm), want);
}

#[test]
fn to_lnformula_rejects_sugar() {
    let p = pred("F", vec![free("x", LSort::Msg, 0)]);
    let fm = Formula::for_all(hint("x", LSort::Msg), Formula::ltrue().and(p.not()));
    assert_eq!(to_lnformula(&fm), None);
}

#[test]
fn to_lnformula_strips_unit2_atoms() {
    let less = Atom::Less(bound(0), free("x", LSort::Msg, 0));
    let last = Atom::Last(bound(0));
    let fm = Formula::for_all(hint("x", LSort::Node), Formula::Atom(less).implies(Formula::Atom(last).not()));
    assert_eq!(to_lnformula(&fm), Some(fm.copy()));
}

#[test]
fn open_bound_term_round_trips_quantify() {
    let x = LVar::new("x", LSort::Msg, 0);
    let y = LVar::new("y", LSort::Msg, 0);
    let z = LVar::new("z", LSort::Msg, 0);
    let var = |v: &LVar| Term::Var(BVar::Free(v.clone()));
    let unbound = Term::App(FunSym::Ac(AcSym::Mult), vec![var(&x), var(&y), var(&z)]);
    let lifted = lift_free(&unbound);
    let fm = Formula::Atom(Atom::Last(lifted));
    let closed = for_all_var(hint("y", LSort::Msg), &y, &for_all_var(hint("x", LSort::Msg), &x, &fm));
    let Formula::Qua(_, _, inner) = closed else {
        panic!("expected the outer quantifier");
    };
    let Formula::Qua(_, _, body) = *inner else {
        panic!("expected the inner quantifier");
    };
    let Formula::Atom(Atom::Last(term)) = *body else {
        panic!("expected the atom");
    };
    assert_eq!(term, Term::App(FunSym::Ac(AcSym::Mult), vec![bound(0), bound(1), lift_free(&var(&z))]));
    assert_eq!(open_bound_term(&term, &vec![y, x]), unbound);
}

#[test]
fn apply_subst_rewrites_free_occurrences_only() {
    let s = Subst { entries: vec![(x_var(), free("z", LSort::Msg, 0))] };
    let fm = Formula::ex(hint("y", LSort::Msg), pred("P", vec![free("x", LSort::Msg, 0), bound(0)]));
    let want = Formula::ex(hint("y", LSort::Msg), pred("P", vec![free("z", LSort::Msg, 0), bound(0)]));
    assert_eq!(apply_subst(&s, &fm), want);
}

#[test]
fn a_bound_index_cannot_be_captured_by_a_substitution() {
    let y = LVar::new("y", LSort::Msg, 0);
    let s = Subst { entries: vec![(x_var(), free("y", LSort::Msg, 0))] };
    let fm = Formula::ex(hint("y", LSort::Msg), eq_atom(free("x", LSort::Msg, 0), bound(0)));
    let want = Formula::ex(hint("y", LSort::Msg), eq_atom(free("y", LSort::Msg, 0), bound(0)));
    let out = apply_subst(&s, &fm);
    assert_eq!(out, want);
    assert_eq!(formula_frees(&out), vec![y]);
}

#[test]
fn open_formula_replaces_only_its_own_index() {
    let fm = Formula::for_all(hint("x", LSort::Msg), Formula::ex(hint("y", LSort::Msg), eq_atom(bound(1), bound(0))));
    let mut fresh = FreshState::new();
    let (qua, x, body) = open_formula(&fm, &mut fresh).expect("the outermost quantifier");
    assert_eq!(qua, Quantifier::All);
    assert_eq!(x, LVar::new("x", LSort::Msg, 0));
    let want = Formula::ex(hint("y", LSort::Msg), eq_atom(free("x", LSort::Msg, 0), bound(0)));
    assert_eq!(body, want);

    let tf = Formula::ltrue();
    assert!(open_formula(&tf, &mut fresh).is_none());
}

#[test]
fn open_formula_prefix_returns_the_binders_outermost_first() {
    let fm = Formula::for_all(hint("x", LSort::Msg), Formula::for_all(hint("y", LSort::Msg), eq_atom(bound(1), bound(0))));
    let mut fresh = FreshState::new();
    let (xs, qua, body) = open_formula_prefix(&fm, &mut fresh);
    assert_eq!(xs, vec![LVar::new("x", LSort::Msg, 0), LVar::new("y", LSort::Msg, 0)]);
    assert_eq!(qua, Quantifier::All);
    assert_eq!(body, eq_atom(free("x", LSort::Msg, 0), free("y", LSort::Msg, 0)));
}

#[test]
fn open_formula_prefix_stops_at_a_different_quantifier() {
    let fm = Formula::for_all(hint("x", LSort::Msg), Formula::ex(hint("y", LSort::Msg), eq_atom(bound(1), bound(0))));
    let mut fresh = FreshState::new();
    let (xs, qua, body) = open_formula_prefix(&fm, &mut fresh);
    assert_eq!(xs, vec![LVar::new("x", LSort::Msg, 0)]);
    assert_eq!(qua, Quantifier::All);
    assert!(matches!(body, Formula::Qua(Quantifier::Ex, _, _)));
    assert_eq!(fresh.fresh_ident("y"), 0);
}

#[test]
fn open_formula_prefix_freshens_a_shadowed_binder() {
    let fm = Formula::for_all(hint("x", LSort::Msg), Formula::for_all(hint("x", LSort::Msg), eq_atom(bound(1), bound(0))));
    let mut fresh = FreshState::new();
    let (xs, _, body) = open_formula_prefix(&fm, &mut fresh);
    assert_eq!(xs, vec![LVar::new("x", LSort::Msg, 0), LVar::new("x", LSort::Msg, 1)]);
    assert_eq!(body, eq_atom(free("x", LSort::Msg, 0), free("x", LSort::Msg, 1)));
}

#[test]
fn open_formula_draws_from_one_unscoped_supply() {
    let prefix = || Formula::ex(hint("i", LSort::Node), Formula::Atom(Atom::Last(bound(0))));
    let mut fresh = FreshState::new();
    let (left, _, _) = open_formula_prefix(&prefix(), &mut fresh);
    let (right, _, _) = open_formula_prefix(&prefix(), &mut fresh);
    assert_eq!(left, vec![LVar::new("i", LSort::Node, 0)]);
    assert_eq!(right, vec![LVar::new("i", LSort::Node, 1)]);
}

#[test]
fn deep_prefix_opens_once() {
    let count: u64 = 64;
    let mut f = eq_atom(bound(count - 1), bound(0));
    for _ in 0..count {
        f = Formula::for_all(hint("x", LSort::Msg), f);
    }
    let (vars, qua, body) = open_formula_prefix(&f, &mut FreshState::new());
    assert_eq!(vars.len(), count as usize);
    assert_eq!(qua, Quantifier::All);
    let var = |v: &LVar| Term::Var(BVar::Free(v.clone()));
    assert_eq!(body, eq_atom(var(&vars[0]), var(&vars[count as usize - 1])));
}

#[test]
fn quantify_inverts_open_formula() {
    let fm = Formula::for_all(hint("x", LSort::Msg), eq_atom(bound(0), free("z", LSort::Msg, 0)));
    let mut fresh = FreshState::avoiding(&formula_frees_list(&fm));
    let (qua, x, body) = open_formula(&fm, &mut fresh).expect("the quantifier");
    assert_eq!(qua, Quantifier::All);
    assert_eq!(for_all_var(hint(&x.name, x.sort), &x, &body), fm);
}

#[test]
fn formula_facts_collects_action_atoms_only() {
    let eq = eq_atom(free("x", LSort::Msg, 0), free("x", LSort::Msg, 0));
    let fm = Formula::ex(
        hint("x", LSort::Msg),
        action_atom("A")
            .and(pred("P", vec![free("x", LSort::Msg, 0)]).or(eq))
            .implies(action_atom("B").not()),
    );
    let names: Vec<String> = formula_facts(&fm).iter().map(fact_name).collect();
    assert_eq!(names, vec!["A".to_string(), "B".to_string()]);
}

#[test]
fn formula_frees_sorts_and_dedups_where_the_list_keeps_order() {
    let fm = pred("P", vec![free("y", LSort::Msg, 1), free("x", LSort::Msg, 0), free("y", LSort::Msg, 1), free("a", LSort::Node, 0)]);
    assert_eq!(
        formula_frees_list(&fm),
        vec![LVar::new("y", LSort::Msg, 1), x_var(), LVar::new("y", LSort::Msg, 1), LVar::new("a", LSort::Node, 0)]
    );
    assert_eq!(formula_frees(&fm), vec![x_var(), LVar::new("a", LSort::Node, 0), LVar::new("y", LSort::Msg, 1)]);
}

#[test]
fn map_atoms_hands_each_atom_its_depth() {
    let last_i = || Formula::Atom(Atom::Last(free("i", LSort::Node, 0)));
    // All x. ((Ex y. last(#i)) & last(#i))
    let fm = Formula::for_all(hint("x", LSort::Msg), Formula::ex(hint("y", LSort::Msg), last_i()).and(last_i()));
    let depth_atom = |d: u64, _a: &Atom| Atom::Last(bound(d));
    let out = map_atoms(fm.copy(), &depth_atom);
    let want = Formula::for_all(
        hint("x", LSort::Msg),
        Formula::ex(hint("y", LSort::Msg), Formula::Atom(Atom::Last(bound(2))))
            .and(Formula::Atom(Atom::Last(bound(1)))),
    );
    assert_eq!(out, want);
    let keep = |_d: u64, a: &Atom| a.copy();
    assert_eq!(map_atoms_ref(&fm, &keep), fm);
}

#[test]
fn apply_rename_rewrites_free_variables_and_keeps_bound_indices() {
    let fm = Formula::for_all(hint("y", LSort::Msg), pred("P", vec![free("x", LSort::Msg, 0), bound(0)]));
    let want = Formula::for_all(hint("y", LSort::Msg), pred("P", vec![free("x", LSort::Msg, 7), bound(0)]));
    let rename = |v: &LVar| LVar::new(&v.name, v.sort, 7);
    assert_eq!(apply_rename(&fm, &rename), want);
}

#[test]
fn map_atoms_threads_the_binder_depth() {
    let last_i = || Formula::Atom(Atom::Last(free("i", LSort::Node, 0)));
    // All x. ((Ex y. last(#i)) & last(#i))
    let fm = Formula::for_all(hint("x", LSort::Msg), Formula::ex(hint("y", LSort::Msg), last_i()).and(last_i()));
    let depths = std::cell::RefCell::new(Vec::new());
    let out = map_atoms(fm.copy(), &|i: u64, a: &Atom| {
        depths.borrow_mut().push(i);
        a.copy()
    });
    assert_eq!(depths.into_inner(), vec![2, 1]);
    assert_eq!(out, fm);
}

#[test]
fn borrowed_atom_mapping_matches_owned_mapping_at_every_scope() {
    let var = bound(0);
    let mut formula = Formula::Atom(Atom::EqE(var.copy(), var));
    for i in 0..64u64 {
        formula = if i % 3 == 0 {
            Formula::Qua(Quantifier::All, hint("x", LSort::Msg), Box::new(formula))
        } else {
            Formula::Conn(Connective::And, Box::new(Formula::Atom(Atom::Last(bound(i)))), Box::new(formula))
        };
    }
    let depths = std::cell::RefCell::new(Vec::new());
    let got = map_atoms_ref(&formula, &|depth: u64, atom: &Atom| {
        depths.borrow_mut().push(depth);
        atom.copy()
    });
    let old_depths = std::cell::RefCell::new(Vec::new());
    let want = map_atoms(formula, &|depth: u64, atom: &Atom| {
        old_depths.borrow_mut().push(depth);
        atom.copy()
    });
    assert_eq!(got, want);
    assert_eq!(depths.into_inner(), old_depths.into_inner());
}

#[test]
fn traverse_formula_atom_visits_the_action_timepoint_first() {
    let action = Formula::Atom(Atom::Action(
        free("i", LSort::Node, 0),
        proto_fact("A", vec![free("a", LSort::Msg, 0), free("b", LSort::Msg, 0)]),
    ));
    let last = Formula::Atom(Atom::Last(free("j", LSort::Node, 0)));
    let fm = Formula::ex(hint("z", LSort::Msg), action.and(last));
    let seen = std::cell::RefCell::new(Vec::new());
    let out: Result<Formula, ()> = traverse_formula_atom(&fm, &|a: &Atom| {
        for x in formula_frees_list(&Formula::Atom(a.copy())) {
            seen.borrow_mut().push(x.name.clone());
        }
        Ok(Formula::ltrue())
    });
    assert_eq!(seen.into_inner(), vec!["i", "a", "b", "j"]);
    let expected = Formula::ex(hint("z", LSort::Msg), Formula::ltrue().and(Formula::ltrue()));
    assert_eq!(out.unwrap(), expected);
}

#[test]
fn traverse_formula_atom_stops_at_the_first_error() {
    let fm = Formula::Atom(Atom::Last(free("i", LSort::Node, 0)))
        .and(Formula::Atom(Atom::Last(free("j", LSort::Node, 0))).not())
        .or(Formula::Atom(Atom::Last(free("k", LSort::Node, 0))));
    let calls = std::cell::RefCell::new(0);
    let out: Result<Formula, String> = traverse_formula_atom(&fm, &|a: &Atom| {
        *calls.borrow_mut() += 1;
        match a {
            Atom::Last(Term::Var(BVar::Free(v))) if v.name != "i" => Err(v.name.clone()),
            _ => Ok(Formula::lfalse()),
        }
    });
    assert_eq!(out.unwrap_err(), "j");
    assert_eq!(calls.into_inner(), 2);
}

#[test]
fn prefix_opening_matches_successive_binders_and_fresh_supply() {
    fn reference(f: &Formula, fresh: &mut FreshState) -> (Vec<LVar>, Quantifier, Formula) {
        let (qua, x, mut body) = open_formula(f, fresh).unwrap();
        let mut vars = vec![x];
        while let Formula::Qua(next, _, _) = &body {
            if *next != qua {
                break;
            }
            let (_, x, opened) = open_formula(&body, fresh).unwrap();
            vars.push(x);
            body = opened;
        }
        (vars, qua, body)
    }
    for count in [1u64, 2, 7, 32] {
        for qua in [Quantifier::All, Quantifier::Ex] {
            for inner_depth in [0u64, 1, 3] {
                let indices = [0, inner_depth, inner_depth + count - 1, inner_depth + count, u64::MAX];
                let raw = Term::App(FunSym::Ac(AcSym::Mult), indices.iter().rev().map(|i| bound(*i)).collect());
                let mut body = Formula::Atom(Atom::EqE(raw, free("x", LSort::Msg, 12)));
                for _ in 0..inner_depth {
                    body = Formula::Qua(
                        if qua == Quantifier::All { Quantifier::Ex } else { Quantifier::All },
                        hint("y", LSort::Msg),
                        Box::new(body),
                    );
                }
                for _ in 0..count {
                    body = Formula::Qua(qua, hint("x", LSort::Msg), Box::new(body));
                }
                let seed = vec![LVar::new("x", LSort::Msg, 20)];
                let mut old = FreshState::avoiding(&seed);
                let mut new = FreshState::avoiding(&seed);
                assert_eq!(open_formula_prefix(&body, &mut new), reference(&body, &mut old));
                for name in ["x", "y", "other"] {
                    assert_eq!(new.fresh_ident(name), old.fresh_ident(name));
                }
            }
        }
    }
}
