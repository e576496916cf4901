use lib::formula::{exists_var, for_all_var, Connective, Formula, Quantifier};
use lib::reading::formula_from_surface;
use lib::surface::{SurfaceAtom, SurfaceFact, SurfaceFormula, SurfaceTerm};
use lib::term::{Atom, BVar, Binder, Fact, FactTag, LSort, LVar, Term};
use lib::vars::{FormulaVars, SapicVars, VarSpec};

fn spec(name: &str, sort: LSort, idx: u64) -> VarSpec {
    VarSpec { name: name.to_string(), idx, sort, typ: None }
}

fn sfree(name: &str, sort: LSort, idx: u64) -> SurfaceTerm {
    SurfaceTerm::Var(spec(name, sort, idx))
}

fn free(name: &str, sort: LSort, idx: u64) -> Term {
    Term::Var(BVar::Free(LVar::new(name, sort, idx)))
}

fn action(name: &str, arg: Term, at: Term) -> Atom {
    Atom::Action(at, Fact { tag: FactTag::Proto(false, name.to_string(), 1), terms: vec![arg] })
}

fn surface_action(name: &str, arg: SurfaceTerm, at: SurfaceTerm) -> SurfaceFormula {
    SurfaceFormula::Atom(SurfaceAtom::Action(
        SurfaceFact { persistent: false, name: name.to_string(), args: vec![arg], annotations: vec![] },
        at,
    ))
}

#[test]
fn reading_closes_the_binders_the_last_innermost() {
    // Ex x #i. A(x) @ #i
    let f = SurfaceFormula::Exists(
        vec![spec("x", LSort::Msg, 0), spec("i", LSort::Node, 0)],
        Box::new(surface_action("A", sfree("x", LSort::Msg, 0), sfree("i", LSort::Node, 0))),
    );
    let lifted = vec![Ok(action("A", free("x", LSort::Msg, 0), free("i", LSort::Node, 0)))];
    let got = formula_from_surface(&f, &lifted).unwrap();
    let body = Formula::Atom(action("A", free("x", LSort::Msg, 0), free("i", LSort::Node, 0)));
    let inner = exists_var(Binder::new("i", LSort::Node), &LVar::new("i", LSort::Node, 0), &body);
    let want = exists_var(Binder::new("x", LSort::Msg), &LVar::new("x", LSort::Msg, 0), &inner);
    assert_eq!(got, want);
    // The innermost binder is #i: the timepoint is bound 0, the message bound 1.
    let Formula::Qua(_, _, b1) = &got else { panic!("expected a quantifier") };
    let Formula::Qua(_, _, b2) = &**b1 else { panic!("expected a quantifier") };
    let Formula::Atom(Atom::Action(Term::Var(BVar::Bound(0)), fa)) = &**b2 else { panic!("expected an action") };
    assert!(matches!(fa.terms[0], Term::Var(BVar::Bound(1))));
}

#[test]
fn a_binder_closes_only_its_own_index_and_sort() {
    // All x. A(x.1) @ #i  -- the written x.1 and the timepoint stay free.
    let f = SurfaceFormula::Forall(
        vec![spec("x", LSort::Msg, 0)],
        Box::new(surface_action("A", sfree("x", LSort::Msg, 1), sfree("i", LSort::Node, 0))),
    );
    let atom = action("A", free("x", LSort::Msg, 1), free("i", LSort::Node, 0));
    let got = formula_from_surface(&f, &vec![Ok(atom.copy())]).unwrap();
    let want = for_all_var(Binder::new("x", LSort::Msg), &LVar::new("x", LSort::Msg, 0), &Formula::Atom(atom));
    assert_eq!(got, want);
    let Formula::Qua(_, _, b) = &got else { panic!("expected a quantifier") };
    assert!(matches!(&**b, Formula::Atom(Atom::Action(Term::Var(BVar::Free(_)), _))));
}

#[test]
fn reading_reports_the_first_failed_atom() {
    let f = SurfaceFormula::And(
        Box::new(surface_action("A", sfree("x", LSort::Msg, 0), sfree("i", LSort::Node, 0))),
        Box::new(SurfaceFormula::Or(
            Box::new(surface_action("B", sfree("x", LSort::Msg, 0), sfree("i", LSort::Node, 0))),
            Box::new(SurfaceFormula::True),
        )),
    );
    let ok = action("A", free("x", LSort::Msg, 0), free("i", LSort::Node, 0));
    let lifted = vec![Ok(ok.copy()), Err("unknown function symbol `B`".to_string())];
    assert_eq!(formula_from_surface(&f, &lifted).unwrap_err(), "unknown function symbol `B`");
    let lifted = vec![Err("first".to_string()), Err("second".to_string())];
    assert_eq!(formula_from_surface(&f, &lifted).unwrap_err(), "first");
    let b = action("B", free("x", LSort::Msg, 0), free("i", LSort::Node, 0));
    let got = formula_from_surface(&f, &vec![Ok(ok.copy()), Ok(b.copy())]).unwrap();
    let want = Formula::Conn(
        Connective::And,
        Box::new(Formula::Atom(ok)),
        Box::new(Formula::Conn(Connective::Or, Box::new(Formula::Atom(b)), Box::new(Formula::Tf(true)))),
    );
    assert_eq!(got, want);
}

#[test]
fn process_variables_default_a_timepoint_to_node() {
    let v = SapicVars::var(&spec("i", LSort::Node, 0));
    assert_eq!(v.typ, Some("node".to_string()));
    let m = SapicVars::var(&spec("m", LSort::Msg, 0));
    assert_eq!(m.typ, None);
    let n = SapicVars::node_var(&spec("k", LSort::Msg, 2));
    assert_eq!(n.typ, Some("node".to_string()));
    assert_eq!(SapicVars::hint(&n).name, "k");
}

fn pred_atom(name: &str, args: Vec<Term>) -> Atom {
    Atom::Pred(Fact { tag: FactTag::Proto(false, name.to_string(), args.len()), terms: args })
}

#[test]
fn from_parser_nests_binders_innermost_zero() {
    // All x. Ex y. P(x, y) @ #i
    let sfact = SurfaceFact {
        persistent: false,
        name: "P".to_string(),
        args: vec![sfree("x", LSort::Msg, 0), sfree("y", LSort::Msg, 0)],
        annotations: vec![],
    };
    let f = SurfaceFormula::Forall(
        vec![spec("x", LSort::Msg, 0)],
        Box::new(SurfaceFormula::Exists(
            vec![spec("y", LSort::Msg, 0)],
            Box::new(SurfaceFormula::Atom(SurfaceAtom::Action(sfact, sfree("i", LSort::Node, 0)))),
        )),
    );
    let lifted = vec![Ok(Atom::Action(
        free("i", LSort::Node, 0),
        Fact {
            tag: FactTag::Proto(false, "P".to_string(), 2),
            terms: vec![free("x", LSort::Msg, 0), free("y", LSort::Msg, 0)],
        },
    ))];
    let want = Formula::Qua(
        Quantifier::All,
        Binder::new("x", LSort::Msg),
        Box::new(Formula::Qua(
            Quantifier::Ex,
            Binder::new("y", LSort::Msg),
            Box::new(Formula::Atom(Atom::Action(
                free("i", LSort::Node, 0),
                Fact {
                    tag: FactTag::Proto(false, "P".to_string(), 2),
                    terms: vec![Term::Var(BVar::Bound(1)), Term::Var(BVar::Bound(0))],
                },
            ))),
        )),
    );
    assert_eq!(formula_from_surface(&f, &lifted).unwrap(), want);
}

#[test]
fn from_parser_leaves_other_sorted_name_free() {
    // Ex ~k. Made(k)
    let sfact = SurfaceFact {
        persistent: false,
        name: "Made".to_string(),
        args: vec![sfree("k", LSort::Msg, 0)],
        annotations: vec![],
    };
    let f = SurfaceFormula::Exists(
        vec![spec("k", LSort::Fresh, 0)],
        Box::new(SurfaceFormula::Atom(SurfaceAtom::Pred(sfact))),
    );
    let lifted = vec![Ok(pred_atom("Made", vec![free("k", LSort::Msg, 0)]))];
    let want = Formula::Qua(
        Quantifier::Ex,
        Binder::new("k", LSort::Fresh),
        Box::new(Formula::Atom(pred_atom("Made", vec![free("k", LSort::Msg, 0)]))),
    );
    assert_eq!(formula_from_surface(&f, &lifted).unwrap(), want);
}

#[test]
fn from_parser_inner_binder_shadows() {
    // All x. All x. P(x)
    let sfact = SurfaceFact {
        persistent: false,
        name: "P".to_string(),
        args: vec![sfree("x", LSort::Msg, 0)],
        annotations: vec![],
    };
    let f = SurfaceFormula::Forall(
        vec![spec("x", LSort::Msg, 0)],
        Box::new(SurfaceFormula::Forall(
            vec![spec("x", LSort::Msg, 0)],
            Box::new(SurfaceFormula::Atom(SurfaceAtom::Pred(sfact))),
        )),
    );
    let lifted = vec![Ok(pred_atom("P", vec![free("x", LSort::Msg, 0)]))];
    let want = Formula::Qua(
        Quantifier::All,
        Binder::new("x", LSort::Msg),
        Box::new(Formula::Qua(
            Quantifier::All,
            Binder::new("x", LSort::Msg),
            Box::new(Formula::Atom(pred_atom("P", vec![Term::Var(BVar::Bound(0))]))),
        )),
    );
    assert_eq!(formula_from_surface(&f, &lifted).unwrap(), want);
}
