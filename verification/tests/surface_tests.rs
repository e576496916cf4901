use lib::surface::{
    apply_macros_fact, apply_macros_formula, apply_macros_term, macros_call_only_earlier_ones, map_formula_terms,
    subst_term_by_name, Macro,
    SurfaceAtom, SurfaceFact, SurfaceFormula, SurfaceTerm,
};
use lib::term::LSort;
use lib::vars::VarSpec;

fn vs(name: &str) -> VarSpec {
    VarSpec { name: name.to_string(), idx: 0, sort: LSort::Msg, typ: None }
}

fn var(name: &str) -> SurfaceTerm {
    SurfaceTerm::Var(vs(name))
}

fn app(name: &str, args: Vec<SurfaceTerm>) -> SurfaceTerm {
    SurfaceTerm::App(name.to_string(), args)
}

fn publit(s: &str) -> SurfaceTerm {
    SurfaceTerm::PubLit(s.to_string())
}

/// `hashdec(c, k) = h(decrypt(c, k))` calling `decrypt(c, k) = sdec(c, k)`.
fn sample_macros() -> Vec<Macro> {
    vec![
        Macro { name: "decrypt".to_string(), args: vec![vs("c"), vs("k")], body: app("sdec", vec![var("c"), var("k")]) },
        Macro {
            name: "hashdec".to_string(),
            args: vec![vs("c"), vs("k")],
            body: app("h", vec![app("decrypt", vec![var("c"), var("k")])]),
        },
    ]
}

#[test]
fn a_macro_call_is_replaced_by_its_body() {
    let t = app("decrypt", vec![var("x"), publit("key")]);
    let r = apply_macros_term(&sample_macros(), &t);
    assert_eq!(r, app("sdec", vec![var("x"), publit("key")]));
}

#[test]
fn a_macro_body_calling_another_macro_is_expanded_again() {
    let t = app("hashdec", vec![var("m"), var("k2")]);
    let r = apply_macros_term(&sample_macros(), &t);
    assert_eq!(r, app("h", vec![app("sdec", vec![var("m"), var("k2")])]));
}

#[test]
fn macro_arguments_are_expanded_first() {
    let inner = app("decrypt", vec![var("a"), var("b")]);
    let t = app("pair", vec![inner, app("decrypt", vec![var("c"), var("d")])]);
    let r = apply_macros_term(&sample_macros(), &t);
    let want = app("pair", vec![app("sdec", vec![var("a"), var("b")]), app("sdec", vec![var("c"), var("d")])]);
    assert_eq!(r, want);
}

#[test]
fn a_call_with_another_arity_is_left_alone() {
    let t = app("decrypt", vec![var("x")]);
    let r = apply_macros_term(&sample_macros(), &t);
    assert_eq!(r, app("decrypt", vec![var("x")]));
}

#[test]
fn no_macros_leave_the_term_unchanged() {
    let t = SurfaceTerm::Pair(vec![app("decrypt", vec![var("x"), var("y")]), SurfaceTerm::NumberOne]);
    let r = apply_macros_term(&Vec::new(), &t);
    assert_eq!(r, t);
}

#[test]
fn the_first_macro_with_the_name_and_arity_is_used() {
    let ms = vec![
        Macro { name: "f".to_string(), args: vec![vs("x")], body: app("g", vec![var("x")]) },
        Macro { name: "f".to_string(), args: vec![vs("y")], body: app("k", vec![var("y")]) },
    ];
    let r = apply_macros_term(&ms, &app("f", vec![publit("a")]));
    assert_eq!(r, app("g", vec![publit("a")]));
}

#[test]
fn macros_reach_inside_operators_and_patterns() {
    let call = || app("decrypt", vec![var("x"), var("y")]);
    let t = SurfaceTerm::BinOp(
        "^".to_string(),
        Box::new(SurfaceTerm::PatMatch(Box::new(call()))),
        Box::new(SurfaceTerm::Diff(Box::new(call()), Box::new(SurfaceTerm::DhNeutral))),
    );
    let r = apply_macros_term(&sample_macros(), &t);
    let exp = || app("sdec", vec![var("x"), var("y")]);
    let want = SurfaceTerm::BinOp(
        "^".to_string(),
        Box::new(SurfaceTerm::PatMatch(Box::new(exp()))),
        Box::new(SurfaceTerm::Diff(Box::new(exp()), Box::new(SurfaceTerm::DhNeutral))),
    );
    assert_eq!(r, want);
}

#[test]
fn substitution_replaces_bound_names_and_the_last_binding_wins() {
    let t = app("f", vec![var("x"), var("z")]);
    let s = vec![
        ("x".to_string(), publit("one")),
        ("x".to_string(), publit("two")),
    ];
    let r = subst_term_by_name(&t, &s);
    assert_eq!(r, app("f", vec![publit("two"), var("z")]));
}

#[test]
fn a_fact_keeps_its_name_and_annotations() {
    let f = SurfaceFact {
        persistent: true,
        name: "Out".to_string(),
        args: vec![app("decrypt", vec![var("c"), var("k")])],
        annotations: vec!["no_precomp".to_string()],
    };
    let r = apply_macros_fact(&sample_macros(), &f);
    assert!(r.persistent);
    assert_eq!(r.name, "Out");
    assert_eq!(r.annotations, vec!["no_precomp".to_string()]);
    assert_eq!(r.args, vec![app("sdec", vec![var("c"), var("k")])]);
}

#[test]
fn a_formula_keeps_its_shape_and_binders() {
    let fm = SurfaceFormula::Forall(
        vec![vs("x")],
        Box::new(SurfaceFormula::Implies(
            Box::new(SurfaceFormula::Atom(SurfaceAtom::Eq(app("decrypt", vec![var("x"), var("k")]), var("x")))),
            Box::new(SurfaceFormula::Not(Box::new(SurfaceFormula::False))),
        )),
    );
    let r = apply_macros_formula(&sample_macros(), &fm);
    let want = SurfaceFormula::Forall(
        vec![vs("x")],
        Box::new(SurfaceFormula::Implies(
            Box::new(SurfaceFormula::Atom(SurfaceAtom::Eq(app("sdec", vec![var("x"), var("k")]), var("x")))),
            Box::new(SurfaceFormula::Not(Box::new(SurfaceFormula::False))),
        )),
    );
    assert_eq!(r, want);
}

#[test]
fn map_formula_terms_visits_every_term() {
    let fact = SurfaceFact { persistent: false, name: "A".to_string(), args: vec![var("a"), var("b")], annotations: vec![] };
    let fm = SurfaceFormula::And(
        Box::new(SurfaceFormula::Atom(SurfaceAtom::Action(fact, var("i")))),
        Box::new(SurfaceFormula::Exists(vec![vs("j")], Box::new(SurfaceFormula::Atom(SurfaceAtom::Last(var("j")))))),
    );
    let r = map_formula_terms(&fm, &|_t: &SurfaceTerm| SurfaceTerm::NumberOne);
    let fact2 = SurfaceFact {
        persistent: false,
        name: "A".to_string(),
        args: vec![SurfaceTerm::NumberOne, SurfaceTerm::NumberOne],
        annotations: vec![],
    };
    let want = SurfaceFormula::And(
        Box::new(SurfaceFormula::Atom(SurfaceAtom::Action(fact2, SurfaceTerm::NumberOne))),
        Box::new(SurfaceFormula::Exists(
            vec![vs("j")],
            Box::new(SurfaceFormula::Atom(SurfaceAtom::Last(SurfaceTerm::NumberOne))),
        )),
    );
    assert_eq!(r, want);
}

#[test]
fn macros_calling_earlier_macros_pass_the_order_check() {
    assert!(macros_call_only_earlier_ones(&sample_macros()));
    assert!(macros_call_only_earlier_ones(&Vec::new()));
}

#[test]
fn a_macro_calling_itself_or_a_later_one_fails_the_order_check() {
    let selfish = vec![Macro { name: "f".to_string(), args: vec![vs("x")], body: app("f", vec![var("x")]) }];
    assert!(!macros_call_only_earlier_ones(&selfish));
    let mut reversed = sample_macros();
    reversed.reverse();
    assert!(!macros_call_only_earlier_ones(&reversed));
    let other_arity = vec![Macro { name: "f".to_string(), args: vec![vs("x")], body: app("f", vec![var("x"), var("x")]) }];
    assert!(macros_call_only_earlier_ones(&other_arity));
}

#[test]
fn expanding_twice_changes_nothing() {
    let t = app("pair", vec![app("hashdec", vec![var("m"), var("k")]), app("decrypt", vec![var("a"), var("b")])]);
    let once = apply_macros_term(&sample_macros(), &t);
    let twice = apply_macros_term(&sample_macros(), &once);
    assert_eq!(once, twice);
}
