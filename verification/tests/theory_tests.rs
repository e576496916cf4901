use lib::surface::{Macro, SurfaceAtom, SurfaceFact, SurfaceFormula, SurfaceTerm};
use lib::term::LSort;
use lib::theory::{
    expand_theory_macros, macro_expanded_clone, LetBinding, NamedFormula, Predicate, SurfaceRule, SurfaceTheory,
    TheoryItem,
};
use lib::vars::VarSpec;

fn vs(name: &str) -> VarSpec {
    VarSpec { name: name.to_string(), idx: 0, sort: LSort::Msg, typ: None }
}

fn var(name: &str) -> SurfaceTerm {
    SurfaceTerm::Var(vs(name))
}

fn app(name: &str, args: Vec<SurfaceTerm>) -> SurfaceTerm {
    SurfaceTerm::App(name.to_string(), args)
}

fn fact(name: &str, args: Vec<SurfaceTerm>) -> SurfaceFact {
    SurfaceFact { persistent: false, name: name.to_string(), args, annotations: vec![] }
}

fn call() -> SurfaceTerm {
    app("dec", vec![var("c"), var("k")])
}

fn expanded() -> SurfaceTerm {
    app("sdec", vec![var("c"), var("k")])
}

fn eq_formula(t: SurfaceTerm) -> SurfaceFormula {
    SurfaceFormula::Atom(SurfaceAtom::Eq(t, var("m")))
}

fn rule_with(t: fn() -> SurfaceTerm, variants: Vec<SurfaceRule>) -> SurfaceRule {
    SurfaceRule {
        name: "R".to_string(),
        premises: vec![fact("In", vec![t()])],
        actions: vec![fact("Got", vec![t()])],
        conclusions: vec![fact("Out", vec![t()])],
        embedded_restrictions: vec![eq_formula(t())],
        let_block: vec![LetBinding { var: var("v"), value: t() }],
        variants,
    }
}

fn dec_macro() -> Macro {
    Macro { name: "dec".to_string(), args: vec![vs("c"), vs("k")], body: app("sdec", vec![var("c"), var("k")]) }
}

fn sample_theory(with_macro: bool) -> SurfaceTheory {
    let mut items = vec![];
    if with_macro {
        items.push(TheoryItem::Macros(vec![dec_macro()]));
    }
    items.push(TheoryItem::Rule(rule_with(call, vec![rule_with(call, vec![])])));
    items.push(TheoryItem::Lemma(NamedFormula { name: "L".to_string(), formula: eq_formula(call()) }));
    items.push(TheoryItem::Restriction(NamedFormula { name: "Res".to_string(), formula: eq_formula(call()) }));
    items.push(TheoryItem::Predicates(vec![Predicate { fact: fact("P", vec![call()]), formula: eq_formula(call()) }]));
    items.push(TheoryItem::CaseTest(NamedFormula { name: "C".to_string(), formula: eq_formula(call()) }));
    SurfaceTheory { name: "T".to_string(), items }
}

#[test]
fn a_theory_without_macros_is_left_as_it_is() {
    let mut thy = sample_theory(false);
    expand_theory_macros(&mut thy);
    assert_eq!(thy, sample_theory(false));
}

#[test]
fn rules_lemmas_restrictions_and_predicates_are_expanded() {
    let mut thy = sample_theory(true);
    expand_theory_macros(&mut thy);
    let want = SurfaceTheory {
        name: "T".to_string(),
        items: vec![
            TheoryItem::Macros(vec![dec_macro()]),
            TheoryItem::Rule(rule_with(expanded, vec![rule_with(call, vec![])])),
            TheoryItem::Lemma(NamedFormula { name: "L".to_string(), formula: eq_formula(expanded()) }),
            TheoryItem::Restriction(NamedFormula { name: "Res".to_string(), formula: eq_formula(expanded()) }),
            TheoryItem::Predicates(vec![Predicate {
                fact: fact("P", vec![expanded()]),
                formula: eq_formula(expanded()),
            }]),
            TheoryItem::CaseTest(NamedFormula { name: "C".to_string(), formula: eq_formula(call()) }),
        ],
    };
    assert_eq!(thy, want);
}

#[test]
fn macros_declared_later_in_the_theory_count_too() {
    let mut thy = sample_theory(false);
    thy.items.push(TheoryItem::Macros(vec![dec_macro()]));
    expand_theory_macros(&mut thy);
    match &thy.items[1] {
        TheoryItem::Lemma(l) => assert_eq!(l.formula, eq_formula(expanded())),
        other => panic!("expected the lemma, got {:?}", other),
    }
}

#[test]
fn the_expanded_clone_leaves_the_parsed_theory_alone() {
    let parsed = sample_theory(true);
    let clone = macro_expanded_clone(&parsed);
    assert_eq!(parsed, sample_theory(true));
    let mut direct = sample_theory(true);
    expand_theory_macros(&mut direct);
    assert_eq!(clone, direct);
}
