use lib::intruder::{ku_fact, var_t, IntrRuleACInfo};
use lib::term::{AcSym, Constructability, Fact, FactTag, FunSym, LSort, LVar, Privacy, SymInfo, Term, BVar};
use lib::variants::{
    intr_rule_from_parsed, intr_rule_info, rule_vars, intr_rules_from_parsed, lvar_less, new_variables, KnownFuns,
    ParsedIntrRule,
};

fn sym(name: &str, arity: usize) -> SymInfo {
    SymInfo { name: name.to_string(), arity, privacy: Privacy::Public, constructability: Constructability::Constructor }
}

fn dh_funs() -> KnownFuns {
    KnownFuns::new(vec![
        FunSym::NoEq(sym("exp", 2)),
        FunSym::NoEq(sym("inv", 1)),
        FunSym::NoEq(sym("one", 0)),
        FunSym::Ac(AcSym::Mult),
    ])
}

fn x(idx: u64) -> Term {
    var_t("x", LSort::Msg, idx)
}

fn exp(a: Term, b: Term) -> Term {
    Term::App(FunSym::NoEq(sym("exp", 2)), vec![a, b])
}

fn rule(name: &str, prems: Vec<Fact>, acts: Vec<Fact>, concs: Vec<Fact>) -> ParsedIntrRule {
    ParsedIntrRule {
        name: name.to_string(),
        premises: prems,
        actions: acts,
        conclusions: concs,
        let_bindings: 0,
        embedded_restrictions: 0,
        variants: 0,
        has_left_right: false,
    }
}

#[test]
fn lookup_is_first_wins_when_two_symbols_share_a_name() {
    let noeq_foo = FunSym::NoEq(sym("foo", 2));
    let ac_foo = FunSym::Ac(AcSym::AcFct(sym("foo", 2)));
    let known = KnownFuns::new(vec![noeq_foo, ac_foo]);
    assert!(matches!(known.lookup("foo"), Ok(FunSym::NoEq(s)) if s.name == "foo"));
    let known = KnownFuns::new(vec![FunSym::Ac(AcSym::AcFct(sym("foo", 2))), FunSym::NoEq(sym("foo", 2))]);
    assert!(matches!(known.lookup("foo"), Ok(FunSym::Ac(_))));
}

#[test]
fn lookup_lists_the_symbols_when_a_name_is_unknown() {
    let e = dh_funs().lookup("bar").unwrap_err();
    assert_eq!(
        e,
        "Failed parsing intruder rule name: no function named 'bar' found in the signature (symbols: exp, inv, one, mult)"
    );
}

#[test]
fn parse_intruder_rules_handles_tiny_inline() {
    let r = rule(
        "c_exp",
        vec![ku_fact(x(0)), ku_fact(x(1))],
        vec![ku_fact(exp(x(0), x(1)))],
        vec![ku_fact(exp(x(0), x(1)))],
    );
    let rules = intr_rules_from_parsed(&dh_funs(), "<inline>", &vec![r]).expect("one constructor rule");
    assert_eq!(rules.len(), 1);
    match &rules[0].info {
        IntrRuleACInfo::ConstrRule(name, FunSym::NoEq(s)) => {
            assert_eq!(name, "_exp");
            assert_eq!(s.name, "exp");
        }
        other => panic!("expected ConstrRule, got {:?}", other),
    }
    assert!(rules[0].new_vars.is_empty());
}

#[test]
fn parse_intruder_rules_rejects_non_c_d_prefix() {
    let err = intr_rules_from_parsed(&dh_funs(), "<bad>", &vec![rule("xfoo", vec![], vec![], vec![])])
        .expect_err("rule named `xfoo` should be rejected");
    assert!(err.message.contains("invalid intruder rule name"));
    assert_eq!(err.ctxt_desc, "<bad>");
    assert_eq!(
        err.to_string(),
        "<bad>: invalid intruder rule name 'xfoo': must start with `c` (constructor) or `d` (destructor)"
    );
}

#[test]
fn destructor_names_resolve_every_listed_symbol() {
    let known = dh_funs();
    match intr_rule_info(&known, "d_0_exp_mult").unwrap() {
        IntrRuleACInfo::DestrRule(name, limit, subterm, constant, funs) => {
            assert_eq!(name, "_0_exp_mult");
            assert_eq!((limit, subterm, constant), (0, true, false));
            assert_eq!(funs.len(), 2);
            assert!(matches!(&funs[0], FunSym::NoEq(s) if s.name == "exp"));
            assert!(matches!(&funs[1], FunSym::Ac(AcSym::Mult)));
        }
        other => panic!("expected DestrRule, got {:?}", other),
    }
}

#[test]
fn rule_name_errors() {
    let known = dh_funs();
    assert_eq!(intr_rule_info(&known, "").unwrap_err(), "empty intruder rule name");
    assert_eq!(intr_rule_info(&known, "d_0").unwrap_err(), "Failed parsing intruder rule name: empty name");
    assert!(intr_rule_info(&known, "d_0_exp_pow").unwrap_err().contains("no function named 'pow'"));
    assert!(intr_rule_info(&known, "c_pow").unwrap_err().contains("no function named 'pow'"));
    // A constructor name without its underscore loses its first letter.
    assert!(intr_rule_info(&known, "cexp").unwrap_err().contains("no function named 'xp'"));
}

#[test]
fn a_rule_may_not_carry_other_parts() {
    let known = dh_funs();
    let mut r = rule("c_inv", vec![ku_fact(x(0))], vec![], vec![]);
    r.variants = 2;
    r.embedded_restrictions = 1;
    assert_eq!(
        intr_rule_from_parsed(&known, &r).unwrap_err(),
        "intruder rule c_inv unexpectedly has embedded restrictions"
    );
    r.embedded_restrictions = 0;
    assert_eq!(intr_rule_from_parsed(&known, &r).unwrap_err(), "intruder rule c_inv unexpectedly has variants");
    r.variants = 0;
    r.let_bindings = 1;
    r.has_left_right = true;
    assert_eq!(intr_rule_from_parsed(&known, &r).unwrap_err(), "intruder rule c_inv unexpectedly has a let-block");
    r.let_bindings = 0;
    assert_eq!(
        intr_rule_from_parsed(&known, &r).unwrap_err(),
        "intruder rule c_inv unexpectedly has left/right halves"
    );
    // The name is read first.
    let mut bad = rule("zz", vec![], vec![], vec![]);
    bad.let_bindings = 1;
    assert!(intr_rule_from_parsed(&known, &bad).unwrap_err().starts_with("invalid intruder rule name"));
}

#[test]
fn the_first_failing_rule_reports() {
    let rules = vec![
        rule("c_one", vec![], vec![], vec![]),
        rule("c_nope", vec![], vec![], vec![]),
        rule("q", vec![], vec![], vec![]),
    ];
    let e = intr_rules_from_parsed(&dh_funs(), "dh", &rules).unwrap_err();
    assert!(e.message.contains("no function named 'nope'"));
}

#[test]
fn new_variables_are_the_sorted_new_conclusion_variables() {
    let v = |n: &str, s: LSort, i: u64| var_t(n, s, i);
    let prems = vec![ku_fact(v("a", LSort::Msg, 0))];
    let concs = vec![
        Fact { tag: FactTag::Ku, terms: vec![exp(v("z", LSort::Msg, 0), v("a", LSort::Msg, 0))] },
        Fact { tag: FactTag::Ku, terms: vec![v("b", LSort::Fresh, 1), v("c", LSort::Pub, 0), v("z", LSort::Msg, 0)] },
    ];
    let nv = new_variables(&prems, &concs);
    assert_eq!(nv, vec![v("c", LSort::Pub, 0), v("z", LSort::Msg, 0), v("b", LSort::Fresh, 1)]);
}

#[test]
fn variables_order_by_index_then_sort_then_name() {
    let l = |n: &str, s: LSort, i: u64| LVar::new(n, s, i);
    assert!(lvar_less(&l("z", LSort::Nat, 0), &l("a", LSort::Pub, 1)));
    assert!(lvar_less(&l("z", LSort::Pub, 0), &l("a", LSort::Fresh, 0)));
    assert!(lvar_less(&l("a", LSort::Msg, 0), &l("b", LSort::Msg, 0)));
    assert!(lvar_less(&l("a", LSort::Msg, 0), &l("ab", LSort::Msg, 0)));
    assert!(!lvar_less(&l("a", LSort::Msg, 0), &l("a", LSort::Msg, 0)));
    let declared = [LSort::Pub, LSort::Fresh, LSort::Msg, LSort::Node, LSort::Nat];
    for (i, s) in declared.iter().enumerate() {
        for (j, t) in declared.iter().enumerate() {
            assert_eq!(lvar_less(&l("x", *s, 0), &l("x", *t, 0)), i < j);
        }
    }
}

#[test]
fn a_rule_records_its_new_variables() {
    let r = rule("c_inv", vec![ku_fact(x(0))], vec![ku_fact(x(1))], vec![ku_fact(x(1))]);
    let out = intr_rule_from_parsed(&dh_funs(), &r).unwrap();
    assert_eq!(out.new_vars, vec![Term::Var(BVar::Free(LVar::new("x", LSort::Msg, 1)))]);
    assert_eq!(out.premises.len(), 1);
    assert_eq!(out.actions, vec![ku_fact(x(1))]);
}

#[test]
fn rule_vars_are_sorted_and_distinct() {
    let r = lib::intruder::IntrRuleAC {
        info: IntrRuleACInfo::Coerce,
        premises: vec![ku_fact(var_t("y", LSort::Msg, 0)), ku_fact(x(1))],
        conclusions: vec![ku_fact(exp(x(1), var_t("y", LSort::Msg, 0)))],
        actions: vec![ku_fact(var_t("a", LSort::Fresh, 0))],
        new_vars: vec![],
    };
    assert_eq!(
        rule_vars(&r),
        vec![LVar::new("a", LSort::Fresh, 0), LVar::new("y", LSort::Msg, 0), LVar::new("x", LSort::Msg, 1)]
    );
}

#[test]
fn the_variable_order_of_new_variables_is_the_order_of_variables() {
    let vars = [
        LVar::new("x", LSort::Msg, 0),
        LVar::new("a", LSort::Msg, 1),
        LVar::new("x", LSort::Fresh, 1),
        LVar::new("b", LSort::Node, 0),
        LVar::new("a", LSort::Msg, 0),
    ];
    for a in vars.iter() {
        for b in vars.iter() {
            assert_eq!(lvar_less(a, b), a < b, "{a:?} vs {b:?}");
        }
    }
}
