use lib::private_constants::private_constructor_rules;
use lib::intruder::{
    dh_constructor_rules, dh_destructor_templates, rule_name, is_double_premise_rule, kd_fact,
    constr_name_func, construction_rules, destruction_rules, is_subset_of, ku_fact,
    multiset_intruder_rules, nat_intruder_rules, show_fun_sym_name, special_intruder_rules,
    underscore_prefixed, var_t, xor_intruder_rules, CtxtStRule, IntrRuleAC, IntrRuleACInfo,
    IntrRuleParseError, StRhs, UserDefinedSym,
};
use lib::term::{
    AcSym, CSym, Constructability, FactTag, FunSym, LSort, Name, NameTag, Privacy, SymInfo,
    Term,
};

fn sym(name: &str, arity: usize, privacy: Privacy, c: Constructability) -> SymInfo {
    SymInfo { name: name.to_string(), arity, privacy, constructability: c }
}

fn public(name: &str, arity: usize, c: Constructability) -> FunSym {
    FunSym::NoEq(sym(name, arity, Privacy::Public, c))
}

fn app(f: FunSym, args: Vec<Term>) -> Term {
    Term::App(f, args)
}

fn x() -> Term {
    var_t("x", LSort::Msg, 1)
}

fn y() -> Term {
    var_t("x", LSort::Msg, 2)
}

fn pair(a: Term, b: Term) -> Term {
    app(public("pair", 2, Constructability::Constructor), vec![a, b])
}

/// The pair signature: `pair/2` constructs, `fst/1` and `snd/1` destruct.
fn pair_sig() -> Vec<UserDefinedSym> {
    vec![
        UserDefinedSym::NoEqUser(sym("fst", 1, Privacy::Public, Constructability::Destructor)),
        UserDefinedSym::NoEqUser(sym("pair", 2, Privacy::Public, Constructability::Constructor)),
        UserDefinedSym::NoEqUser(sym("snd", 1, Privacy::Public, Constructability::Destructor)),
    ]
}

/// `fst(<x, y>) = x` and `snd(<x, y>) = y`.
fn pair_rules() -> Vec<CtxtStRule> {
    let fst = public("fst", 1, Constructability::Destructor);
    let snd = public("snd", 1, Constructability::Destructor);
    vec![
        CtxtStRule { lhs: app(fst, vec![pair(x(), y())]), rhs: StRhs { positions: vec![vec![0, 0]], term: x() } },
        CtxtStRule { lhs: app(snd, vec![pair(x(), y())]), rhs: StRhs { positions: vec![vec![0, 1]], term: y() } },
    ]
}

/// `sdec(senc(x, y), y) = x`.
fn sym_enc_rules() -> Vec<CtxtStRule> {
    let senc = public("senc", 2, Constructability::Constructor);
    let sdec = public("sdec", 2, Constructability::Destructor);
    vec![CtxtStRule {
        lhs: app(sdec, vec![app(senc, vec![x(), y()]), y()]),
        rhs: StRhs { positions: vec![vec![0, 0]], term: x() },
    }]
}

/// `adec(aenc(x, pk(y)), y) = x`.
fn asym_enc_rules() -> Vec<CtxtStRule> {
    let aenc = public("aenc", 2, Constructability::Constructor);
    let adec = public("adec", 2, Constructability::Destructor);
    let pk = public("pk", 1, Constructability::Constructor);
    vec![CtxtStRule {
        lhs: app(adec, vec![app(aenc, vec![x(), app(pk, vec![y()])]), y()]),
        rhs: StRhs { positions: vec![vec![0, 0]], term: x() },
    }]
}

fn all_destructors(rules: &[CtxtStRule]) -> Vec<IntrRuleAC> {
    rules.iter().flat_map(|r| destruction_rules(false, r)).collect()
}

#[test]
fn show_fun_sym_name_pins_the_builtin_display_names() {
    assert_eq!(show_fun_sym_name(&FunSym::Ac(AcSym::Union)), "mun");
    assert_ne!(show_fun_sym_name(&FunSym::Ac(AcSym::Union)), "union");
    assert_eq!(show_fun_sym_name(&FunSym::Ac(AcSym::Mult)), "mult");
    assert_eq!(show_fun_sym_name(&FunSym::Ac(AcSym::Xor)), "xor");
    assert_eq!(show_fun_sym_name(&FunSym::Ac(AcSym::NatPlus)), "tplus");
    assert_eq!(show_fun_sym_name(&FunSym::C(CSym::EMap)), "em");
    assert_eq!(show_fun_sym_name(&FunSym::List), "List");
    assert_eq!(show_fun_sym_name(&public("pair", 2, Constructability::Constructor)), "pair");
    let ac_foo = sym("foo", 2, Privacy::Public, Constructability::Constructor);
    assert_eq!(show_fun_sym_name(&FunSym::Ac(AcSym::AcFct(ac_foo))), "foo");
}

#[test]
fn intruder_rules_tests_is_subset_of_ignores_multiplicity() {
    let y = var_t("y", LSort::Msg, 0);
    let z = var_t("z", LSort::Msg, 0);
    let a = vec![ku_fact(y.copy()), ku_fact(y.copy())];
    let b = vec![ku_fact(y.copy()), ku_fact(z.copy())];
    assert!(is_subset_of(&a, &b));
    assert!(!is_subset_of(&b, &a));
}

#[test]
fn intruder_rules_is_subset_of_ignores_multiplicity() {
    let y = var_t("y", LSort::Msg, 0);
    let a = vec![ku_fact(y.copy())];
    let b: Vec<lib::term::Fact> = Vec::new();
    assert!(is_subset_of(&b, &a));
    assert!(!is_subset_of(&a, &b));
    assert!(is_subset_of(&a, &a));
}

#[test]
fn intruder_rules_tests_special_rules_count_excluding_diff() {
    let r = special_intruder_rules(false);
    assert_eq!(r.len(), 5);
    assert!(matches!(r[0].info, IntrRuleACInfo::Coerce));
    assert!(matches!(r[1].info, IntrRuleACInfo::PubConstr));
    assert!(matches!(r[2].info, IntrRuleACInfo::FreshConstr));
    assert!(matches!(r[3].info, IntrRuleACInfo::ISend));
    assert!(matches!(r[4].info, IntrRuleACInfo::IRecv));
}

#[test]
fn intruder_rules_special_rules_count_excluding_diff() {
    assert_eq!(special_intruder_rules(false).len(), 5);
}

#[test]
fn intruder_rules_tests_special_rules_count_with_diff() {
    let r = special_intruder_rules(true);
    assert_eq!(r.len(), 6);
    assert!(matches!(r[5].info, IntrRuleACInfo::IEquality));
}

#[test]
fn intruder_rules_special_rules_count_with_diff() {
    assert_eq!(special_intruder_rules(true).len(), 6);
}

#[test]
fn intruder_rules_tests_pub_constr_has_x_pub_in_new_vars() {
    let r = &special_intruder_rules(false)[1];
    assert_eq!(r.new_vars.len(), 1);
    assert_eq!(r.new_vars[0], var_t("x", LSort::Pub, 0));
}

#[test]
fn intruder_rules_pub_constr_has_x_pub_in_new_vars() {
    let r = &special_intruder_rules(false)[1];
    assert_eq!(r.new_vars.len(), 1);
}

#[test]
fn intruder_rules_tests_fresh_constr_has_fresh_premise() {
    let r = &special_intruder_rules(false)[2];
    assert_eq!(r.premises.len(), 1);
    assert!(matches!(r.premises[0].tag, FactTag::Fresh));
}

#[test]
fn intruder_rules_fresh_constr_has_fresh_premise() {
    let r = &special_intruder_rules(false)[2];
    assert_eq!(r.premises.len(), 1);
    assert!(matches!(r.premises[0].tag, FactTag::Fresh));
}

#[test]
fn intruder_rules_tests_isend_emits_in_conclusion() {
    let r = &special_intruder_rules(false)[3];
    assert!(matches!(r.conclusions[0].tag, FactTag::In));
    assert!(matches!(r.actions[0].tag, FactTag::KLog));
}

#[test]
fn intruder_rules_isend_emits_in_conclusion() {
    let r = &special_intruder_rules(false)[3];
    assert!(matches!(r.conclusions[0].tag, FactTag::In));
}

#[test]
fn coerce_turns_a_deduced_term_into_a_known_one() {
    let r = &special_intruder_rules(false)[0];
    assert!(matches!(r.premises[0].tag, FactTag::Kd));
    assert!(matches!(r.conclusions[0].tag, FactTag::Ku));
    assert_eq!(r.premises[0].terms, r.conclusions[0].terms);
}

fn construction_checks(rules: &[IntrRuleAC]) {
    let pair_rule = rules
        .iter()
        .find(|r| matches!(&r.info, IntrRuleACInfo::ConstrRule(name, _) if name == "_pair"))
        .expect("expected pair construction rule");
    assert_eq!(pair_rule.premises.len(), 2);
    assert_eq!(pair_rule.conclusions.len(), 1);
    assert_eq!(pair_rule.actions.len(), 1);
    for f in pair_rule.premises.iter().chain(&pair_rule.conclusions).chain(&pair_rule.actions) {
        assert!(matches!(f.tag, FactTag::Ku));
    }
}

#[test]
fn intruder_rules_tests_construction_rules_pair_signature_emits_pair_rule() {
    construction_checks(&construction_rules(&pair_sig()));
}

#[test]
fn intruder_rules_construction_rules_pair_signature_emits_pair_rule() {
    let rules = construction_rules(&pair_sig());
    construction_checks(&rules);
    assert_eq!(rules[0].conclusions[0].terms[0], pair(var_t("x", LSort::Msg, 0), var_t("x", LSort::Msg, 1)));
}

fn only_constructors(rules: &[IntrRuleAC]) {
    for r in rules {
        match &r.info {
            IntrRuleACInfo::ConstrRule(..) => {}
            other => panic!("expected ConstrRule, got {:?}", other),
        }
    }
    assert!(!rules.is_empty(), "default pair sig has at least one constructor");
}

#[test]
fn intruder_rules_tests_construction_rules_only_emits_constructor_info() {
    only_constructors(&construction_rules(&pair_sig()));
}

#[test]
fn intruder_rules_construction_rules_only_emits_constructor_info() {
    let rules = construction_rules(&pair_sig());
    only_constructors(&rules);
    assert_eq!(rules.len(), 1);
}

fn premise_count_checks(rules: &[IntrRuleAC]) {
    for r in rules {
        let arity = match &r.conclusions[0].terms[0] {
            Term::App(_, args) => args.len(),
            _ => 0,
        };
        assert_eq!(r.premises.len(), arity, "premise count must equal symbol arity");
        assert_eq!(r.conclusions.len(), 1);
        assert_eq!(r.actions.len(), 1);
    }
}

#[test]
fn intruder_rules_tests_construction_rules_premise_count_equals_arity() {
    premise_count_checks(&construction_rules(&pair_sig()));
}

#[test]
fn intruder_rules_construction_rules_premise_count_equals_arity() {
    let mut sig = pair_sig();
    sig.push(UserDefinedSym::NoEqUser(sym("h", 1, Privacy::Public, Constructability::Constructor)));
    sig.push(UserDefinedSym::NoEqUser(sym("k", 0, Privacy::Public, Constructability::Constructor)));
    sig.push(UserDefinedSym::NoEqUser(sym("secret", 1, Privacy::Private, Constructability::Constructor)));
    sig.push(UserDefinedSym::AcFctUser(sym("op", 2, Privacy::Public, Constructability::Constructor)));
    let rules = construction_rules(&sig);
    premise_count_checks(&rules);
    assert_eq!(rules.len(), 4);
    assert!(matches!(&rules[3].info, IntrRuleACInfo::ConstrRule(n, FunSym::Ac(_)) if n == "_op"));
}

fn sym_enc_checks(rules: &[IntrRuleAC]) {
    assert!(!rules.is_empty(), "expected at least one sdec destructor; got {:?}", rules);
    let first = &rules[0];
    assert!(matches!(first.premises[0].tag, FactTag::Kd));
    assert!(first.premises.iter().skip(1).all(|p| matches!(p.tag, FactTag::Ku)));
    assert!(matches!(first.conclusions[0].tag, FactTag::Kd));
}

#[test]
fn intruder_rules_tests_destruction_rules_sym_enc_emits_decryption() {
    sym_enc_checks(&all_destructors(&sym_enc_rules()));
}

#[test]
fn intruder_rules_destruction_rules_sym_enc_emits_decryption() {
    let rules = all_destructors(&sym_enc_rules());
    sym_enc_checks(&rules);
    assert_eq!(rules[0].conclusions[0].terms[0], x());
    assert_eq!(rules[0].premises[1].terms[0], y());
}

#[test]
fn intruder_rules_tests_destruction_rules_pair_emits_fst_snd_destructors() {
    assert!(all_destructors(&pair_rules()).len() >= 2);
}

#[test]
fn intruder_rules_destruction_rules_pair_emits_fst_snd_destructors() {
    let rules = all_destructors(&pair_rules());
    assert!(rules.len() >= 2);
    assert!(matches!(&rules[0].info, IntrRuleACInfo::DestrRule(n, -1, true, false, funs) if n == "_0_fst" && funs.len() == 1));
    assert!(matches!(&rules[1].info, IntrRuleACInfo::DestrRule(n, -1, true, false, _) if n == "_0_snd"));
}

#[test]
fn intruder_rules_tests_destruction_rules_sym_enc_emits_exactly_one_destructor() {
    let rules = all_destructors(&sym_enc_rules());
    assert_eq!(rules.len(), 1);
    let r = &rules[0];
    assert!(matches!(r.premises[0].tag, FactTag::Kd));
    for p in &r.premises[1..] {
        assert!(matches!(p.tag, FactTag::Ku));
    }
}

#[test]
fn intruder_rules_destruction_rules_sym_enc_emits_exactly_one_destructor() {
    assert_eq!(all_destructors(&sym_enc_rules()).len(), 1);
}

#[test]
fn intruder_rules_tests_destruction_rules_asym_enc_emits_exactly_one_destructor() {
    assert_eq!(all_destructors(&asym_enc_rules()).len(), 1);
}

#[test]
fn intruder_rules_destruction_rules_asym_enc_emits_exactly_one_destructor() {
    let rules = all_destructors(&asym_enc_rules());
    assert_eq!(rules.len(), 1);
    assert_eq!(rules[0].premises.len(), 2);
}

#[test]
fn intruder_rules_tests_destruction_rules_pair_emits_exactly_two_destructors() {
    assert_eq!(all_destructors(&pair_rules()).len(), 2);
}

#[test]
fn intruder_rules_destruction_rules_pair_emits_exactly_two_destructors() {
    assert_eq!(all_destructors(&pair_rules()).len(), 2);
}

fn closed_rhs_rule() -> CtxtStRule {
    let pa = Term::Con(Name { tag: NameTag::Pub, id: "a".to_string() });
    let pb = Term::Con(Name { tag: NameTag::Pub, id: "b".to_string() });
    let senc = public("senc", 2, Constructability::Constructor);
    let lhs = app(senc, vec![var_t("x", LSort::Msg, 1), pair(pa.copy(), pb)]);
    CtxtStRule { lhs, rhs: StRhs { positions: vec![vec![1, 0]], term: pa } }
}

#[test]
fn intruder_rules_tests_destruction_rules_returns_empty_for_closed_rhs_in_non_diff_mode() {
    assert!(destruction_rules(false, &closed_rhs_rule()).is_empty());
}

#[test]
fn intruder_rules_destruction_rules_returns_empty_for_closed_rhs_in_non_diff_mode() {
    let rule = closed_rhs_rule();
    assert!(destruction_rules(false, &rule).is_empty());
    // In diff mode the walk runs: through senc into the pair (one rule),
    // then into `$a`, which is the right-hand side itself (no rule).
    let diff = destruction_rules(true, &rule);
    assert_eq!(diff.len(), 1);
    assert!(matches!(&diff[0].info, IntrRuleACInfo::DestrRule(_, _, _, true, _)));
}

#[test]
fn destruction_stops_at_a_private_symbol() {
    let hide = FunSym::NoEq(sym("hide", 1, Privacy::Private, Constructability::Constructor));
    let unhide = public("unhide", 1, Constructability::Destructor);
    let rule = CtxtStRule {
        lhs: app(unhide, vec![app(hide, vec![x()])]),
        rhs: StRhs { positions: vec![vec![0, 0]], term: x() },
    };
    // The first step passes the public `unhide`; the walk then stops at
    // `hide`, before the last step.
    assert_eq!(destruction_rules(false, &rule).len(), 1);
    let no_positions = CtxtStRule { lhs: x(), rhs: StRhs { positions: vec![], term: x() } };
    assert!(destruction_rules(false, &no_positions).is_empty());
}

#[test]
fn nat_multiset_and_xor_rule_counts() {
    assert_eq!(nat_intruder_rules().len(), 1);
    assert!(!multiset_intruder_rules().is_empty());
    assert!(!xor_intruder_rules().is_empty());
    assert!(matches!(nat_intruder_rules()[0].info, IntrRuleACInfo::NatConstr));
}

#[test]
fn underscore_prefixed_puts_one_underscore_in_front() {
    assert_eq!(underscore_prefixed("exp"), "_exp");
    assert_eq!(underscore_prefixed(""), "_");
}

#[test]
fn constr_name_func_drops_the_leading_positions() {
    assert_eq!(constr_name_func("_0_sdec").unwrap(), vec!["sdec".to_string()]);
    assert_eq!(constr_name_func("_1_0_exp_mult").unwrap(), vec!["exp".to_string(), "mult".to_string()]);
    assert_eq!(constr_name_func("_exp").unwrap(), vec!["exp".to_string()]);
    // Only the leading numeric segments go.
    assert_eq!(constr_name_func("_a_1").unwrap(), vec!["a".to_string(), "1".to_string()]);
}

#[test]
fn constr_name_func_rejects_a_name_of_positions_only() {
    let want = "Failed parsing intruder rule name: empty name".to_string();
    assert_eq!(constr_name_func("").unwrap_err(), want);
    assert_eq!(constr_name_func("_0_1").unwrap_err(), want);
    assert_eq!(constr_name_func("exp").unwrap_err(), want);
}

#[test]
fn parse_error_shows_where_then_what() {
    let e = IntrRuleParseError { ctxt_desc: "dh_variants".to_string(), message: "bad rule".to_string() };
    assert_eq!(e.to_string(), "dh_variants: bad rule");
}

fn private_const(name: &str) -> FunSym {
    FunSym::NoEq(sym(name, 0, Privacy::Private, Constructability::Constructor))
}

#[test]
fn private_constants_become_derivable_in_rounds() {
    let c = |name: &str| app(private_const(name), vec![]);
    let getter = |name: &str| public(name, 1, Constructability::Destructor);
    let h = FunSym::NoEq(sym("h", 1, Privacy::Private, Constructability::Constructor));
    let rules = vec![
        // getc2(c1) = c2: needs c1 first.
        CtxtStRule { lhs: app(getter("getc2"), vec![c("c1")]), rhs: StRhs { positions: vec![], term: c("c2") } },
        // getc1(x) = c1: public only.
        CtxtStRule { lhs: app(getter("getc1"), vec![x()]), rhs: StRhs { positions: vec![], term: c("c1") } },
        // getc3(h(x)) = c3: needs the private h, never derivable.
        CtxtStRule { lhs: app(getter("getc3"), vec![app(h, vec![x()])]), rhs: StRhs { positions: vec![], term: c("c3") } },
        // fst(<x, y>) = x: not a private constant.
        pair_rules().remove(0),
    ];
    let out = private_constructor_rules(&rules);
    assert_eq!(out.len(), 2);
    assert!(matches!(&out[0].info, IntrRuleACInfo::ConstrRule(n, FunSym::NoEq(s)) if n == "_c1" && s.name == "c1"));
    assert!(matches!(&out[1].info, IntrRuleACInfo::ConstrRule(n, _) if n == "_c2"));
    assert!(out[0].premises.is_empty());
    assert_eq!(out[0].conclusions, vec![ku_fact(c("c1"))]);
    assert_eq!(out[0].actions, vec![ku_fact(c("c1"))]);
}

#[test]
fn no_private_constant_without_an_equation() {
    assert!(private_constructor_rules(&pair_rules()).is_empty());
    assert!(private_constructor_rules(&vec![]).is_empty());
}

#[test]
fn a_destructor_that_needs_its_own_result_is_redundant() {
    let t = var_t("x", LSort::Msg, 0);
    let k = var_t("k", LSort::Msg, 0);
    let pa = Term::Con(Name { tag: NameTag::Pub, id: "a".to_string() });
    let rule = |prems: Vec<lib::term::Fact>, conc: Term| IntrRuleAC {
        info: IntrRuleACInfo::DestrRule("_d".to_string(), 0, true, false, vec![]),
        premises: prems,
        conclusions: vec![kd_fact(conc)],
        actions: vec![],
        new_vars: vec![],
    };
    assert!(is_double_premise_rule(&rule(vec![kd_fact(t.copy()), ku_fact(k.copy()), ku_fact(t.copy())], pa.copy())));
    // No KU of the same term.
    assert!(!is_double_premise_rule(&rule(vec![kd_fact(t.copy()), ku_fact(k.copy())], pa.copy())));
    // A conclusion with a variable.
    assert!(!is_double_premise_rule(&rule(vec![kd_fact(t.copy()), ku_fact(t.copy())], k.copy())));
    // The first premise is not a message variable.
    let fresh = var_t("x", LSort::Fresh, 0);
    assert!(!is_double_premise_rule(&rule(vec![kd_fact(fresh.copy()), ku_fact(fresh.copy())], pa.copy())));
    // A private symbol in a premise.
    let hide = FunSym::NoEq(sym("hide", 1, Privacy::Private, Constructability::Constructor));
    assert!(!is_double_premise_rule(&rule(
        vec![kd_fact(t.copy()), ku_fact(t.copy()), ku_fact(app(hide, vec![k.copy()]))],
        pa.copy()
    )));
    // The first premise must be KD.
    assert!(!is_double_premise_rule(&rule(vec![ku_fact(t.copy()), ku_fact(t.copy())], pa.copy())));
    assert!(!is_double_premise_rule(&rule(vec![], pa)));
}

#[test]
fn diffie_hellman_rules_build_five_constructors_and_two_destructors() {
    let constrs = dh_constructor_rules();
    let names: Vec<String> = constrs.iter().map(|r| rule_name(&r.info).unwrap().clone()).collect();
    assert_eq!(names, vec!["_exp", "_inv", "_DH_neutral", "_one", "_mult"]);
    for r in &constrs {
        assert!(matches!(r.info, IntrRuleACInfo::ConstrRule(..)));
        assert_eq!(r.actions, r.conclusions);
        assert!(r.premises.iter().all(|f| matches!(f.tag, FactTag::Ku)));
        assert!(r.conclusions.iter().all(|f| matches!(f.tag, FactTag::Ku)));
    }
    assert_eq!(constrs[0].premises.len(), 2);
    assert_eq!(constrs[1].premises.len(), 1);
    assert!(constrs[2].premises.is_empty() && constrs[3].premises.is_empty());
    assert!(matches!(&constrs[4].conclusions[0].terms[0], Term::App(FunSym::Ac(AcSym::Mult), args) if args.len() == 2));
    let destrs = dh_destructor_templates();
    assert_eq!(destrs.len(), 2);
    for r in &destrs {
        assert!(matches!(&r.info, IntrRuleACInfo::DestrRule(_, 0, true, false, _)));
        assert!(r.actions.is_empty());
        assert!(matches!(r.premises[0].tag, FactTag::Kd));
        assert!(matches!(r.conclusions[0].tag, FactTag::Kd));
    }
    assert_eq!(rule_name(&destrs[0].info).unwrap(), "_exp");
    assert_eq!(rule_name(&destrs[1].info).unwrap(), "_inv");
    assert!(matches!(destrs[0].premises[1].tag, FactTag::Ku));
}
