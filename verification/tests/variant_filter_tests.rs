use lib::intruder::{dedup_up_to_renaming, filter_variant_rules, minimize_rules_with, kd_fact, ku_fact, var_t, IntrRuleAC, IntrRuleACInfo};
use lib::term::{AcSym, Constructability, Fact, FunSym, LSort, Name, NameTag, Privacy, SymInfo, Term};

fn x() -> Term {
    var_t("x", LSort::Msg, 0)
}

fn y() -> Term {
    var_t("y", LSort::Msg, 0)
}

fn pubc(s: &str) -> Term {
    Term::Con(Name { tag: NameTag::Pub, id: s.to_string() })
}

fn pair(a: Term, b: Term) -> Term {
    let sym = SymInfo {
        name: "pair".to_string(),
        arity: 2,
        privacy: Privacy::Public,
        constructability: Constructability::Constructor,
    };
    Term::App(FunSym::NoEq(sym), vec![a, b])
}

fn rule(premises: Vec<Fact>, conclusions: Vec<Fact>) -> IntrRuleAC {
    IntrRuleAC::new(
        IntrRuleACInfo::DestrRule("d".to_string(), 0, false, false, vec![]),
        premises,
        conclusions,
        vec![],
    )
}

fn base() -> IntrRuleAC {
    rule(vec![kd_fact(pair(x(), y()))], vec![kd_fact(x())])
}

/// identity, ground conclusion, conclusion covered by a premise, a good
/// variant, a lone product conclusion.
fn candidates() -> Vec<IntrRuleAC> {
    vec![
        base(),
        rule(vec![kd_fact(pair(pubc("a"), y()))], vec![kd_fact(pubc("a"))]),
        rule(vec![kd_fact(y()), kd_fact(x())], vec![kd_fact(x())]),
        rule(vec![kd_fact(pair(pair(x(), y()), y()))], vec![kd_fact(pair(x(), y()))]),
        rule(vec![kd_fact(y())], vec![ku_fact(Term::App(FunSym::Ac(AcSym::Mult), vec![x(), y()]))]),
    ]
}

#[test]
fn the_filters_keep_only_a_new_variant_with_something_left_to_conclude() {
    let kept = filter_variant_rules(&base(), candidates(), true, false);
    assert_eq!(kept.len(), 1);
    assert!(kept[0].same(&candidates()[3]));
}

#[test]
fn in_diff_mode_a_ground_conclusion_is_kept() {
    let kept = filter_variant_rules(&base(), candidates(), true, true);
    assert_eq!(kept.len(), 2);
    assert!(kept[0].same(&candidates()[1]));
    assert!(kept[1].same(&candidates()[3]));
}

#[test]
fn without_filters_only_a_lone_product_conclusion_goes() {
    let kept = filter_variant_rules(&base(), candidates(), false, false);
    assert_eq!(kept.len(), 4);
    for (k, i) in [0usize, 1, 2, 3].iter().enumerate() {
        assert!(kept[k].same(&candidates()[*i]));
    }
}

#[test]
fn a_conclusion_is_left_when_it_occurs_more_often_than_among_the_premises() {
    // K(x), K(x) from K(x): one K(x) is left over.
    let twice = rule(vec![kd_fact(x())], vec![kd_fact(x()), kd_fact(x())]);
    let kept = filter_variant_rules(&base(), vec![twice], true, false);
    assert_eq!(kept.len(), 1);
}

fn three() -> Vec<IntrRuleAC> {
    vec![
        rule(vec![kd_fact(x())], vec![kd_fact(x())]),
        rule(vec![kd_fact(y())], vec![kd_fact(pair(y(), y()))]),
        rule(vec![kd_fact(y())], vec![kd_fact(y())]),
    ]
}

#[test]
fn dedup_drops_a_rule_equal_to_an_earlier_one() {
    // rules 0 and 2 are renamings of each other.
    let eq = vec![vec![true, false, true], vec![false, true, false], vec![true, false, true]];
    let kept = dedup_up_to_renaming(three(), &eq);
    assert_eq!(kept.len(), 2);
    assert!(kept[0].same(&three()[0]));
    assert!(kept[1].same(&three()[1]));
}

#[test]
fn dedup_drops_a_rule_equal_to_a_later_kept_one() {
    // only rule 0 finds rule 2 equal: walking from the back, 2 stays and 0 goes.
    let eq = vec![vec![true, false, true], vec![false, true, false], vec![false, false, true]];
    let kept = dedup_up_to_renaming(three(), &eq);
    assert_eq!(kept.len(), 2);
    assert!(kept[0].same(&three()[1]));
    assert!(kept[1].same(&three()[2]));
}

#[test]
fn dedup_keeps_distinct_rules() {
    let eq = vec![vec![true, false, false], vec![false, true, false], vec![false, false, true]];
    assert_eq!(dedup_up_to_renaming(three(), &eq).len(), 3);
}

fn no(n: usize) -> Vec<Vec<bool>> {
    vec![vec![false; n]; n]
}

#[test]
fn minimisation_drops_a_duplicate_of_a_later_rule() {
    let mut dup = no(3);
    dup[0][2] = true;
    let kept = minimize_rules_with(false, three(), &dup, &no(3));
    assert_eq!(kept.len(), 2);
    assert!(kept[0].same(&three()[1]));
    assert!(kept[1].same(&three()[2]));
}

#[test]
fn minimisation_drops_a_rule_an_earlier_kept_rule_subsumes_unless_in_diff_mode() {
    let mut sub = no(3);
    sub[1][0] = true;
    let kept = minimize_rules_with(false, three(), &no(3), &sub);
    assert_eq!(kept.len(), 2);
    assert!(kept[0].same(&three()[0]));
    assert!(kept[1].same(&three()[2]));
    assert_eq!(minimize_rules_with(true, three(), &no(3), &sub).len(), 3);
}

#[test]
fn minimisation_drops_a_redundant_destructor_rule() {
    let mut rules = three();
    rules.push(rule(vec![kd_fact(x()), ku_fact(x())], vec![kd_fact(pubc("a"))]));
    let kept = minimize_rules_with(false, rules, &no(4), &no(4));
    assert_eq!(kept.len(), 3);
    for i in 0..3 {
        assert!(kept[i].same(&three()[i]));
    }
}
