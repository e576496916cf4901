//! The items of a theory as written, and the expansion of the theory's
//! macros in them.
use vstd::prelude::*;
use crate::surface::{
    apply_macros_fact, apply_macros_formula, apply_macros_m, apply_macros_term, expands_to, macros_m, ranked,
    sfact_related, sformula_related, Macro, MacroM, SFactM, SFormulaM, STermM, SurfaceFact, SurfaceFormula,
    SurfaceTerm, copy_macros,
};

verus! {

broadcast use vstd::std_specs::vec::group_vec_axioms;

/// A binding of a rule's `let` block: `var = value`.
#[derive(Debug, PartialEq, Eq)]
pub struct LetBinding {
    pub var: SurfaceTerm,
    pub value: SurfaceTerm,
}

/// A rule as written: its name, premises, actions and conclusions, the
/// restrictions embedded in it, its `let` block and its explicitly written
/// variants.
#[derive(Debug, PartialEq, Eq)]
pub struct SurfaceRule {
    pub name: String,
    pub premises: Vec<SurfaceFact>,
    pub actions: Vec<SurfaceFact>,
    pub conclusions: Vec<SurfaceFact>,
    pub embedded_restrictions: Vec<SurfaceFormula>,
    pub let_block: Vec<LetBinding>,
    pub variants: Vec<SurfaceRule>,
}

/// A named formula: a lemma, a restriction, an accountability lemma or a
/// case test.
#[derive(Debug, PartialEq, Eq)]
pub struct NamedFormula {
    pub name: String,
    pub formula: SurfaceFormula,
}

/// A predicate: the fact that names it and the formula it stands for.
#[derive(Debug, PartialEq, Eq)]
pub struct Predicate {
    pub fact: SurfaceFact,
    pub formula: SurfaceFormula,
}

/// An item of a theory.
#[derive(Debug, PartialEq, Eq)]
pub enum TheoryItem {
    Rule(SurfaceRule),
    IntrRule(SurfaceRule),
    Lemma(NamedFormula),
    Restriction(NamedFormula),
    LegacyAxiom(NamedFormula),
    Predicates(Vec<Predicate>),
    Macros(Vec<Macro>),
    CaseTest(NamedFormula),
    AccLemma(NamedFormula),
}

/// A theory: its name and its items in order.
#[derive(Debug, PartialEq, Eq)]
pub struct SurfaceTheory {
    pub name: String,
    pub items: Vec<TheoryItem>,
}

/// The model of a [`SurfaceRule`].
pub struct SRuleM {
    pub name: Seq<char>,
    pub premises: Seq<SFactM>,
    pub actions: Seq<SFactM>,
    pub conclusions: Seq<SFactM>,
    pub embedded: Seq<SFormulaM>,
    pub lets: Seq<(STermM, STermM)>,
    pub variants: Seq<SRuleM>,
}

/// The model of a [`TheoryItem`].
pub enum ItemM {
    Rule(SRuleM),
    IntrRule(SRuleM),
    Lemma(Seq<char>, SFormulaM),
    Restriction(Seq<char>, SFormulaM),
    LegacyAxiom(Seq<char>, SFormulaM),
    Predicates(Seq<(SFactM, SFormulaM)>),
    Macros(Seq<MacroM>),
    CaseTest(Seq<char>, SFormulaM),
    AccLemma(Seq<char>, SFormulaM),
}

/// The models of a list of facts.
pub open spec fn sfacts_m(fs: Seq<SurfaceFact>) -> Seq<SFactM> {
    Seq::new(fs.len(), |i: int| fs[i]@)
}

/// The models of a list of formulas.
pub open spec fn sformulas_m(fs: Seq<SurfaceFormula>) -> Seq<SFormulaM> {
    Seq::new(fs.len(), |i: int| fs[i]@)
}

/// The models of a `let` block.
pub open spec fn lets_m(bs: Seq<LetBinding>) -> Seq<(STermM, STermM)> {
    Seq::new(bs.len(), |i: int| (bs[i].var@, bs[i].value@))
}

/// The models of a list of rules.
pub open spec fn rules_m(rs: Seq<SurfaceRule>) -> Seq<SRuleM>
    decreases rs, 1nat,
{
    Seq::new(rs.len(), |i: int| if 0 <= i < rs.len() { rs[i].view() } else { arbitrary() })
}

impl SurfaceRule {
    pub open spec fn view(&self) -> SRuleM
        decreases self, 0nat,
    {
        SRuleM {
            name: self.name@,
            premises: sfacts_m(self.premises@),
            actions: sfacts_m(self.actions@),
            conclusions: sfacts_m(self.conclusions@),
            embedded: sformulas_m(self.embedded_restrictions@),
            lets: lets_m(self.let_block@),
            variants: rules_m(self.variants@),
        }
    }
}

/// The models of a list of predicates.
pub open spec fn preds_m(ps: Seq<Predicate>) -> Seq<(SFactM, SFormulaM)> {
    Seq::new(ps.len(), |i: int| (ps[i].fact@, ps[i].formula@))
}

impl TheoryItem {
    pub open spec fn view(&self) -> ItemM {
        match self {
            TheoryItem::Rule(r) => ItemM::Rule(r@),
            TheoryItem::IntrRule(r) => ItemM::IntrRule(r@),
            TheoryItem::Lemma(n) => ItemM::Lemma(n.name@, n.formula@),
            TheoryItem::Restriction(n) => ItemM::Restriction(n.name@, n.formula@),
            TheoryItem::LegacyAxiom(n) => ItemM::LegacyAxiom(n.name@, n.formula@),
            TheoryItem::Predicates(ps) => ItemM::Predicates(preds_m(ps@)),
            TheoryItem::Macros(ms) => ItemM::Macros(macros_m(ms@)),
            TheoryItem::CaseTest(n) => ItemM::CaseTest(n.name@, n.formula@),
            TheoryItem::AccLemma(n) => ItemM::AccLemma(n.name@, n.formula@),
        }
    }
}

/// The models of a list of items.
pub open spec fn items_m(its: Seq<TheoryItem>) -> Seq<ItemM> {
    Seq::new(its.len(), |i: int| its[i]@)
}

/// The macros a theory declares, in the order of their declarations.
pub open spec fn theory_macros(items: Seq<ItemM>) -> Seq<MacroM>
    decreases items.len(),
{
    if items.len() == 0 {
        Seq::empty()
    } else {
        theory_macros(items.drop_last()) + match items.last() {
            ItemM::Macros(ms) => ms,
            _ => Seq::empty(),
        }
    }
}

/// Facts related pairwise by [`sfact_related`] under the expansion.
pub open spec fn facts_expanded(ms: Seq<MacroM>, fs: Seq<SFactM>, gs: Seq<SFactM>) -> bool {
    fs.len() == gs.len() && forall|i: int| 0 <= i < fs.len() ==> sfact_related(expands_to(ms), #[trigger] fs[i], gs[i])
}

/// Formulas related pairwise by [`sformula_related`] under the expansion.
pub open spec fn formulas_expanded(ms: Seq<MacroM>, fs: Seq<SFormulaM>, gs: Seq<SFormulaM>) -> bool {
    fs.len() == gs.len() && forall|i: int|
        0 <= i < fs.len() ==> sformula_related(expands_to(ms), #[trigger] fs[i], gs[i])
}

/// A rule with the macros expanded in its premises, actions, conclusions,
/// embedded restrictions and both sides of its `let` bindings; its name and
/// its written variants stay.
pub open spec fn rule_expanded(ms: Seq<MacroM>, r: SRuleM, r2: SRuleM) -> bool {
    &&& r2.name == r.name
    &&& facts_expanded(ms, r.premises, r2.premises)
    &&& facts_expanded(ms, r.actions, r2.actions)
    &&& facts_expanded(ms, r.conclusions, r2.conclusions)
    &&& formulas_expanded(ms, r.embedded, r2.embedded)
    &&& r2.lets.len() == r.lets.len()
    &&& forall|i: int|
        0 <= i < r.lets.len() ==> #[trigger] r2.lets[i] == (apply_macros_m(ms, r.lets[i].0), apply_macros_m(
            ms,
            r.lets[i].1,
        ))
    &&& r2.variants == r.variants
}

/// An item with the macros expanded: a rule as [`rule_expanded`] says; the
/// formula of a lemma or restriction; the formula and fact of each
/// predicate.  Macro declarations, case tests and accountability lemmas
/// stay.
pub open spec fn item_expanded(ms: Seq<MacroM>, it: ItemM, it2: ItemM) -> bool {
    match (it, it2) {
        (ItemM::Rule(r), ItemM::Rule(r2)) => rule_expanded(ms, r, r2),
        (ItemM::IntrRule(r), ItemM::IntrRule(r2)) => rule_expanded(ms, r, r2),
        (ItemM::Lemma(n, f), ItemM::Lemma(n2, f2)) => n2 == n && sformula_related(expands_to(ms), f, f2),
        (ItemM::Restriction(n, f), ItemM::Restriction(n2, f2)) => n2 == n && sformula_related(expands_to(ms), f, f2),
        (ItemM::LegacyAxiom(n, f), ItemM::LegacyAxiom(n2, f2)) => n2 == n && sformula_related(expands_to(ms), f, f2),
        (ItemM::Predicates(ps), ItemM::Predicates(ps2)) => ps2.len() == ps.len() && forall|i: int|
            0 <= i < ps.len() ==> sfact_related(expands_to(ms), #[trigger] ps[i].0, ps2[i].0) && sformula_related(
                expands_to(ms),
                ps[i].1,
                ps2[i].1,
            ),
        _ => it2 == it && (it is Macros || it is CaseTest || it is AccLemma),
    }
}

/// Items related pairwise by [`item_expanded`].
pub open spec fn items_expanded(ms: Seq<MacroM>, its: Seq<ItemM>, its2: Seq<ItemM>) -> bool {
    its.len() == its2.len() && forall|i: int| 0 <= i < its.len() ==> item_expanded(ms, #[trigger] its[i], its2[i])
}

// ---------------------------------------------------------------------------
// Copies
// ---------------------------------------------------------------------------

fn copy_facts(fs: &Vec<SurfaceFact>) -> (r: Vec<SurfaceFact>)
    ensures
        sfacts_m(r@) == sfacts_m(fs@),
{
    let mut out: Vec<SurfaceFact> = Vec::new();
    let mut i: usize = 0;
    while i < fs.len()
        invariant
            i <= fs@.len(),
            out@.len() == i,
            forall|j: int| 0 <= j < i ==> (#[trigger] out@[j])@ == fs@[j]@,
        decreases fs.len() - i,
    {
        out.push(fs[i].copy());
        i += 1;
    }
    assert(sfacts_m(out@) =~= sfacts_m(fs@));
    out
}

fn copy_formulas(fs: &Vec<SurfaceFormula>) -> (r: Vec<SurfaceFormula>)
    ensures
        sformulas_m(r@) == sformulas_m(fs@),
{
    let mut out: Vec<SurfaceFormula> = Vec::new();
    let mut i: usize = 0;
    while i < fs.len()
        invariant
            i <= fs@.len(),
            out@.len() == i,
            forall|j: int| 0 <= j < i ==> (#[trigger] out@[j])@ == fs@[j]@,
        decreases fs.len() - i,
    {
        out.push(fs[i].copy());
        i += 1;
    }
    assert(sformulas_m(out@) =~= sformulas_m(fs@));
    out
}

fn copy_lets(bs: &Vec<LetBinding>) -> (r: Vec<LetBinding>)
    ensures
        lets_m(r@) == lets_m(bs@),
{
    let mut out: Vec<LetBinding> = Vec::new();
    let mut i: usize = 0;
    while i < bs.len()
        invariant
            i <= bs@.len(),
            out@.len() == i,
            forall|j: int| 0 <= j < i ==> (#[trigger] out@[j]).var@ == bs@[j].var@ && out@[j].value@ == bs@[j].value@,
        decreases bs.len() - i,
    {
        out.push(LetBinding { var: bs[i].var.copy(), value: bs[i].value.copy() });
        i += 1;
    }
    assert(lets_m(out@) =~= lets_m(bs@));
    out
}

fn copy_rules(rs: &Vec<SurfaceRule>) -> (r: Vec<SurfaceRule>)
    ensures
        rules_m(r@) == rules_m(rs@),
    decreases rs,
{
    let mut out: Vec<SurfaceRule> = Vec::new();
    let mut i: usize = 0;
    while i < rs.len()
        invariant
            i <= rs@.len(),
            out@.len() == i,
            forall|j: int| 0 <= j < i ==> (#[trigger] out@[j])@ == rs@[j]@,
        decreases rs.len() - i,
    {
        out.push(rs[i].copy());
        i += 1;
    }
    assert(rules_m(out@) =~= rules_m(rs@));
    out
}

impl SurfaceRule {
    /// A deep copy of the rule.
    pub fn copy(&self) -> (r: SurfaceRule)
        ensures
            r@ == self@,
        decreases self,
    {
        SurfaceRule {
            name: self.name.clone(),
            premises: copy_facts(&self.premises),
            actions: copy_facts(&self.actions),
            conclusions: copy_facts(&self.conclusions),
            embedded_restrictions: copy_formulas(&self.embedded_restrictions),
            let_block: copy_lets(&self.let_block),
            variants: copy_rules(&self.variants),
        }
    }
}

fn copy_named(n: &NamedFormula) -> (r: NamedFormula)
    ensures
        r.name@ == n.name@,
        r.formula@ == n.formula@,
{
    NamedFormula { name: n.name.clone(), formula: n.formula.copy() }
}

fn copy_preds(ps: &Vec<Predicate>) -> (r: Vec<Predicate>)
    ensures
        preds_m(r@) == preds_m(ps@),
{
    let mut out: Vec<Predicate> = Vec::new();
    let mut i: usize = 0;
    while i < ps.len()
        invariant
            i <= ps@.len(),
            out@.len() == i,
            forall|j: int| 0 <= j < i ==> (#[trigger] out@[j]).fact@ == ps@[j].fact@ && out@[j].formula@ == ps@[j].formula@,
        decreases ps.len() - i,
    {
        out.push(Predicate { fact: ps[i].fact.copy(), formula: ps[i].formula.copy() });
        i += 1;
    }
    assert(preds_m(out@) =~= preds_m(ps@));
    out
}

impl TheoryItem {
    /// A deep copy of the item.
    pub fn copy(&self) -> (r: TheoryItem)
        ensures
            r@ == self@,
    {
        match self {
            TheoryItem::Rule(r) => TheoryItem::Rule(r.copy()),
            TheoryItem::IntrRule(r) => TheoryItem::IntrRule(r.copy()),
            TheoryItem::Lemma(n) => TheoryItem::Lemma(copy_named(n)),
            TheoryItem::Restriction(n) => TheoryItem::Restriction(copy_named(n)),
            TheoryItem::LegacyAxiom(n) => TheoryItem::LegacyAxiom(copy_named(n)),
            TheoryItem::Predicates(ps) => TheoryItem::Predicates(copy_preds(ps)),
            TheoryItem::Macros(ms) => TheoryItem::Macros(copy_macros(ms)),
            TheoryItem::CaseTest(n) => TheoryItem::CaseTest(copy_named(n)),
            TheoryItem::AccLemma(n) => TheoryItem::AccLemma(copy_named(n)),
        }
    }
}

fn copy_items(its: &Vec<TheoryItem>) -> (r: Vec<TheoryItem>)
    ensures
        items_m(r@) == items_m(its@),
{
    let mut out: Vec<TheoryItem> = Vec::new();
    let mut i: usize = 0;
    while i < its.len()
        invariant
            i <= its@.len(),
            out@.len() == i,
            forall|j: int| 0 <= j < i ==> (#[trigger] out@[j])@ == its@[j]@,
        decreases its.len() - i,
    {
        out.push(its[i].copy());
        i += 1;
    }
    assert(items_m(out@) =~= items_m(its@));
    out
}

// ---------------------------------------------------------------------------
// Expanding the macros of a theory
// ---------------------------------------------------------------------------

/// The macros the items declare, in the order of their declarations.
fn collect_macros(items: &Vec<TheoryItem>) -> (r: Vec<Macro>)
    ensures
        macros_m(r@) == theory_macros(items_m(items@)),
{
    let ghost im = items_m(items@);
    let mut out: Vec<Macro> = Vec::new();
    let mut i: usize = 0;
    assert(im.take(0) =~= Seq::<ItemM>::empty());
    assert(macros_m(out@) =~= Seq::<MacroM>::empty());
    while i < items.len()
        invariant
            i <= items@.len(),
            im == items_m(items@),
            macros_m(out@) == theory_macros(im.take(i as int)),
        decreases items.len() - i,
    {
        assert(im.take(i + 1).drop_last() =~= im.take(i as int));
        assert(im.take(i + 1).last() == items@[i as int]@);
        match &items[i] {
            TheoryItem::Macros(ms) => {
                let ghost before = macros_m(out@);
                let mut j: usize = 0;
                while j < ms.len()
                    invariant
                        j <= ms@.len(),
                        out@.len() == before.len() + j,
                        macros_m(out@) == before + macros_m(ms@).take(j as int),
                    decreases ms.len() - j,
                {
                    let ghost prev = out@;
                    out.push(ms[j].copy());
                    assert forall|k: int| 0 <= k < out@.len() implies #[trigger] macros_m(out@)[k] == (before
                        + macros_m(ms@).take(j + 1))[k] by {
                        if k < prev.len() {
                            assert(out@[k] == prev[k]);
                            assert(macros_m(prev)[k] == prev[k]@);
                        } else {
                            assert(k == prev.len());
                            assert(macros_m(out@)[k] == out@[k]@);
                            assert(macros_m(ms@)[j as int] == ms@[j as int]@);
                        }
                    }
                    assert(macros_m(out@) =~= before + macros_m(ms@).take(j + 1));
                    j += 1;
                }
                assert(macros_m(ms@).take(ms@.len() as int) =~= macros_m(ms@));
            },
            _ => {
                assert(macros_m(out@) =~= theory_macros(im.take(i as int)) + Seq::<MacroM>::empty());
            },
        }
        i += 1;
    }
    assert(im.take(items@.len() as int) =~= im);
    out
}

fn expand_facts(macros: &Vec<Macro>, fs: &Vec<SurfaceFact>) -> (r: Vec<SurfaceFact>)
    requires
        exists|rk: Seq<nat>| ranked(macros_m(macros@), rk),
    ensures
        facts_expanded(macros_m(macros@), sfacts_m(fs@), sfacts_m(r@)),
{
    let mut out: Vec<SurfaceFact> = Vec::new();
    let mut i: usize = 0;
    while i < fs.len()
        invariant
            i <= fs@.len(),
            out@.len() == i,
            exists|rk: Seq<nat>| ranked(macros_m(macros@), rk),
            forall|j: int| 0 <= j < i ==> sfact_related(expands_to(macros_m(macros@)), #[trigger] fs@[j]@, out@[j]@),
        decreases fs.len() - i,
    {
        out.push(apply_macros_fact(macros, &fs[i]));
        i += 1;
    }
    assert forall|j: int| 0 <= j < fs@.len() implies sfact_related(
        expands_to(macros_m(macros@)),
        #[trigger] sfacts_m(fs@)[j],
        sfacts_m(out@)[j],
    ) by {
        assert(sfact_related(expands_to(macros_m(macros@)), fs@[j]@, out@[j]@));
    }
    out
}

fn expand_formulas(macros: &Vec<Macro>, fs: &Vec<SurfaceFormula>) -> (r: Vec<SurfaceFormula>)
    requires
        exists|rk: Seq<nat>| ranked(macros_m(macros@), rk),
    ensures
        formulas_expanded(macros_m(macros@), sformulas_m(fs@), sformulas_m(r@)),
{
    let mut out: Vec<SurfaceFormula> = Vec::new();
    let mut i: usize = 0;
    while i < fs.len()
        invariant
            i <= fs@.len(),
            out@.len() == i,
            exists|rk: Seq<nat>| ranked(macros_m(macros@), rk),
            forall|j: int|
                0 <= j < i ==> sformula_related(expands_to(macros_m(macros@)), #[trigger] fs@[j]@, out@[j]@),
        decreases fs.len() - i,
    {
        out.push(apply_macros_formula(macros, &fs[i]));
        i += 1;
    }
    assert forall|j: int| 0 <= j < fs@.len() implies sformula_related(
        expands_to(macros_m(macros@)),
        #[trigger] sformulas_m(fs@)[j],
        sformulas_m(out@)[j],
    ) by {
        assert(sformula_related(expands_to(macros_m(macros@)), fs@[j]@, out@[j]@));
    }
    out
}

/// The macros expanded in a rule (see [`rule_expanded`]); its written
/// variants are kept as they are.
fn expand_rule(macros: &Vec<Macro>, r: SurfaceRule) -> (out: SurfaceRule)
    requires
        exists|rk: Seq<nat>| ranked(macros_m(macros@), rk),
    ensures
        rule_expanded(macros_m(macros@), r@, out@),
{
    let ghost ms = macros_m(macros@);
    let mut lets: Vec<LetBinding> = Vec::new();
    let mut i: usize = 0;
    while i < r.let_block.len()
        invariant
            i <= r.let_block@.len(),
            lets@.len() == i,
            ms == macros_m(macros@),
            exists|rk: Seq<nat>| ranked(macros_m(macros@), rk),
            forall|j: int|
                0 <= j < i ==> (#[trigger] lets@[j]).var@ == apply_macros_m(ms, r.let_block@[j].var@)
                    && lets@[j].value@ == apply_macros_m(ms, r.let_block@[j].value@),
        decreases r.let_block.len() - i,
    {
        let value = apply_macros_term(macros, &r.let_block[i].value);
        let var = apply_macros_term(macros, &r.let_block[i].var);
        lets.push(LetBinding { var, value });
        i += 1;
    }
    let premises = expand_facts(macros, &r.premises);
    let actions = expand_facts(macros, &r.actions);
    let conclusions = expand_facts(macros, &r.conclusions);
    let embedded_restrictions = expand_formulas(macros, &r.embedded_restrictions);
    let ghost rm = r@;
    let out = SurfaceRule {
        name: r.name,
        premises,
        actions,
        conclusions,
        embedded_restrictions,
        let_block: lets,
        variants: r.variants,
    };
    assert(out@.variants == rm.variants);
    assert forall|j: int| 0 <= j < rm.lets.len() implies #[trigger] out@.lets[j] == (apply_macros_m(ms, rm.lets[j].0), apply_macros_m(ms, rm.lets[j].1)) by {
        assert(out@.lets[j] == (out.let_block@[j].var@, out.let_block@[j].value@));
    }
    out
}

fn expand_named(macros: &Vec<Macro>, n: NamedFormula) -> (r: NamedFormula)
    requires
        exists|rk: Seq<nat>| ranked(macros_m(macros@), rk),
    ensures
        r.name@ == n.name@,
        sformula_related(expands_to(macros_m(macros@)), n.formula@, r.formula@),
{
    let formula = apply_macros_formula(macros, &n.formula);
    NamedFormula { name: n.name, formula }
}

/// The macros expanded in one item (see [`item_expanded`]).
fn expand_item(macros: &Vec<Macro>, it: TheoryItem) -> (r: TheoryItem)
    requires
        exists|rk: Seq<nat>| ranked(macros_m(macros@), rk),
    ensures
        item_expanded(macros_m(macros@), it@, r@),
{
    let ghost ms = macros_m(macros@);
    match it {
        TheoryItem::Rule(r) => TheoryItem::Rule(expand_rule(macros, r)),
        TheoryItem::IntrRule(r) => TheoryItem::IntrRule(expand_rule(macros, r)),
        TheoryItem::Lemma(n) => TheoryItem::Lemma(expand_named(macros, n)),
        TheoryItem::Restriction(n) => TheoryItem::Restriction(expand_named(macros, n)),
        TheoryItem::LegacyAxiom(n) => TheoryItem::LegacyAxiom(expand_named(macros, n)),
        TheoryItem::Predicates(ps) => {
            let mut out: Vec<Predicate> = Vec::new();
            let mut i: usize = 0;
            while i < ps.len()
                invariant
                    i <= ps@.len(),
                    out@.len() == i,
                    ms == macros_m(macros@),
                    exists|rk: Seq<nat>| ranked(macros_m(macros@), rk),
                    forall|j: int|
                        0 <= j < i ==> sfact_related(expands_to(ms), #[trigger] ps@[j].fact@, out@[j].fact@)
                            && sformula_related(expands_to(ms), ps@[j].formula@, out@[j].formula@),
                decreases ps.len() - i,
            {
                let formula = apply_macros_formula(macros, &ps[i].formula);
                let fact = apply_macros_fact(macros, &ps[i].fact);
                out.push(Predicate { fact, formula });
                i += 1;
            }
            let ghost pm = preds_m(ps@);
            let r = TheoryItem::Predicates(out);
            assert forall|j: int| 0 <= j < pm.len() implies sfact_related(expands_to(ms), #[trigger] pm[j].0, preds_m(out@)[j].0)
                && sformula_related(expands_to(ms), pm[j].1, preds_m(out@)[j].1) by {
                assert(sfact_related(expands_to(ms), ps@[j].fact@, out@[j].fact@));
            }
            r
        },
        TheoryItem::Macros(m) => TheoryItem::Macros(m),
        TheoryItem::CaseTest(n) => TheoryItem::CaseTest(n),
        TheoryItem::AccLemma(n) => TheoryItem::AccLemma(n),
    }
}

/// The macros expanded in every item, in order.
fn expand_items(macros: &Vec<Macro>, items: Vec<TheoryItem>) -> (r: Vec<TheoryItem>)
    requires
        exists|rk: Seq<nat>| ranked(macros_m(macros@), rk),
    ensures
        items_expanded(macros_m(macros@), items_m(items@), items_m(r@)),
{
    let ghost ms = macros_m(macros@);
    let ghost orig = items@;
    let mut rest = items;
    let mut rev: Vec<TheoryItem> = Vec::new();
    while rest.len() > 0
        invariant
            ms == macros_m(macros@),
            exists|rk: Seq<nat>| ranked(macros_m(macros@), rk),
            rest@.len() + rev@.len() == orig.len(),
            forall|j: int| 0 <= j < rest@.len() ==> #[trigger] rest@[j] == orig[j],
            forall|j: int|
                0 <= j < rev@.len() ==> item_expanded(ms, orig[orig.len() - 1 - j]@, (#[trigger] rev@[j])@),
        decreases rest@.len(),
    {
        let ghost k = rest@.len() - 1;
        let it = rest.pop().unwrap();
        assert(it == orig[k]);
        rev.push(expand_item(macros, it));
    }
    let mut out: Vec<TheoryItem> = Vec::new();
    while rev.len() > 0
        invariant
            ms == macros_m(macros@),
            out@.len() + rev@.len() == orig.len(),
            forall|j: int|
                0 <= j < rev@.len() ==> item_expanded(ms, orig[orig.len() - 1 - j]@, (#[trigger] rev@[j])@),
            forall|j: int| 0 <= j < out@.len() ==> item_expanded(ms, orig[j]@, (#[trigger] out@[j])@),
        decreases rev@.len(),
    {
        let ghost k = rev@.len() - 1;
        let it = rev.pop().unwrap();
        assert(item_expanded(ms, orig[orig.len() - 1 - k]@, it@));
        out.push(it);
    }
    assert forall|j: int| 0 <= j < orig.len() implies item_expanded(ms, #[trigger] items_m(orig)[j], items_m(out@)[j]) by {
        assert(item_expanded(ms, orig[j]@, out@[j]@));
    }
    out
}

/// Expand the theory's macros, collected from its macro declarations in
/// order, in every rule, lemma, restriction and predicate (see
/// [`item_expanded`]); a theory that declares no macro stays as it is.  The
/// macros may not call each other in a cycle, which would not end.
pub fn expand_theory_macros(thy: &mut SurfaceTheory)
    requires
        exists|rk: Seq<nat>| ranked(theory_macros(items_m(old(thy).items@)), rk),
    ensures
        final(thy).name@ == old(thy).name@,
        theory_macros(items_m(old(thy).items@)).len() == 0 ==> items_m(final(thy).items@) == items_m(
            old(thy).items@,
        ),
        theory_macros(items_m(old(thy).items@)).len() > 0 ==> items_expanded(
            theory_macros(items_m(old(thy).items@)),
            items_m(old(thy).items@),
            items_m(final(thy).items@),
        ),
{
    let macros = collect_macros(&thy.items);
    if macros.len() == 0 {
        return;
    }
    let mut items: Vec<TheoryItem> = Vec::new();
    std::mem::swap(&mut items, &mut thy.items);
    thy.items = expand_items(&macros, items);
}

/// A copy of the theory with its macros expanded (see
/// [`expand_theory_macros`]).
pub fn macro_expanded_clone(parsed: &SurfaceTheory) -> (r: SurfaceTheory)
    requires
        exists|rk: Seq<nat>| ranked(theory_macros(items_m(parsed.items@)), rk),
    ensures
        r.name@ == parsed.name@,
        theory_macros(items_m(parsed.items@)).len() == 0 ==> items_m(r.items@) == items_m(parsed.items@),
        theory_macros(items_m(parsed.items@)).len() > 0 ==> items_expanded(
            theory_macros(items_m(parsed.items@)),
            items_m(parsed.items@),
            items_m(r.items@),
        ),
{
    let mut t = SurfaceTheory { name: parsed.name.clone(), items: copy_items(&parsed.items) };
    assert(theory_macros(items_m(t.items@)) == theory_macros(items_m(parsed.items@)));
    expand_theory_macros(&mut t);
    t
}

} // verus!
