//! The message-deduction rules of the intruder: the rules every theory
//! has, the rules of the built-in multiset, exclusive-or and natural-number
//! theories, the constructor rules of a signature, the destructor rules a
//! subterm rewrite rule gives, and the reading of destructor rule names.
use vstd::prelude::*;
use crate::term::{LSort, LVar, LVarM, BVar, BVarM, Term, TermM, Fact, FactM, FactTag, FactTagM, FunSym, FunSymM, AcSym, AcSymM, CSym, SymInfo, SymInfoM, Privacy, Constructability, terms_m, copy_terms, decimal, push_decimal, term_frees, collect_term_frees, lvars_m, same_terms};

verus! {

broadcast use vstd::std_specs::vec::group_vec_axioms;

// ---------------------------------------------------------------------------
// Rules
// ---------------------------------------------------------------------------

/// What an intruder rule is: a constructor of a function symbol; a
/// destructor (its name, how often it may still be applied, whether its
/// conclusion is a subterm of its first premise and whether it is ground,
/// and the function symbols it takes apart); or one of the special rules.
#[derive(Debug)]
pub enum IntrRuleACInfo {
    ConstrRule(String, FunSym),
    DestrRule(String, i64, bool, bool, Vec<FunSym>),
    Coerce,
    PubConstr,
    NatConstr,
    FreshConstr,
    ISend,
    IRecv,
    IEquality,
}

pub enum IntrRuleACInfoM {
    ConstrRule(Seq<char>, FunSymM),
    DestrRule(Seq<char>, i64, bool, bool, Seq<FunSymM>),
    Coerce,
    PubConstr,
    NatConstr,
    FreshConstr,
    ISend,
    IRecv,
    IEquality,
}

/// The models of a sequence of function symbols.
pub open spec fn funsyms_m(fs: Seq<FunSym>) -> Seq<FunSymM> {
    Seq::new(fs.len(), |i: int| fs[i]@)
}

impl IntrRuleACInfo {
    pub open spec fn view(&self) -> IntrRuleACInfoM {
        match self {
            IntrRuleACInfo::ConstrRule(n, f) => IntrRuleACInfoM::ConstrRule(n@, f@),
            IntrRuleACInfo::DestrRule(n, k, s, c, fs) => IntrRuleACInfoM::DestrRule(
                n@,
                *k,
                *s,
                *c,
                funsyms_m(fs@),
            ),
            IntrRuleACInfo::Coerce => IntrRuleACInfoM::Coerce,
            IntrRuleACInfo::PubConstr => IntrRuleACInfoM::PubConstr,
            IntrRuleACInfo::NatConstr => IntrRuleACInfoM::NatConstr,
            IntrRuleACInfo::FreshConstr => IntrRuleACInfoM::FreshConstr,
            IntrRuleACInfo::ISend => IntrRuleACInfoM::ISend,
            IntrRuleACInfo::IRecv => IntrRuleACInfoM::IRecv,
            IntrRuleACInfo::IEquality => IntrRuleACInfoM::IEquality,
        }
    }
}

/// An intruder rule: premises, conclusions and actions, and the variables
/// the conclusions introduce.
#[derive(Debug)]
pub struct IntrRuleAC {
    pub info: IntrRuleACInfo,
    pub premises: Vec<Fact>,
    pub conclusions: Vec<Fact>,
    pub actions: Vec<Fact>,
    pub new_vars: Vec<Term>,
}

pub struct IntrRuleACM {
    pub info: IntrRuleACInfoM,
    pub premises: Seq<FactM>,
    pub conclusions: Seq<FactM>,
    pub actions: Seq<FactM>,
    pub new_vars: Seq<TermM>,
}

/// The models of a sequence of facts.
pub open spec fn facts_m(xs: Seq<Fact>) -> Seq<FactM> {
    Seq::new(xs.len(), |i: int| xs[i]@)
}

/// The models of a sequence of rules.
pub open spec fn rules_m(xs: Seq<IntrRuleAC>) -> Seq<IntrRuleACM> {
    Seq::new(xs.len(), |i: int| xs[i]@)
}

impl IntrRuleAC {
    pub open spec fn view(&self) -> IntrRuleACM {
        IntrRuleACM {
            info: self.info@,
            premises: facts_m(self.premises@),
            conclusions: facts_m(self.conclusions@),
            actions: facts_m(self.actions@),
            new_vars: terms_m(self.new_vars@),
        }
    }

    /// A rule that introduces no variables.
    pub fn new(info: IntrRuleACInfo, premises: Vec<Fact>, conclusions: Vec<Fact>, actions: Vec<Fact>) -> (r:
        IntrRuleAC)
        ensures
            r@ == (IntrRuleACM {
                info: info@,
                premises: facts_m(premises@),
                conclusions: facts_m(conclusions@),
                actions: facts_m(actions@),
                new_vars: Seq::empty(),
            }),
    {
        let r = IntrRuleAC { info, premises, conclusions, actions, new_vars: Vec::new() };
        assert(terms_m(r.new_vars@) =~= Seq::<TermM>::empty());
        r
    }
}

/// The model of a rule.
pub open spec fn rule_m(
    info: IntrRuleACInfoM,
    premises: Seq<FactM>,
    conclusions: Seq<FactM>,
    actions: Seq<FactM>,
    new_vars: Seq<TermM>,
) -> IntrRuleACM {
    IntrRuleACM { info, premises, conclusions, actions, new_vars }
}

// ---------------------------------------------------------------------------
// Terms and facts of the rules
// ---------------------------------------------------------------------------

/// The variable `name` of sort `sort` with index `idx`, as a term.
pub open spec fn var_m(name: Seq<char>, sort: LSort, idx: u64) -> TermM {
    TermM::Var(BVarM::Free(LVarM { name, sort, idx }))
}

/// A fact with one term.
pub open spec fn fact1_m(tag: FactTagM, t: TermM) -> FactM {
    FactM { tag, terms: seq![t] }
}

/// The variable `name` of sort `sort` with index `idx`, as a term.
pub fn var_t(name: &str, sort: LSort, idx: u64) -> (r: Term)
    ensures
        r@ == var_m(name@, sort, idx),
{
    Term::Var(BVar::Free(LVar::new(name, sort, idx)))
}

fn fact1(tag: FactTag, t: Term) -> (r: Fact)
    ensures
        r@ == fact1_m(tag@, t@),
{
    let mut terms: Vec<Term> = Vec::new();
    terms.push(t);
    let r = Fact { tag, terms };
    assert(terms_m(r.terms@) =~= seq![t@]);
    r
}

/// `KU(t)`: the intruder can construct `t`.
pub fn ku_fact(t: Term) -> (r: Fact)
    ensures
        r@ == fact1_m(FactTagM::Ku, t@),
{
    fact1(FactTag::Ku, t)
}

/// `KD(t)`: the intruder has deconstructed `t`.
pub fn kd_fact(t: Term) -> (r: Fact)
    ensures
        r@ == fact1_m(FactTagM::Kd, t@),
{
    fact1(FactTag::Kd, t)
}

/// `Fr(t)`.
pub fn fresh_fact(t: Term) -> (r: Fact)
    ensures
        r@ == fact1_m(FactTagM::Fresh, t@),
{
    fact1(FactTag::Fresh, t)
}

/// `In(t)`.
pub fn in_fact(t: Term) -> (r: Fact)
    ensures
        r@ == fact1_m(FactTagM::In, t@),
{
    fact1(FactTag::In, t)
}

/// `Out(t)`.
pub fn out_fact(t: Term) -> (r: Fact)
    ensures
        r@ == fact1_m(FactTagM::Out, t@),
{
    fact1(FactTag::Out, t)
}

/// `K(t)`, the action of the intruder's send rule.
pub fn k_log_fact(t: Term) -> (r: Fact)
    ensures
        r@ == fact1_m(FactTagM::KLog, t@),
{
    fact1(FactTag::KLog, t)
}

pub(crate) fn facts1(a: Fact) -> (r: Vec<Fact>)
    ensures
        facts_m(r@) == seq![a@],
{
    let mut v: Vec<Fact> = Vec::new();
    v.push(a);
    assert(facts_m(v@) =~= seq![a@]);
    v
}

fn facts2(a: Fact, b: Fact) -> (r: Vec<Fact>)
    ensures
        facts_m(r@) == seq![a@, b@],
{
    let mut v: Vec<Fact> = Vec::new();
    v.push(a);
    v.push(b);
    assert(facts_m(v@) =~= seq![a@, b@]);
    v
}

pub(crate) fn no_facts() -> (r: Vec<Fact>)
    ensures
        facts_m(r@) == Seq::<FactM>::empty(),
{
    let v: Vec<Fact> = Vec::new();
    assert(facts_m(v@) =~= Seq::<FactM>::empty());
    v
}

pub(crate) fn no_terms() -> (r: Vec<Term>)
    ensures
        terms_m(r@) == Seq::<TermM>::empty(),
{
    let v: Vec<Term> = Vec::new();
    assert(terms_m(v@) =~= Seq::<TermM>::empty());
    v
}

fn terms1(t: Term) -> (r: Vec<Term>)
    ensures
        terms_m(r@) == seq![t@],
{
    let mut v: Vec<Term> = Vec::new();
    v.push(t);
    assert(terms_m(v@) =~= seq![t@]);
    v
}

// ---------------------------------------------------------------------------
// The special rules
// ---------------------------------------------------------------------------

/// A rule that logs and concludes `KU(t)`.
pub open spec fn ku_rule_m(info: IntrRuleACInfoM, prems: Seq<FactM>, t: TermM, nvs: Seq<TermM>) -> IntrRuleACM {
    rule_m(info, prems, seq![fact1_m(FactTagM::Ku, t)], seq![fact1_m(FactTagM::Ku, t)], nvs)
}

/// The rules every theory has: coerce `[KD(x)] --[KU(x)]-> [KU(x)]`, the
/// public names `[] --[KU($x)]-> [KU($x)]`, the fresh names
/// `[Fr(~x)] --[KU(~x)]-> [KU(~x)]`, sending `[KU(x)] --[K(x)]-> [In(x)]`
/// and receiving `[Out(x)] --> [KD(x)]`; with `diff` also the equality
/// rule `[KU(x), KD(x)] --> []`.
pub open spec fn special_rules_m(diff: bool) -> Seq<IntrRuleACM> {
    let x = var_m("x"@, LSort::Msg, 0);
    let xp = var_m("x"@, LSort::Pub, 0);
    let xf = var_m("x"@, LSort::Fresh, 0);
    seq![
        ku_rule_m(IntrRuleACInfoM::Coerce, seq![fact1_m(FactTagM::Kd, x)], x, Seq::empty()),
        ku_rule_m(IntrRuleACInfoM::PubConstr, Seq::empty(), xp, seq![xp]),
        ku_rule_m(IntrRuleACInfoM::FreshConstr, seq![fact1_m(FactTagM::Fresh, xf)], xf, Seq::empty()),
        rule_m(
            IntrRuleACInfoM::ISend,
            seq![fact1_m(FactTagM::Ku, x)],
            seq![fact1_m(FactTagM::In, x)],
            seq![fact1_m(FactTagM::KLog, x)],
            Seq::empty(),
        ),
        rule_m(
            IntrRuleACInfoM::IRecv,
            seq![fact1_m(FactTagM::Out, x)],
            seq![fact1_m(FactTagM::Kd, x)],
            Seq::empty(),
            Seq::empty(),
        ),
    ] + if diff {
        seq![
            rule_m(
                IntrRuleACInfoM::IEquality,
                seq![fact1_m(FactTagM::Ku, x), fact1_m(FactTagM::Kd, x)],
                Seq::empty(),
                Seq::empty(),
                Seq::empty(),
            ),
        ]
    } else {
        Seq::empty()
    }
}

fn ku_rule(info: IntrRuleACInfo, prems: Vec<Fact>, t: &Term, nvs: Vec<Term>) -> (r: IntrRuleAC)
    ensures
        r@ == ku_rule_m(info@, facts_m(prems@), t@, terms_m(nvs@)),
{
    let mut r = IntrRuleAC::new(info, prems, facts1(ku_fact(t.copy())), facts1(ku_fact(t.copy())));
    r.new_vars = nvs;
    r
}

/// The rules every theory has (see [`special_rules_m`]).
pub fn special_intruder_rules(diff: bool) -> (r: Vec<IntrRuleAC>)
    ensures
        rules_m(r@) == special_rules_m(diff),
{
    let x = var_t("x", LSort::Msg, 0);
    let x_pub = var_t("x", LSort::Pub, 0);
    let x_fresh = var_t("x", LSort::Fresh, 0);
    let mut out: Vec<IntrRuleAC> = Vec::new();
    out.push(ku_rule(IntrRuleACInfo::Coerce, facts1(kd_fact(x.copy())), &x, no_terms()));
    out.push(ku_rule(IntrRuleACInfo::PubConstr, no_facts(), &x_pub, terms1(x_pub.copy())));
    out.push(ku_rule(IntrRuleACInfo::FreshConstr, facts1(fresh_fact(x_fresh.copy())), &x_fresh, no_terms()));
    out.push(IntrRuleAC::new(
        IntrRuleACInfo::ISend,
        facts1(ku_fact(x.copy())),
        facts1(in_fact(x.copy())),
        facts1(k_log_fact(x.copy())),
    ));
    out.push(IntrRuleAC::new(
        IntrRuleACInfo::IRecv,
        facts1(out_fact(x.copy())),
        facts1(kd_fact(x.copy())),
        no_facts(),
    ));
    if diff {
        out.push(IntrRuleAC::new(
            IntrRuleACInfo::IEquality,
            facts2(ku_fact(x.copy()), kd_fact(x.copy())),
            no_facts(),
            no_facts(),
        ));
    }
    assert(rules_m(out@) =~= special_rules_m(diff));
    out
}

/// The constructor rule of natural numbers: `[] --[KU(%x)]-> [KU(%x)]`,
/// the number a new variable.
pub open spec fn nat_rules_m() -> Seq<IntrRuleACM> {
    let x = var_m("x"@, LSort::Nat, 0);
    seq![ku_rule_m(IntrRuleACInfoM::NatConstr, Seq::empty(), x, seq![x])]
}

/// The constructor rule of natural numbers (see [`nat_rules_m`]).
pub fn nat_intruder_rules() -> (r: Vec<IntrRuleAC>)
    ensures
        rules_m(r@) == nat_rules_m(),
{
    let x_nat = var_t("x", LSort::Nat, 0);
    let mut out: Vec<IntrRuleAC> = Vec::new();
    out.push(ku_rule(IntrRuleACInfo::NatConstr, no_facts(), &x_nat, terms1(x_nat.copy())));
    assert(rules_m(out@) =~= nat_rules_m());
    out
}

/// A symbol name with an underscore in front, as rule names carry it.
pub fn underscore_prefixed(sym: &str) -> (r: String)
    ensures
        r@ == seq!['_'] + sym@,
{
    let mut n = String::new();
    proof {
        reveal_strlit("_");
    }
    n.append("_");
    n.append(sym);
    n
}

/// The constructor rule named after `sym` for the function `f`.
pub fn intr_constr_info(sym: &str, f: FunSym) -> (r: IntrRuleACInfo)
    ensures
        r@ == IntrRuleACInfoM::ConstrRule(seq!['_'] + sym@, f@),
{
    IntrRuleACInfo::ConstrRule(underscore_prefixed(sym), f)
}

/// The destructor rule named after `sym` taking apart `funs`: budget 0,
/// the conclusion a subterm, not ground.
pub fn intr_destr_info(sym: &str, funs: Vec<FunSym>) -> (r: IntrRuleACInfo)
    ensures
        r@ == IntrRuleACInfoM::DestrRule(seq!['_'] + sym@, 0, true, false, funsyms_m(funs@)),
{
    IntrRuleACInfo::DestrRule(underscore_prefixed(sym), 0, true, false, funs)
}

/// The action of a constructor rule: the conclusion itself.
pub fn intr_mk_singleton(f: Fact) -> (r: Vec<Fact>)
    ensures
        facts_m(r@) == seq![f@],
{
    facts1(f)
}

/// The action of a destructor rule: none.
pub fn intr_mk_empty(f: Fact) -> (r: Vec<Fact>)
    ensures
        facts_m(r@) == Seq::<FactM>::empty(),
{
    no_facts()
}

/// A binary application.
pub open spec fn app2_m(f: FunSymM, a: TermM, b: TermM) -> TermM {
    TermM::App(f, seq![a, b])
}

fn app2(f: FunSym, a: Term, b: Term) -> (r: Term)
    ensures
        r@ == app2_m(f@, a@, b@),
{
    let mut args: Vec<Term> = Vec::new();
    args.push(a);
    args.push(b);
    assert(terms_m(args@) =~= seq![a@, b@]);
    Term::App(f, args)
}

/// The multiset rules: the destructor `[KD(x ++ y)] --> [KD(x)]` and the
/// constructor `[KU(x), KU(y)] --[KU(x ++ y)]-> [KU(x ++ y)]`, both named
/// `_union`.
pub open spec fn multiset_rules_m() -> Seq<IntrRuleACM> {
    let x = var_m("x"@, LSort::Msg, 0);
    let y = var_m("y"@, LSort::Msg, 0);
    let u = FunSymM::Ac(AcSymM::Union);
    let xy = app2_m(u, x, y);
    let name = seq!['_'] + "union"@;
    seq![
        rule_m(
            IntrRuleACInfoM::DestrRule(name, 0, true, false, seq![u]),
            seq![fact1_m(FactTagM::Kd, xy)],
            seq![fact1_m(FactTagM::Kd, x)],
            Seq::empty(),
            Seq::empty(),
        ),
        rule_m(
            IntrRuleACInfoM::ConstrRule(name, u),
            seq![fact1_m(FactTagM::Ku, x), fact1_m(FactTagM::Ku, y)],
            seq![fact1_m(FactTagM::Ku, xy)],
            seq![fact1_m(FactTagM::Ku, xy)],
            Seq::empty(),
        ),
    ]
}

fn single_funsym(f: FunSym) -> (r: Vec<FunSym>)
    ensures
        funsyms_m(r@) == seq![f@],
{
    let mut v: Vec<FunSym> = Vec::new();
    v.push(f);
    assert(funsyms_m(v@) =~= seq![f@]);
    v
}

/// The multiset rules (see [`multiset_rules_m`]).
pub fn multiset_intruder_rules() -> (r: Vec<IntrRuleAC>)
    ensures
        rules_m(r@) == multiset_rules_m(),
{
    let x = var_t("x", LSort::Msg, 0);
    let y = var_t("y", LSort::Msg, 0);
    let xy = app2(FunSym::Ac(AcSym::Union), x.copy(), y.copy());
    let mut out: Vec<IntrRuleAC> = Vec::new();
    out.push(IntrRuleAC::new(
        intr_destr_info("union", single_funsym(FunSym::Ac(AcSym::Union))),
        facts1(kd_fact(xy.copy())),
        facts1(kd_fact(x.copy())),
        no_facts(),
    ));
    out.push(IntrRuleAC::new(
        intr_constr_info("union", FunSym::Ac(AcSym::Union)),
        facts2(ku_fact(x), ku_fact(y)),
        facts1(ku_fact(xy.copy())),
        facts1(ku_fact(xy)),
    ));
    assert(rules_m(out@) =~= multiset_rules_m());
    out
}

/// The symbol `zero` of exclusive-or: a public constant.
pub open spec fn zero_sym_m() -> SymInfoM {
    SymInfoM { name: "zero"@, arity: 0, privacy: Privacy::Public, constructability: Constructability::Constructor }
}

/// The exclusive-or rules, all named `_xor` but the last:
/// `[KD(x XOR y), KU(y XOR z)] --> [KD(x XOR z)]` (budget 1, not a
/// subterm), `[KD(x XOR y), KU(y)] --> [KD(x)]` (budget 1, a subterm),
/// the constructor `[KU(x), KU(y)] --[KU(x XOR y)]-> [KU(x XOR y)]` and
/// the constructor `_zero` of `zero`.
pub open spec fn xor_rules_m() -> Seq<IntrRuleACM> {
    let x = var_m("x"@, LSort::Msg, 0);
    let y = var_m("y"@, LSort::Msg, 0);
    let z = var_m("z"@, LSort::Msg, 0);
    let xo = FunSymM::Ac(AcSymM::Xor);
    let xy = app2_m(xo, x, y);
    let xz = app2_m(xo, x, z);
    let yz = app2_m(xo, y, z);
    let name = seq!['_'] + "xor"@;
    let zero = TermM::App(FunSymM::NoEq(zero_sym_m()), Seq::empty());
    seq![
        rule_m(
            IntrRuleACInfoM::DestrRule(name, 1, false, false, seq![xo]),
            seq![fact1_m(FactTagM::Kd, xy), fact1_m(FactTagM::Ku, yz)],
            seq![fact1_m(FactTagM::Kd, xz)],
            Seq::empty(),
            Seq::empty(),
        ),
        rule_m(
            IntrRuleACInfoM::DestrRule(name, 1, true, false, seq![xo]),
            seq![fact1_m(FactTagM::Kd, xy), fact1_m(FactTagM::Ku, y)],
            seq![fact1_m(FactTagM::Kd, x)],
            Seq::empty(),
            Seq::empty(),
        ),
        rule_m(
            IntrRuleACInfoM::ConstrRule(name, xo),
            seq![fact1_m(FactTagM::Ku, x), fact1_m(FactTagM::Ku, y)],
            seq![fact1_m(FactTagM::Ku, xy)],
            seq![fact1_m(FactTagM::Ku, xy)],
            Seq::empty(),
        ),
        rule_m(
            IntrRuleACInfoM::ConstrRule(seq!['_'] + "zero"@, FunSymM::NoEq(zero_sym_m())),
            Seq::empty(),
            seq![fact1_m(FactTagM::Ku, zero)],
            seq![fact1_m(FactTagM::Ku, zero)],
            Seq::empty(),
        ),
    ]
}

fn zero_sym() -> (r: SymInfo)
    ensures
        r@ == zero_sym_m(),
{
    SymInfo {
        name: "zero".to_string(),
        arity: 0,
        privacy: Privacy::Public,
        constructability: Constructability::Constructor,
    }
}

/// The exclusive-or rules (see [`xor_rules_m`]).
pub fn xor_intruder_rules() -> (r: Vec<IntrRuleAC>)
    ensures
        rules_m(r@) == xor_rules_m(),
{
    let x = var_t("x", LSort::Msg, 0);
    let y = var_t("y", LSort::Msg, 0);
    let z = var_t("z", LSort::Msg, 0);
    let x_xor_y = app2(FunSym::Ac(AcSym::Xor), x.copy(), y.copy());
    let x_xor_z = app2(FunSym::Ac(AcSym::Xor), x.copy(), z.copy());
    let y_xor_z = app2(FunSym::Ac(AcSym::Xor), y.copy(), z.copy());
    let name = underscore_prefixed("xor");
    let mut out: Vec<IntrRuleAC> = Vec::new();
    out.push(IntrRuleAC::new(
        IntrRuleACInfo::DestrRule(name.clone(), 1, false, false, single_funsym(FunSym::Ac(AcSym::Xor))),
        facts2(kd_fact(x_xor_y.copy()), ku_fact(y_xor_z)),
        facts1(kd_fact(x_xor_z)),
        no_facts(),
    ));
    out.push(IntrRuleAC::new(
        IntrRuleACInfo::DestrRule(name.clone(), 1, true, false, single_funsym(FunSym::Ac(AcSym::Xor))),
        facts2(kd_fact(x_xor_y.copy()), ku_fact(y.copy())),
        facts1(kd_fact(x.copy())),
        no_facts(),
    ));
    out.push(IntrRuleAC::new(
        IntrRuleACInfo::ConstrRule(name, FunSym::Ac(AcSym::Xor)),
        facts2(ku_fact(x), ku_fact(y)),
        facts1(ku_fact(x_xor_y.copy())),
        facts1(ku_fact(x_xor_y)),
    ));
    let no_args: Vec<Term> = Vec::new();
    assert(terms_m(no_args@) =~= Seq::<TermM>::empty());
    let zero_term = Term::App(FunSym::NoEq(zero_sym()), no_args);
    out.push(IntrRuleAC::new(
        intr_constr_info("zero", FunSym::NoEq(zero_sym())),
        no_facts(),
        facts1(ku_fact(zero_term.copy())),
        facts1(ku_fact(zero_term)),
    ));
    assert(rules_m(out@) =~= xor_rules_m());
    out
}

/// The plain name a function symbol is written with in rule names.
pub open spec fn fun_sym_name_m(f: FunSymM) -> Seq<char> {
    match f {
        FunSymM::NoEq(s) => s.name,
        FunSymM::Ac(AcSymM::AcFct(s)) => s.name,
        FunSymM::Ac(AcSymM::Union) => "mun"@,
        FunSymM::Ac(AcSymM::Mult) => "mult"@,
        FunSymM::Ac(AcSymM::Xor) => "xor"@,
        FunSymM::Ac(AcSymM::NatPlus) => "tplus"@,
        FunSymM::C(_) => "em"@,
        FunSymM::List => "List"@,
    }
}

/// The plain name a function symbol is written with in rule names: a
/// user symbol's own name, the built-in operators' fixed names.
pub fn show_fun_sym_name(f: &FunSym) -> (r: String)
    ensures
        r@ == fun_sym_name_m(f@),
{
    match f {
        FunSym::NoEq(s) => s.name.clone(),
        FunSym::Ac(AcSym::AcFct(s)) => s.name.clone(),
        FunSym::Ac(AcSym::Union) => "mun".to_string(),
        FunSym::Ac(AcSym::Mult) => "mult".to_string(),
        FunSym::Ac(AcSym::Xor) => "xor".to_string(),
        FunSym::Ac(AcSym::NatPlus) => "tplus".to_string(),
        FunSym::C(CSym::EMap) => "em".to_string(),
        FunSym::List => "List".to_string(),
    }
}

/// Is the term an application of a private free function symbol?
pub open spec fn is_private_function_m(t: TermM) -> bool {
    t matches TermM::App(FunSymM::NoEq(s), _) && s.privacy == Privacy::Private
}

/// Is the term an application of a private free function symbol?
pub fn is_private_function(t: &Term) -> (r: bool)
    ensures
        r == is_private_function_m(t@),
{
    match t {
        Term::App(FunSym::NoEq(s), _) => s.privacy == Privacy::Private,
        _ => false,
    }
}

/// Is every fact of `a` one of `b` (multiplicity ignored on both sides)?
pub open spec fn is_subset_of_m(a: Seq<FactM>, b: Seq<FactM>) -> bool {
    forall|i: int| 0 <= i < a.len() ==> b.contains(#[trigger] a[i])
}

/// Is every fact of `a` one of `b` (multiplicity ignored on both sides)?
pub fn is_subset_of(a: &Vec<Fact>, b: &Vec<Fact>) -> (r: bool)
    ensures
        r == is_subset_of_m(facts_m(a@), facts_m(b@)),
{
    let ghost am = facts_m(a@);
    let ghost bm = facts_m(b@);
    let mut i: usize = 0;
    while i < a.len()
        invariant
            i <= a.len(),
            am == facts_m(a@),
            bm == facts_m(b@),
            forall|k: int| 0 <= k < i ==> bm.contains(#[trigger] am[k]),
        decreases a.len() - i,
    {
        let mut found = false;
        let mut j: usize = 0;
        while j < b.len()
            invariant
                j <= b.len(),
                i < a.len(),
                am == facts_m(a@),
                bm == facts_m(b@),
                !found ==> forall|k: int| 0 <= k < j ==> bm[k] != am[i as int],
                found ==> bm.contains(am[i as int]),
            decreases b.len() - j,
        {
            if !found && a[i].same(&b[j]) {
                found = true;
                assert(bm[j as int] == am[i as int]);
            }
            j += 1;
        }
        if !found {
            assert(!bm.contains(am[i as int]));
            return false;
        }
        i += 1;
    }
    true
}

/// Copies of the facts, in order.
pub fn copy_facts(xs: &Vec<Fact>) -> (r: Vec<Fact>)
    ensures
        facts_m(r@) == facts_m(xs@),
{
    let mut out: Vec<Fact> = Vec::new();
    let mut i: usize = 0;
    while i < xs.len()
        invariant
            i <= xs.len(),
            out@.len() == i,
            forall|j: int| 0 <= j < i ==> #[trigger] out@[j]@ == xs@[j]@,
        decreases xs.len() - i,
    {
        out.push(xs[i].copy());
        i += 1;
    }
    assert(facts_m(out@) =~= facts_m(xs@));
    out
}

/// The facts of a rule: premises, then conclusions, then actions.
pub fn rule_facts(r: &IntrRuleAC) -> (out: Vec<Fact>)
    ensures
        facts_m(out@) == r@.premises + r@.conclusions + r@.actions,
{
    let mut out = copy_facts(&r.premises);
    let mut c = copy_facts(&r.conclusions);
    let mut a = copy_facts(&r.actions);
    out.append(&mut c);
    out.append(&mut a);
    assert(facts_m(out@) =~= r@.premises + r@.conclusions + r@.actions);
    out
}

/// The name of a constructor or destructor rule.
pub fn rule_name(info: &IntrRuleACInfo) -> (r: Option<&String>)
    ensures
        match info@ {
            IntrRuleACInfoM::ConstrRule(n, _) => r matches Some(s) && s@ == n,
            IntrRuleACInfoM::DestrRule(n, _, _, _, _) => r matches Some(s) && s@ == n,
            _ => r is None,
        },
{
    match info {
        IntrRuleACInfo::ConstrRule(n, _) => Some(n),
        IntrRuleACInfo::DestrRule(n, _, _, _, _) => Some(n),
        _ => None,
    }
}

// ---------------------------------------------------------------------------
// Constructor rules of a signature
// ---------------------------------------------------------------------------

/// A user-defined function symbol of the subterm signature: a free one or
/// an associative-commutative one.
#[derive(Debug)]
pub enum UserDefinedSym {
    NoEqUser(SymInfo),
    AcFctUser(SymInfo),
}

pub enum UserDefinedSymM {
    NoEqUser(SymInfoM),
    AcFctUser(SymInfoM),
}

impl UserDefinedSym {
    pub open spec fn view(&self) -> UserDefinedSymM {
        match self {
            UserDefinedSym::NoEqUser(s) => UserDefinedSymM::NoEqUser(s@),
            UserDefinedSym::AcFctUser(s) => UserDefinedSymM::AcFctUser(s@),
        }
    }
}

pub open spec fn user_syms_m(xs: Seq<UserDefinedSym>) -> Seq<UserDefinedSymM> {
    Seq::new(xs.len(), |i: int| xs[i]@)
}

/// The variables `x.0, ..., x.(k-1)` of sort message.
pub open spec fn msg_vars_m(k: nat) -> Seq<TermM> {
    Seq::new(k, |i: int| var_m("x"@, LSort::Msg, i as u64))
}

/// `KU` of each term.
pub open spec fn ku_facts_m(ts: Seq<TermM>) -> Seq<FactM> {
    Seq::new(ts.len(), |i: int| fact1_m(FactTagM::Ku, ts[i]))
}

/// The constructor rule of `f` over `k` arguments, named after `name`:
/// `[KU(x.0), ..., KU(x.(k-1))] --[KU(f(x.0, ...))]-> [KU(f(x.0, ...))]`.
pub open spec fn constr_rule_m(name: Seq<char>, f: FunSymM, k: nat) -> IntrRuleACM {
    let xs = msg_vars_m(k);
    let m = TermM::App(f, xs);
    rule_m(
        IntrRuleACInfoM::ConstrRule(seq!['_'] + name, f),
        ku_facts_m(xs),
        seq![fact1_m(FactTagM::Ku, m)],
        seq![fact1_m(FactTagM::Ku, m)],
        Seq::empty(),
    )
}

/// Is the symbol a public constructor?
pub open spec fn public_constructor(s: SymInfoM) -> bool {
    s.privacy == Privacy::Public && s.constructability == Constructability::Constructor
}

/// The constructor rules of the public free constructors, in order.
pub open spec fn noeq_constr_rules_m(sig: Seq<UserDefinedSymM>) -> Seq<IntrRuleACM>
    decreases sig.len(),
{
    if sig.len() == 0 {
        Seq::empty()
    } else {
        let rest = noeq_constr_rules_m(sig.drop_last());
        match sig.last() {
            UserDefinedSymM::NoEqUser(s) => if public_constructor(s) {
                rest.push(constr_rule_m(s.name, FunSymM::NoEq(s), s.arity as nat))
            } else {
                rest
            },
            _ => rest,
        }
    }
}

/// The constructor rules of the public associative-commutative
/// constructors (over two arguments), in order.
pub open spec fn ac_constr_rules_m(sig: Seq<UserDefinedSymM>) -> Seq<IntrRuleACM>
    decreases sig.len(),
{
    if sig.len() == 0 {
        Seq::empty()
    } else {
        let rest = ac_constr_rules_m(sig.drop_last());
        match sig.last() {
            UserDefinedSymM::AcFctUser(s) => if public_constructor(s) {
                rest.push(constr_rule_m(s.name, FunSymM::Ac(AcSymM::AcFct(s)), 2))
            } else {
                rest
            },
            _ => rest,
        }
    }
}

/// The constructor rules of a signature: those of its free constructors,
/// then those of its associative-commutative ones.
pub open spec fn construction_rules_m(sig: Seq<UserDefinedSymM>) -> Seq<IntrRuleACM> {
    noeq_constr_rules_m(sig) + ac_constr_rules_m(sig)
}

/// The constructor rule of `f` over `k` arguments, named after `name`.
fn ku_constr_rule(name: &str, f: FunSym, k: usize) -> (r: IntrRuleAC)
    ensures
        r@ == constr_rule_m(name@, f@, k as nat),
{
    let ghost fm = f@;
    let mut xs: Vec<Term> = Vec::new();
    let mut prems: Vec<Fact> = Vec::new();
    let mut i: usize = 0;
    while i < k
        invariant
            i <= k,
            xs@.len() == i,
            prems@.len() == i,
            terms_m(xs@) == msg_vars_m(k as nat).take(i as int),
            facts_m(prems@) == ku_facts_m(msg_vars_m(k as nat)).take(i as int),
        decreases k - i,
    {
        let v = var_t("x", LSort::Msg, i as u64);
        let ghost xs0 = xs@;
        let ghost p0 = prems@;
        prems.push(ku_fact(v.copy()));
        xs.push(v);
        proof {
            let mv = msg_vars_m(k as nat);
            assert(mv[i as int] == var_m("x"@, LSort::Msg, i as u64));
            assert forall|j: int| 0 <= j < i + 1 implies #[trigger] terms_m(xs@)[j] == mv.take(i + 1)[j] by {
                if j < i {
                    assert(xs@[j] == xs0[j]);
                    assert(terms_m(xs0)[j] == mv.take(i as int)[j]);
                } else {
                    assert(xs@[j]@ == mv[i as int]);
                }
            }
            assert(terms_m(xs@) =~= mv.take(i + 1));
            assert forall|j: int| 0 <= j < i + 1 implies #[trigger] facts_m(prems@)[j] == ku_facts_m(mv).take(i + 1)[j] by {
                if j < i {
                    assert(prems@[j] == p0[j]);
                    assert(facts_m(p0)[j] == ku_facts_m(mv).take(i as int)[j]);
                }
            }
            assert(facts_m(prems@) =~= ku_facts_m(mv).take(i + 1));
        }
        i += 1;
    }
    assert(msg_vars_m(k as nat).take(k as int) =~= msg_vars_m(k as nat));
    assert(ku_facts_m(msg_vars_m(k as nat)).take(k as int) =~= ku_facts_m(msg_vars_m(k as nat)));
    let m = Term::App(f.copy(), xs);
    IntrRuleAC::new(
        intr_constr_info(name, f),
        prems,
        facts1(ku_fact(m.copy())),
        facts1(ku_fact(m)),
    )
}

/// The constructor rules of a signature (see [`construction_rules_m`]):
/// for a public free constructor `f` of arity `k`,
/// `[KU(x.0), ..., KU(x.(k-1))] --[KU(f(..))]-> [KU(f(..))]`, and for a
/// public associative-commutative constructor the same over two arguments.
pub fn construction_rules(f_sig: &Vec<UserDefinedSym>) -> (r: Vec<IntrRuleAC>)
    ensures
        rules_m(r@) == construction_rules_m(user_syms_m(f_sig@)),
{
    let ghost sig = user_syms_m(f_sig@);
    let mut out: Vec<IntrRuleAC> = Vec::new();
    let mut i: usize = 0;
    assert(sig.take(0) =~= Seq::<UserDefinedSymM>::empty());
    while i < f_sig.len()
        invariant
            i <= f_sig.len(),
            sig == user_syms_m(f_sig@),
            rules_m(out@) == noeq_constr_rules_m(sig.take(i as int)),
        decreases f_sig.len() - i,
    {
        assert(sig.take(i + 1).drop_last() =~= sig.take(i as int));
        assert(sig.take(i + 1).last() == f_sig@[i as int]@);
        match &f_sig[i] {
            UserDefinedSym::NoEqUser(s) => {
                if s.privacy == Privacy::Public && s.constructability == Constructability::Constructor {
                    let r = ku_constr_rule(s.name.as_str(), FunSym::NoEq(s.copy()), s.arity);
                    out.push(r);
                    assert(rules_m(out@) =~= noeq_constr_rules_m(sig.take(i + 1)));
                }
            },
            _ => {},
        }
        i += 1;
    }
    assert(sig.take(f_sig.len() as int) =~= sig);
    let ghost noeq = rules_m(out@);
    let mut j: usize = 0;
    assert(noeq + ac_constr_rules_m(sig.take(0)) =~= noeq);
    while j < f_sig.len()
        invariant
            j <= f_sig.len(),
            sig == user_syms_m(f_sig@),
            noeq == noeq_constr_rules_m(sig),
            rules_m(out@) == noeq + ac_constr_rules_m(sig.take(j as int)),
        decreases f_sig.len() - j,
    {
        assert(sig.take(j + 1).drop_last() =~= sig.take(j as int));
        assert(sig.take(j + 1).last() == f_sig@[j as int]@);
        match &f_sig[j] {
            UserDefinedSym::AcFctUser(s) => {
                if s.privacy == Privacy::Public && s.constructability == Constructability::Constructor {
                    let r = ku_constr_rule(s.name.as_str(), FunSym::Ac(AcSym::AcFct(s.copy())), 2);
                    let ghost before = rules_m(out@);
                    out.push(r);
                    proof {
                        let x = ac_constr_rules_m(sig.take(j as int));
                        assert(ac_constr_rules_m(sig.take(j + 1)) == x.push(r@));
                        assert(rules_m(out@) =~= before.push(r@));
                        assert(noeq + x.push(r@) =~= (noeq + x).push(r@));
                    }
                }
            },
            _ => {},
        }
        j += 1;
    }
    out
}

// ---------------------------------------------------------------------------
// Reading destructor rule names
// ---------------------------------------------------------------------------

/// Why a file of intruder rules could not be read: where, and what.
#[derive(Debug)]
pub struct IntrRuleParseError {
    pub ctxt_desc: String,
    pub message: String,
}

impl IntrRuleParseError {
    /// The error as it is shown: `<where>: <what>`.
    pub fn to_string(&self) -> (r: String)
        ensures
            r@ == self.ctxt_desc@ + ": "@ + self.message@,
    {
        let mut s = self.ctxt_desc.clone();
        s.append(": ");
        s.append(self.message.as_str());
        s
    }
}

/// The pieces of `s` between underscores (`split('_')`): one more than
/// the number of underscores, empty ones included.
pub open spec fn split_underscores(s: Seq<char>) -> Seq<Seq<char>>
    decreases s.len(),
{
    if s.len() == 0 {
        seq![Seq::empty()]
    } else {
        let r = split_underscores(s.drop_last());
        if s.last() == '_' {
            r.push(Seq::empty())
        } else {
            r.update(r.len() - 1, r.last().push(s.last()))
        }
    }
}

/// Is every character a decimal digit?
pub open spec fn all_digits(d: Seq<char>) -> bool {
    forall|i: int| 0 <= i < d.len() ==> '0' <= #[trigger] d[i] <= '9'
}

/// The value of a string of decimal digits.
pub open spec fn digits_value(d: Seq<char>) -> nat
    decreases d.len(),
{
    if d.len() == 0 {
        0
    } else {
        digits_value(d.drop_last()) * 10 + ((d.last() as u32) - ('0' as u32)) as nat
    }
}

/// Does the string read as an `i64`: an optional sign, then at least one
/// digit, the value in range?
pub open spec fn parses_as_i64(seg: Seq<char>) -> bool {
    if seg.len() > 0 && seg[0] == '-' {
        let d = seg.skip(1);
        d.len() > 0 && all_digits(d) && digits_value(d) <= 9223372036854775808
    } else if seg.len() > 0 && seg[0] == '+' {
        let d = seg.skip(1);
        d.len() > 0 && all_digits(d) && digits_value(d) <= 9223372036854775807
    } else {
        seg.len() > 0 && all_digits(seg) && digits_value(seg) <= 9223372036854775807
    }
}

/// The segments without their leading numeric ones.
pub open spec fn drop_numeric(segs: Seq<Seq<char>>) -> Seq<Seq<char>>
    decreases segs.len(),
{
    if segs.len() > 0 && parses_as_i64(segs[0]) {
        drop_numeric(segs.skip(1))
    } else {
        segs
    }
}

/// The function names a destructor rule name encodes: the pieces between
/// underscores but the first, without the leading position numbers.
pub open spec fn constr_names_m(name: Seq<char>) -> Seq<Seq<char>> {
    drop_numeric(split_underscores(name).skip(1))
}

/// The models of a sequence of strings.
pub open spec fn strs_m(xs: Seq<String>) -> Seq<Seq<char>> {
    Seq::new(xs.len(), |i: int| xs[i]@)
}

proof fn lemma_digits_value_grows(d: Seq<char>, c: char)
    requires
        '0' <= c <= '9',
    ensures
        digits_value(d.push(c)) >= digits_value(d),
        digits_value(d.push(c)) == digits_value(d) * 10 + ((c as u32) - ('0' as u32)) as nat,
{
    assert(d.push(c).drop_last() =~= d);
}

/// The digits of `seg` from `from` on: all digits, and their value when it
/// is at most `limit` (`None` when it is larger).
fn digits_up_to(seg: &str, from: usize, limit: u64) -> (r: (bool, Option<u64>))
    requires
        from <= seg@.len(),
        limit >= 9,
    ensures
        r.0 == all_digits(seg@.skip(from as int)),
        r.0 ==> match r.1 {
            Some(v) => v == digits_value(seg@.skip(from as int)) && v <= limit,
            None => digits_value(seg@.skip(from as int)) > limit,
        },
{
    let n = seg.unicode_len();
    let ghost d = seg@.skip(from as int);
    let mut v: u64 = 0;
    let mut big = false;
    let mut i = from;
    assert(d.take(0) =~= Seq::<char>::empty());
    while i < n
        invariant
            n == seg@.len(),
            limit >= 9,
            from <= i <= n,
            d == seg@.skip(from as int),
            all_digits(d.take(i - from)),
            !big ==> v == digits_value(d.take(i - from)) && v <= limit,
            big ==> digits_value(d.take(i - from)) > limit,
        decreases n - i,
    {
        let c = seg.get_char(i);
        if !('0' <= c && c <= '9') {
            assert(d[i - from] == c);
            return (false, None);
        }
        proof {
            assert(d.take(i - from + 1) =~= d.take(i - from).push(c));
            lemma_digits_value_grows(d.take(i - from), c);
        }
        let dv: u64 = ((c as u32) - ('0' as u32)) as u64;
        if !big {
            if v > (limit - dv) / 10 {
                assert(v * 10 + dv > limit) by (nonlinear_arith)
                    requires v > (limit - dv) / 10, dv <= 9, dv <= limit || true;
                big = true;
            } else {
                assert(v * 10 + dv <= limit) by (nonlinear_arith)
                    requires v <= (limit - dv) / 10;
                v = v * 10 + dv;
            }
        }
        i += 1;
    }
    assert(d.take(n - from) =~= d);
    if big {
        (true, None)
    } else {
        (true, Some(v))
    }
}

/// Does the string read as an `i64` (see [`parses_as_i64`])?
fn is_i64_literal(seg: &str) -> (r: bool)
    ensures
        r == parses_as_i64(seg@),
{
    let n = seg.unicode_len();
    if n == 0 {
        return false;
    }
    let c0 = seg.get_char(0);
    if c0 == '-' || c0 == '+' {
        if n == 1 {
            return false;
        }
        let limit: u64 = if c0 == '-' { 9223372036854775808 } else { 9223372036854775807 };
        let (ok, v) = digits_up_to(seg, 1, limit);
        ok && v.is_some()
    } else {
        assert(seg@.skip(0) =~= seg@);
        let (ok, v) = digits_up_to(seg, 0, 9223372036854775807);
        ok && v.is_some()
    }
}

/// The pieces of `name` between underscores.
fn split_on_underscores(name: &str) -> (r: Vec<String>)
    ensures
        strs_m(r@) == split_underscores(name@),
{
    let n = name.unicode_len();
    let mut out: Vec<String> = Vec::new();
    let mut start: usize = 0;
    let mut i: usize = 0;
    assert(name@.take(0) =~= Seq::<char>::empty());
    while i < n
        invariant
            n == name@.len(),
            start <= i <= n,
            split_underscores(name@.take(i as int)) == strs_m(out@).push(name@.subrange(start as int, i as int)),
        decreases n - i,
    {
        let c = name.get_char(i);
        proof {
            let t = name@.take(i + 1);
            assert(t.drop_last() =~= name@.take(i as int));
            assert(t.last() == c);
        }
        if c == '_' {
            let piece = name.substring_char(start, i).to_string();
            let ghost before = strs_m(out@);
            out.push(piece);
            proof {
                assert(strs_m(out@) =~= before.push(name@.subrange(start as int, i as int)));
                assert(name@.subrange(i + 1, i + 1) =~= Seq::<char>::empty());
            }
            start = i + 1;
        } else {
            proof {
                assert(name@.subrange(start as int, i + 1) =~= name@.subrange(start as int, i as int).push(c));
            }
        }
        i += 1;
    }
    let last = name.substring_char(start, n).to_string();
    out.push(last);
    assert(name@.take(n as int) =~= name@);
    out
}

/// The function names a destructor rule name encodes (see
/// [`constr_names_m`]); an error when none is left.
pub fn constr_name_func(name: &str) -> (r: Result<Vec<String>, String>)
    ensures
        match r {
            Ok(v) => strs_m(v@) == constr_names_m(name@) && constr_names_m(name@).len() > 0,
            Err(e) => constr_names_m(name@).len() == 0 && e@ == "Failed parsing intruder rule name: empty name"@,
        },
{
    let segs = split_on_underscores(name);
    let ghost all = strs_m(segs@);
    let mut k: usize = 1;
    assert(all.len() >= 1) by {
        reveal_with_fuel(split_underscores, 1);
        lemma_split_nonempty(name@);
    }
    while k < segs.len() && is_i64_literal(segs[k].as_str())
        invariant
            1 <= k <= segs@.len(),
            all == strs_m(segs@),
            constr_names_m(name@) == drop_numeric(all.skip(k as int)),
        decreases segs@.len() - k,
    {
        proof {
            assert(all.skip(k as int)[0] == segs@[k as int]@);
            assert(all.skip(k as int).skip(1) =~= all.skip(k + 1));
        }
        k += 1;
    }
    let mut out: Vec<String> = Vec::new();
    let mut j = k;
    while j < segs.len()
        invariant
            k <= j <= segs@.len(),
            all == strs_m(segs@),
            strs_m(out@) == all.subrange(k as int, j as int),
        decreases segs@.len() - j,
    {
        let ghost before = strs_m(out@);
        out.push(segs[j].clone());
        assert(strs_m(out@) =~= before.push(all[j as int]));
        assert(all.subrange(k as int, j + 1) =~= all.subrange(k as int, j as int).push(all[j as int]));
        j += 1;
    }
    assert(all.subrange(k as int, segs@.len() as int) =~= all.skip(k as int));
    if k == segs.len() {
        assert(all.skip(k as int) =~= Seq::<Seq<char>>::empty());
    } else {
        assert(!parses_as_i64(all.skip(k as int)[0]));
    }
    if out.len() == 0 {
        proof {
            reveal_strlit("Failed parsing intruder rule name: empty name");
        }
        return Err("Failed parsing intruder rule name: empty name".to_string());
    }
    Ok(out)
}

proof fn lemma_split_nonempty(s: Seq<char>)
    ensures
        split_underscores(s).len() >= 1,
    decreases s.len(),
{
    if s.len() > 0 {
        lemma_split_nonempty(s.drop_last());
    }
}

// ---------------------------------------------------------------------------
// Destructor rules of a subterm rewrite rule
// ---------------------------------------------------------------------------

/// A subterm rewrite rule `lhs -> rhs`, with the positions in `lhs` at
/// which `rhs` occurs.
#[derive(Debug)]
pub struct CtxtStRule {
    pub lhs: Term,
    pub rhs: StRhs,
}

/// The right-hand side of a subterm rewrite rule and its positions in the
/// left-hand side.
#[derive(Debug)]
pub struct StRhs {
    pub positions: Vec<Vec<i64>>,
    pub term: Term,
}

/// Does the term apply a private free function symbol somewhere?
pub open spec fn contains_private_m(t: TermM) -> bool
    decreases t,
{
    match t {
        TermM::App(f, args) => (f matches FunSymM::NoEq(s) && s.privacy == Privacy::Private)
            || any_private_m(args),
        _ => false,
    }
}

/// Does one of the terms apply a private free function symbol?
pub open spec fn any_private_m(ts: Seq<TermM>) -> bool
    decreases ts,
{
    if ts.len() == 0 {
        false
    } else {
        any_private_m(ts.drop_last()) || contains_private_m(ts.last())
    }
}

proof fn lemma_any_private_prefix(s: Seq<TermM>, k: int)
    requires
        0 <= k <= s.len(),
        any_private_m(s.take(k)),
    ensures
        any_private_m(s),
    decreases s.len(),
{
    if k < s.len() {
        assert(s.drop_last().take(k) =~= s.take(k));
        lemma_any_private_prefix(s.drop_last(), k);
    } else {
        assert(s.take(k) =~= s);
    }
}

/// The subterm at a position; an associative-commutative application is
/// read as nested binary applications (position 0 its first argument, 1
/// the application of the rest).  `None` for a position the term does not
/// have.
pub open spec fn at_pos_m(t: TermM, pos: Seq<i64>) -> Option<TermM>
    decreases pos.len(),
{
    if pos.len() == 0 {
        Some(t)
    } else {
        match t {
            TermM::App(FunSymM::Ac(a), args) => if pos[0] == 0 && args.len() >= 1 {
                at_pos_m(args[0], pos.skip(1))
            } else if pos[0] == 1 && args.len() >= 2 {
                let rest = args.skip(1);
                at_pos_m(
                    if rest.len() == 1 { rest[0] } else { TermM::App(FunSymM::Ac(a), rest) },
                    pos.skip(1),
                )
            } else {
                None
            },
            TermM::App(_, args) => if 0 <= pos[0] < args.len() {
                at_pos_m(args[pos[0] as int], pos.skip(1))
            } else {
                None
            },
            _ => None,
        }
    }
}

/// Does a descent step pass through this symbol (a public free symbol or a
/// public user-defined associative-commutative one)?
pub open spec fn descends_through(f: FunSymM) -> bool {
    ||| f matches FunSymM::NoEq(s) && s.privacy == Privacy::Public
    ||| f matches FunSymM::Ac(AcSymM::AcFct(s)) && s.privacy == Privacy::Public
}

/// The arguments other than the one at `i`, in order.
pub open spec fn siblings(args: Seq<TermM>, i: int) -> Seq<TermM>
    decreases args.len(),
{
    if args.len() == 0 {
        Seq::empty()
    } else if args.len() - 1 == i {
        siblings(args.drop_last(), i)
    } else {
        siblings(args.drop_last(), i).push(args.last())
    }
}

/// `_` and the name of each symbol, in order.
pub open spec fn names_suffix(funs: Seq<FunSymM>) -> Seq<char>
    decreases funs.len(),
{
    if funs.len() == 0 {
        Seq::empty()
    } else {
        names_suffix(funs.drop_last()) + seq!['_'] + fun_sym_name_m(funs.last())
    }
}

/// The destructor rule of one step: `[KD(t), KU(uprems)..] --> [KD(rhs)]`.
pub open spec fn destr_step_rule_m(
    name: Seq<char>,
    rhs_at_pos: bool,
    ground: bool,
    funs: Seq<FunSymM>,
    t: TermM,
    uprems: Seq<TermM>,
    rhs: TermM,
) -> IntrRuleACM {
    rule_m(
        IntrRuleACInfoM::DestrRule(name, -1i64, rhs_at_pos, ground, funs),
        seq![fact1_m(FactTagM::Kd, t)] + ku_facts_m(uprems),
        seq![fact1_m(FactTagM::Kd, rhs)],
        Seq::empty(),
        Seq::empty(),
    )
}

/// The walk down `pos` from step `k`: at each step through a public
/// symbol, the argument taken becomes the term to deconstruct and its
/// siblings join the terms the intruder must know; a rule is emitted unless
/// the argument is `rhs` or `rhs` is among those terms.  The walk stops at
/// any other symbol, at an invalid position, and before the last step when
/// `rhs` has variables.
pub open spec fn walk_m(
    rhs: TermM,
    rhs_at_pos: bool,
    pos: Seq<i64>,
    k: int,
    t: TermM,
    uprems: Seq<TermM>,
    funs: Seq<FunSymM>,
    posname: Seq<char>,
) -> Seq<IntrRuleACM>
    decreases pos.len() - k,
{
    if k < 0 || k >= pos.len() {
        Seq::empty()
    } else {
        let i = pos[k];
        match t {
            TermM::App(f, args) => if !descends_through(f) {
                Seq::empty()
            } else if k == pos.len() - 1 && term_frees(rhs).len() > 0 {
                Seq::empty()
            } else if !(0 <= i < args.len()) {
                Seq::empty()
            } else {
                let up2 = uprems + siblings(args, i as int);
                let t_new = args[i as int];
                let next = seq!['_'] + decimal(i as nat) + posname;
                let funs2 = funs.push(f);
                let rest = walk_m(rhs, rhs_at_pos, pos, k + 1, t_new, up2, funs2, next);
                if t_new != rhs && !up2.contains(rhs) {
                    seq![
                        destr_step_rule_m(
                            next + names_suffix(funs2),
                            rhs_at_pos,
                            term_frees(rhs).len() == 0,
                            funs2,
                            t_new,
                            up2,
                            rhs,
                        ),
                    ] + rest
                } else {
                    rest
                }
            },
            _ => Seq::empty(),
        }
    }
}

/// The destructor rules of one position of `rhs` in `lhs`.
pub open spec fn position_rules_m(lhs: TermM, rhs: TermM, pos: Seq<i64>) -> Seq<IntrRuleACM> {
    let at = match at_pos_m(lhs, pos) {
        Some(a) => a,
        None => lhs,
    };
    walk_m(rhs, rhs == at, pos, 0, lhs, Seq::empty(), Seq::empty(), Seq::empty())
}

/// The destructor rules of the positions, in order.
pub open spec fn positions_rules_m(lhs: TermM, rhs: TermM, ps: Seq<Seq<i64>>) -> Seq<IntrRuleACM>
    decreases ps.len(),
{
    if ps.len() == 0 {
        Seq::empty()
    } else {
        positions_rules_m(lhs, rhs, ps.drop_last()) + position_rules_m(lhs, rhs, ps.last())
    }
}

/// The destructor rules of a subterm rewrite rule: none when `rhs` has
/// no position, or when (outside diff mode) `rhs` is ground and applies no
/// private symbol; else those of each position in turn.
pub open spec fn destruction_rules_m(diff: bool, lhs: TermM, rhs: TermM, ps: Seq<Seq<i64>>) -> Seq<
    IntrRuleACM,
> {
    if ps.len() == 0 {
        Seq::empty()
    } else if !(diff || term_frees(rhs).len() > 0 || contains_private_m(rhs)) {
        Seq::empty()
    } else {
        positions_rules_m(lhs, rhs, ps)
    }
}

/// The models of a list of positions.
pub open spec fn positions_m(ps: Seq<Vec<i64>>) -> Seq<Seq<i64>> {
    Seq::new(ps.len(), |i: int| ps[i]@)
}

/// Does the term have a variable?
fn has_frees(t: &Term) -> (r: bool)
    ensures
        r == (term_frees(t@).len() > 0),
{
    let mut vs: Vec<LVar> = Vec::new();
    assert(lvars_m(vs@) =~= Seq::<LVarM>::empty());
    collect_term_frees(t, &mut vs);
    assert(lvars_m(vs@) =~= term_frees(t@));
    vs.len() > 0
}

/// Does the term apply a private free function symbol somewhere?
#[verifier::loop_isolation(false)]
pub fn contains_private(t: &Term) -> (r: bool)
    ensures
        r == contains_private_m(t@),
    decreases t,
{
    broadcast use crate::term::group_term_lemmas;

    match t {
        Term::App(f, args) => {
            let private_head = match f {
                FunSym::NoEq(s) => s.privacy == Privacy::Private,
                _ => false,
            };
            if private_head {
                return true;
            }
            let ghost s = terms_m(args@);
            let mut i: usize = 0;
            assert(s.take(0) =~= Seq::<TermM>::empty());
            while i < args.len()
                invariant
                    i <= args.len(),
                    s == terms_m(args@),
                    !any_private_m(s.take(i as int)),
                decreases args.len() - i,
            {
                assert(s.take(i + 1).drop_last() =~= s.take(i as int));
                if contains_private(&args[i]) {
                    proof {
                        lemma_any_private_prefix(s, i + 1);
                    }
                    return true;
                }
                i += 1;
            }
            assert(s.take(args.len() as int) =~= s);
            false
        },
        _ => false,
    }
}

/// The model of an optional term.
pub open spec fn opt_term_m(r: Option<Term>) -> Option<TermM> {
    match r {
        Some(t) => Some(t@),
        None => None,
    }
}

/// The subterm at the position `pos` from its step `k` on (see
/// [`at_pos_m`]).
pub fn at_pos(t: &Term, pos: &Vec<i64>, k: usize) -> (r: Option<Term>)
    requires
        k <= pos@.len(),
    ensures
        opt_term_m(r) == at_pos_m(t@, pos@.skip(k as int)),
    decreases pos@.len() - k,
{
    broadcast use crate::term::group_term_lemmas;

    if k == pos.len() {
        assert(pos@.skip(k as int).len() == 0);
        return Some(t.copy());
    }
    reveal_with_fuel(at_pos_m, 1);
    let ghost p = pos@.skip(k as int);
    assert(p.skip(1) =~= pos@.skip(k + 1));
    assert(p[0] == pos@[k as int]);
    let i = pos[k];
    match t {
        Term::App(FunSym::Ac(a), args) => {
            if i == 0 && args.len() >= 1 {
                at_pos(&args[0], pos, k + 1)
            } else if i == 1 && args.len() >= 2 {
                if args.len() == 2 {
                    assert(terms_m(args@).skip(1)[0] == terms_m(args@)[1]);
                    at_pos(&args[1], pos, k + 1)
                } else {
                    let mut rest: Vec<Term> = Vec::new();
                    let mut j: usize = 1;
                    while j < args.len()
                        invariant
                            1 <= j <= args.len(),
                            terms_m(rest@) == terms_m(args@).subrange(1, j as int),
                        decreases args.len() - j,
                    {
                        let ghost before = terms_m(rest@);
                        rest.push(args[j].copy());
                        assert(terms_m(rest@) =~= before.push(terms_m(args@)[j as int]));
                        assert(terms_m(args@).subrange(1, j + 1) =~= terms_m(args@).subrange(1, j as int).push(
                            terms_m(args@)[j as int],
                        ));
                        j += 1;
                    }
                    assert(terms_m(args@).subrange(1, args.len() as int) =~= terms_m(args@).skip(1));
                    let tail = Term::App(FunSym::Ac(a.copy()), rest);
                    at_pos(&tail, pos, k + 1)
                }
            } else {
                None
            }
        },
        Term::App(_, args) => {
            if 0 <= i && (i as u64) < (args.len() as u64) {
                at_pos(&args[i as usize], pos, k + 1)
            } else {
                None
            }
        },
        _ => None,
    }
}

/// Copies of the arguments other than the one at `i`, in order.
fn siblings_exec(args: &Vec<Term>, i: i64) -> (r: Vec<Term>)
    ensures
        terms_m(r@) == siblings(terms_m(args@), i as int),
{
    broadcast use crate::term::group_term_lemmas;

    let ghost am = terms_m(args@);
    let mut out: Vec<Term> = Vec::new();
    let mut j: usize = 0;
    assert(am.take(0) =~= Seq::<TermM>::empty());
    while j < args.len()
        invariant
            j <= args.len(),
            am == terms_m(args@),
            terms_m(out@) == siblings(am.take(j as int), i as int),
        decreases args.len() - j,
    {
        assert(am.take(j + 1).drop_last() =~= am.take(j as int));
        assert(am.take(j + 1).last() == am[j as int]);
        if !(i >= 0 && (j as u64) == (i as u64)) {
            let ghost before = terms_m(out@);
            out.push(args[j].copy());
            assert(terms_m(out@) =~= before.push(am[j as int]));
        }
        j += 1;
    }
    assert(am.take(args.len() as int) =~= am);
    out
}

/// Is `t` one of the terms?
fn terms_contain(v: &Vec<Term>, t: &Term) -> (r: bool)
    ensures
        r == terms_m(v@).contains(t@),
{
    broadcast use crate::term::group_term_lemmas;

    let mut i: usize = 0;
    while i < v.len()
        invariant
            i <= v.len(),
            forall|j: int| 0 <= j < i ==> terms_m(v@)[j] != t@,
        decreases v.len() - i,
    {
        if v[i].same(t) {
            assert(terms_m(v@)[i as int] == t@);
            return true;
        }
        i += 1;
    }
    false
}

/// `prefix` followed by `_` and the name of each symbol.
fn with_names_suffix(prefix: &String, funs: &Vec<FunSym>) -> (r: String)
    ensures
        r@ == prefix@ + names_suffix(funsyms_m(funs@)),
{
    let ghost fm = funsyms_m(funs@);
    let mut out = prefix.clone();
    let mut i: usize = 0;
    assert(fm.take(0) =~= Seq::<FunSymM>::empty());
    assert(out@ =~= prefix@ + names_suffix(fm.take(0)));
    while i < funs.len()
        invariant
            i <= funs.len(),
            fm == funsyms_m(funs@),
            out@ == prefix@ + names_suffix(fm.take(i as int)),
        decreases funs.len() - i,
    {
        assert(fm.take(i + 1).drop_last() =~= fm.take(i as int));
        assert(fm.take(i + 1).last() == funs@[i as int]@);
        proof {
            reveal_strlit("_");
        }
        out.append("_");
        let n = show_fun_sym_name(&funs[i]);
        out.append(n.as_str());
        assert(out@ =~= prefix@ + names_suffix(fm.take(i + 1)));
        i += 1;
    }
    assert(fm.take(funs.len() as int) =~= fm);
    out
}

/// Copies of the function symbols.
fn copy_funsyms(xs: &Vec<FunSym>) -> (r: Vec<FunSym>)
    ensures
        funsyms_m(r@) == funsyms_m(xs@),
{
    let mut out: Vec<FunSym> = Vec::new();
    let mut i: usize = 0;
    while i < xs.len()
        invariant
            i <= xs.len(),
            out@.len() == i,
            forall|j: int| 0 <= j < i ==> #[trigger] out@[j]@ == xs@[j]@,
        decreases xs.len() - i,
    {
        out.push(xs[i].copy());
        i += 1;
    }
    assert(funsyms_m(out@) =~= funsyms_m(xs@));
    out
}

/// `KU` of each term.
fn ku_facts(ts: &Vec<Term>) -> (r: Vec<Fact>)
    ensures
        facts_m(r@) == ku_facts_m(terms_m(ts@)),
{
    broadcast use crate::term::group_term_lemmas;

    let mut out: Vec<Fact> = Vec::new();
    let mut i: usize = 0;
    while i < ts.len()
        invariant
            i <= ts.len(),
            out@.len() == i,
            forall|j: int| 0 <= j < i ==> #[trigger] out@[j]@ == fact1_m(FactTagM::Ku, ts@[j]@),
        decreases ts.len() - i,
    {
        out.push(ku_fact(ts[i].copy()));
        i += 1;
    }
    assert(facts_m(out@) =~= ku_facts_m(terms_m(ts@)));
    out
}

/// Does a descent step pass through this symbol?
fn descends(f: &FunSym) -> (r: bool)
    ensures
        r == descends_through(f@),
{
    match f {
        FunSym::NoEq(s) => s.privacy == Privacy::Public,
        FunSym::Ac(AcSym::AcFct(s)) => s.privacy == Privacy::Public,
        _ => false,
    }
}

/// The destructor rules of one position of `rhs` in `lhs` (see
/// [`position_rules_m`]).
fn position_rules(lhs: &Term, rhs: &Term, pos: &Vec<i64>) -> (r: Vec<IntrRuleAC>)
    ensures
        rules_m(r@) == position_rules_m(lhs@, rhs@, pos@),
{
    broadcast use crate::term::group_term_lemmas;

    assert(pos@.skip(0) =~= pos@);
    let at_is_rhs = match at_pos(lhs, pos, 0) {
        Some(a) => a.same(rhs),
        None => lhs.same(rhs),
    };
    let ground = !has_frees(rhs);
    let ghost total = position_rules_m(lhs@, rhs@, pos@);
    let mut out: Vec<IntrRuleAC> = Vec::new();
    let mut t = lhs.copy();
    let mut uprems: Vec<Term> = Vec::new();
    let mut funs: Vec<FunSym> = Vec::new();
    let mut posname = String::new();
    let mut k: usize = 0;
    assert(terms_m(uprems@) =~= Seq::<TermM>::empty());
    assert(funsyms_m(funs@) =~= Seq::<FunSymM>::empty());
    assert(rules_m(out@) =~= Seq::<IntrRuleACM>::empty());
    assert(Seq::<IntrRuleACM>::empty() + total =~= total);
    while k < pos.len()
        invariant
            k <= pos@.len(),
            ground == (term_frees(rhs@).len() == 0),
            total == position_rules_m(lhs@, rhs@, pos@),
            total == rules_m(out@) + walk_m(
                rhs@,
                at_is_rhs,
                pos@,
                k as int,
                t@,
                terms_m(uprems@),
                funsyms_m(funs@),
                posname@,
            ),
        decreases pos@.len() - k,
    {
        let i = pos[k];
        let ghost tm = t@;
        let ghost um = terms_m(uprems@);
        let ghost fm = funsyms_m(funs@);
        let ghost pm = posname@;
        let (f, args) = match &t {
            Term::App(f, args) => (f, args),
            _ => {
                assert(rules_m(out@) + Seq::<IntrRuleACM>::empty() =~= rules_m(out@));
                return out;
            },
        };
        if !descends(f) {
            assert(rules_m(out@) + Seq::<IntrRuleACM>::empty() =~= rules_m(out@));
            return out;
        }
        if k + 1 == pos.len() && !ground {
            assert(rules_m(out@) + Seq::<IntrRuleACM>::empty() =~= rules_m(out@));
            return out;
        }
        if !(0 <= i && (i as u64) < (args.len() as u64)) {
            assert(rules_m(out@) + Seq::<IntrRuleACM>::empty() =~= rules_m(out@));
            return out;
        }
        let sib = siblings_exec(args, i);
        let mut up2 = uprems;
        let ghost before_up = terms_m(up2@);
        let mut sib_mut = sib;
        up2.append(&mut sib_mut);
        assert(terms_m(up2@) =~= um + siblings(terms_m(args@), i as int));
        let t_new = args[i as usize].copy();
        let cond_emit = !t_new.same(rhs) && !terms_contain(&up2, rhs);
        let mut next = String::new();
        proof {
            reveal_strlit("_");
        }
        next.append("_");
        push_decimal(&mut next, i as u64);
        next.append(posname.as_str());
        assert(next@ =~= seq!['_'] + decimal(i as nat) + pm);
        let fcopy = f.copy();
        let ghost funs_before = funsyms_m(funs@);
        funs.push(fcopy);
        assert(funsyms_m(funs@) =~= funs_before.push(f@));
        let ghost rest = walk_m(
            rhs@,
            at_is_rhs,
            pos@,
            k + 1,
            t_new@,
            terms_m(up2@),
            funsyms_m(funs@),
            next@,
        );
        proof {
            assert(tm == TermM::App(f@, terms_m(args@)));
            assert(t_new@ == terms_m(args@)[i as int]);
            assert(pos@[k as int] == i);
            let step = destr_step_rule_m(
                next@ + names_suffix(funsyms_m(funs@)),
                at_is_rhs,
                ground,
                funsyms_m(funs@),
                t_new@,
                terms_m(up2@),
                rhs@,
            );
            assert(walk_m(rhs@, at_is_rhs, pos@, k as int, tm, um, fm, pm) == if cond_emit {
                seq![step] + rest
            } else {
                rest
            });
        }
        if cond_emit {
            let name = with_names_suffix(&next, &funs);
            let mut prems: Vec<Fact> = Vec::new();
            prems.push(kd_fact(t_new.copy()));
            assert(facts_m(prems@) =~= seq![fact1_m(FactTagM::Kd, t_new@)]);
            let mut kus = ku_facts(&up2);
            let ghost p1 = facts_m(prems@);
            let ghost k1 = facts_m(kus@);
            prems.append(&mut kus);
            assert(facts_m(prems@) =~= p1 + k1);
            let info = IntrRuleACInfo::DestrRule(name, -1, at_is_rhs, ground, copy_funsyms(&funs));
            let rule = IntrRuleAC::new(info, prems, facts1(kd_fact(rhs.copy())), no_facts());
            assert(rule@ == destr_step_rule_m(
                next@ + names_suffix(funsyms_m(funs@)),
                at_is_rhs,
                ground,
                funsyms_m(funs@),
                t_new@,
                terms_m(up2@),
                rhs@,
            ));
            let ghost out_before = rules_m(out@);
            out.push(rule);
            assert(rules_m(out@) =~= out_before.push(rule@));
            assert(out_before.push(rule@) + rest =~= out_before + (seq![rule@] + rest));
        }
        posname = next;
        uprems = up2;
        t = t_new;
        k += 1;
    }
    assert(walk_m(rhs@, at_is_rhs, pos@, k as int, t@, terms_m(uprems@), funsyms_m(funs@), posname@)
        =~= Seq::<IntrRuleACM>::empty());
    assert(rules_m(out@) + Seq::<IntrRuleACM>::empty() =~= rules_m(out@));
    out
}

/// The destructor rules of a subterm rewrite rule (see
/// [`destruction_rules_m`]).
pub fn destruction_rules(diff: bool, rule: &CtxtStRule) -> (r: Vec<IntrRuleAC>)
    ensures
        rules_m(r@) == destruction_rules_m(diff, rule.lhs@, rule.rhs.term@, positions_m(rule.rhs.positions@)),
{
    let lhs = &rule.lhs;
    let rhs = &rule.rhs.term;
    let positions = &rule.rhs.positions;
    let ghost ps = positions_m(positions@);
    let mut out: Vec<IntrRuleAC> = Vec::new();
    assert(rules_m(out@) =~= Seq::<IntrRuleACM>::empty());
    if positions.len() == 0 {
        return out;
    }
    if !(diff || has_frees(rhs) || contains_private(rhs)) {
        return out;
    }
    let mut i: usize = 0;
    assert(ps.take(0) =~= Seq::<Seq<i64>>::empty());
    while i < positions.len()
        invariant
            i <= positions@.len(),
            ps == positions_m(positions@),
            rules_m(out@) == positions_rules_m(lhs@, rhs@, ps.take(i as int)),
        decreases positions@.len() - i,
    {
        assert(ps.take(i + 1).drop_last() =~= ps.take(i as int));
        assert(ps.take(i + 1).last() == positions@[i as int]@);
        let mut rs = position_rules(lhs, rhs, &positions[i]);
        let ghost before = rules_m(out@);
        let ghost added = rules_m(rs@);
        out.append(&mut rs);
        assert(rules_m(out@) =~= before + added);
        i += 1;
    }
    assert(ps.take(positions@.len() as int) =~= ps);
    out
}

// ---------------------------------------------------------------------------
// Redundant destructor rules
// ---------------------------------------------------------------------------

/// Does one of the facts' terms apply a private free function symbol?
pub open spec fn facts_private_m(fs: Seq<FactM>) -> bool
    decreases fs.len(),
{
    if fs.len() == 0 {
        false
    } else {
        facts_private_m(fs.drop_last()) || any_private_m(fs.last().terms)
    }
}

/// Is the term a variable of sort message?
pub open spec fn is_msg_var_m(t: TermM) -> bool {
    t matches TermM::Var(BVarM::Free(v)) && v.sort == LSort::Msg
}

/// A destructor rule that needs what it deduces as a premise: its first
/// premise is `KD(t)` for a message variable `t`, its conclusions are
/// ground, no premise applies a private symbol, and `KU(t)` is among the
/// other premises.  The intruder can always use the `KU` premise directly,
/// so such a rule is redundant.
pub open spec fn is_double_premise_m(r: IntrRuleACM) -> bool {
    &&& r.premises.len() > 0
    &&& r.premises[0].tag == FactTagM::Kd
    &&& r.premises[0].terms.len() > 0
    &&& crate::variants::facts_frees(r.conclusions).len() == 0
    &&& !facts_private_m(r.premises)
    &&& is_msg_var_m(r.premises[0].terms[0])
    &&& r.premises.skip(1).contains(fact1_m(FactTagM::Ku, r.premises[0].terms[0]))
}

proof fn lemma_facts_private_prefix(s: Seq<FactM>, k: int)
    requires
        0 <= k <= s.len(),
        facts_private_m(s.take(k)),
    ensures
        facts_private_m(s),
    decreases s.len(),
{
    if k < s.len() {
        assert(s.drop_last().take(k) =~= s.take(k));
        lemma_facts_private_prefix(s.drop_last(), k);
    } else {
        assert(s.take(k) =~= s);
    }
}

/// Does one of the terms apply a private free function symbol?
fn terms_private(ts: &Vec<Term>) -> (r: bool)
    ensures
        r == any_private_m(terms_m(ts@)),
{
    broadcast use crate::term::group_term_lemmas;

    let ghost s = terms_m(ts@);
    let mut i: usize = 0;
    assert(s.take(0) =~= Seq::<TermM>::empty());
    while i < ts.len()
        invariant
            i <= ts.len(),
            s == terms_m(ts@),
            !any_private_m(s.take(i as int)),
        decreases ts.len() - i,
    {
        assert(s.take(i + 1).drop_last() =~= s.take(i as int));
        if contains_private(&ts[i]) {
            proof {
                lemma_any_private_prefix(s, i + 1);
            }
            return true;
        }
        i += 1;
    }
    assert(s.take(ts.len() as int) =~= s);
    false
}

/// Does one of the facts' terms apply a private free function symbol?
fn facts_private(fs: &Vec<Fact>) -> (r: bool)
    ensures
        r == facts_private_m(facts_m(fs@)),
{
    let ghost s = facts_m(fs@);
    let mut i: usize = 0;
    assert(s.take(0) =~= Seq::<FactM>::empty());
    while i < fs.len()
        invariant
            i <= fs.len(),
            s == facts_m(fs@),
            !facts_private_m(s.take(i as int)),
        decreases fs.len() - i,
    {
        assert(s.take(i + 1).drop_last() =~= s.take(i as int));
        assert(s.take(i + 1).last() == fs@[i as int]@);
        if terms_private(&fs[i].terms) {
            proof {
                lemma_facts_private_prefix(s, i + 1);
            }
            return true;
        }
        i += 1;
    }
    assert(s.take(fs.len() as int) =~= s);
    false
}

/// Is the rule a redundant destructor rule (see [`is_double_premise_m`])?
#[verifier::loop_isolation(false)]
pub fn is_double_premise_rule(r: &IntrRuleAC) -> (b: bool)
    ensures
        b == is_double_premise_m(r@),
{
    broadcast use crate::term::group_term_lemmas;

    if r.premises.len() == 0 {
        return false;
    }
    let first = &r.premises[0];
    let is_kd = match first.tag {
        FactTag::Kd => true,
        _ => false,
    };
    assert(is_kd == (r@.premises[0].tag == FactTagM::Kd));
    if !is_kd || first.terms.len() == 0 {
        return false;
    }
    let t = &first.terms[0];
    let mut vs: Vec<LVar> = Vec::new();
    let mut i: usize = 0;
    let ghost cs = facts_m(r.conclusions@);
    assert(cs.take(0) =~= Seq::<FactM>::empty());
    assert(lvars_m(vs@) =~= Seq::<LVarM>::empty());
    while i < r.conclusions.len()
        invariant
            i <= r.conclusions@.len(),
            cs == facts_m(r.conclusions@),
            lvars_m(vs@) == crate::variants::facts_frees(cs.take(i as int)),
        decreases r.conclusions.len() - i,
    {
        assert(cs.take(i + 1).drop_last() =~= cs.take(i as int));
        assert(cs.take(i + 1).last() == r.conclusions@[i as int]@);
        crate::term::collect_terms_frees(&r.conclusions[i].terms, &mut vs);
        i += 1;
    }
    assert(cs.take(r.conclusions@.len() as int) =~= cs);
    if vs.len() > 0 {
        return false;
    }
    if facts_private(&r.premises) {
        return false;
    }
    let msg_var = match t {
        Term::Var(BVar::Free(v)) => match v.sort {
            LSort::Msg => true,
            _ => false,
        },
        _ => false,
    };
    if !msg_var {
        return false;
    }
    let ku_t = ku_fact(t.copy());
    assert(t@ == r@.premises[0].terms[0]);
    let ghost rest = facts_m(r.premises@).skip(1);
    let mut j: usize = 1;
    while j < r.premises.len()
        invariant
            1 <= j <= r.premises@.len(),
            rest == facts_m(r.premises@).skip(1),
            ku_t@ == fact1_m(FactTagM::Ku, t@),
            forall|k: int| 0 <= k < j - 1 ==> rest[k] != ku_t@,
        decreases r.premises.len() - j,
    {
        if r.premises[j].same(&ku_t) {
            assert(rest[j - 1] == ku_t@);
            return true;
        }
        j += 1;
    }
    false
}

// ---------------------------------------------------------------------------
// Diffie-Hellman exponentiation
// ---------------------------------------------------------------------------

/// A public constructor symbol of the Diffie-Hellman theory.
pub open spec fn dh_sym_m(name: Seq<char>, arity: usize) -> SymInfoM {
    SymInfoM { name, arity, privacy: Privacy::Public, constructability: Constructability::Constructor }
}

fn dh_sym(name: &str, arity: usize) -> (r: SymInfo)
    ensures
        r@ == dh_sym_m(name@, arity),
{
    SymInfo {
        name: name.to_string(),
        arity,
        privacy: Privacy::Public,
        constructability: Constructability::Constructor,
    }
}

/// The constructor rules of Diffie-Hellman exponentiation, each its own
/// action: `_exp` `[KU(x), KU(x.1)] --> [KU(exp(x, x.1))]`, `_inv`
/// `[KU(x)] --> [KU(inv(x))]`, `_DH_neutral` `[] --> [KU(DH_neutral)]`,
/// `_one` `[] --> [KU(one)]`, and `_mult` `[KU(x), KU(x.1)] --> [KU(x * x.1)]`
/// with the AC multiplication.
pub open spec fn dh_constructor_rules_m() -> Seq<IntrRuleACM> {
    let x0 = var_m("x"@, LSort::Msg, 0);
    let x1 = var_m("x"@, LSort::Msg, 1);
    let exp = FunSymM::NoEq(dh_sym_m("exp"@, 2));
    let inv = FunSymM::NoEq(dh_sym_m("inv"@, 1));
    let neutral = FunSymM::NoEq(dh_sym_m("DH_neutral"@, 0));
    let one = FunSymM::NoEq(dh_sym_m("one"@, 0));
    let mult = FunSymM::Ac(AcSymM::Mult);
    seq![
        ku_rule_m(
            IntrRuleACInfoM::ConstrRule(seq!['_'] + "exp"@, exp),
            seq![fact1_m(FactTagM::Ku, x0), fact1_m(FactTagM::Ku, x1)],
            app2_m(exp, x0, x1),
            Seq::empty(),
        ),
        ku_rule_m(
            IntrRuleACInfoM::ConstrRule(seq!['_'] + "inv"@, inv),
            seq![fact1_m(FactTagM::Ku, x0)],
            TermM::App(inv, seq![x0]),
            Seq::empty(),
        ),
        ku_rule_m(
            IntrRuleACInfoM::ConstrRule(seq!['_'] + "DH_neutral"@, neutral),
            Seq::empty(),
            TermM::App(neutral, Seq::empty()),
            Seq::empty(),
        ),
        ku_rule_m(
            IntrRuleACInfoM::ConstrRule(seq!['_'] + "one"@, one),
            Seq::empty(),
            TermM::App(one, Seq::empty()),
            Seq::empty(),
        ),
        ku_rule_m(
            IntrRuleACInfoM::ConstrRule(seq!['_'] + "mult"@, mult),
            seq![fact1_m(FactTagM::Ku, x0), fact1_m(FactTagM::Ku, x1)],
            app2_m(mult, x0, x1),
            Seq::empty(),
        ),
    ]
}

/// The destructor rules of Diffie-Hellman exponentiation before their
/// variants are computed, with no action: `_exp` `[KD(x), KU(x.1)] -->
/// [KD(exp(x, x.1))]` and `_inv` `[KD(x)] --> [KD(inv(x))]`, each of budget
/// 0, its conclusion a subterm, not ground.
pub open spec fn dh_destructor_templates_m() -> Seq<IntrRuleACM> {
    let x0 = var_m("x"@, LSort::Msg, 0);
    let x1 = var_m("x"@, LSort::Msg, 1);
    let exp = FunSymM::NoEq(dh_sym_m("exp"@, 2));
    let inv = FunSymM::NoEq(dh_sym_m("inv"@, 1));
    seq![
        rule_m(
            IntrRuleACInfoM::DestrRule(seq!['_'] + "exp"@, 0, true, false, seq![exp]),
            seq![fact1_m(FactTagM::Kd, x0), fact1_m(FactTagM::Ku, x1)],
            seq![fact1_m(FactTagM::Kd, app2_m(exp, x0, x1))],
            Seq::empty(),
            Seq::empty(),
        ),
        rule_m(
            IntrRuleACInfoM::DestrRule(seq!['_'] + "inv"@, 0, true, false, seq![inv]),
            seq![fact1_m(FactTagM::Kd, x0)],
            seq![fact1_m(FactTagM::Kd, TermM::App(inv, seq![x0]))],
            Seq::empty(),
            Seq::empty(),
        ),
    ]
}

fn app1(f: FunSym, a: Term) -> (r: Term)
    ensures
        r@ == TermM::App(f@, seq![a@]),
{
    let mut args: Vec<Term> = Vec::new();
    args.push(a);
    let r = Term::App(f, args);
    assert(terms_m(args@) =~= seq![a@]) by {
        assert(r@ == TermM::App(f@, terms_m(args@)));
    }
    r
}

fn app0(f: FunSym) -> (r: Term)
    ensures
        r@ == TermM::App(f@, Seq::empty()),
{
    let args: Vec<Term> = Vec::new();
    assert(terms_m(args@) =~= Seq::<TermM>::empty());
    Term::App(f, args)
}

/// The constructor rules of Diffie-Hellman exponentiation (see
/// [`dh_constructor_rules_m`]).
pub fn dh_constructor_rules() -> (r: Vec<IntrRuleAC>)
    ensures
        rules_m(r@) == dh_constructor_rules_m(),
{
    let x0 = var_t("x", LSort::Msg, 0);
    let x1 = var_t("x", LSort::Msg, 1);
    let exp = FunSym::NoEq(dh_sym("exp", 2));
    let inv = FunSym::NoEq(dh_sym("inv", 1));
    let neutral = FunSym::NoEq(dh_sym("DH_neutral", 0));
    let one = FunSym::NoEq(dh_sym("one", 0));
    let mut out: Vec<IntrRuleAC> = Vec::new();
    let e = app2(exp.copy(), x0.copy(), x1.copy());
    out.push(ku_rule(
        intr_constr_info("exp", exp),
        facts2(ku_fact(x0.copy()), ku_fact(x1.copy())),
        &e,
        no_terms(),
    ));
    let i = app1(inv.copy(), x0.copy());
    out.push(ku_rule(intr_constr_info("inv", inv), facts1(ku_fact(x0.copy())), &i, no_terms()));
    let n = app0(neutral.copy());
    out.push(ku_rule(intr_constr_info("DH_neutral", neutral), no_facts(), &n, no_terms()));
    let o = app0(one.copy());
    out.push(ku_rule(intr_constr_info("one", one), no_facts(), &o, no_terms()));
    let m = app2(FunSym::Ac(AcSym::Mult), x0.copy(), x1.copy());
    out.push(ku_rule(
        intr_constr_info("mult", FunSym::Ac(AcSym::Mult)),
        facts2(ku_fact(x0.copy()), ku_fact(x1)),
        &m,
        no_terms(),
    ));
    assert(rules_m(out@) =~= dh_constructor_rules_m());
    out
}

/// The destructor rules of Diffie-Hellman exponentiation before their
/// variants are computed (see [`dh_destructor_templates_m`]).
pub fn dh_destructor_templates() -> (r: Vec<IntrRuleAC>)
    ensures
        rules_m(r@) == dh_destructor_templates_m(),
{
    let x0 = var_t("x", LSort::Msg, 0);
    let x1 = var_t("x", LSort::Msg, 1);
    let exp = FunSym::NoEq(dh_sym("exp", 2));
    let inv = FunSym::NoEq(dh_sym("inv", 1));
    let mut out: Vec<IntrRuleAC> = Vec::new();
    let e = app2(exp.copy(), x0.copy(), x1.copy());
    out.push(IntrRuleAC::new(
        intr_destr_info("exp", single_funsym(exp)),
        facts2(kd_fact(x0.copy()), ku_fact(x1)),
        facts1(kd_fact(e)),
        no_facts(),
    ));
    let i = app1(inv.copy(), x0.copy());
    out.push(IntrRuleAC::new(
        intr_destr_info("inv", single_funsym(inv)),
        facts1(kd_fact(x0)),
        facts1(kd_fact(i)),
        no_facts(),
    ));
    assert(rules_m(out@) =~= dh_destructor_templates_m());
    out
}

// ---------------------------------------------------------------------------
// Keeping the variants of a rule
// ---------------------------------------------------------------------------

/// Elementwise equality of two lists of function symbols.
fn same_funsyms(xs: &Vec<FunSym>, ys: &Vec<FunSym>) -> (r: bool)
    ensures
        r == (funsyms_m(xs@) == funsyms_m(ys@)),
{
    if xs.len() != ys.len() {
        assert(funsyms_m(xs@).len() != funsyms_m(ys@).len());
        return false;
    }
    let mut i: usize = 0;
    while i < xs.len()
        invariant
            i <= xs.len(),
            xs.len() == ys.len(),
            forall|j: int| 0 <= j < i ==> #[trigger] xs@[j]@ == ys@[j]@,
        decreases xs.len() - i,
    {
        if !xs[i].same(&ys[i]) {
            assert(funsyms_m(xs@)[i as int] != funsyms_m(ys@)[i as int]);
            return false;
        }
        i += 1;
    }
    assert(funsyms_m(xs@) =~= funsyms_m(ys@));
    true
}

/// Elementwise equality of two lists of facts.
fn same_facts(xs: &Vec<Fact>, ys: &Vec<Fact>) -> (r: bool)
    ensures
        r == (facts_m(xs@) == facts_m(ys@)),
{
    if xs.len() != ys.len() {
        assert(facts_m(xs@).len() != facts_m(ys@).len());
        return false;
    }
    let mut i: usize = 0;
    while i < xs.len()
        invariant
            i <= xs.len(),
            xs.len() == ys.len(),
            forall|j: int| 0 <= j < i ==> #[trigger] xs@[j]@ == ys@[j]@,
        decreases xs.len() - i,
    {
        if !xs[i].same(&ys[i]) {
            assert(facts_m(xs@)[i as int] != facts_m(ys@)[i as int]);
            return false;
        }
        i += 1;
    }
    assert(facts_m(xs@) =~= facts_m(ys@));
    true
}

impl IntrRuleACInfo {
    /// Structural equality.
    pub fn same(&self, other: &IntrRuleACInfo) -> (r: bool)
        ensures
            r == (self@ == other@),
    {
        match (self, other) {
            (IntrRuleACInfo::ConstrRule(n1, f1), IntrRuleACInfo::ConstrRule(n2, f2)) => {
                let same_name = *n1 == *n2;
                same_name && f1.same(f2)
            },
            (
                IntrRuleACInfo::DestrRule(n1, k1, s1, c1, fs1),
                IntrRuleACInfo::DestrRule(n2, k2, s2, c2, fs2),
            ) => {
                let same_name = *n1 == *n2;
                same_name && *k1 == *k2 && *s1 == *s2 && *c1 == *c2 && same_funsyms(fs1, fs2)
            },
            (IntrRuleACInfo::Coerce, IntrRuleACInfo::Coerce) => true,
            (IntrRuleACInfo::PubConstr, IntrRuleACInfo::PubConstr) => true,
            (IntrRuleACInfo::NatConstr, IntrRuleACInfo::NatConstr) => true,
            (IntrRuleACInfo::FreshConstr, IntrRuleACInfo::FreshConstr) => true,
            (IntrRuleACInfo::ISend, IntrRuleACInfo::ISend) => true,
            (IntrRuleACInfo::IRecv, IntrRuleACInfo::IRecv) => true,
            (IntrRuleACInfo::IEquality, IntrRuleACInfo::IEquality) => true,
            _ => false,
        }
    }
}

impl IntrRuleAC {
    /// Structural equality.
    pub fn same(&self, other: &IntrRuleAC) -> (r: bool)
        ensures
            r == (self@ == other@),
    {
        self.info.same(&other.info) && same_facts(&self.premises, &other.premises) && same_facts(
            &self.conclusions,
            &other.conclusions,
        ) && same_facts(&self.actions, &other.actions) && same_terms(&self.new_vars, &other.new_vars)
    }
}

/// The terms of the facts, fact after fact.
pub open spec fn facts_terms(fs: Seq<FactM>) -> Seq<TermM>
    decreases fs.len(),
{
    if fs.len() == 0 {
        Seq::empty()
    } else {
        facts_terms(fs.drop_last()) + fs.last().terms
    }
}

/// How many times `x` occurs in `s`.
pub open spec fn occurrences(s: Seq<FactM>, x: FactM) -> nat
    decreases s.len(),
{
    if s.len() == 0 {
        0
    } else {
        occurrences(s.drop_last(), x) + if s.last() == x {
            1nat
        } else {
            0nat
        }
    }
}

/// Is something left of the conclusions once each is matched against a
/// premise equal to it, one premise per conclusion?  That is, does some
/// conclusion occur more often among the conclusions than among the
/// premises?
pub open spec fn concs_exceed_prems(concs: Seq<FactM>, prems: Seq<FactM>) -> bool {
    exists|i: int| 0 <= i < concs.len() && occurrences(concs, #[trigger] concs[i]) > occurrences(prems, concs[i])
}

/// Is the term a product (an application of multiplication)?
pub open spec fn is_product(t: TermM) -> bool {
    t matches TermM::App(FunSymM::Ac(AcSymM::Mult), _)
}

/// Is the variant `v` of the rule `ru` kept?  With the filters on, its
/// conclusions must carry a free variable (unless `diff`), it must differ
/// from `ru`, and something of its conclusions must remain once its premises
/// are taken away; in any case, a single conclusion term that is a product
/// is dropped.
pub open spec fn keeps_variant(ru: IntrRuleACM, v: IntrRuleACM, apply_filters: bool, diff: bool) -> bool {
    let ts = facts_terms(v.conclusions);
    &&& apply_filters ==> {
        &&& diff || exists|k: int| 0 <= k < ts.len() && (#[trigger] term_frees(ts[k])).len() > 0
        &&& v != ru
        &&& concs_exceed_prems(v.conclusions, v.premises)
    }
    &&& !(ts.len() == 1 && is_product(ts[0]))
}

/// The variants that [`keeps_variant`] keeps, in their order.
pub open spec fn filter_variants_m(ru: IntrRuleACM, cs: Seq<IntrRuleACM>, apply_filters: bool, diff: bool) -> Seq<
    IntrRuleACM,
>
    decreases cs.len(),
{
    if cs.len() == 0 {
        cs
    } else {
        let r = filter_variants_m(ru, cs.drop_last(), apply_filters, diff);
        if keeps_variant(ru, cs.last(), apply_filters, diff) {
            r.push(cs.last())
        } else {
            r
        }
    }
}

fn facts_terms_exec(fs: &Vec<Fact>) -> (r: Vec<Term>)
    ensures
        terms_m(r@) == facts_terms(facts_m(fs@)),
{
    let mut out: Vec<Term> = Vec::new();
    let mut i: usize = 0;
    while i < fs.len()
        invariant
            i <= fs.len(),
            terms_m(out@) == facts_terms(facts_m(fs@).take(i as int)),
        decreases fs.len() - i,
    {
        let mut more = copy_terms(&fs[i].terms);
        proof {
            assert(facts_m(fs@).take(i + 1).drop_last() =~= facts_m(fs@).take(i as int));
            assert(facts_m(fs@).take(i + 1).last() == fs@[i as int]@);
            assert(terms_m(out@ + more@) =~= terms_m(out@) + terms_m(more@));
        }
        out.append(&mut more);
        i += 1;
    }
    assert(facts_m(fs@).take(fs.len() as int) =~= facts_m(fs@));
    out
}

fn count_fact(s: &Vec<Fact>, x: &Fact) -> (r: usize)
    ensures
        r == occurrences(facts_m(s@), x@),
{
    let mut r: usize = 0;
    let mut j: usize = 0;
    while j < s.len()
        invariant
            j <= s.len(),
            r <= j,
            r == occurrences(facts_m(s@).take(j as int), x@),
        decreases s.len() - j,
    {
        proof {
            assert(facts_m(s@).take(j + 1).drop_last() =~= facts_m(s@).take(j as int));
            assert(facts_m(s@).take(j + 1).last() == s@[j as int]@);
        }
        if s[j].same(x) {
            r += 1;
        }
        j += 1;
    }
    assert(facts_m(s@).take(s.len() as int) =~= facts_m(s@));
    r
}

fn concs_exceed_prems_exec(concs: &Vec<Fact>, prems: &Vec<Fact>) -> (r: bool)
    ensures
        r == concs_exceed_prems(facts_m(concs@), facts_m(prems@)),
{
    let ghost cs = facts_m(concs@);
    let ghost ps = facts_m(prems@);
    let mut i: usize = 0;
    while i < concs.len()
        invariant
            i <= concs.len(),
            cs == facts_m(concs@),
            ps == facts_m(prems@),
            forall|k: int| 0 <= k < i ==> !(occurrences(cs, #[trigger] cs[k]) > occurrences(ps, cs[k])),
        decreases concs.len() - i,
    {
        let a = count_fact(concs, &concs[i]);
        let b = count_fact(prems, &concs[i]);
        assert(cs[i as int] == concs@[i as int]@);
        if a > b {
            return true;
        }
        i += 1;
    }
    false
}

fn any_free_term(ts: &Vec<Term>) -> (r: bool)
    ensures
        r == exists|k: int| 0 <= k < ts@.len() && (#[trigger] term_frees(terms_m(ts@)[k])).len() > 0,
{
    let mut i: usize = 0;
    while i < ts.len()
        invariant
            i <= ts.len(),
            forall|k: int| 0 <= k < i ==> (#[trigger] term_frees(terms_m(ts@)[k])).len() == 0,
        decreases ts.len() - i,
    {
        let mut out: Vec<LVar> = Vec::new();
        assert(lvars_m(out@) =~= Seq::<LVarM>::empty());
        collect_term_frees(&ts[i], &mut out);
        assert(terms_m(ts@)[i as int] == ts@[i as int]@);
        assert(lvars_m(out@).len() == out@.len());
        if out.len() > 0 {
            return true;
        }
        i += 1;
    }
    false
}

fn keeps_variant_exec(ru: &IntrRuleAC, v: &IntrRuleAC, apply_filters: bool, diff: bool) -> (r: bool)
    ensures
        r == keeps_variant(ru@, v@, apply_filters, diff),
{
    let ts = facts_terms_exec(&v.conclusions);
    let ghost tsm = facts_terms(v@.conclusions);
    assert(terms_m(ts@).len() == ts@.len());
    let lone_product = if ts.len() == 1 {
        assert(terms_m(ts@)[0] == ts@[0]@);
        match &ts[0] {
            Term::App(FunSym::Ac(AcSym::Mult), _) => true,
            _ => false,
        }
    } else {
        false
    };
    assert(lone_product == (tsm.len() == 1 && is_product(tsm[0])));
    if !apply_filters {
        return !lone_product;
    }
    let frees_ok = diff || any_free_term(&ts);
    let differs = !v.same(ru);
    let exceeds = concs_exceed_prems_exec(&v.conclusions, &v.premises);
    frees_ok && differs && exceeds && !lone_product
}

/// The variants of `ru` that are kept (see [`keeps_variant`]), in their
/// order: the decisions taken on the variant rules built from the variant
/// substitutions of `ru`.
pub fn filter_variant_rules(ru: &IntrRuleAC, candidates: Vec<IntrRuleAC>, apply_filters: bool, diff: bool) -> (r:
    Vec<IntrRuleAC>)
    ensures
        rules_m(r@) == filter_variants_m(ru@, rules_m(candidates@), apply_filters, diff),
{
    let ghost cs = rules_m(candidates@);
    let ghost mut i: int = 0;
    let mut rest = candidates;
    let mut out: Vec<IntrRuleAC> = Vec::new();
    assert(rules_m(rest@) =~= cs.skip(0));
    assert(cs.take(0) =~= Seq::<IntrRuleACM>::empty());
    assert(rules_m(out@) =~= Seq::<IntrRuleACM>::empty());
    while rest.len() > 0
        invariant
            0 <= i <= cs.len(),
            rules_m(rest@) == cs.skip(i),
            rules_m(out@) == filter_variants_m(ru@, cs.take(i), apply_filters, diff),
        decreases rest.len(),
    {
        let ghost before = rest@;
        proof {
            assert(rules_m(before).len() == before.len());
            assert(cs.skip(i).len() > 0);
            assert(rules_m(before)[0] == cs.skip(i)[0]);
        }
        let c = rest.remove(0);
        proof {
            assert(rules_m(before)[0] == cs[i]);
            assert(c@ == cs[i]);
            assert forall|k: int| 0 <= k < rest@.len() implies #[trigger] rules_m(rest@)[k] == cs.skip(i + 1)[k] by {
                assert(rest@[k] == before[k + 1]);
                assert(rules_m(before)[k + 1] == cs.skip(i)[k + 1]);
            }
            assert(rules_m(rest@) =~= cs.skip(i + 1));
            assert(cs.take(i + 1).drop_last() =~= cs.take(i));
            assert(cs.take(i + 1).last() == cs[i]);
        }
        if keeps_variant_exec(ru, &c, apply_filters, diff) {
            out.push(c);
            proof {
                assert(rules_m(out@) =~= filter_variants_m(ru@, cs.take(i), apply_filters, diff).push(cs[i]));
            }
        }
        proof {
            i = i + 1;
        }
    }
    assert(cs.take(i) =~= cs);
    out
}

/// The indices among `i..n` of the rules that survive deduplication, the
/// rules deciding from the last down: a rule goes when it is equal (`e`) to
/// a rule after it that stays or to any rule before it.
pub open spec fn dedup_kept(e: spec_fn(int, int) -> bool, n: int, i: int) -> Set<int>
    decreases n - i,
{
    if i < 0 || i >= n {
        Set::empty()
    } else {
        let later = dedup_kept(e, n, i + 1);
        if (exists|j: int| later.contains(j) && #[trigger] e(i, j)) || (exists|j: int| 0 <= j < i && #[trigger] e(i, j)) {
            later
        } else {
            later.insert(i)
        }
    }
}

/// The rules among the first `m` whose index is in `kept`, in their order.
pub open spec fn pick_rules(rs: Seq<IntrRuleACM>, kept: Set<int>, m: int) -> Seq<IntrRuleACM>
    decreases m,
{
    if m <= 0 {
        Seq::empty()
    } else {
        let r = pick_rules(rs, kept, m - 1);
        if kept.contains(m - 1) {
            r.push(rs[m - 1])
        } else {
            r
        }
    }
}

proof fn lemma_dedup_kept_range(e: spec_fn(int, int) -> bool, n: int, i: int)
    ensures
        forall|j: int| #[trigger] dedup_kept(e, n, i).contains(j) ==> i <= j < n,
    decreases n - i,
{
    if 0 <= i < n {
        lemma_dedup_kept_range(e, n, i + 1);
        let later = dedup_kept(e, n, i + 1);
        assert(dedup_kept(e, n, i) == later || dedup_kept(e, n, i) == later.insert(i));
    } else {
        assert(dedup_kept(e, n, i) =~= Set::<int>::empty());
    }
}

/// Deduplicate the variant rules up to renaming, given whether each rule is
/// equal up to renaming to each other one (`equal[i][j]` compares rule `i`
/// with rule `j`): walking from the last rule down, a rule is dropped when
/// it is equal to a rule after it that was kept or to any rule before it
/// (see [`dedup_kept`]); the kept rules stay in their order.
pub fn dedup_up_to_renaming(rules: Vec<IntrRuleAC>, equal: &Vec<Vec<bool>>) -> (r: Vec<IntrRuleAC>)
    requires
        equal@.len() == rules@.len(),
        forall|i: int| 0 <= i < rules@.len() ==> (#[trigger] equal@[i])@.len() == rules@.len(),
    ensures
        rules_m(r@) == pick_rules(
            rules_m(rules@),
            dedup_kept(|i: int, j: int| equal@[i]@[j], rules@.len() as int, 0),
            rules@.len() as int,
        ),
{
    let ghost e = |i: int, j: int| equal@[i]@[j];
    let n = rules.len();
    let mut keep: Vec<bool> = Vec::new();
    while keep.len() < n
        invariant
            keep.len() <= n,
        decreases n - keep.len(),
    {
        keep.push(false);
    }
    let mut i: usize = n;
    while i > 0
        invariant
            i <= n,
            keep.len() == n,
            n == rules.len(),
            equal@.len() == n,
            forall|k: int| 0 <= k < n ==> (#[trigger] equal@[k])@.len() == n,
            e == (|i: int, j: int| equal@[i]@[j]),
            forall|j: int| i <= j < n ==> keep@[j] == dedup_kept(e, n as int, i as int).contains(j),
        decreases i,
    {
        i = i - 1;
        let ghost later = dedup_kept(e, n as int, i + 1);
        proof {
            lemma_dedup_kept_range(e, n as int, i + 1);
        }
        let mut dup = false;
        let mut j: usize = i + 1;
        while j < n
            invariant
                i < j <= n,
                keep.len() == n,
                equal@.len() == n,
                forall|k: int| 0 <= k < n ==> (#[trigger] equal@[k])@.len() == n,
                e == (|i: int, j: int| equal@[i]@[j]),
                dup == exists|k: int| i < k < j && keep@[k] && #[trigger] e(i as int, k),
            decreases n - j,
        {
            assert(e(i as int, j as int) == equal@[i as int]@[j as int]);
            if keep[j] && equal[i][j] {
                dup = true;
            }
            j += 1;
        }
        assert(dup == exists|k: int| later.contains(k) && #[trigger] e(i as int, k)) by {
            if dup {
                let k = choose|k: int| i < k < n && keep@[k] && #[trigger] e(i as int, k);
                assert(later.contains(k));
            }
            if exists|k: int| later.contains(k) && #[trigger] e(i as int, k) {
                let k = choose|k: int| later.contains(k) && #[trigger] e(i as int, k);
                assert(i < k < n);
                assert(keep@[k]);
            }
        }
        let ghost dup_later = dup;
        let mut k: usize = 0;
        let mut dup_before = false;
        while k < i
            invariant
                k <= i < n,
                equal@.len() == n,
                forall|m: int| 0 <= m < n ==> (#[trigger] equal@[m])@.len() == n,
                e == (|i: int, j: int| equal@[i]@[j]),
                dup_before == exists|m: int| 0 <= m < k && #[trigger] e(i as int, m),
            decreases i - k,
        {
            assert(e(i as int, k as int) == equal@[i as int]@[k as int]);
            if equal[i][k] {
                dup_before = true;
            }
            k += 1;
        }
        let drop_it = dup || dup_before;
        proof {
            assert(dedup_kept(e, n as int, i as int) == if drop_it { later } else { later.insert(i as int) });
        }
        keep.set(i, !drop_it);
        proof {
            assert forall|j: int| i <= j < n implies keep@[j] == dedup_kept(e, n as int, i as int).contains(j) by {
                if j > i {
                    assert(!later.contains(i as int));
                }
            }
        }
    }
    let ghost rs = rules_m(rules@);
    let ghost kept = dedup_kept(e, n as int, 0);
    let ghost mut m: int = 0;
    let mut rest = rules;
    let mut out: Vec<IntrRuleAC> = Vec::new();
    let mut idx: usize = 0;
    assert(rules_m(rest@) =~= rs.skip(0));
    assert(rules_m(out@) =~= Seq::<IntrRuleACM>::empty());
    while rest.len() > 0
        invariant
            idx as int == m,
            0 <= m <= rs.len(),
            rs.len() == n,
            keep.len() == n,
            forall|j: int| 0 <= j < n ==> keep@[j] == kept.contains(j),
            rules_m(rest@) == rs.skip(m),
            rules_m(out@) == pick_rules(rs, kept, m),
        decreases rest.len(),
    {
        let ghost before = rest@;
        proof {
            assert(rules_m(before).len() == before.len());
            assert(rs.skip(m).len() > 0);
            assert(rules_m(before)[0] == rs.skip(m)[0]);
        }
        let c = rest.remove(0);
        proof {
            assert(c@ == rs[m]);
            assert forall|k: int| 0 <= k < rest@.len() implies #[trigger] rules_m(rest@)[k] == rs.skip(m + 1)[k] by {
                assert(rest@[k] == before[k + 1]);
                assert(rules_m(before)[k + 1] == rs.skip(m)[k + 1]);
            }
            assert(rules_m(rest@) =~= rs.skip(m + 1));
        }
        if keep[idx] {
            out.push(c);
            proof {
                assert(rules_m(out@) =~= pick_rules(rs, kept, m).push(rs[m]));
            }
        }
        idx += 1;
        proof {
            m = m + 1;
        }
    }
    out
}

/// The indices among the first `i` of the rules that survive minimisation,
/// the rules deciding from the first on: a rule goes when it is a duplicate
/// of, or subsumed by (`e`), a rule before it that stays or any rule after
/// it.
pub open spec fn minimize_kept(e: spec_fn(int, int) -> bool, n: int, i: int) -> Set<int>
    decreases i,
{
    if i <= 0 || i > n {
        Set::empty()
    } else {
        let before = minimize_kept(e, n, i - 1);
        let k = i - 1;
        if exists|j: int| ((0 <= j < k && before.contains(j)) || (k < j < n)) && #[trigger] e(k, j) {
            before
        } else {
            before.insert(k)
        }
    }
}

proof fn lemma_minimize_kept_range(e: spec_fn(int, int) -> bool, n: int, i: int)
    ensures
        forall|j: int| #[trigger] minimize_kept(e, n, i).contains(j) ==> 0 <= j < i,
    decreases i,
{
    if 0 < i <= n {
        lemma_minimize_kept_range(e, n, i - 1);
        let before = minimize_kept(e, n, i - 1);
        assert(minimize_kept(e, n, i) == before || minimize_kept(e, n, i) == before.insert(i - 1));
    } else {
        assert(minimize_kept(e, n, i) =~= Set::<int>::empty());
    }
}

/// Minimise a list of intruder rules, given for each pair whether rule `i`
/// duplicates rule `j` up to renaming (`duplicate[i][j]`) and whether rule
/// `j` subsumes it (`subsumed[i][j]`, consulted only when not `diff`): the
/// rules that survive (see [`minimize_kept`]), in their order, less the
/// redundant destructor rules (see [`is_double_premise_m`]).
pub fn minimize_rules_with(
    diff: bool,
    rules: Vec<IntrRuleAC>,
    duplicate: &Vec<Vec<bool>>,
    subsumed: &Vec<Vec<bool>>,
) -> (r: Vec<IntrRuleAC>)
    requires
        duplicate@.len() == rules@.len(),
        subsumed@.len() == rules@.len(),
        forall|i: int| 0 <= i < rules@.len() ==> (#[trigger] duplicate@[i])@.len() == rules@.len(),
        forall|i: int| 0 <= i < rules@.len() ==> (#[trigger] subsumed@[i])@.len() == rules@.len(),
    ensures
        ({
            let e = |i: int, j: int| duplicate@[i]@[j] || (!diff && subsumed@[i]@[j]);
            let kept = minimize_kept(e, rules@.len() as int, rules@.len() as int);
            rules_m(r@) == pick_rules(
                rules_m(rules@),
                Set::new(|k: int| kept.contains(k) && !is_double_premise_m(rules@[k]@)),
                rules@.len() as int,
            )
        }),
{
    let ghost e = |i: int, j: int| duplicate@[i]@[j] || (!diff && subsumed@[i]@[j]);
    let n = rules.len();
    let mut keep: Vec<bool> = Vec::new();
    while keep.len() < n
        invariant
            keep.len() <= n,
        decreases n - keep.len(),
    {
        keep.push(false);
    }
    let mut i: usize = 0;
    while i < n
        invariant
            i <= n,
            keep.len() == n,
            n == rules.len(),
            duplicate@.len() == n,
            subsumed@.len() == n,
            forall|k: int| 0 <= k < n ==> (#[trigger] duplicate@[k])@.len() == n,
            forall|k: int| 0 <= k < n ==> (#[trigger] subsumed@[k])@.len() == n,
            e == (|i: int, j: int| duplicate@[i]@[j] || (!diff && subsumed@[i]@[j])),
            forall|j: int| 0 <= j < i ==> keep@[j] == minimize_kept(e, n as int, i as int).contains(j),
        decreases n - i,
    {
        let ghost before = minimize_kept(e, n as int, i as int);
        proof {
            lemma_minimize_kept_range(e, n as int, i as int);
        }
        let mut dropped = false;
        let mut j: usize = 0;
        while j < n
            invariant
                i < n,
                j <= n,
                keep.len() == n,
                duplicate@.len() == n,
                subsumed@.len() == n,
                forall|k: int| 0 <= k < n ==> (#[trigger] duplicate@[k])@.len() == n,
                forall|k: int| 0 <= k < n ==> (#[trigger] subsumed@[k])@.len() == n,
                e == (|i: int, j: int| duplicate@[i]@[j] || (!diff && subsumed@[i]@[j])),
                dropped == exists|k: int|
                    0 <= k < j && ((k < i && keep@[k]) || (i < k)) && #[trigger] e(i as int, k),
            decreases n - j,
        {
            assert(e(i as int, j as int) == (duplicate@[i as int]@[j as int] || (!diff
                && subsumed@[i as int]@[j as int])));
            if j != i && (j > i || keep[j]) && (duplicate[i][j] || (!diff && subsumed[i][j])) {
                dropped = true;
            }
            j += 1;
        }
        assert(dropped == exists|k: int| ((0 <= k < i && before.contains(k)) || (i < k < n)) && #[trigger] e(
            i as int,
            k,
        )) by {
            if dropped {
                let k = choose|k: int| 0 <= k < n && ((k < i && keep@[k]) || (i < k)) && #[trigger] e(i as int, k);
                if k < i {
                    assert(before.contains(k));
                }
            }
            if exists|k: int| ((0 <= k < i && before.contains(k)) || (i < k < n)) && #[trigger] e(i as int, k) {
                let k = choose|k: int| ((0 <= k < i && before.contains(k)) || (i < k < n)) && #[trigger] e(i as int, k);
                if k < i {
                    assert(keep@[k]);
                }
            }
        }
        proof {
            assert(minimize_kept(e, n as int, i + 1) == if dropped { before } else { before.insert(i as int) });
        }
        keep.set(i, !dropped);
        proof {
            assert forall|j: int| 0 <= j < i + 1 implies keep@[j] == minimize_kept(e, n as int, i + 1).contains(j) by {
                if j < i {
                    assert(!before.contains(i as int));
                }
            }
        }
        i += 1;
    }
    let ghost rs = rules_m(rules@);
    let ghost orig = rules@;
    let ghost kept = minimize_kept(e, n as int, n as int);
    let ghost final_set = Set::new(|k: int| kept.contains(k) && !is_double_premise_m(orig[k]@));
    let ghost mut m: int = 0;
    let mut rest = rules;
    let mut out: Vec<IntrRuleAC> = Vec::new();
    let mut idx: usize = 0;
    assert(rules_m(rest@) =~= rs.skip(0));
    assert(rules_m(out@) =~= Seq::<IntrRuleACM>::empty());
    while rest.len() > 0
        invariant
            idx as int == m,
            0 <= m <= rs.len(),
            rs.len() == n,
            orig.len() == n,
            rs == rules_m(orig),
            keep.len() == n,
            forall|j: int| 0 <= j < n ==> keep@[j] == kept.contains(j),
            final_set == Set::new(|k: int| kept.contains(k) && !is_double_premise_m(orig[k]@)),
            rules_m(rest@) == rs.skip(m),
            rules_m(out@) == pick_rules(rs, final_set, m),
        decreases rest.len(),
    {
        let ghost before = rest@;
        proof {
            assert(rules_m(before).len() == before.len());
            assert(rs.skip(m).len() > 0);
            assert(rules_m(before)[0] == rs.skip(m)[0]);
        }
        let c = rest.remove(0);
        proof {
            assert(c@ == rs[m]);
            assert(rs[m] == orig[m]@);
            assert forall|k: int| 0 <= k < rest@.len() implies #[trigger] rules_m(rest@)[k] == rs.skip(m + 1)[k] by {
                assert(rest@[k] == before[k + 1]);
                assert(rules_m(before)[k + 1] == rs.skip(m)[k + 1]);
            }
            assert(rules_m(rest@) =~= rs.skip(m + 1));
        }
        let double = is_double_premise_rule(&c);
        proof {
            assert(final_set.contains(m) == (keep@[m] && !double));
        }
        if keep[idx] && !double {
            out.push(c);
            proof {
                assert(rules_m(out@) =~= pick_rules(rs, final_set, m).push(rs[m]));
            }
        }
        idx += 1;
        proof {
            m = m + 1;
        }
    }
    out
}

/// The variables of the terms of the facts.
pub open spec fn facts_frees(fs: Seq<FactM>) -> Set<LVarM> {
    Set::new(|v: LVarM| exists|k: int, j: int| 0 <= k < fs.len() && 0 <= j < fs[k].terms.len()
        && #[trigger] term_frees(fs[k].terms[j]).contains(v))
}

proof fn lemma_xor2_frees(f: FunSymM, a: LVarM, b: LVarM)
    ensures
        term_frees(app2_m(f, TermM::Var(BVarM::Free(a)), TermM::Var(BVarM::Free(b)))) =~= seq![a, b],
{
    let ta = TermM::Var(BVarM::Free(a));
    let tb = TermM::Var(BVarM::Free(b));
    let args = seq![ta, tb];
    assert(args.drop_last() =~= seq![ta]);
    assert(seq![ta].drop_last() =~= Seq::<TermM>::empty());
    assert(crate::term::terms_frees(Seq::<TermM>::empty()) == Seq::<LVarM>::empty());
    assert(crate::term::terms_frees(seq![ta]) == crate::term::terms_frees(Seq::<TermM>::empty()) + term_frees(ta));
    assert(crate::term::terms_frees(seq![ta]) =~= seq![a]);
    assert(crate::term::terms_frees(args) == crate::term::terms_frees(seq![ta]) + term_frees(tb));
    assert(crate::term::terms_frees(args) =~= seq![a, b]);
}

/// Every exclusive-or rule concludes something it is not given: no term it
/// concludes is the term of one of its premises, and every variable of what
/// it concludes comes from its premises (a rule without premises concludes
/// a ground term).
pub proof fn xor_rules_conclude_something_new()
    ensures
        forall|k: int, c: int, q: int|
            0 <= k < xor_rules_m().len() && 0 <= c < xor_rules_m()[k].conclusions.len() && 0 <= q
                < xor_rules_m()[k].premises.len() ==> (#[trigger] xor_rules_m()[k].conclusions[c]).terms
                != (#[trigger] xor_rules_m()[k].premises[q]).terms,
        forall|k: int| #![trigger xor_rules_m()[k]]
            0 <= k < xor_rules_m().len() ==> facts_frees(xor_rules_m()[k].conclusions).subset_of(
                facts_frees(xor_rules_m()[k].premises),
            ),
{
    reveal_strlit("x");
    reveal_strlit("y");
    reveal_strlit("z");
    let xv = LVarM { name: "x"@, sort: LSort::Msg, idx: 0 };
    let yv = LVarM { name: "y"@, sort: LSort::Msg, idx: 0 };
    let zv = LVarM { name: "z"@, sort: LSort::Msg, idx: 0 };
    assert(xv != yv && xv != zv && yv != zv) by {
        assert("x"@[0] != "y"@[0]);
        assert("x"@[0] != "z"@[0]);
        assert("y"@[0] != "z"@[0]);
    }
    let rs = xor_rules_m();
    let xo = FunSymM::Ac(AcSymM::Xor);
    lemma_xor2_frees(xo, xv, yv);
    lemma_xor2_frees(xo, xv, zv);
    lemma_xor2_frees(xo, yv, zv);
    let xt = var_m("x"@, LSort::Msg, 0);
    let yt = var_m("y"@, LSort::Msg, 0);
    let zt = var_m("z"@, LSort::Msg, 0);
    assert forall|k: int, c: int, q: int|
        0 <= k < rs.len() && 0 <= c < rs[k].conclusions.len() && 0 <= q < rs[k].premises.len() implies (
        #[trigger] rs[k].conclusions[c]).terms != (#[trigger] rs[k].premises[q]).terms by {
        let ct = rs[k].conclusions[c].terms;
        let pt = rs[k].premises[q].terms;
        if k == 0 {
            if q == 0 {
                assert(seq![xt, zt][1] != seq![xt, yt][1]);
                assert(ct[0] != pt[0]);
            } else {
                assert(seq![xt, zt][0] != seq![yt, zt][0]);
                assert(ct[0] != pt[0]);
            }
        } else if k == 1 {
            assert(ct[0] != pt[0]);
        } else if k == 2 {
            assert(ct[0] != pt[0]);
        }
    }
    assert forall|k: int| #![trigger rs[k]] 0 <= k < rs.len() implies facts_frees(rs[k].conclusions).subset_of(
        facts_frees(rs[k].premises),
    ) by {
        let cs = rs[k].conclusions;
        let ps = rs[k].premises;
        assert forall|v: LVarM| facts_frees(cs).contains(v) implies facts_frees(ps).contains(v) by {
            let (a, j) = choose|a: int, j: int| 0 <= a < cs.len() && 0 <= j < cs[a].terms.len()
                && #[trigger] term_frees(cs[a].terms[j]).contains(v);
            assert(a == 0 && j == 0);
            if k == 0 {
                assert(term_frees(cs[0].terms[0]) =~= seq![xv, zv]);
                if v == xv {
                    assert(seq![xv, yv][0] == xv);
                    assert(term_frees(ps[0].terms[0]).contains(v));
                } else {
                    assert(seq![xv, zv][1] == zv);
                    assert(term_frees(ps[1].terms[0]).contains(v));
                }
            } else if k == 1 {
                assert(term_frees(cs[0].terms[0]) =~= seq![xv]);
                assert(v == xv);
                assert(term_frees(ps[0].terms[0]) =~= seq![xv, yv]);
                assert(seq![xv, yv][0] == xv);
                assert(term_frees(ps[0].terms[0]).contains(v));
            } else if k == 2 {
                assert(term_frees(cs[0].terms[0]) =~= seq![xv, yv]);
                if v == xv {
                    assert(seq![xv][0] == xv);
                    assert(term_frees(ps[0].terms[0]).contains(v));
                } else {
                    assert(seq![xv, yv][1] == yv);
                    assert(term_frees(ps[1].terms[0]).contains(v));
                }
            } else {
                reveal_with_fuel(crate::term::terms_frees, 1);
                assert(term_frees(cs[0].terms[0]) =~= Seq::<LVarM>::empty());
            }
        }
    }
}

} // verus!
