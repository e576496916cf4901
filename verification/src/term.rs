//! Terms in locally nameless form: the variables, names, function symbols,
//! facts and atoms that formulas and guarded formulas are built from, each
//! with a mathematical model (`view`) and an executable equality and copy
//! that are proved against that model.
use vstd::prelude::*;
use crate::canon::{cmap_term, cmap_atom, cmap_term_exec, cmap_atom_exec};

verus! {

broadcast use vstd::std_specs::vec::group_vec_axioms;

/// The sort of a variable or a name.
#[derive(Clone, Copy, Debug, PartialEq, Eq, PartialOrd, Ord, Structural, Hash)]
pub enum LSort {
    Pub,
    Fresh,
    Msg,
    Node,
    Nat,
}

/// A logical variable: a name, a sort and an index.  Variables are ordered
/// by index, then sort, then name.
#[derive(Clone, Debug, Eq, PartialOrd, Ord, Hash)]
pub struct LVar {
    pub idx: u64,
    pub sort: LSort,
    pub name: String,
}

/// The model of an [`LVar`].
pub struct LVarM {
    pub name: Seq<char>,
    pub sort: LSort,
    pub idx: u64,
}

impl LVar {
    pub open spec fn view(&self) -> LVarM {
        LVarM { name: self.name@, sort: self.sort, idx: self.idx }
    }

    /// A variable with the given name, sort and index.
    pub fn new(name: &str, sort: LSort, idx: u64) -> (r: LVar)
        ensures
            r@ == (LVarM { name: name@, sort, idx }),
    {
        LVar { name: name.to_string(), sort, idx }
    }

    /// A copy of the variable.
    pub fn copy(&self) -> (r: LVar)
        ensures
            r@ == self@,
    {
        LVar { name: self.name.clone(), sort: self.sort, idx: self.idx }
    }

    /// How the variable is written (see [`show_lvar`]).
    pub fn show(&self) -> (r: String)
        ensures
            r@ == show_lvar(self@),
    {
        let mut out = String::new();
        match self.sort {
            LSort::Msg => {},
            LSort::Pub => {
                proof { reveal_strlit("$"); }
                out.append("$");
            },
            LSort::Fresh => {
                proof { reveal_strlit("~"); }
                out.append("~");
            },
            LSort::Node => {
                proof { reveal_strlit("#"); }
                out.append("#");
            },
            LSort::Nat => {
                proof { reveal_strlit("%"); }
                out.append("%");
            },
        }
        assert(out@ =~= sort_prefix(self.sort));
        if self.name.as_str().is_empty() {
            push_decimal(&mut out, self.idx);
        } else if self.idx == 0 {
            out.append(self.name.as_str());
        } else {
            out.append(self.name.as_str());
            proof { reveal_strlit("."); }
            out.append(".");
            push_decimal(&mut out, self.idx);
        }
        assert(out@ =~= show_lvar(self@));
        out
    }

    /// Equality of two variables: name, sort and index together.
    pub fn same(&self, other: &LVar) -> (r: bool)
        ensures
            r == (self@ == other@),
    {
        self.idx == other.idx && self.sort == other.sort && self.name == other.name
    }
}

impl PartialEq for LVar {
    fn eq(&self, other: &LVar) -> (r: bool) {
        self.same(other)
    }
}

impl vstd::std_specs::cmp::PartialEqSpecImpl for LVar {
    open spec fn obeys_eq_spec() -> bool {
        true
    }

    open spec fn eq_spec(&self, other: &LVar) -> bool {
        self@ == other@
    }
}

/// The decimal digits of `n`, most significant first.
pub open spec fn decimal(n: nat) -> Seq<char>
    decreases n,
{
    if n < 10 {
        seq![digit_char(n)]
    } else {
        decimal(n / 10).push(digit_char(n % 10))
    }
}

/// The character of a decimal digit.
pub open spec fn digit_char(d: nat) -> char {
    if d == 0 { '0' } else if d == 1 { '1' } else if d == 2 { '2' } else if d == 3 { '3' }
    else if d == 4 { '4' } else if d == 5 { '5' } else if d == 6 { '6' } else if d == 7 { '7' }
    else if d == 8 { '8' } else { '9' }
}

/// The prefix a variable's sort is written with.
pub open spec fn sort_prefix(s: LSort) -> Seq<char> {
    match s {
        LSort::Msg => Seq::empty(),
        LSort::Pub => seq!['$'],
        LSort::Fresh => seq!['~'],
        LSort::Node => seq!['#'],
        LSort::Nat => seq!['%'],
    }
}

/// How a variable is written: its sort prefix, then its name, then `.` and
/// its index when the index is not 0 (a nameless variable is written by its
/// index alone).
pub open spec fn show_lvar(v: LVarM) -> Seq<char> {
    sort_prefix(v.sort) + if v.name.len() == 0 {
        decimal(v.idx as nat)
    } else if v.idx == 0 {
        v.name
    } else {
        v.name + seq!['.'] + decimal(v.idx as nat)
    }
}

/// The one-character string of a decimal digit.
fn digit_str(d: u64) -> (r: &'static str)
    requires
        d < 10,
    ensures
        r@ == seq![digit_char(d as nat)],
{
    if d == 0 {
        proof { reveal_strlit("0"); }
        "0"
    } else if d == 1 {
        proof { reveal_strlit("1"); }
        "1"
    } else if d == 2 {
        proof { reveal_strlit("2"); }
        "2"
    } else if d == 3 {
        proof { reveal_strlit("3"); }
        "3"
    } else if d == 4 {
        proof { reveal_strlit("4"); }
        "4"
    } else if d == 5 {
        proof { reveal_strlit("5"); }
        "5"
    } else if d == 6 {
        proof { reveal_strlit("6"); }
        "6"
    } else if d == 7 {
        proof { reveal_strlit("7"); }
        "7"
    } else if d == 8 {
        proof { reveal_strlit("8"); }
        "8"
    } else {
        proof { reveal_strlit("9"); }
        "9"
    }
}

/// Append the decimal digits of `n` to `out`.
pub fn push_decimal(out: &mut String, n: u64)
    ensures
        final(out)@ == old(out)@ + decimal(n as nat),
    decreases n,
{
    if n < 10 {
        out.append(digit_str(n));
    } else {
        push_decimal(out, n / 10);
        out.append(digit_str(n % 10));
        assert(decimal(n as nat) == decimal((n / 10) as nat).push(digit_char((n % 10) as nat)));
        assert(final(out)@ =~= old(out)@ + decimal(n as nat)) by {
            assert(decimal((n / 10) as nat) + seq![digit_char((n % 10) as nat)] =~= decimal(n as nat));
        }
    }
}

/// The kind of a constant name.
#[derive(Clone, Copy, Debug, PartialEq, Eq, Structural, Hash)]
pub enum NameTag {
    Fresh,
    Pub,
    Node,
    Nat,
}

/// A constant name such as `'a'` or `~n`.
#[derive(Clone, Debug, Hash)]
pub struct Name {
    pub tag: NameTag,
    pub id: String,
}

pub struct NameM {
    pub tag: NameTag,
    pub id: Seq<char>,
}

impl Name {
    pub open spec fn view(&self) -> NameM {
        NameM { tag: self.tag, id: self.id@ }
    }

    pub fn copy(&self) -> (r: Name)
        ensures
            r@ == self@,
    {
        Name { tag: self.tag, id: self.id.clone() }
    }

    pub fn same(&self, other: &Name) -> (r: bool)
        ensures
            r == (self@ == other@),
    {
        self.tag == other.tag && self.id == other.id
    }
}

/// Whether a function symbol is public or private.
#[derive(Clone, Copy, Debug, PartialEq, Eq, Structural, Hash)]
pub enum Privacy {
    Public,
    Private,
}

/// Whether a function symbol constructs or destructs.
#[derive(Clone, Copy, Debug, PartialEq, Eq, Structural, Hash)]
pub enum Constructability {
    Constructor,
    Destructor,
}

/// A free (no equations) or user-defined AC function symbol.
#[derive(Clone, Debug, Hash)]
pub struct SymInfo {
    pub name: String,
    pub arity: usize,
    pub privacy: Privacy,
    pub constructability: Constructability,
}

pub struct SymInfoM {
    pub name: Seq<char>,
    pub arity: usize,
    pub privacy: Privacy,
    pub constructability: Constructability,
}

impl SymInfo {
    pub open spec fn view(&self) -> SymInfoM {
        SymInfoM {
            name: self.name@,
            arity: self.arity,
            privacy: self.privacy,
            constructability: self.constructability,
        }
    }

    pub fn copy(&self) -> (r: SymInfo)
        ensures
            r@ == self@,
    {
        SymInfo {
            name: self.name.clone(),
            arity: self.arity,
            privacy: self.privacy,
            constructability: self.constructability,
        }
    }

    pub fn same(&self, other: &SymInfo) -> (r: bool)
        ensures
            r == (self@ == other@),
    {
        self.arity == other.arity && self.privacy == other.privacy && self.constructability
            == other.constructability && self.name == other.name
    }
}

/// Associative-commutative function symbols.
#[derive(Clone, Debug, Hash)]
pub enum AcSym {
    Union,
    Mult,
    Xor,
    NatPlus,
    AcFct(SymInfo),
}

/// Commutative function symbols.
#[derive(Clone, Copy, Debug, PartialEq, Eq, Structural, Hash)]
pub enum CSym {
    EMap,
}

/// Function symbols.
#[derive(Clone, Debug, Hash)]
pub enum FunSym {
    NoEq(SymInfo),
    Ac(AcSym),
    C(CSym),
    List,
}

pub enum AcSymM {
    Union,
    Mult,
    Xor,
    NatPlus,
    AcFct(SymInfoM),
}

pub enum FunSymM {
    NoEq(SymInfoM),
    Ac(AcSymM),
    C(CSym),
    List,
}

impl AcSym {
    pub open spec fn view(&self) -> AcSymM {
        match self {
            AcSym::Union => AcSymM::Union,
            AcSym::Mult => AcSymM::Mult,
            AcSym::Xor => AcSymM::Xor,
            AcSym::NatPlus => AcSymM::NatPlus,
            AcSym::AcFct(s) => AcSymM::AcFct(s@),
        }
    }

    pub fn copy(&self) -> (r: AcSym)
        ensures
            r@ == self@,
    {
        match self {
            AcSym::Union => AcSym::Union,
            AcSym::Mult => AcSym::Mult,
            AcSym::Xor => AcSym::Xor,
            AcSym::NatPlus => AcSym::NatPlus,
            AcSym::AcFct(s) => AcSym::AcFct(s.copy()),
        }
    }

    pub fn same(&self, other: &AcSym) -> (r: bool)
        ensures
            r == (self@ == other@),
    {
        match (self, other) {
            (AcSym::Union, AcSym::Union) => true,
            (AcSym::Mult, AcSym::Mult) => true,
            (AcSym::Xor, AcSym::Xor) => true,
            (AcSym::NatPlus, AcSym::NatPlus) => true,
            (AcSym::AcFct(a), AcSym::AcFct(b)) => a.same(b),
            _ => false,
        }
    }
}

impl FunSym {
    pub open spec fn view(&self) -> FunSymM {
        match self {
            FunSym::NoEq(s) => FunSymM::NoEq(s@),
            FunSym::Ac(a) => FunSymM::Ac(a@),
            FunSym::C(c) => FunSymM::C(*c),
            FunSym::List => FunSymM::List,
        }
    }

    pub fn copy(&self) -> (r: FunSym)
        ensures
            r@ == self@,
    {
        match self {
            FunSym::NoEq(s) => FunSym::NoEq(s.copy()),
            FunSym::Ac(a) => FunSym::Ac(a.copy()),
            FunSym::C(c) => FunSym::C(*c),
            FunSym::List => FunSym::List,
        }
    }

    pub fn same(&self, other: &FunSym) -> (r: bool)
        ensures
            r == (self@ == other@),
    {
        match (self, other) {
            (FunSym::NoEq(a), FunSym::NoEq(b)) => a.same(b),
            (FunSym::Ac(a), FunSym::Ac(b)) => a.same(b),
            (FunSym::C(a), FunSym::C(b)) => *a == *b,
            (FunSym::List, FunSym::List) => true,
            _ => false,
        }
    }
}

/// A variable leaf of a locally nameless term: a De Bruijn index into the
/// enclosing binders (`Bound(0)` is the innermost) or a free variable.
#[derive(Clone, Debug, Hash)]
pub enum BVar {
    Bound(u64),
    Free(LVar),
}

pub enum BVarM {
    Bound(u64),
    Free(LVarM),
}

impl BVar {
    pub open spec fn view(&self) -> BVarM {
        match self {
            BVar::Bound(i) => BVarM::Bound(*i),
            BVar::Free(v) => BVarM::Free(v@),
        }
    }

    pub fn copy(&self) -> (r: BVar)
        ensures
            r@ == self@,
    {
        match self {
            BVar::Bound(i) => BVar::Bound(*i),
            BVar::Free(v) => BVar::Free(v.copy()),
        }
    }

    pub fn same(&self, other: &BVar) -> (r: bool)
        ensures
            r == (self@ == other@),
    {
        match (self, other) {
            (BVar::Bound(i), BVar::Bound(j)) => *i == *j,
            (BVar::Free(v), BVar::Free(w)) => v.same(w),
            _ => false,
        }
    }
}

/// A term: a constant name, a variable, or a function application.
/// A term whose variables are all `Free` is a term over plain variables.
#[derive(Debug, Hash)]
pub enum Term {
    Con(Name),
    Var(BVar),
    App(FunSym, Vec<Term>),
}

pub enum TermM {
    Con(NameM),
    Var(BVarM),
    App(FunSymM, Seq<TermM>),
}

/// The models of a sequence of terms.
pub open spec fn terms_m(ts: Seq<Term>) -> Seq<TermM>
    decreases ts, 1nat,
{
    Seq::new(ts.len(), |i: int| if 0 <= i < ts.len() { ts[i].view() } else { TermM::Var(BVarM::Bound(0)) })
}

/// The length of the models of a list of terms.
pub broadcast proof fn lemma_terms_m_len(ts: Seq<Term>)
    ensures
        #[trigger] terms_m(ts).len() == ts.len(),
{
}

/// An element of the models of a list of terms is the model of the element.
pub broadcast proof fn lemma_terms_m_index(ts: Seq<Term>, j: int)
    requires
        0 <= j < ts.len(),
    ensures
        #[trigger] terms_m(ts)[j] == ts[j]@,
{
}

pub broadcast group group_term_lemmas {
    lemma_terms_m_len,
    lemma_terms_m_index,
}

impl Term {
    pub open spec fn view(&self) -> TermM
        decreases self, 0nat,
    {
        match self {
            Term::Con(n) => TermM::Con(n@),
            Term::Var(v) => TermM::Var(v@),
            Term::App(f, args) => TermM::App(f@, terms_m(args@)),
        }
    }

    /// A deep copy of the term.
    pub fn copy(&self) -> (r: Term)
        ensures
            r@ == self@,
        decreases self,
    {
        match self {
            Term::Con(n) => Term::Con(n.copy()),
            Term::Var(v) => Term::Var(v.copy()),
            Term::App(f, args) => Term::App(f.copy(), copy_terms(args)),
        }
    }

    /// Structural equality of two terms.
    pub fn same(&self, other: &Term) -> (r: bool)
        ensures
            r == (self@ == other@),
        decreases self,
    {
        match (self, other) {
            (Term::Con(a), Term::Con(b)) => a.same(b),
            (Term::Var(a), Term::Var(b)) => a.same(b),
            (Term::App(f, xs), Term::App(g, ys)) => f.same(g) && same_terms(xs, ys),
            _ => false,
        }
    }

    /// A variable leaf as a term.
    pub fn var_term(v: BVar) -> (r: Term)
        ensures
            r@ == TermM::Var(v@),
    {
        Term::Var(v)
    }
}

impl PartialEq for Term {
    fn eq(&self, other: &Term) -> (r: bool) {
        self.same(other)
    }
}

impl vstd::std_specs::cmp::PartialEqSpecImpl for Term {
    open spec fn obeys_eq_spec() -> bool {
        true
    }

    open spec fn eq_spec(&self, other: &Term) -> bool {
        self@ == other@
    }
}

/// A deep copy of a list of terms.
#[verifier::loop_isolation(false)]
pub fn copy_terms(ts: &Vec<Term>) -> (r: Vec<Term>)
    ensures
        terms_m(r@) == terms_m(ts@),
    decreases ts,
{
    let mut out: Vec<Term> = Vec::new();
    let mut i: usize = 0;
    while i < ts.len()
        invariant
            i <= ts.len(),
            out@.len() == i,
            forall|j: int| 0 <= j < i ==> #[trigger] out@[j]@ == ts@[j]@,
        decreases ts.len() - i,
    {
        out.push(ts[i].copy());
        i += 1;
    }
    assert(terms_m(out@) =~= terms_m(ts@)) by {
        broadcast use group_term_lemmas;
    }
    out
}

/// Elementwise equality of two lists of terms.
#[verifier::loop_isolation(false)]
pub fn same_terms(xs: &Vec<Term>, ys: &Vec<Term>) -> (r: bool)
    ensures
        r == (terms_m(xs@) == terms_m(ys@)),
    decreases xs,
{
    if xs.len() != ys.len() {
        assert(terms_m(xs@).len() != terms_m(ys@).len()) by {
            broadcast use group_term_lemmas;
        }
        return false;
    }
    let mut i: usize = 0;
    while i < xs.len()
        invariant
            i <= xs.len(),
            xs.len() == ys.len(),
            forall|j: int| 0 <= j < i ==> #[trigger] xs@[j]@ == ys@[j]@,
        decreases xs.len() - i,
    {
        if !xs[i].same(&ys[i]) {
            assert(terms_m(xs@)[i as int] != terms_m(ys@)[i as int]) by {
                broadcast use group_term_lemmas;
            }
            return false;
        }
        i += 1;
    }
    assert(terms_m(xs@) =~= terms_m(ys@)) by {
        broadcast use group_term_lemmas;
    }
    true
}

/// The tag of a fact.
#[derive(Clone, Debug, Hash)]
pub enum FactTag {
    /// A protocol fact with its persistence, name and arity.
    Proto(bool, String, usize),
    Fresh,
    Out,
    In,
    Ku,
    Kd,
    /// The `K` action the intruder's send rule logs.
    KLog,
    Ded,
}

pub enum FactTagM {
    Proto(bool, Seq<char>, usize),
    Fresh,
    Out,
    In,
    Ku,
    Kd,
    KLog,
    Ded,
}

impl FactTag {
    pub open spec fn view(&self) -> FactTagM {
        match self {
            FactTag::Proto(p, n, a) => FactTagM::Proto(*p, n@, *a),
            FactTag::Fresh => FactTagM::Fresh,
            FactTag::Out => FactTagM::Out,
            FactTag::In => FactTagM::In,
            FactTag::Ku => FactTagM::Ku,
            FactTag::Kd => FactTagM::Kd,
            FactTag::KLog => FactTagM::KLog,
            FactTag::Ded => FactTagM::Ded,
        }
    }

    pub fn copy(&self) -> (r: FactTag)
        ensures
            r@ == self@,
    {
        match self {
            FactTag::Proto(p, n, a) => FactTag::Proto(*p, n.clone(), *a),
            FactTag::Fresh => FactTag::Fresh,
            FactTag::Out => FactTag::Out,
            FactTag::In => FactTag::In,
            FactTag::Ku => FactTag::Ku,
            FactTag::Kd => FactTag::Kd,
            FactTag::KLog => FactTag::KLog,
            FactTag::Ded => FactTag::Ded,
        }
    }

    pub fn same(&self, other: &FactTag) -> (r: bool)
        ensures
            r == (self@ == other@),
    {
        match (self, other) {
            (FactTag::Proto(p, n, a), FactTag::Proto(q, m, b)) => *p == *q && *a == *b && *n == *m,
            (FactTag::Fresh, FactTag::Fresh) => true,
            (FactTag::Out, FactTag::Out) => true,
            (FactTag::In, FactTag::In) => true,
            (FactTag::Ku, FactTag::Ku) => true,
            (FactTag::Kd, FactTag::Kd) => true,
            (FactTag::KLog, FactTag::KLog) => true,
            (FactTag::Ded, FactTag::Ded) => true,
            _ => false,
        }
    }
}

/// A fact: a tag applied to terms.
#[derive(Debug, Hash)]
pub struct Fact {
    pub tag: FactTag,
    pub terms: Vec<Term>,
}

pub struct FactM {
    pub tag: FactTagM,
    pub terms: Seq<TermM>,
}

impl Fact {
    pub open spec fn view(&self) -> FactM {
        FactM { tag: self.tag@, terms: terms_m(self.terms@) }
    }

    pub fn copy(&self) -> (r: Fact)
        ensures
            r@ == self@,
    {
        Fact { tag: self.tag.copy(), terms: copy_terms(&self.terms) }
    }

    pub fn same(&self, other: &Fact) -> (r: bool)
        ensures
            r == (self@ == other@),
    {
        self.tag.same(&other.tag) && same_terms(&self.terms, &other.terms)
    }
}

impl PartialEq for Fact {
    fn eq(&self, other: &Fact) -> (r: bool) {
        self.same(other)
    }
}

impl vstd::std_specs::cmp::PartialEqSpecImpl for Fact {
    open spec fn obeys_eq_spec() -> bool {
        true
    }

    open spec fn eq_spec(&self, other: &Fact) -> bool {
        self@ == other@
    }
}

/// An atom of a formula.  `Pred` is the syntactic predicate sugar that a
/// parsed formula may still carry.
#[derive(Debug, Hash)]
pub enum Atom {
    EqE(Term, Term),
    Less(Term, Term),
    Subterm(Term, Term),
    Action(Term, Fact),
    Last(Term),
    Pred(Fact),
}

pub enum AtomM {
    EqE(TermM, TermM),
    Less(TermM, TermM),
    Subterm(TermM, TermM),
    Action(TermM, FactM),
    Last(TermM),
    Pred(FactM),
}

impl Atom {
    pub open spec fn view(&self) -> AtomM {
        match self {
            Atom::EqE(a, b) => AtomM::EqE(a@, b@),
            Atom::Less(a, b) => AtomM::Less(a@, b@),
            Atom::Subterm(a, b) => AtomM::Subterm(a@, b@),
            Atom::Action(t, f) => AtomM::Action(t@, f@),
            Atom::Last(t) => AtomM::Last(t@),
            Atom::Pred(f) => AtomM::Pred(f@),
        }
    }

    pub fn copy(&self) -> (r: Atom)
        ensures
            r@ == self@,
    {
        match self {
            Atom::EqE(a, b) => Atom::EqE(a.copy(), b.copy()),
            Atom::Less(a, b) => Atom::Less(a.copy(), b.copy()),
            Atom::Subterm(a, b) => Atom::Subterm(a.copy(), b.copy()),
            Atom::Action(t, f) => Atom::Action(t.copy(), f.copy()),
            Atom::Last(t) => Atom::Last(t.copy()),
            Atom::Pred(f) => Atom::Pred(f.copy()),
        }
    }

    pub fn same(&self, other: &Atom) -> (r: bool)
        ensures
            r == (self@ == other@),
    {
        match (self, other) {
            (Atom::EqE(a, b), Atom::EqE(c, d)) => a.same(c) && b.same(d),
            (Atom::Less(a, b), Atom::Less(c, d)) => a.same(c) && b.same(d),
            (Atom::Subterm(a, b), Atom::Subterm(c, d)) => a.same(c) && b.same(d),
            (Atom::Action(t, f), Atom::Action(u, g)) => t.same(u) && f.same(g),
            (Atom::Last(t), Atom::Last(u)) => t.same(u),
            (Atom::Pred(f), Atom::Pred(g)) => f.same(g),
            _ => false,
        }
    }

    /// Is this an action atom?
    pub fn is_action(&self) -> (r: bool)
        ensures
            r == (self@ is Action),
    {
        matches!(self, Atom::Action(..))
    }

    /// Is this a `last` atom?
    pub fn is_last(&self) -> (r: bool)
        ensures
            r == (self@ is Last),
    {
        matches!(self, Atom::Last(..))
    }
}

/// The models of a sequence of atoms.
pub open spec fn atoms_m(xs: Seq<Atom>) -> Seq<AtomM> {
    Seq::new(xs.len(), |i: int| xs[i]@)
}

impl PartialEq for Atom {
    fn eq(&self, other: &Atom) -> (r: bool) {
        self.same(other)
    }
}

impl vstd::std_specs::cmp::PartialEqSpecImpl for Atom {
    open spec fn obeys_eq_spec() -> bool {
        true
    }

    open spec fn eq_spec(&self, other: &Atom) -> bool {
        self@ == other@
    }
}

/// A deep copy of a list of atoms.
pub fn copy_atoms(xs: &Vec<Atom>) -> (r: Vec<Atom>)
    ensures
        atoms_m(r@) == atoms_m(xs@),
{
    let mut out: Vec<Atom> = Vec::new();
    let mut i: usize = 0;
    while i < xs.len()
        invariant
            i <= xs.len(),
            out@.len() == i,
            forall|j: int| 0 <= j < i ==> #[trigger] out@[j]@ == xs@[j]@,
        decreases xs.len() - i,
    {
        out.push(xs[i].copy());
        i += 1;
    }
    assert(atoms_m(out@) =~= atoms_m(xs@));
    out
}

/// Elementwise equality of two lists of atoms.
pub fn same_atoms(xs: &Vec<Atom>, ys: &Vec<Atom>) -> (r: bool)
    ensures
        r == (atoms_m(xs@) == atoms_m(ys@)),
{
    if xs.len() != ys.len() {
        assert(atoms_m(xs@).len() != atoms_m(ys@).len());
        return false;
    }
    let mut i: usize = 0;
    while i < xs.len()
        invariant
            i <= xs.len(),
            xs.len() == ys.len(),
            forall|j: int| 0 <= j < i ==> #[trigger] xs@[j]@ == ys@[j]@,
        decreases xs.len() - i,
    {
        if !xs[i].same(&ys[i]) {
            assert(atoms_m(xs@)[i as int] != atoms_m(ys@)[i as int]);
            return false;
        }
        i += 1;
    }
    assert(atoms_m(xs@) =~= atoms_m(ys@));
    true
}

/// The name and sort a binder records (its identity is its position).
#[derive(Clone, Debug, Hash)]
pub struct Binder {
    pub name: String,
    pub sort: LSort,
}

pub struct BinderM {
    pub name: Seq<char>,
    pub sort: LSort,
}

impl Binder {
    pub open spec fn view(&self) -> BinderM {
        BinderM { name: self.name@, sort: self.sort }
    }

    pub fn new(name: &str, sort: LSort) -> (r: Binder)
        ensures
            r@ == (BinderM { name: name@, sort }),
    {
        Binder { name: name.to_string(), sort }
    }

    pub fn copy(&self) -> (r: Binder)
        ensures
            r@ == self@,
    {
        Binder { name: self.name.clone(), sort: self.sort }
    }

    pub fn same(&self, other: &Binder) -> (r: bool)
        ensures
            r == (self@ == other@),
    {
        self.sort == other.sort && self.name == other.name
    }
}

/// The models of a sequence of binders.
pub open spec fn binders_m(xs: Seq<Binder>) -> Seq<BinderM> {
    Seq::new(xs.len(), |i: int| xs[i]@)
}

/// A copy of a list of binders.
pub fn copy_binders(xs: &Vec<Binder>) -> (r: Vec<Binder>)
    ensures
        binders_m(r@) == binders_m(xs@),
{
    let mut out: Vec<Binder> = Vec::new();
    let mut i: usize = 0;
    while i < xs.len()
        invariant
            i <= xs.len(),
            out@.len() == i,
            forall|j: int| 0 <= j < i ==> #[trigger] out@[j]@ == xs@[j]@,
        decreases xs.len() - i,
    {
        out.push(xs[i].copy());
        i += 1;
    }
    assert(binders_m(out@) =~= binders_m(xs@));
    out
}

/// Elementwise equality of two lists of binders.
pub fn same_binders(xs: &Vec<Binder>, ys: &Vec<Binder>) -> (r: bool)
    ensures
        r == (binders_m(xs@) == binders_m(ys@)),
{
    if xs.len() != ys.len() {
        assert(binders_m(xs@).len() != binders_m(ys@).len());
        return false;
    }
    let mut i: usize = 0;
    while i < xs.len()
        invariant
            i <= xs.len(),
            xs.len() == ys.len(),
            forall|j: int| 0 <= j < i ==> #[trigger] xs@[j]@ == ys@[j]@,
        decreases xs.len() - i,
    {
        if !xs[i].same(&ys[i]) {
            assert(binders_m(xs@)[i as int] != binders_m(ys@)[i as int]);
            return false;
        }
        i += 1;
    }
    assert(binders_m(xs@) =~= binders_m(ys@));
    true
}

// ---------------------------------------------------------------------------
// Leaf maps, free variables and bound leaves of terms
// ---------------------------------------------------------------------------

/// The models of a sequence of variables.
pub open spec fn lvars_m(xs: Seq<LVar>) -> Seq<LVarM> {
    Seq::new(xs.len(), |i: int| xs[i]@)
}

/// A copy of a list of variables.
pub fn copy_lvars(xs: &Vec<LVar>) -> (r: Vec<LVar>)
    ensures
        lvars_m(r@) == lvars_m(xs@),
{
    let mut out: Vec<LVar> = Vec::new();
    let mut i: usize = 0;
    while i < xs.len()
        invariant
            i <= xs.len(),
            out@.len() == i,
            forall|j: int| 0 <= j < i ==> #[trigger] out@[j]@ == xs@[j]@,
        decreases xs.len() - i,
    {
        out.push(xs[i].copy());
        i += 1;
    }
    assert(lvars_m(out@) =~= lvars_m(xs@));
    out
}

pub proof fn lemma_lvars_m_push(xs: Seq<LVar>, x: LVar)
    ensures
        lvars_m(xs.push(x)) == lvars_m(xs).push(x@),
{
    assert(lvars_m(xs.push(x)) =~= lvars_m(xs).push(x@));
}

/// Replace every variable leaf of a term by the term `f` gives it.
pub open spec fn map_leaves(t: TermM, f: spec_fn(BVarM) -> TermM) -> TermM
    decreases t,
{
    match t {
        TermM::Con(n) => TermM::Con(n),
        TermM::Var(v) => f(v),
        TermM::App(g, args) => TermM::App(g, map_leaves_seq(args, f)),
    }
}

pub open spec fn map_leaves_seq(ts: Seq<TermM>, f: spec_fn(BVarM) -> TermM) -> Seq<TermM>
    decreases ts,
{
    Seq::new(
        ts.len(),
        |i: int| if 0 <= i < ts.len() { map_leaves(ts[i], f) } else { TermM::Var(BVarM::Bound(0)) },
    )
}

pub open spec fn map_fact_leaves(fa: FactM, f: spec_fn(BVarM) -> TermM) -> FactM {
    FactM { tag: fa.tag, terms: map_leaves_seq(fa.terms, f) }
}

/// Replace every variable leaf of every term of an atom.
pub open spec fn map_atom_leaves(a: AtomM, f: spec_fn(BVarM) -> TermM) -> AtomM {
    match a {
        AtomM::EqE(x, y) => AtomM::EqE(map_leaves(x, f), map_leaves(y, f)),
        AtomM::Less(x, y) => AtomM::Less(map_leaves(x, f), map_leaves(y, f)),
        AtomM::Subterm(x, y) => AtomM::Subterm(map_leaves(x, f), map_leaves(y, f)),
        AtomM::Action(t, fa) => AtomM::Action(map_leaves(t, f), map_fact_leaves(fa, f)),
        AtomM::Last(t) => AtomM::Last(map_leaves(t, f)),
        AtomM::Pred(fa) => AtomM::Pred(map_fact_leaves(fa, f)),
    }
}

/// The exec counterpart of [`map_leaves`]: `f` computes what `sf` states.
pub fn map_term<F: Fn(&BVar) -> Term>(
    t: &Term,
    f: &F,
    Ghost(sf): Ghost<spec_fn(BVarM) -> TermM>,
) -> (r: Term)
    requires
        forall|v: &BVar| #[trigger] f.requires((v,)),
        forall|v: &BVar, r: Term| #[trigger] f.ensures((v,), r) ==> r@ == sf(v@),
    ensures
        r@ == map_leaves(t@, sf),
    decreases t,
{
    match t {
        Term::Con(n) => Term::Con(n.copy()),
        Term::Var(v) => f(v),
        Term::App(g, args) => Term::App(g.copy(), map_terms(args, f, Ghost(sf))),
    }
}

/// [`map_term`] over a list.
#[verifier::loop_isolation(false)]
pub fn map_terms<F: Fn(&BVar) -> Term>(
    ts: &Vec<Term>,
    f: &F,
    Ghost(sf): Ghost<spec_fn(BVarM) -> TermM>,
) -> (r: Vec<Term>)
    requires
        forall|v: &BVar| #[trigger] f.requires((v,)),
        forall|v: &BVar, r: Term| #[trigger] f.ensures((v,), r) ==> r@ == sf(v@),
    ensures
        terms_m(r@) == map_leaves_seq(terms_m(ts@), sf),
    decreases ts,
{
    let mut out: Vec<Term> = Vec::new();
    let mut i: usize = 0;
    while i < ts.len()
        invariant
            i <= ts.len(),
            out@.len() == i,
            forall|j: int| 0 <= j < i ==> #[trigger] out@[j]@ == map_leaves(ts@[j]@, sf),
        decreases ts.len() - i,
    {
        out.push(map_term(&ts[i], f, Ghost(sf)));
        i += 1;
    }
    assert(terms_m(out@) =~= map_leaves_seq(terms_m(ts@), sf)) by {
        broadcast use group_term_lemmas;
    }
    out
}

/// [`map_term`] on every term of an atom.
pub fn map_atom<F: Fn(&BVar) -> Term>(
    a: &Atom,
    f: &F,
    Ghost(sf): Ghost<spec_fn(BVarM) -> TermM>,
) -> (r: Atom)
    requires
        forall|v: &BVar| #[trigger] f.requires((v,)),
        forall|v: &BVar, r: Term| #[trigger] f.ensures((v,), r) ==> r@ == sf(v@),
    ensures
        r@ == map_atom_leaves(a@, sf),
{
    match a {
        Atom::EqE(x, y) => Atom::EqE(map_term(x, f, Ghost(sf)), map_term(y, f, Ghost(sf))),
        Atom::Less(x, y) => Atom::Less(map_term(x, f, Ghost(sf)), map_term(y, f, Ghost(sf))),
        Atom::Subterm(x, y) => Atom::Subterm(map_term(x, f, Ghost(sf)), map_term(y, f, Ghost(sf))),
        Atom::Action(t, fa) => Atom::Action(
            map_term(t, f, Ghost(sf)),
            Fact { tag: fa.tag.copy(), terms: map_terms(&fa.terms, f, Ghost(sf)) },
        ),
        Atom::Last(t) => Atom::Last(map_term(t, f, Ghost(sf))),
        Atom::Pred(fa) => Atom::Pred(
            Fact { tag: fa.tag.copy(), terms: map_terms(&fa.terms, f, Ghost(sf)) },
        ),
    }
}

/// The free variables of a term, left to right, duplicates kept.
pub open spec fn term_frees(t: TermM) -> Seq<LVarM>
    decreases t,
{
    match t {
        TermM::Con(_) => Seq::empty(),
        TermM::Var(BVarM::Bound(_)) => Seq::empty(),
        TermM::Var(BVarM::Free(v)) => seq![v],
        TermM::App(_, args) => terms_frees(args),
    }
}

pub open spec fn terms_frees(ts: Seq<TermM>) -> Seq<LVarM>
    decreases ts,
{
    if ts.len() == 0 {
        Seq::empty()
    } else {
        terms_frees(ts.drop_last()) + term_frees(ts.last())
    }
}

/// The free variables of an atom, term by term (an action's timepoint before
/// its fact).
pub open spec fn atom_frees(a: AtomM) -> Seq<LVarM> {
    match a {
        AtomM::EqE(x, y) => term_frees(x) + term_frees(y),
        AtomM::Less(x, y) => term_frees(x) + term_frees(y),
        AtomM::Subterm(x, y) => term_frees(x) + term_frees(y),
        AtomM::Action(t, fa) => term_frees(t) + terms_frees(fa.terms),
        AtomM::Last(t) => term_frees(t),
        AtomM::Pred(fa) => terms_frees(fa.terms),
    }
}

pub open spec fn atoms_frees(xs: Seq<AtomM>) -> Seq<LVarM>
    decreases xs.len(),
{
    if xs.len() == 0 {
        Seq::empty()
    } else {
        atoms_frees(xs.drop_last()) + atom_frees(xs.last())
    }
}

/// Push the free variables of a term onto `out`.
#[verifier::loop_isolation(false)]
pub fn collect_term_frees(t: &Term, out: &mut Vec<LVar>)
    ensures
        lvars_m(final(out)@) == lvars_m(old(out)@) + term_frees(t@),
    decreases t,
{
    match t {
        Term::Con(_) => {
            assert(lvars_m(out@) =~= lvars_m(out@) + Seq::<LVarM>::empty());
        },
        Term::Var(BVar::Bound(_)) => {
            assert(lvars_m(out@) =~= lvars_m(out@) + Seq::<LVarM>::empty());
        },
        Term::Var(BVar::Free(v)) => {
            let c = v.copy();
            proof {
                lemma_lvars_m_push(out@, c);
            }
            out.push(c);
        },
        Term::App(_, args) => collect_terms_frees(args, out),
    }
}

/// Push the free variables of a list of terms onto `out`.
#[verifier::loop_isolation(false)]
pub fn collect_terms_frees(ts: &Vec<Term>, out: &mut Vec<LVar>)
    ensures
        lvars_m(final(out)@) == lvars_m(old(out)@) + terms_frees(terms_m(ts@)),
    decreases ts,
{
    broadcast use group_term_lemmas;

    let ghost s = terms_m(ts@);
    let ghost out0 = lvars_m(out@);
    let mut i: usize = 0;
    assert(s.take(0) =~= Seq::<TermM>::empty());
    assert(out0 =~= out0 + Seq::<LVarM>::empty());
    while i < ts.len()
        invariant
            i <= ts.len(),
            lvars_m(out@) == out0 + terms_frees(s.take(i as int)),
        decreases ts.len() - i,
    {
        assert(s.take(i + 1).drop_last() =~= s.take(i as int));
        collect_term_frees(&ts[i], out);
        assert(lvars_m(out@) =~= out0 + terms_frees(s.take(i + 1)));
        i += 1;
    }
    assert(s.take(ts.len() as int) =~= s);
}

/// Push the free variables of an atom onto `out`.
pub fn collect_atom_frees(a: &Atom, out: &mut Vec<LVar>)
    ensures
        lvars_m(final(out)@) == lvars_m(old(out)@) + atom_frees(a@),
{
    let ghost out0 = lvars_m(out@);
    match a {
        Atom::EqE(x, y) | Atom::Less(x, y) | Atom::Subterm(x, y) => {
            collect_term_frees(x, out);
            collect_term_frees(y, out);
            assert(lvars_m(out@) =~= out0 + (term_frees(x@) + term_frees(y@)));
        },
        Atom::Action(t, fa) => {
            collect_term_frees(t, out);
            collect_terms_frees(&fa.terms, out);
            assert(lvars_m(out@) =~= out0 + (term_frees(t@) + terms_frees(terms_m(fa.terms@))));
        },
        Atom::Last(t) => {
            collect_term_frees(t, out);
        },
        Atom::Pred(fa) => {
            collect_terms_frees(&fa.terms, out);
        },
    }
}

/// Push the free variables of a list of atoms onto `out`.
pub fn collect_atoms_frees(xs: &Vec<Atom>, out: &mut Vec<LVar>)
    ensures
        lvars_m(final(out)@) == lvars_m(old(out)@) + atoms_frees(atoms_m(xs@)),
{
    let ghost s = atoms_m(xs@);
    let ghost out0 = lvars_m(out@);
    let mut i: usize = 0;
    assert(s.take(0) =~= Seq::<AtomM>::empty());
    assert(out0 =~= out0 + Seq::<LVarM>::empty());
    while i < xs.len()
        invariant
            i <= xs.len(),
            s == atoms_m(xs@),
            out0 == lvars_m(old(out)@),
            lvars_m(out@) == out0 + atoms_frees(s.take(i as int)),
        decreases xs.len() - i,
    {
        assert(s.take(i + 1).drop_last() =~= s.take(i as int));
        collect_atom_frees(&xs[i], out);
        assert(lvars_m(out@) =~= out0 + atoms_frees(s.take(i + 1)));
        i += 1;
    }
    assert(s.take(xs.len() as int) =~= s);
}

/// Does a term carry a bound (De Bruijn) leaf?
pub open spec fn term_has_bound(t: TermM) -> bool
    decreases t,
{
    match t {
        TermM::Con(_) => false,
        TermM::Var(BVarM::Bound(_)) => true,
        TermM::Var(BVarM::Free(_)) => false,
        TermM::App(_, args) => terms_have_bound(args),
    }
}

pub open spec fn terms_have_bound(ts: Seq<TermM>) -> bool
    decreases ts,
{
    if ts.len() == 0 {
        false
    } else {
        terms_have_bound(ts.drop_last()) || term_has_bound(ts.last())
    }
}

pub open spec fn atom_has_bound(a: AtomM) -> bool {
    match a {
        AtomM::EqE(x, y) => term_has_bound(x) || term_has_bound(y),
        AtomM::Less(x, y) => term_has_bound(x) || term_has_bound(y),
        AtomM::Subterm(x, y) => term_has_bound(x) || term_has_bound(y),
        AtomM::Action(t, fa) => term_has_bound(t) || terms_have_bound(fa.terms),
        AtomM::Last(t) => term_has_bound(t),
        AtomM::Pred(fa) => terms_have_bound(fa.terms),
    }
}

proof fn lemma_terms_have_bound_prefix(s: Seq<TermM>, k: int)
    requires
        0 <= k <= s.len(),
        terms_have_bound(s.take(k)),
    ensures
        terms_have_bound(s),
    decreases s.len(),
{
    if k < s.len() {
        assert(s.drop_last().take(k) =~= s.take(k));
        lemma_terms_have_bound_prefix(s.drop_last(), k);
    } else {
        assert(s.take(k) =~= s);
    }
}

/// Does the term carry a bound leaf?
#[verifier::loop_isolation(false)]
pub fn has_bound(t: &Term) -> (r: bool)
    ensures
        r == term_has_bound(t@),
    decreases t,
{
    broadcast use group_term_lemmas;

    match t {
        Term::Con(_) => false,
        Term::Var(BVar::Bound(_)) => true,
        Term::Var(BVar::Free(_)) => false,
        Term::App(_, args) => {
            let ghost s = terms_m(args@);
            let mut i: usize = 0;
            assert(s.take(0) =~= Seq::<TermM>::empty());
            while i < args.len()
                invariant
                    i <= args.len(),
                    s == terms_m(args@),
                    !terms_have_bound(s.take(i as int)),
                decreases args.len() - i,
            {
                assert(s.take(i + 1).drop_last() =~= s.take(i as int));
                if has_bound(&args[i]) {
                    proof {
                        lemma_terms_have_bound_prefix(s, i + 1);
                    }
                    return true;
                }
                i += 1;
            }
            assert(s.take(args.len() as int) =~= s);
            false
        },
    }
}

/// Does a list of terms carry a bound leaf?
pub fn terms_have_bound_exec(ts: &Vec<Term>) -> (r: bool)
    ensures
        r == terms_have_bound(terms_m(ts@)),
{
    broadcast use group_term_lemmas;

    let ghost s = terms_m(ts@);
    let mut i: usize = 0;
    assert(s.take(0) =~= Seq::<TermM>::empty());
    while i < ts.len()
        invariant
            i <= ts.len(),
            s == terms_m(ts@),
            !terms_have_bound(s.take(i as int)),
        decreases ts.len() - i,
    {
        assert(s.take(i + 1).drop_last() =~= s.take(i as int));
        if has_bound(&ts[i]) {
            proof {
                lemma_terms_have_bound_prefix(s, i + 1);
            }
            return true;
        }
        i += 1;
    }
    assert(s.take(ts.len() as int) =~= s);
    false
}

/// Does the atom carry a bound leaf?
pub fn atom_has_bound_exec(a: &Atom) -> (r: bool)
    ensures
        r == atom_has_bound(a@),
{
    match a {
        Atom::EqE(x, y) | Atom::Less(x, y) | Atom::Subterm(x, y) => has_bound(x) || has_bound(y),
        Atom::Action(t, fa) => has_bound(t) || terms_have_bound_exec(&fa.terms),
        Atom::Last(t) => has_bound(t),
        Atom::Pred(fa) => terms_have_bound_exec(&fa.terms),
    }
}

// ---------------------------------------------------------------------------
// Substitutions of terms for free variables
// ---------------------------------------------------------------------------

/// A substitution: each entry maps a free variable to a term over plain
/// variables.  The first entry for a variable is the one that applies.
#[derive(Debug)]
pub struct Subst {
    pub entries: Vec<(LVar, Term)>,
}

/// The model of a substitution's entries.
pub open spec fn subst_m(s: Seq<(LVar, Term)>) -> Seq<(LVarM, TermM)> {
    Seq::new(s.len(), |i: int| (s[i].0@, s[i].1@))
}

/// The image the first entry for `x` gives, if any.
pub open spec fn image_of(s: Seq<(LVarM, TermM)>, x: LVarM) -> Option<TermM>
    decreases s.len(),
{
    if s.len() == 0 {
        None
    } else if s[0].0 == x {
        Some(s[0].1)
    } else {
        image_of(s.drop_first(), x)
    }
}

/// The leaf rewrite of applying a substitution: a free variable in the
/// domain becomes its image; every other leaf stays.
pub open spec fn subst_leaf(s: Seq<(LVarM, TermM)>) -> spec_fn(BVarM) -> TermM {
    |v: BVarM|
        match v {
            BVarM::Free(x) => match image_of(s, x) {
                Some(t) => t,
                None => TermM::Var(v),
            },
            BVarM::Bound(_) => TermM::Var(v),
        }
}

impl Subst {
    pub open spec fn view(&self) -> Seq<(LVarM, TermM)> {
        subst_m(self.entries@)
    }

    /// The image of `x`, if `x` is in the domain.
    pub fn image(&self, x: &LVar) -> (r: Option<Term>)
        ensures
            match r {
                Some(t) => image_of(self@, x@) == Some(t@),
                None => image_of(self@, x@) is None,
            },
    {
        let ghost sm = self@;
        let mut i: usize = 0;
        assert(sm.skip(0) =~= sm);
        while i < self.entries.len()
            invariant
                i <= self.entries@.len(),
                sm == self@,
                image_of(sm, x@) == image_of(sm.skip(i as int), x@),
            decreases self.entries.len() - i,
        {
            assert(sm.skip(i as int).drop_first() =~= sm.skip(i + 1));
            if self.entries[i].0.same(x) {
                return Some(self.entries[i].1.copy());
            }
            i += 1;
        }
        None
    }

    /// Apply the substitution to a variable leaf.
    pub fn apply_leaf(&self, v: &BVar) -> (r: Term)
        ensures
            r@ == subst_leaf(self@)(v@),
    {
        match v {
            BVar::Free(x) => match self.image(x) {
                Some(t) => t,
                None => Term::Var(v.copy()),
            },
            BVar::Bound(n) => Term::Var(BVar::Bound(*n)),
        }
    }

    /// Apply the substitution to every free leaf of a term, rebuilding every
    /// application in canonical form.
    pub fn apply_term(&self, t: &Term) -> (r: Term)
        ensures
            r@ == cmap_term(t@, subst_leaf(self@)),
    {
        let f = |v: &BVar| -> (r: Term)
            ensures
                r@ == subst_leaf(self@)(v@),
            { self.apply_leaf(v) };
        cmap_term_exec(t, &f, Ghost(subst_leaf(self@)))
    }

    /// Apply the substitution to every free leaf of an atom, rebuilding every
    /// application in canonical form.
    pub fn apply_atom(&self, a: &Atom) -> (r: Atom)
        ensures
            r@ == cmap_atom(a@, subst_leaf(self@)),
    {
        let f = |v: &BVar| -> (r: Term)
            ensures
                r@ == subst_leaf(self@)(v@),
            { self.apply_leaf(v) };
        cmap_atom_exec(a, &f, Ghost(subst_leaf(self@)))
    }
}

} // verus!
