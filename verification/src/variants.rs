//! Reading intruder rules back from their textual form: the function
//! symbols a rule's name refers to, the kind of rule the name encodes, and
//! the variables a rule's conclusions introduce.
use vstd::prelude::*;
use crate::term::{FunSym, FunSymM, LSort, LVar, LVarM, lvars_m, Fact, FactM, Term, TermM, BVar, BVarM, terms_m, terms_frees, collect_terms_frees};
use crate::intruder::{
    IntrRuleAC, IntrRuleACM, rule_m, rules_m, copy_facts, IntrRuleParseError, IntrRuleACInfo, IntrRuleACInfoM, facts_m, fun_sym_name_m, funsyms_m, show_fun_sym_name,
    constr_name_func, constr_names_m, strs_m,
};
use crate::convert::join;

verus! {

broadcast use vstd::std_specs::vec::group_vec_axioms;

/// The first symbol, in order, that is written `f`.
pub open spec fn first_named(syms: Seq<FunSymM>, f: Seq<char>) -> Option<FunSymM>
    decreases syms.len(),
{
    if syms.len() == 0 {
        None
    } else if fun_sym_name_m(syms[0]) == f {
        Some(syms[0])
    } else {
        first_named(syms.drop_first(), f)
    }
}

/// How each symbol is written, in order.
pub open spec fn sym_names(syms: Seq<FunSymM>) -> Seq<Seq<char>> {
    Seq::new(syms.len(), |i: int| fun_sym_name_m(syms[i]))
}

/// The error for a name that no symbol is written as; it lists the symbols.
pub open spec fn not_found_m(f: Seq<char>, syms: Seq<FunSymM>) -> Seq<char> {
    "Failed parsing intruder rule name: no function named '"@ + f
        + "' found in the signature (symbols: "@ + join(sym_names(syms), ", "@) + ")"@
}

/// The function symbols of a signature, in order, against which the names
/// in an intruder rule's name are resolved.  When two symbols are written
/// alike, the earlier one is the one a name resolves to.
#[derive(Debug)]
pub struct KnownFuns {
    syms: Vec<FunSym>,
}

impl KnownFuns {
    pub closed spec fn view(&self) -> Seq<FunSymM> {
        funsyms_m(self.syms@)
    }

    /// The symbols, in the order given.
    pub fn new(syms: Vec<FunSym>) -> (r: KnownFuns)
        ensures
            r@ == funsyms_m(syms@),
    {
        KnownFuns { syms }
    }

    /// The first symbol written `f`, or the error that lists them all.
    pub fn lookup(&self, f: &str) -> (r: Result<FunSym, String>)
        ensures
            match r {
                Ok(s) => first_named(self@, f@) == Some(s@),
                Err(e) => first_named(self@, f@) is None && e@ == not_found_m(f@, self@),
            },
    {
        let ghost all = self@;
        let key = f.to_string();
        let mut i: usize = 0;
        assert(all.skip(0) =~= all);
        while i < self.syms.len()
            invariant
                i <= self.syms@.len(),
                all == self@,
                all == funsyms_m(self.syms@),
                key@ == f@,
                first_named(all, f@) == first_named(all.skip(i as int), f@),
            decreases self.syms.len() - i,
        {
            assert(all.skip(i as int).drop_first() =~= all.skip(i + 1));
            assert(all.skip(i as int)[0] == self.syms@[i as int]@);
            let name = show_fun_sym_name(&self.syms[i]);
            if name == key {
                return Ok(self.syms[i].copy());
            }
            i += 1;
        }
        Err(self.not_found(f))
    }

    /// The error for a name that no symbol is written as.
    fn not_found(&self, f: &str) -> (r: String)
        ensures
            r@ == not_found_m(f@, self@),
    {
        let ghost names = sym_names(self@);
        let ghost sep = ", "@;
        let mut msg = "Failed parsing intruder rule name: no function named '".to_string();
        msg.append(f);
        proof {
            reveal_strlit("' found in the signature (symbols: ");
        }
        msg.append("' found in the signature (symbols: ");
        let ghost head = msg@;
        let mut k: usize = 0;
        assert(names.take(0) =~= Seq::<Seq<char>>::empty());
        assert(head =~= head + join(names.take(0), sep));
        while k < self.syms.len()
            invariant
                k <= self.syms@.len(),
                names == sym_names(self@),
                self@ == funsyms_m(self.syms@),
                sep == ", "@,
                msg@ == head + join(names.take(k as int), sep),
            decreases self.syms@.len() - k,
        {
            let shown = show_fun_sym_name(&self.syms[k]);
            assert(shown@ == names[k as int]);
            assert(names.take(k + 1).drop_last() =~= names.take(k as int));
            if k > 0 {
                proof { reveal_strlit(", "); }
                msg.append(", ");
            } else {
                assert(names.take(1) =~= seq![names[0]]);
            }
            msg.append(shown.as_str());
            assert(msg@ =~= head + join(names.take(k + 1), sep));
            k += 1;
        }
        assert(names.take(self.syms@.len() as int) =~= names);
        proof { reveal_strlit(")"); }
        msg.append(")");
        proof {
            reveal_strlit("Failed parsing intruder rule name: no function named '");
        }
        assert(msg@ =~= not_found_m(f@, self@));
        msg
    }
}

/// The symbols written as the names, in order; the error of the first name
/// that no symbol is written as.
pub open spec fn lookup_all_m(syms: Seq<FunSymM>, names: Seq<Seq<char>>) -> Result<Seq<FunSymM>, Seq<char>>
    decreases names.len(),
{
    if names.len() == 0 {
        Ok(Seq::empty())
    } else {
        match lookup_all_m(syms, names.drop_last()) {
            Err(e) => Err(e),
            Ok(fs) => match first_named(syms, names.last()) {
                Some(f) => Ok(fs.push(f)),
                None => Err(not_found_m(names.last(), syms)),
            },
        }
    }
}

/// The name a constructor rule resolves its symbol by: the rule name
/// after its kind letter and the underscore that follows it.
pub open spec fn constr_sym_name(rest: Seq<char>) -> Seq<char> {
    if rest.len() > 0 && (rest[0] as u32) < 128 {
        rest.skip(1)
    } else {
        Seq::empty()
    }
}

/// The error for a rule name of another kind.
pub open spec fn bad_kind_m(name: Seq<char>) -> Seq<char> {
    "invalid intruder rule name '"@ + name
        + "': must start with `c` (constructor) or `d` (destructor)"@
}

/// What an intruder rule's name says of the rule.  The first letter gives
/// the kind: `c` a constructor rule for the symbol written as the rest of
/// the name after its underscore, `d` a destructor rule for the symbols
/// the rest of the name lists after its leading positions (no application
/// limit, a proper subterm, not a constant).  The rule keeps the name
/// without its kind letter.
pub open spec fn intr_info_m(syms: Seq<FunSymM>, name: Seq<char>) -> Result<IntrRuleACInfoM, Seq<char>> {
    if name.len() == 0 {
        Err("empty intruder rule name"@)
    } else if name[0] == 'c' {
        let rest = name.skip(1);
        match first_named(syms, constr_sym_name(rest)) {
            Some(f) => Ok(IntrRuleACInfoM::ConstrRule(rest, f)),
            None => Err(not_found_m(constr_sym_name(rest), syms)),
        }
    } else if name[0] == 'd' {
        let rest = name.skip(1);
        if constr_names_m(rest).len() == 0 {
            Err("Failed parsing intruder rule name: empty name"@)
        } else {
            match lookup_all_m(syms, constr_names_m(rest)) {
                Ok(fs) => Ok(IntrRuleACInfoM::DestrRule(rest, 0, true, false, fs)),
                Err(e) => Err(e),
            }
        }
    } else {
        Err(bad_kind_m(name))
    }
}

/// The model of the outcome of reading a rule name.
pub open spec fn info_result_m(r: Result<IntrRuleACInfo, String>) -> Result<IntrRuleACInfoM, Seq<char>> {
    match r {
        Ok(i) => Ok(i@),
        Err(e) => Err(e@),
    }
}

/// Read what an intruder rule's name says of the rule (see
/// [`intr_info_m`]).
pub fn intr_rule_info(known: &KnownFuns, name: &str) -> (r: Result<IntrRuleACInfo, String>)
    ensures
        info_result_m(r) == intr_info_m(known@, name@),
{
    let n = name.unicode_len();
    if n == 0 {
        proof { reveal_strlit("empty intruder rule name"); }
        return Err("empty intruder rule name".to_string());
    }
    let kind = name.get_char(0);
    let rest = name.substring_char(1, n);
    assert(rest@ =~= name@.skip(1));
    if kind == 'c' {
        let m = rest.unicode_len();
        let sym_name = if m > 0 && (rest.get_char(0) as u32) < 128 {
            rest.substring_char(1, m)
        } else {
            ""
        };
        proof { reveal_strlit(""); }
        assert(sym_name@ =~= constr_sym_name(rest@));
        match known.lookup(sym_name) {
            Ok(f) => Ok(IntrRuleACInfo::ConstrRule(rest.to_string(), f)),
            Err(e) => Err(e),
        }
    } else if kind == 'd' {
        let names = match constr_name_func(rest) {
            Ok(v) => v,
            Err(e) => {
                assert(constr_names_m(rest@).len() == 0);
                assert(intr_info_m(known@, name@) == Err::<IntrRuleACInfoM, Seq<char>>(e@));
                return Err(e);
            },
        };
        let ghost ns = strs_m(names@);
        let mut funs: Vec<FunSym> = Vec::new();
        let mut i: usize = 0;
        assert(ns.take(0) =~= Seq::<Seq<char>>::empty());
        assert(funsyms_m(funs@) =~= Seq::<FunSymM>::empty());
        while i < names.len()
            invariant
                i <= names@.len(),
                ns == strs_m(names@),
                ns == constr_names_m(rest@),
                ns.len() > 0,
                rest@ == name@.skip(1),
                name@.len() > 0,
                name@[0] == 'd',
                lookup_all_m(known@, ns.take(i as int)) == Ok::<Seq<FunSymM>, Seq<char>>(funsyms_m(funs@)),
            decreases names@.len() - i,
        {
            assert(ns.take(i + 1).drop_last() =~= ns.take(i as int));
            assert(ns.take(i + 1).last() == names@[i as int]@);
            match known.lookup(names[i].as_str()) {
                Ok(f) => {
                    let ghost before = funsyms_m(funs@);
                    funs.push(f);
                    assert(funsyms_m(funs@) =~= before.push(funs@.last()@));
                },
                Err(e) => {
                    proof { lemma_lookup_all_err_prefix(known@, ns, i + 1); }
                    return Err(e);
                },
            }
            i += 1;
        }
        assert(ns.take(names@.len() as int) =~= ns);
        Ok(IntrRuleACInfo::DestrRule(rest.to_string(), 0, true, false, funs))
    } else {
        let mut msg = "invalid intruder rule name '".to_string();
        msg.append(name);
        proof {
            reveal_strlit("invalid intruder rule name '");
            reveal_strlit("': must start with `c` (constructor) or `d` (destructor)");
        }
        msg.append("': must start with `c` (constructor) or `d` (destructor)");
        Err(msg)
    }
}

/// A failed lookup among the first `k` names is the failure of all of
/// them.
proof fn lemma_lookup_all_err_prefix(syms: Seq<FunSymM>, names: Seq<Seq<char>>, k: int)
    requires
        0 <= k <= names.len(),
        lookup_all_m(syms, names.take(k)) is Err,
    ensures
        lookup_all_m(syms, names) == lookup_all_m(syms, names.take(k)),
    decreases names.len(),
{
    if k < names.len() {
        assert(names.drop_last().take(k) =~= names.take(k));
        lemma_lookup_all_err_prefix(syms, names.drop_last(), k);
    } else {
        assert(names.take(k) =~= names);
    }
}

// ---------------------------------------------------------------------------
// The order of variables
// ---------------------------------------------------------------------------

/// The rank of a sort in the order `Pub < Fresh < Msg < Node < Nat`.
pub open spec fn sort_rank(s: LSort) -> int {
    match s {
        LSort::Pub => 0,
        LSort::Fresh => 1,
        LSort::Msg => 2,
        LSort::Node => 3,
        LSort::Nat => 4,
    }
}

/// Lexicographic order on strings by code point (a proper prefix comes
/// first), the order of `String`'s comparison.
pub open spec fn chars_lt(a: Seq<char>, b: Seq<char>) -> bool
    decreases a.len(),
{
    if a.len() == 0 {
        b.len() > 0
    } else if b.len() == 0 {
        false
    } else if a[0] != b[0] {
        (a[0] as int) < (b[0] as int)
    } else {
        chars_lt(a.skip(1), b.skip(1))
    }
}

/// The order of variables: by index, then by sort, then by name.
pub open spec fn lvar_lt(a: LVarM, b: LVarM) -> bool {
    ||| a.idx < b.idx
    ||| a.idx == b.idx && sort_rank(a.sort) < sort_rank(b.sort)
    ||| a.idx == b.idx && a.sort == b.sort && chars_lt(a.name, b.name)
}

proof fn lemma_chars_lt_irrefl(a: Seq<char>)
    ensures
        !chars_lt(a, a),
    decreases a.len(),
{
    if a.len() > 0 {
        lemma_chars_lt_irrefl(a.skip(1));
    }
}

proof fn lemma_chars_lt_trans(a: Seq<char>, b: Seq<char>, c: Seq<char>)
    requires
        chars_lt(a, b),
        chars_lt(b, c),
    ensures
        chars_lt(a, c),
    decreases a.len(),
{
    if a.len() > 0 && b.len() > 0 && c.len() > 0 && a[0] == b[0] && b[0] == c[0] {
        lemma_chars_lt_trans(a.skip(1), b.skip(1), c.skip(1));
    }
}

proof fn lemma_chars_lt_total(a: Seq<char>, b: Seq<char>)
    ensures
        a == b || chars_lt(a, b) || chars_lt(b, a),
    decreases a.len(),
{
    if a.len() == 0 && b.len() == 0 {
        assert(a =~= b);
    } else if a.len() > 0 && b.len() > 0 && a[0] == b[0] {
        lemma_chars_lt_total(a.skip(1), b.skip(1));
        if a.skip(1) == b.skip(1) {
            assert(a.skip(1).len() == a.len() - 1);
            assert(b.skip(1).len() == b.len() - 1);
            assert(a.len() == b.len());
            assert(a =~= b) by {
                assert forall|i: int| 0 <= i < a.len() implies a[i] == b[i] by {
                    if i > 0 {
                        assert(a[i] == a.skip(1)[i - 1]);
                        assert(b[i] == b.skip(1)[i - 1]);
                    }
                }
            }
        }
    } else if a.len() > 0 && b.len() > 0 {
        assert((a[0] as int) != (b[0] as int));
    }
}

/// The order of variables is a strict total order: irreflexive,
/// transitive and total.
pub proof fn lvar_order_is_strict_total(a: LVarM, b: LVarM, c: LVarM)
    ensures
        !lvar_lt(a, a),
        lvar_lt(a, b) && lvar_lt(b, c) ==> lvar_lt(a, c),
        a == b || lvar_lt(a, b) || lvar_lt(b, a),
{
    lemma_chars_lt_irrefl(a.name);
    if lvar_lt(a, b) && lvar_lt(b, c) && a.idx == c.idx && a.sort == b.sort && b.sort == c.sort {
        lemma_chars_lt_trans(a.name, b.name, c.name);
    }
    lemma_chars_lt_total(a.name, b.name);
    if a.idx == b.idx && sort_rank(a.sort) == sort_rank(b.sort) {
        assert(a.sort == b.sort);
    }
}

/// Does `a` come before `b` in the order of strings?
fn str_less(a: &str, b: &str) -> (r: bool)
    ensures
        r == chars_lt(a@, b@),
{
    let n = a.unicode_len();
    let m = b.unicode_len();
    let mut i: usize = 0;
    assert(a@.skip(0) =~= a@);
    assert(b@.skip(0) =~= b@);
    while i < n && i < m
        invariant
            i <= n,
            i <= m,
            n == a@.len(),
            m == b@.len(),
            chars_lt(a@, b@) == chars_lt(a@.skip(i as int), b@.skip(i as int)),
        decreases n - i,
    {
        let x = a.get_char(i);
        let y = b.get_char(i);
        assert(a@.skip(i as int)[0] == x);
        assert(b@.skip(i as int)[0] == y);
        if x != y {
            return x < y;
        }
        assert(a@.skip(i as int).skip(1) =~= a@.skip(i + 1));
        assert(b@.skip(i as int).skip(1) =~= b@.skip(i + 1));
        i += 1;
    }
    i == n && i < m
}

fn sort_rank_exec(s: LSort) -> (r: u8)
    ensures
        r == sort_rank(s),
{
    match s {
        LSort::Pub => 0,
        LSort::Fresh => 1,
        LSort::Msg => 2,
        LSort::Node => 3,
        LSort::Nat => 4,
    }
}

/// Does `a` come before `b` in the order of variables?
pub fn lvar_less(a: &LVar, b: &LVar) -> (r: bool)
    ensures
        r == lvar_lt(a@, b@),
{
    if a.idx != b.idx {
        return a.idx < b.idx;
    }
    let ra = sort_rank_exec(a.sort);
    let rb = sort_rank_exec(b.sort);
    if ra != rb {
        if ra == rb {
            assert(false);
        }
        return ra < rb;
    }
    assert(a.sort == b.sort);
    str_less(a.name.as_str(), b.name.as_str())
}

// ---------------------------------------------------------------------------
// The variables a rule introduces
// ---------------------------------------------------------------------------

/// The variables of the facts' terms, fact by fact and term by term.
pub open spec fn facts_frees(fs: Seq<FactM>) -> Seq<LVarM>
    decreases fs.len(),
{
    if fs.len() == 0 {
        Seq::empty()
    } else {
        facts_frees(fs.drop_last()) + terms_frees(fs.last().terms)
    }
}

/// `v` put into its place in a sequence ordered by [`lvar_lt`], unless it
/// is there already.
pub open spec fn insert_sorted(s: Seq<LVarM>, v: LVarM) -> Seq<LVarM>
    decreases s.len(),
{
    if s.len() == 0 {
        seq![v]
    } else if lvar_lt(s.last(), v) {
        s.push(v)
    } else if s.last() == v {
        s
    } else {
        insert_sorted(s.drop_last(), v).push(s.last())
    }
}

/// The candidates that `old` does not hold, each once, in order.
pub open spec fn sorted_new(candidates: Seq<LVarM>, old: Seq<LVarM>) -> Seq<LVarM>
    decreases candidates.len(),
{
    if candidates.len() == 0 {
        Seq::empty()
    } else {
        let rest = sorted_new(candidates.drop_last(), old);
        if old.contains(candidates.last()) {
            rest
        } else {
            insert_sorted(rest, candidates.last())
        }
    }
}

/// The variables the conclusions use and the premises do not, each once, in
/// the order of variables.
pub open spec fn new_vars_m(prems: Seq<FactM>, concs: Seq<FactM>) -> Seq<LVarM> {
    sorted_new(facts_frees(concs), facts_frees(prems))
}

/// The variables as terms.
pub open spec fn var_terms(vs: Seq<LVarM>) -> Seq<TermM> {
    Seq::new(vs.len(), |i: int| TermM::Var(BVarM::Free(vs[i])))
}

/// Is the sequence strictly ascending in the order of variables?
pub open spec fn lvars_sorted(s: Seq<LVarM>) -> bool {
    forall|i: int, j: int| 0 <= i < j < s.len() ==> lvar_lt(#[trigger] s[i], #[trigger] s[j])
}

proof fn lemma_insert_sorted(s: Seq<LVarM>, v: LVarM)
    requires
        lvars_sorted(s),
    ensures
        lvars_sorted(insert_sorted(s, v)),
        forall|x: LVarM| #[trigger] insert_sorted(s, v).contains(x) <==> (s.contains(x) || x == v),
    decreases s.len(),
{
    let r = insert_sorted(s, v);
    if s.len() == 0 {
        assert(r =~= seq![v]);
        assert forall|x: LVarM| #[trigger] r.contains(x) <==> (s.contains(x) || x == v) by {
            if r.contains(x) {
                assert(r[0] == v);
            }
            if x == v {
                assert(r[0] == x);
            }
        }
    } else if lvar_lt(s.last(), v) {
        assert forall|i: int, j: int| 0 <= i < j < r.len() implies lvar_lt(#[trigger] r[i], #[trigger] r[j]) by {
            if j == s.len() {
                if i < s.len() - 1 {
                    lvar_order_is_strict_total(s[i], s.last(), v);
                }
            }
        }
        assert forall|x: LVarM| #[trigger] r.contains(x) <==> (s.contains(x) || x == v) by {
            if r.contains(x) {
                let k = choose|k: int| 0 <= k < r.len() && r[k] == x;
                if k < s.len() {
                    assert(s[k] == x);
                }
            }
            if s.contains(x) {
                let k = choose|k: int| 0 <= k < s.len() && s[k] == x;
                assert(r[k] == x);
            }
            if x == v {
                assert(r[s.len() as int] == x);
            }
        }
    } else if s.last() == v {
        assert forall|x: LVarM| #[trigger] r.contains(x) <==> (s.contains(x) || x == v) by {
            if x == v {
                assert(s[s.len() - 1] == x);
            }
        }
    } else {
        let p = s.drop_last();
        let l = s.last();
        lvar_order_is_strict_total(v, l, l);
        assert(lvar_lt(v, l));
        assert(lvars_sorted(p));
        lemma_insert_sorted(p, v);
        let q = insert_sorted(p, v);
        assert(r == q.push(l));
        assert forall|y: LVarM| #[trigger] q.contains(y) implies lvar_lt(y, l) by {
            if y == v {
            } else {
                assert(p.contains(y));
                let k = choose|k: int| 0 <= k < p.len() && p[k] == y;
                assert(s[k] == y);
            }
        }
        assert forall|i: int, j: int| 0 <= i < j < r.len() implies lvar_lt(#[trigger] r[i], #[trigger] r[j]) by {
            if j == q.len() {
                assert(q.contains(q[i]));
            } else {
                assert(r[i] == q[i]);
                assert(r[j] == q[j]);
            }
        }
        assert forall|x: LVarM| #[trigger] r.contains(x) <==> (s.contains(x) || x == v) by {
            if r.contains(x) {
                let k = choose|k: int| 0 <= k < r.len() && r[k] == x;
                if k < q.len() {
                    assert(q[k] == x);
                    assert(q.contains(x));
                    if x != v {
                        let m = choose|m: int| 0 <= m < p.len() && p[m] == x;
                        assert(s[m] == x);
                    }
                } else {
                    assert(s[s.len() - 1] == x);
                }
            }
            if s.contains(x) {
                let k = choose|k: int| 0 <= k < s.len() && s[k] == x;
                if k == s.len() - 1 {
                    assert(r[q.len() as int] == x);
                } else {
                    assert(p[k] == x);
                    assert(p.contains(x));
                    assert(q.contains(x));
                    let m = choose|m: int| 0 <= m < q.len() && q[m] == x;
                    assert(r[m] == x);
                }
            }
            if x == v {
                assert(q.contains(x));
                let m = choose|m: int| 0 <= m < q.len() && q[m] == x;
                assert(r[m] == x);
            }
        }
    }
}

/// The variables a rule introduces are sorted, each once, and are exactly
/// those that the conclusions use and the premises do not.
pub proof fn new_vars_are_the_sorted_new_variables(prems: Seq<FactM>, concs: Seq<FactM>)
    ensures
        lvars_sorted(new_vars_m(prems, concs)),
        forall|v: LVarM| #[trigger] new_vars_m(prems, concs).contains(v)
            <==> (facts_frees(concs).contains(v) && !facts_frees(prems).contains(v)),
{
    sorted_new_is_sorted_and_exact(facts_frees(concs), facts_frees(prems));
}

/// Sorting out the candidates that `old` does not hold gives a strictly
/// ascending sequence of exactly those candidates.
pub proof fn sorted_new_is_sorted_and_exact(c: Seq<LVarM>, old: Seq<LVarM>)
    ensures
        lvars_sorted(sorted_new(c, old)),
        forall|v: LVarM| #[trigger] sorted_new(c, old).contains(v) <==> (c.contains(v) && !old.contains(v)),
    decreases c.len(),
{
    if c.len() > 0 {
        let p = c.drop_last();
        sorted_new_is_sorted_and_exact(p, old);
        let rest = sorted_new(p, old);
        if !old.contains(c.last()) {
            lemma_insert_sorted(rest, c.last());
        }
        assert forall|v: LVarM| #[trigger] sorted_new(c, old).contains(v) <==> (c.contains(v) && !old.contains(v)) by {
            if c.contains(v) {
                let k = choose|k: int| 0 <= k < c.len() && c[k] == v;
                if k < c.len() - 1 {
                    assert(p[k] == v);
                }
            }
            if p.contains(v) {
                let k = choose|k: int| 0 <= k < p.len() && p[k] == v;
                assert(c[k] == v);
            }
            if v == c.last() {
                assert(c[c.len() - 1] == v);
            }
        }
    }
}

/// The variables of the facts' terms (see [`facts_frees`]).
fn collect_facts_frees(fs: &Vec<Fact>) -> (r: Vec<LVar>)
    ensures
        lvars_m(r@) == facts_frees(facts_m(fs@)),
{
    let ghost fm = facts_m(fs@);
    let mut out: Vec<LVar> = Vec::new();
    let mut i: usize = 0;
    assert(fm.take(0) =~= Seq::<FactM>::empty());
    assert(lvars_m(out@) =~= Seq::<LVarM>::empty());
    while i < fs.len()
        invariant
            i <= fs@.len(),
            fm == facts_m(fs@),
            lvars_m(out@) == facts_frees(fm.take(i as int)),
        decreases fs.len() - i,
    {
        assert(fm.take(i + 1).drop_last() =~= fm.take(i as int));
        assert(fm.take(i + 1).last() == fs@[i as int]@);
        collect_terms_frees(&fs[i].terms, &mut out);
        i += 1;
    }
    assert(fm.take(fs@.len() as int) =~= fm);
    out
}

/// Is `v` among the variables?
fn lvars_contain(vs: &Vec<LVar>, v: &LVar) -> (r: bool)
    ensures
        r == lvars_m(vs@).contains(v@),
{
    let mut i: usize = 0;
    while i < vs.len()
        invariant
            i <= vs@.len(),
            forall|j: int| 0 <= j < i ==> lvars_m(vs@)[j] != v@,
        decreases vs.len() - i,
    {
        if vs[i].same(v) {
            assert(lvars_m(vs@)[i as int] == v@);
            return true;
        }
        i += 1;
    }
    false
}

/// Put `v` into its place in the ordered variables (see [`insert_sorted`]).
fn insert_var(out: &mut Vec<LVar>, v: LVar)
    ensures
        lvars_m(final(out)@) == insert_sorted(lvars_m(old(out)@), v@),
{
    let ghost s = lvars_m(out@);
    let mut p: usize = out.len();
    assert(s.take(p as int) =~= s);
    assert(s.skip(p as int) =~= Seq::<LVarM>::empty());
    while p > 0 && lvar_less(&v, &out[p - 1])
        invariant
            p <= out@.len(),
            s == lvars_m(out@),
            insert_sorted(s, v@) == insert_sorted(s.take(p as int), v@) + s.skip(p as int),
        decreases p,
    {
        let ghost t = s.take(p as int);
        proof {
            lvar_order_is_strict_total(v@, s[p - 1], v@);
            lvar_order_is_strict_total(s[p - 1], v@, s[p - 1]);
            assert(t.last() == s[p - 1]);
            assert(t.drop_last() =~= s.take(p - 1));
            assert(insert_sorted(t, v@) == insert_sorted(s.take(p - 1), v@).push(s[p - 1]));
            assert(s.skip(p - 1) =~= seq![s[p - 1]] + s.skip(p as int));
            assert(insert_sorted(s.take(p - 1), v@).push(s[p - 1]) + s.skip(p as int) =~= insert_sorted(
                s.take(p - 1),
                v@,
            ) + s.skip(p - 1));
        }
        p -= 1;
    }
    let ghost t = s.take(p as int);
    if p > 0 && out[p - 1].same(&v) {
        proof {
            assert(t.last() == s[p - 1]);
            lvar_order_is_strict_total(s[p - 1], v@, v@);
            assert(insert_sorted(t, v@) == t);
            assert(t + s.skip(p as int) =~= s);
        }
        return;
    }
    proof {
        if p > 0 {
            lvar_order_is_strict_total(s[p - 1], v@, v@);
            assert(t.last() == s[p - 1]);
            assert(lvar_lt(t.last(), v@));
            assert(insert_sorted(t, v@) == t.push(v@));
        } else {
            assert(t =~= Seq::<LVarM>::empty());
            assert(insert_sorted(t, v@) == seq![v@]);
        }
    }
    let ghost vv = v@;
    out.insert(p, v);
    assert(lvars_m(out@) =~= s.insert(p as int, vv));
    assert(s.insert(p as int, vv) =~= insert_sorted(t, vv) + s.skip(p as int));
}

/// The variables sorted by [`lvar_lt`], each once.
pub fn sort_dedup_vars(vs: &Vec<LVar>) -> (r: Vec<LVar>)
    ensures
        lvars_m(r@) == sorted_new(lvars_m(vs@), Seq::empty()),
{
    let ghost c = lvars_m(vs@);
    let ghost none = Seq::<LVarM>::empty();
    let mut out: Vec<LVar> = Vec::new();
    let mut i: usize = 0;
    assert(c.take(0) =~= Seq::<LVarM>::empty());
    assert(lvars_m(out@) =~= Seq::<LVarM>::empty());
    while i < vs.len()
        invariant
            i <= vs@.len(),
            c == lvars_m(vs@),
            none == Seq::<LVarM>::empty(),
            lvars_m(out@) == sorted_new(c.take(i as int), none),
        decreases vs.len() - i,
    {
        assert(c.take(i + 1).drop_last() =~= c.take(i as int));
        assert(c.take(i + 1).last() == vs@[i as int]@);
        assert(!none.contains(c.take(i + 1).last()));
        insert_var(&mut out, vs[i].copy());
        i += 1;
    }
    assert(c.take(vs@.len() as int) =~= c);
    out
}

/// A rule's variables (of its premises, conclusions, actions and new
/// variables), sorted by [`lvar_lt`], each once.
pub open spec fn rule_vars_m(r: IntrRuleACM) -> Seq<LVarM> {
    sorted_new(facts_frees(r.premises + r.conclusions + r.actions) + terms_frees(r.new_vars), Seq::empty())
}

/// A rule's variables, sorted, each once (see [`rule_vars_m`]).
pub fn rule_vars(r: &IntrRuleAC) -> (out: Vec<LVar>)
    ensures
        lvars_m(out@) == rule_vars_m(r@),
{
    let facts = crate::intruder::rule_facts(r);
    let mut vs = collect_facts_frees(&facts);
    collect_terms_frees(&r.new_vars, &mut vs);
    sort_dedup_vars(&vs)
}

/// The variables the conclusions use and the premises do not (see
/// [`new_vars_m`]), as terms.
pub fn new_variables(prems: &Vec<Fact>, concs: &Vec<Fact>) -> (r: Vec<Term>)
    ensures
        terms_m(r@) == var_terms(new_vars_m(facts_m(prems@), facts_m(concs@))),
{
    let pv = collect_facts_frees(prems);
    let cv = collect_facts_frees(concs);
    let ghost c = lvars_m(cv@);
    let ghost o = lvars_m(pv@);
    let mut out: Vec<LVar> = Vec::new();
    let mut i: usize = 0;
    assert(c.take(0) =~= Seq::<LVarM>::empty());
    assert(lvars_m(out@) =~= Seq::<LVarM>::empty());
    while i < cv.len()
        invariant
            i <= cv@.len(),
            c == lvars_m(cv@),
            o == lvars_m(pv@),
            lvars_m(out@) == sorted_new(c.take(i as int), o),
        decreases cv.len() - i,
    {
        assert(c.take(i + 1).drop_last() =~= c.take(i as int));
        assert(c.take(i + 1).last() == cv@[i as int]@);
        if !lvars_contain(&pv, &cv[i]) {
            insert_var(&mut out, cv[i].copy());
        }
        i += 1;
    }
    assert(c.take(cv@.len() as int) =~= c);
    let ghost vs = lvars_m(out@);
    let mut ts: Vec<Term> = Vec::new();
    let mut k: usize = 0;
    while k < out.len()
        invariant
            k <= out@.len(),
            vs == lvars_m(out@),
            terms_m(ts@) == var_terms(vs).take(k as int),
        decreases out.len() - k,
    {
        let ghost before = terms_m(ts@);
        ts.push(Term::Var(BVar::Free(out[k].copy())));
        assert(terms_m(ts@) =~= before.push(var_terms(vs)[k as int]));
        assert(var_terms(vs).take(k + 1) =~= var_terms(vs).take(k as int).push(var_terms(vs)[k as int]));
        k += 1;
    }
    assert(var_terms(vs).take(out@.len() as int) =~= var_terms(vs));
    ts
}

// ---------------------------------------------------------------------------
// A rule from its text
// ---------------------------------------------------------------------------

/// An intruder rule as its text gives it: the name, the facts (read as
/// facts over plain variables), and how many let bindings, embedded
/// restrictions and variants it carries and whether it has left and right
/// halves, none of which an intruder rule may have.
#[derive(Debug)]
pub struct ParsedIntrRule {
    pub name: String,
    pub premises: Vec<Fact>,
    pub actions: Vec<Fact>,
    pub conclusions: Vec<Fact>,
    pub let_bindings: usize,
    pub embedded_restrictions: usize,
    pub variants: usize,
    pub has_left_right: bool,
}

/// The model of a rule's text.
pub struct ParsedIntrRuleM {
    pub name: Seq<char>,
    pub premises: Seq<FactM>,
    pub actions: Seq<FactM>,
    pub conclusions: Seq<FactM>,
    pub let_bindings: usize,
    pub embedded_restrictions: usize,
    pub variants: usize,
    pub has_left_right: bool,
}

impl ParsedIntrRule {
    pub open spec fn view(&self) -> ParsedIntrRuleM {
        ParsedIntrRuleM {
            name: self.name@,
            premises: facts_m(self.premises@),
            actions: facts_m(self.actions@),
            conclusions: facts_m(self.conclusions@),
            let_bindings: self.let_bindings,
            embedded_restrictions: self.embedded_restrictions,
            variants: self.variants,
            has_left_right: self.has_left_right,
        }
    }
}

/// The error for a part an intruder rule may not have.
pub open spec fn unexpected_m(name: Seq<char>, what: Seq<char>) -> Seq<char> {
    "intruder rule "@ + name + " unexpectedly has "@ + what
}

/// The intruder rule the text gives: the kind its name encodes (see
/// [`intr_info_m`]); an error for a let block, embedded restrictions,
/// variants or left and right halves, in that order; else the rule over the
/// facts, introducing the variables its conclusions use and its premises do
/// not.
pub open spec fn intr_rule_m(syms: Seq<FunSymM>, r: ParsedIntrRuleM) -> Result<IntrRuleACM, Seq<char>> {
    match intr_info_m(syms, r.name) {
        Err(e) => Err(e),
        Ok(info) => if r.let_bindings > 0 {
            Err(unexpected_m(r.name, "a let-block"@))
        } else if r.embedded_restrictions > 0 {
            Err(unexpected_m(r.name, "embedded restrictions"@))
        } else if r.variants > 0 {
            Err(unexpected_m(r.name, "variants"@))
        } else if r.has_left_right {
            Err(unexpected_m(r.name, "left/right halves"@))
        } else {
            Ok(
                rule_m(
                    info,
                    r.premises,
                    r.conclusions,
                    r.actions,
                    var_terms(new_vars_m(r.premises, r.conclusions)),
                ),
            )
        },
    }
}

/// The model of the outcome of reading a rule.
pub open spec fn rule_result_m(r: Result<IntrRuleAC, String>) -> Result<IntrRuleACM, Seq<char>> {
    match r {
        Ok(x) => Ok(x@),
        Err(e) => Err(e@),
    }
}

fn unexpected(name: &str, what: &str) -> (r: String)
    ensures
        r@ == unexpected_m(name@, what@),
{
    proof {
        reveal_strlit("intruder rule ");
        reveal_strlit(" unexpectedly has ");
    }
    let mut m = "intruder rule ".to_string();
    m.append(name);
    m.append(" unexpectedly has ");
    m.append(what);
    m
}

/// The intruder rule its text gives (see [`intr_rule_m`]).
pub fn intr_rule_from_parsed(known: &KnownFuns, r: &ParsedIntrRule) -> (out: Result<IntrRuleAC, String>)
    ensures
        rule_result_m(out) == intr_rule_m(known@, r@),
{
    let info = match intr_rule_info(known, r.name.as_str()) {
        Ok(i) => i,
        Err(e) => {
            return Err(e);
        },
    };
    if r.let_bindings > 0 {
        return Err(unexpected(r.name.as_str(), "a let-block"));
    }
    if r.embedded_restrictions > 0 {
        return Err(unexpected(r.name.as_str(), "embedded restrictions"));
    }
    if r.variants > 0 {
        return Err(unexpected(r.name.as_str(), "variants"));
    }
    if r.has_left_right {
        return Err(unexpected(r.name.as_str(), "left/right halves"));
    }
    let nv = new_variables(&r.premises, &r.conclusions);
    let mut rule = IntrRuleAC::new(
        info,
        copy_facts(&r.premises),
        copy_facts(&r.conclusions),
        copy_facts(&r.actions),
    );
    rule.new_vars = nv;
    Ok(rule)
}

/// The rules of a text, in order; the error of the first rule that fails,
/// tagged with the text's description.
pub open spec fn intr_rules_m(syms: Seq<FunSymM>, ctxt: Seq<char>, rs: Seq<ParsedIntrRuleM>) -> Result<
    Seq<IntrRuleACM>,
    (Seq<char>, Seq<char>),
>
    decreases rs.len(),
{
    if rs.len() == 0 {
        Ok(Seq::empty())
    } else {
        match intr_rules_m(syms, ctxt, rs.drop_last()) {
            Err(e) => Err(e),
            Ok(done) => match intr_rule_m(syms, rs.last()) {
                Ok(x) => Ok(done.push(x)),
                Err(message) => Err((ctxt, message)),
            },
        }
    }
}

/// The models of rule texts.
pub open spec fn parsed_rules_m(rs: Seq<ParsedIntrRule>) -> Seq<ParsedIntrRuleM> {
    Seq::new(rs.len(), |i: int| rs[i]@)
}

/// The model of the outcome of reading a text's rules.
pub open spec fn rules_result_m(r: Result<Vec<IntrRuleAC>, IntrRuleParseError>) -> Result<
    Seq<IntrRuleACM>,
    (Seq<char>, Seq<char>),
> {
    match r {
        Ok(v) => Ok(rules_m(v@)),
        Err(e) => Err((e.ctxt_desc@, e.message@)),
    }
}

/// The intruder rules of a text whose rules were read (see
/// [`intr_rules_m`]): each rule in order, and on the first failure the
/// error tagged with `ctxt_desc`.
pub fn intr_rules_from_parsed(known: &KnownFuns, ctxt_desc: &str, rules: &Vec<ParsedIntrRule>) -> (r: Result<
    Vec<IntrRuleAC>,
    IntrRuleParseError,
>)
    ensures
        rules_result_m(r) == intr_rules_m(known@, ctxt_desc@, parsed_rules_m(rules@)),
{
    let ghost ps = parsed_rules_m(rules@);
    let mut out: Vec<IntrRuleAC> = Vec::new();
    let mut i: usize = 0;
    assert(ps.take(0) =~= Seq::<ParsedIntrRuleM>::empty());
    assert(rules_m(out@) =~= Seq::<IntrRuleACM>::empty());
    while i < rules.len()
        invariant
            i <= rules@.len(),
            ps == parsed_rules_m(rules@),
            intr_rules_m(known@, ctxt_desc@, ps.take(i as int)) == Ok::<
                Seq<IntrRuleACM>,
                (Seq<char>, Seq<char>),
            >(rules_m(out@)),
        decreases rules.len() - i,
    {
        assert(ps.take(i + 1).drop_last() =~= ps.take(i as int));
        assert(ps.take(i + 1).last() == rules@[i as int]@);
        match intr_rule_from_parsed(known, &rules[i]) {
            Ok(x) => {
                let ghost before = rules_m(out@);
                out.push(x);
                assert(rules_m(out@) =~= before.push(out@.last()@));
            },
            Err(message) => {
                proof { lemma_intr_rules_err_prefix(known@, ctxt_desc@, ps, i + 1); }
                return Err(IntrRuleParseError { ctxt_desc: ctxt_desc.to_string(), message });
            },
        }
        i += 1;
    }
    assert(ps.take(rules@.len() as int) =~= ps);
    Ok(out)
}

proof fn lemma_intr_rules_err_prefix(syms: Seq<FunSymM>, ctxt: Seq<char>, rs: Seq<ParsedIntrRuleM>, k: int)
    requires
        0 <= k <= rs.len(),
        intr_rules_m(syms, ctxt, rs.take(k)) is Err,
    ensures
        intr_rules_m(syms, ctxt, rs) == intr_rules_m(syms, ctxt, rs.take(k)),
    decreases rs.len(),
{
    if k < rs.len() {
        assert(rs.drop_last().take(k) =~= rs.take(k));
        lemma_intr_rules_err_prefix(syms, ctxt, rs.drop_last(), k);
    } else {
        assert(rs.take(k) =~= rs);
    }
}

} // verus!
