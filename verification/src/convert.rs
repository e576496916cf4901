//! Conversion of a formula into the guarded fragment, and the error that
//! names why a formula falls outside it.
use vstd::prelude::*;
use crate::term::{Atom, AtomM, LVar, LVarM, Term, lvars_m, atoms_m, show_lvar, atom_frees, term_frees, collect_atom_frees, collect_term_frees};
use crate::term::{copy_lvars, TermM};
use crate::formula::{ffrees, fatoms, formula_frees_list, has_pred, to_lnformula, lemma_atoms_frees_append};
use crate::formula::{Formula, FormulaM, Connective, Quantifier, fsize, fcost, fdepth, fscoped, prefix_m, open_prefix_m, prefix_atom_map, lemma_prefix_measures, lemma_prefix_scoped, lemma_open_prefix_scoped, lemma_map_fatoms_measures, lemma_fdepth_le_fcost, lemma_atom_unscoped_no_bound, open_formula_prefix};
use crate::canon::{cmap_atom, keep_leaf, lemma_canon_atom_no_bound};
use crate::guarded::{Guarded, GuardedM, guardeds_m, gtf_m, gtrue_m, gnot_atom_m, gconj_m, gdisj_m, close_guarded_m, gdepth, gdepth_seq, gtf, gnot_atom, gconj, gdisj, close_guarded, bvar_to_lvar, lemma_gconj_depth, lemma_gdisj_depth, lemma_close_guarded_depth, lemma_gdepth_seq_bound};
use crate::fresh::{FreshState, room, draw_all, binder_names, opened_vars, lemma_draw_all_room, seeded, lemma_seeded_same_members};

verus! {

broadcast use vstd::std_specs::vec::group_vec_axioms;

// ---------------------------------------------------------------------------
// Documents
// ---------------------------------------------------------------------------

/// A pretty-printing document: a piece of text, two documents side by side,
/// or a list of documents filled into lines.
#[derive(Debug)]
pub enum Doc {
    Text(String),
    Beside(Box<Doc>, Box<Doc>),
    Fsep(Vec<Doc>),
}

/// The model of a [`Doc`].
pub enum DocM {
    Text(Seq<char>),
    Beside(Box<DocM>, Box<DocM>),
    Fsep(Seq<DocM>),
}

/// The models of a sequence of documents.
pub open spec fn docs_m(xs: Seq<Doc>) -> Seq<DocM>
    decreases xs, 1nat,
{
    Seq::new(xs.len(), |i: int| if 0 <= i < xs.len() { xs[i].view() } else { DocM::Fsep(Seq::empty()) })
}

impl Doc {
    pub open spec fn view(&self) -> DocM
        decreases self, 0nat,
    {
        match self {
            Doc::Text(s) => DocM::Text(s@),
            Doc::Beside(a, b) => DocM::Beside(Box::new(a.view()), Box::new(b.view())),
            Doc::Fsep(xs) => DocM::Fsep(docs_m(xs@)),
        }
    }
}

/// `p` after every document but the last.
pub open spec fn punctuate_m(p: DocM, ds: Seq<DocM>) -> Seq<DocM> {
    Seq::new(
        ds.len(),
        |i: int| if i < ds.len() - 1 { DocM::Beside(Box::new(ds[i]), Box::new(p)) } else { ds[i] },
    )
}

/// The text documents of the strings.
pub open spec fn texts_m(xs: Seq<Seq<char>>) -> Seq<DocM> {
    Seq::new(xs.len(), |i: int| DocM::Text(xs[i]))
}

// ---------------------------------------------------------------------------
// The error
// ---------------------------------------------------------------------------

/// Why a formula is not guarded: the message; the quantifier subformula the
/// failure was found under (its enclosing binders opened), if any; and for
/// an unguarded-variable failure the quoted names of those variables.
#[derive(Debug)]
pub struct GuardError {
    pub message: String,
    pub subject_formula: Option<Formula>,
    pub unguarded_vars: Vec<String>,
}

/// The model of a [`GuardError`].
pub struct GuardErrorM {
    pub message: Seq<char>,
    pub subject: Option<FormulaM>,
    pub unguarded: Seq<Seq<char>>,
}

/// The models of a sequence of strings.
pub open spec fn strings_m(xs: Seq<String>) -> Seq<Seq<char>> {
    Seq::new(xs.len(), |i: int| xs[i]@)
}

impl GuardError {
    pub open spec fn view(&self) -> GuardErrorM {
        GuardErrorM {
            message: self.message@,
            subject: match self.subject_formula {
                Some(f) => Some(f@),
                None => None,
            },
            unguarded: strings_m(self.unguarded_vars@),
        }
    }

    /// The message as a document: a single text, or for unguarded
    /// variables `unguarded variable(s)`, the names separated by commas and
    /// `in the subformula`, filled into lines word by word.
    pub fn message_doc(&self) -> (r: Doc)
        ensures
            r@ == message_doc_m(self@),
    {
        if self.unguarded_vars.len() == 0 {
            return Doc::Text(self.message.clone());
        }
        let mut parts: Vec<Doc> = Vec::new();
        parts.push(Doc::Text("unguarded variable(s)".to_string()));
        let n = self.unguarded_vars.len();
        let ghost names = strings_m(self.unguarded_vars@);
        let ghost ps = punctuate_m(DocM::Text(","@), texts_m(names));
        let mut i: usize = 0;
        while i < n
            invariant
                n == self.unguarded_vars.len(),
                names == strings_m(self.unguarded_vars@),
                ps == punctuate_m(DocM::Text(","@), texts_m(names)),
                i <= n,
                parts@.len() == 1 + i,
                parts@[0]@ == DocM::Text("unguarded variable(s)"@),
                forall|j: int| 0 <= j < i ==> #[trigger] parts@[1 + j]@ == ps[j],
            decreases n - i,
        {
            let t = Doc::Text(self.unguarded_vars[i].clone());
            assert(t@ == texts_m(names)[i as int]);
            if i + 1 < n {
                let c = Doc::Text(",".to_string());
                assert(c@ == DocM::Text(","@));
                parts.push(Doc::Beside(Box::new(t), Box::new(c)));
            } else {
                parts.push(t);
            }
            assert(parts@[1 + i as int]@ == ps[i as int]);
            i += 1;
        }
        parts.push(Doc::Text("in".to_string()));
        parts.push(Doc::Text("the".to_string()));
        parts.push(Doc::Text("subformula".to_string()));
        let r = Doc::Fsep(parts);
        assert(docs_m(parts@) =~= message_parts_m(names)) by {
            assert(parts@[n + 1]@ == DocM::Text("in"@));
            assert(parts@[n + 2]@ == DocM::Text("the"@));
            assert(parts@[n + 3]@ == DocM::Text("subformula"@));
            let mp = message_parts_m(names);
            assert(mp.len() == n + 4);
            assert forall|k: int| 0 <= k < n + 4 implies #[trigger] docs_m(parts@)[k] == mp[k] by {
                if 1 <= k <= n {
                    assert(mp[k] == ps[k - 1]);
                    assert(parts@[1 + (k - 1)]@ == ps[k - 1]);
                }
            }
        }
        r
    }

    /// The message.
    pub fn to_string(&self) -> (r: String)
        ensures
            r@ == self.message@,
    {
        self.message.clone()
    }
}

/// The parts of the unguarded-variable message.
pub open spec fn message_parts_m(names: Seq<Seq<char>>) -> Seq<DocM> {
    seq![DocM::Text("unguarded variable(s)"@)] + punctuate_m(DocM::Text(","@), texts_m(names)) + seq![
        DocM::Text("in"@),
        DocM::Text("the"@),
        DocM::Text("subformula"@),
    ]
}

/// The document of an error message.
pub open spec fn message_doc_m(e: GuardErrorM) -> DocM {
    if e.unguarded.len() == 0 {
        DocM::Text(e.message)
    } else {
        DocM::Fsep(message_parts_m(e.unguarded))
    }
}

/// An error with a message alone.
pub open spec fn err_m(msg: Seq<char>) -> GuardErrorM {
    GuardErrorM { message: msg, subject: None, unguarded: Seq::empty() }
}

/// An error with a message alone.
pub fn err(msg: &str) -> (r: GuardError)
    ensures
        r@ == err_m(msg@),
{
    let r = GuardError { message: msg.to_string(), subject_formula: None, unguarded_vars: Vec::new() };
    assert(strings_m(r.unguarded_vars@) =~= Seq::<Seq<char>>::empty());
    r
}

// ---------------------------------------------------------------------------
// Which binders the guards leave unguarded
// ---------------------------------------------------------------------------

/// The elements of a sequence as a set.
pub open spec fn seq_set(s: Seq<LVarM>) -> Set<LVarM> {
    Set::new(|v: LVarM| s.contains(v))
}

/// Is none of `vs` in `u`?
pub open spec fn covered(u: Set<LVarM>, vs: Seq<LVarM>) -> bool {
    forall|j: int| 0 <= j < vs.len() ==> !u.contains(#[trigger] vs[j])
}

/// One guard applied to the set of still unguarded variables: an action
/// guards all its variables; an equation guards the variables of one side
/// once the other side's are all guarded (the left side's first); nothing
/// else guards.
pub open spec fn guard_step(u: Set<LVarM>, a: AtomM) -> Set<LVarM> {
    match a {
        AtomM::Action(_, _) => u.difference(seq_set(atom_frees(a))),
        AtomM::EqE(s, t) => if covered(u, term_frees(s)) {
            u.difference(seq_set(term_frees(t)))
        } else if covered(u, term_frees(t)) {
            u.difference(seq_set(term_frees(s)))
        } else {
            u
        },
        _ => u,
    }
}

/// The guards applied in order.
pub open spec fn guard_fold(u: Set<LVarM>, atoms: Seq<AtomM>) -> Set<LVarM>
    decreases atoms.len(),
{
    if atoms.len() == 0 {
        u
    } else {
        guard_step(guard_fold(u, atoms.drop_last()), atoms.last())
    }
}

/// The action atoms, in order.
pub open spec fn actions_of(atoms: Seq<AtomM>) -> Seq<AtomM>
    decreases atoms.len(),
{
    if atoms.len() == 0 {
        Seq::empty()
    } else if atoms.last() is Action {
        actions_of(atoms.drop_last()).push(atoms.last())
    } else {
        actions_of(atoms.drop_last())
    }
}

/// The other atoms, in order.
pub open spec fn non_actions_of(atoms: Seq<AtomM>) -> Seq<AtomM>
    decreases atoms.len(),
{
    if atoms.len() == 0 {
        Seq::empty()
    } else if atoms.last() is Action {
        non_actions_of(atoms.drop_last())
    } else {
        non_actions_of(atoms.drop_last()).push(atoms.last())
    }
}

/// The variables of `xs` the guards leave unguarded, the actions applied
/// before the other atoms.
pub open spec fn unguarded_set(xs: Seq<LVarM>, atoms: Seq<AtomM>) -> Set<LVarM> {
    guard_fold(seq_set(xs), actions_of(atoms) + non_actions_of(atoms))
}

/// The positions in `xs` of the members of `u`, in order.
pub open spec fn positions_in(xs: Seq<LVarM>, u: Set<LVarM>) -> Seq<int>
    decreases xs.len(),
{
    if xs.len() == 0 {
        Seq::empty()
    } else if u.contains(xs.last()) {
        positions_in(xs.drop_last(), u).push(xs.len() - 1)
    } else {
        positions_in(xs.drop_last(), u)
    }
}

/// The flags mark exactly the members of `u` among `xs`, and `u` holds no
/// other variable.
pub open spec fn flags_mark(xs: Seq<LVarM>, flags: Seq<bool>, u: Set<LVarM>) -> bool {
    &&& flags.len() == xs.len()
    &&& forall|i: int| 0 <= i < xs.len() ==> flags[i] == u.contains(#[trigger] xs[i])
    &&& forall|v: LVarM| u.contains(v) ==> xs.contains(v)
}

fn marked(xs: &Vec<LVar>, flags: &Vec<bool>, v: &LVar, Ghost(u): Ghost<Set<LVarM>>) -> (r: bool)
    requires
        flags_mark(lvars_m(xs@), flags@, u),
    ensures
        r == u.contains(v@),
{
    let ghost xm = lvars_m(xs@);
    let mut i: usize = 0;
    while i < xs.len()
        invariant
            i <= xs.len(),
            xm == lvars_m(xs@),
            flags_mark(xm, flags@, u),
            forall|j: int| 0 <= j < i ==> !(flags@[j] && xm[j] == v@),
        decreases xs.len() - i,
    {
        if flags[i] && xs[i].same(v) {
            assert(xm[i as int] == v@);
            return true;
        }
        i += 1;
    }
    proof {
        if u.contains(v@) {
            let j = choose|j: int| 0 <= j < xm.len() && xm[j] == v@;
            assert(flags@[j] == u.contains(xm[j]));
        }
    }
    false
}

fn all_covered(xs: &Vec<LVar>, flags: &Vec<bool>, vs: &Vec<LVar>, Ghost(u): Ghost<Set<LVarM>>) -> (r:
    bool)
    requires
        flags_mark(lvars_m(xs@), flags@, u),
    ensures
        r == covered(u, lvars_m(vs@)),
{
    let ghost vm = lvars_m(vs@);
    let mut i: usize = 0;
    while i < vs.len()
        invariant
            i <= vs.len(),
            vm == lvars_m(vs@),
            flags_mark(lvars_m(xs@), flags@, u),
            forall|j: int| 0 <= j < i ==> !u.contains(#[trigger] vm[j]),
        decreases vs.len() - i,
    {
        if marked(xs, flags, &vs[i], Ghost(u)) {
            assert(u.contains(vm[i as int]));
            return false;
        }
        i += 1;
    }
    true
}

fn member(vs: &Vec<LVar>, v: &LVar) -> (r: bool)
    ensures
        r == lvars_m(vs@).contains(v@),
{
    let ghost vm = lvars_m(vs@);
    let mut i: usize = 0;
    while i < vs.len()
        invariant
            i <= vs.len(),
            vm == lvars_m(vs@),
            forall|j: int| 0 <= j < i ==> vm[j] != v@,
        decreases vs.len() - i,
    {
        if vs[i].same(v) {
            assert(vm[i as int] == v@);
            return true;
        }
        i += 1;
    }
    false
}

/// Unmark every variable of `vs`.
fn unmark_all(xs: &Vec<LVar>, flags: &mut Vec<bool>, vs: &Vec<LVar>, Ghost(u): Ghost<Set<LVarM>>)
    requires
        flags_mark(lvars_m(xs@), old(flags)@, u),
    ensures
        flags_mark(lvars_m(xs@), final(flags)@, u.difference(seq_set(lvars_m(vs@)))),
{
    let ghost xm = lvars_m(xs@);
    let ghost u2 = u.difference(seq_set(lvars_m(vs@)));
    let mut i: usize = 0;
    while i < xs.len()
        invariant
            i <= xs.len(),
            xm == lvars_m(xs@),
            u2 == u.difference(seq_set(lvars_m(vs@))),
            flags@.len() == xs@.len(),
            forall|j: int| 0 <= j < i ==> flags@[j] == u2.contains(#[trigger] xm[j]),
            forall|j: int| i <= j < xm.len() ==> flags@[j] == u.contains(#[trigger] xm[j]),
            forall|v: LVarM| u.contains(v) ==> xm.contains(v),
        decreases xs.len() - i,
    {
        let f = flags[i];
        assert(f == u.contains(xm[i as int]));
        let m = f && member(vs, &xs[i]);
        assert(xs@[i as int]@ == xm[i as int]);
        assert(seq_set(lvars_m(vs@)).contains(xm[i as int]) == lvars_m(vs@).contains(xm[i as int]));
        if m {
            flags.set(i, false);
            assert(!u2.contains(xm[i as int]));
        } else if f {
            assert(u2.contains(xm[i as int]));
        }
        assert(flags@[i as int] == u2.contains(xm[i as int]));
        i += 1;
    }
}

/// Apply one guard to the marks.
fn guard_step_exec(xs: &Vec<LVar>, flags: &mut Vec<bool>, a: &Atom, Ghost(u): Ghost<Set<LVarM>>)
    requires
        flags_mark(lvars_m(xs@), old(flags)@, u),
    ensures
        flags_mark(lvars_m(xs@), final(flags)@, guard_step(u, a@)),
{
    match a {
        Atom::Action(_, _) => {
            let mut vs: Vec<LVar> = Vec::new();
            collect_atom_frees(a, &mut vs);
            assert(lvars_m(vs@) =~= atom_frees(a@));
            unmark_all(xs, flags, &vs, Ghost(u));
        },
        Atom::EqE(s, t) => {
            let mut sv: Vec<LVar> = Vec::new();
            collect_term_frees(s, &mut sv);
            assert(lvars_m(sv@) =~= term_frees(s@));
            let mut tv: Vec<LVar> = Vec::new();
            collect_term_frees(t, &mut tv);
            assert(lvars_m(tv@) =~= term_frees(t@));
            if all_covered(xs, flags, &sv, Ghost(u)) {
                unmark_all(xs, flags, &tv, Ghost(u));
            } else if all_covered(xs, flags, &tv, Ghost(u)) {
                unmark_all(xs, flags, &sv, Ghost(u));
            }
        },
        _ => {},
    }
}

/// The positions in `xs` of the binders the guards leave unguarded, in
/// order; the actions are applied before the other atoms.
pub fn remaining_unguarded(xs: &Vec<LVar>, atoms: &Vec<Atom>) -> (r: Vec<usize>)
    ensures
        r@.len() == positions_in(lvars_m(xs@), unguarded_set(lvars_m(xs@), atoms_m(atoms@))).len(),
        forall|k: int| 0 <= k < r@.len() ==> #[trigger] r@[k] < xs@.len(),
        forall|k: int| 0 <= k < r@.len() ==> r@[k] as int == #[trigger] positions_in(
            lvars_m(xs@),
            unguarded_set(lvars_m(xs@), atoms_m(atoms@)),
        )[k],
{
    let ghost xm = lvars_m(xs@);
    let ghost am = atoms_m(atoms@);
    let ghost u0 = seq_set(xm);
    let mut flags: Vec<bool> = Vec::new();
    let mut i: usize = 0;
    while i < xs.len()
        invariant
            i <= xs.len(),
            xm == lvars_m(xs@),
            flags@.len() == i,
            forall|j: int| 0 <= j < i ==> flags@[j],
        decreases xs.len() - i,
    {
        flags.push(true);
        i += 1;
    }
    assert(flags_mark(xm, flags@, u0)) by {
        assert forall|j: int| 0 <= j < xm.len() implies flags@[j] == u0.contains(#[trigger] xm[j]) by {
            assert(xm.contains(xm[j]));
        }
    }
    let ghost mut u = u0;
    let mut k: usize = 0;
    assert(am.take(0) =~= Seq::<AtomM>::empty());
    while k < atoms.len()
        invariant
            k <= atoms.len(),
            xm == lvars_m(xs@),
            am == atoms_m(atoms@),
            flags_mark(xm, flags@, u),
            u == guard_fold(u0, actions_of(am.take(k as int))),
        decreases atoms.len() - k,
    {
        assert(am.take(k + 1).drop_last() =~= am.take(k as int));
        if atoms[k].is_action() {
            guard_step_exec(xs, &mut flags, &atoms[k], Ghost(u));
            proof {
                let ab = actions_of(am.take(k as int));
                assert(actions_of(am.take(k + 1)) == ab.push(am[k as int]));
                assert(ab.push(am[k as int]).drop_last() =~= ab);
                u = guard_step(u, am[k as int]);
            }
        } else {
            assert(actions_of(am.take(k + 1)) == actions_of(am.take(k as int)));
        }
        k += 1;
    }
    assert(am.take(atoms.len() as int) =~= am);
    let ghost acts = actions_of(am);
    k = 0;
    assert(acts + non_actions_of(am.take(0)) =~= acts);
    while k < atoms.len()
        invariant
            k <= atoms.len(),
            xm == lvars_m(xs@),
            am == atoms_m(atoms@),
            acts == actions_of(am),
            flags_mark(xm, flags@, u),
            u == guard_fold(u0, acts + non_actions_of(am.take(k as int))),
        decreases atoms.len() - k,
    {
        assert(am.take(k + 1).drop_last() =~= am.take(k as int));
        if !atoms[k].is_action() {
            guard_step_exec(xs, &mut flags, &atoms[k], Ghost(u));
            proof {
                let nb = non_actions_of(am.take(k as int));
                assert(non_actions_of(am.take(k + 1)) == nb.push(am[k as int]));
                assert(acts + nb.push(am[k as int]) =~= (acts + nb).push(am[k as int]));
                assert((acts + nb).push(am[k as int]).drop_last() =~= acts + nb);
                u = guard_step(u, am[k as int]);
            }
        } else {
            assert(non_actions_of(am.take(k + 1)) == non_actions_of(am.take(k as int)));
        }
        k += 1;
    }
    assert(u == unguarded_set(xm, am));
    let mut out: Vec<usize> = Vec::new();
    i = 0;
    assert(xm.take(0) =~= Seq::<LVarM>::empty());
    while i < xs.len()
        invariant
            i <= xs.len(),
            xm == lvars_m(xs@),
            flags_mark(xm, flags@, u),
            out@.len() == positions_in(xm.take(i as int), u).len(),
            forall|j: int| 0 <= j < out@.len() ==> #[trigger] out@[j] < i,
            forall|j: int| 0 <= j < out@.len() ==> out@[j] as int == #[trigger] positions_in(
                xm.take(i as int),
                u,
            )[j],
        decreases xs.len() - i,
    {
        assert(xm.take(i + 1).drop_last() =~= xm.take(i as int));
        assert(xm.take(i + 1).last() == xm[i as int]);
        if flags[i] {
            out.push(i);
        }
        i += 1;
    }
    assert(xm.take(xs.len() as int) =~= xm);
    out
}

/// A name in single quotes.
pub open spec fn quote(s: Seq<char>) -> Seq<char> {
    seq!['\''] + s + seq!['\'']
}

/// The strings with `sep` between each two.
pub open spec fn join(names: Seq<Seq<char>>, sep: Seq<char>) -> Seq<char>
    decreases names.len(),
{
    if names.len() == 0 {
        Seq::empty()
    } else if names.len() == 1 {
        names[0]
    } else {
        join(names.drop_last(), sep) + sep + names.last()
    }
}

/// The quoted names of the variables at the positions.
pub open spec fn unguarded_names(ps: Seq<int>, xs: Seq<LVarM>) -> Seq<Seq<char>> {
    Seq::new(ps.len(), |k: int| quote(show_lvar(xs[ps[k]])))
}

/// The error naming the unguarded variables at the positions of `xs`.
pub open spec fn unguarded_error_m(ps: Seq<int>, xs: Seq<LVarM>) -> GuardErrorM {
    let names = unguarded_names(ps, xs);
    GuardErrorM {
        message: "unguarded variable(s) "@ + join(names, ", "@) + " in the subformula"@,
        subject: None,
        unguarded: names,
    }
}

/// The positions as integers.
pub open spec fn positions_m(ps: Seq<usize>) -> Seq<int> {
    Seq::new(ps.len(), |k: int| ps[k] as int)
}

/// The error naming the variables at `positions` of the opened prefix.
fn unguarded_error(positions: &Vec<usize>, freshened: &Vec<LVar>) -> (r: GuardError)
    requires
        forall|k: int| 0 <= k < positions@.len() ==> #[trigger] positions@[k] < freshened@.len(),
    ensures
        r@ == unguarded_error_m(positions_m(positions@), lvars_m(freshened@)),
{
    let ghost names = unguarded_names(positions_m(positions@), lvars_m(freshened@));
    let ghost sep = ", "@;
    let mut quoted: Vec<String> = Vec::new();
    let mut msg = "unguarded variable(s) ".to_string();
    let ghost head = msg@;
    let mut k: usize = 0;
    assert(names.take(0) =~= Seq::<Seq<char>>::empty());
    while k < positions.len()
        invariant
            k <= positions@.len(),
            names == unguarded_names(positions_m(positions@), lvars_m(freshened@)),
            sep == ", "@,
            forall|j: int| 0 <= j < positions@.len() ==> #[trigger] positions@[j] < freshened@.len(),
            quoted@.len() == k,
            forall|j: int| 0 <= j < k ==> #[trigger] quoted@[j]@ == names[j],
            msg@ == head + join(names.take(k as int), sep),
        decreases positions@.len() - k,
    {
        let mut q = String::new();
        proof { reveal_strlit("'"); }
        q.append("'");
        let shown = freshened[positions[k]].show();
        q.append(shown.as_str());
        q.append("'");
        assert(q@ =~= names[k as int]);
        assert(names.take(k + 1).drop_last() =~= names.take(k as int));
        if k > 0 {
            proof { reveal_strlit(", "); }
            msg.append(", ");
        } else {
            assert(names.take(1) =~= seq![names[0]]);
        }
        msg.append(q.as_str());
        assert(msg@ =~= head + join(names.take(k + 1), sep));
        quoted.push(q);
        k += 1;
    }
    msg.append(" in the subformula");
    assert(names.take(positions@.len() as int) =~= names);
    assert(strings_m(quoted@) =~= names);
    GuardError { message: msg, subject_formula: None, unguarded_vars: quoted }
}

// ---------------------------------------------------------------------------
// Conversion
// ---------------------------------------------------------------------------

/// The models of a sequence of formulas.
pub open spec fn formulas_m(xs: Seq<Formula>) -> Seq<FormulaM> {
    Seq::new(xs.len(), |i: int| xs[i]@)
}

/// The total size of a sequence of formulas.
pub open spec fn fsizes(fs: Seq<FormulaM>) -> nat
    decreases fs.len(),
{
    if fs.len() == 0 {
        0
    } else {
        fsizes(fs.drop_last()) + fsize(fs.last())
    }
}

/// The total quantifier count of a sequence of formulas.
pub open spec fn fcosts(fs: Seq<FormulaM>) -> nat
    decreases fs.len(),
{
    if fs.len() == 0 {
        0
    } else {
        fcosts(fs.drop_last()) + fcost(fs.last())
    }
}

/// A conjunction split into the action and equation atoms that can guard
/// a binder and the conjuncts that cannot, each in order.
pub open spec fn split_m(f: FormulaM) -> (Seq<AtomM>, Seq<FormulaM>)
    decreases f,
{
    match f {
        FormulaM::Conn(Connective::And, a, b) => {
            let (x1, y1) = split_m(*a);
            let (x2, y2) = split_m(*b);
            (x1 + x2, y1 + y2)
        },
        FormulaM::Atom(a) => if a is Action || a is EqE {
            (seq![cmap_atom(a, keep_leaf())], Seq::empty())
        } else {
            (Seq::empty(), seq![f])
        },
        _ => (Seq::empty(), seq![f]),
    }
}

proof fn lemma_fsizes_append(a: Seq<FormulaM>, b: Seq<FormulaM>)
    ensures
        fsizes(a + b) == fsizes(a) + fsizes(b),
        fcosts(a + b) == fcosts(a) + fcosts(b),
    decreases b.len(),
{
    if b.len() == 0 {
        assert(a + b =~= a);
    } else {
        lemma_fsizes_append(a, b.drop_last());
        assert((a + b).drop_last() =~= a + b.drop_last());
    }
}

proof fn lemma_fsizes_single(f: FormulaM)
    ensures
        fsizes(seq![f]) == fsize(f),
        fcosts(seq![f]) == fcost(f),
{
    assert(seq![f].drop_last() =~= Seq::<FormulaM>::empty());
    reveal_with_fuel(fsizes, 2);
    reveal_with_fuel(fcosts, 2);
}

/// The parts of a split conjunction: no larger than it, no deeper, as
/// scoped, and the guarding atoms carry no index when it is closed.
pub proof fn lemma_split(f: FormulaM)
    ensures
        fsizes(split_m(f).1) <= fsize(f),
        fcosts(split_m(f).1) <= fcost(f),
        forall|i: int| 0 <= i < split_m(f).1.len() ==> fdepth(#[trigger] split_m(f).1[i]) <= fdepth(f),
        fscoped(f, 0) ==> forall|i: int| 0 <= i < split_m(f).1.len() ==> fscoped(#[trigger] split_m(f).1[i], 0),
        fscoped(f, 0) ==> forall|i: int| 0 <= i < split_m(f).0.len() ==> !crate::term::atom_has_bound(#[trigger] split_m(f).0[i]),
    decreases f,
{
    match f {
        FormulaM::Conn(Connective::And, a, b) => {
            lemma_split(*a);
            lemma_split(*b);
            let (x1, y1) = split_m(*a);
            let (x2, y2) = split_m(*b);
            lemma_fsizes_append(y1, y2);
            assert forall|i: int| 0 <= i < (y1 + y2).len() implies fdepth(#[trigger] (y1 + y2)[i]) <= fdepth(f) by {
                if i >= y1.len() {
                    assert((y1 + y2)[i] == y2[i - y1.len()]);
                }
            }
            if fscoped(f, 0) {
                assert forall|i: int| 0 <= i < (y1 + y2).len() implies fscoped(#[trigger] (y1 + y2)[i], 0) by {
                    if i >= y1.len() {
                        assert((y1 + y2)[i] == y2[i - y1.len()]);
                    }
                }
                assert forall|i: int| 0 <= i < (x1 + x2).len() implies !crate::term::atom_has_bound(#[trigger] (x1 + x2)[i]) by {
                    if i >= x1.len() {
                        assert((x1 + x2)[i] == x2[i - x1.len()]);
                    }
                }
            }
        },
        FormulaM::Atom(a) => {
            lemma_fsizes_single(f);
            if fscoped(f, 0) {
                lemma_atom_unscoped_no_bound(a);
                lemma_canon_atom_no_bound(a);
            }
        },
        _ => lemma_fsizes_single(f),
    }
}

/// The error with the quantifier subformula it was found under recorded,
/// unless an inner one already is.
pub open spec fn with_subject(e: GuardErrorM, f: FormulaM) -> GuardErrorM {
    if e.subject is None {
        GuardErrorM { message: e.message, subject: Some(f), unguarded: e.unguarded }
    } else {
        e
    }
}

/// The conversion of `f` at polarity `pol` (at `true` the result is
/// equivalent to the negation of `f`) with the supply `m`: the result and
/// the supply after it.  A quantifier opens its whole prefix of like
/// quantifiers with fresh variables; a universal needs an implication
/// beneath the prefix whose antecedent's atoms guard it, an existential a
/// conjunction whose atoms guard it.
#[verifier::opaque]
pub open spec fn convert_m(pol: bool, f: FormulaM, m: Map<Seq<char>, u64>) -> (
    Result<GuardedM, GuardErrorM>,
    Map<Seq<char>, u64>,
)
    decreases fsize(f), 1nat,
{
    match f {
        FormulaM::Tf(b) => (Ok(gtf_m(pol != b)), m),
        FormulaM::Atom(a) => (Ok(if pol { gnot_atom_m(a) } else { GuardedM::Atom(a) }), m),
        FormulaM::Not(g) => convert_m(!pol, *g, m),
        FormulaM::Conn(c, a, b) => conn_m(pol, c, *a, *b, m),
        FormulaM::Qua(q0, _, _) => qua_m(pol, q0, f, m),
    }
}

/// Two conversions in turn, the second only when the first succeeds.
pub open spec fn then_pair(
    r1: (Result<GuardedM, GuardErrorM>, Map<Seq<char>, u64>),
    r2: (Result<GuardedM, GuardErrorM>, Map<Seq<char>, u64>),
) -> (Result<Seq<GuardedM>, GuardErrorM>, Map<Seq<char>, u64>) {
    match r1.0 {
        Err(e) => (Err(e), r1.1),
        Ok(g1) => match r2.0 {
            Err(e) => (Err(e), r2.1),
            Ok(g2) => (Ok(seq![g1, g2]), r2.1),
        },
    }
}

/// A connective: a bi-implication is read as the conjunction of the
/// implications both ways, so at the negative polarity the two negated
/// implications are joined by a disjunction; otherwise the arms are converted left to right (the
/// antecedent of an implication at the opposite polarity) and joined by the
/// connective the polarity calls for.
#[verifier::opaque]
pub open spec fn conn_m(pol: bool, c: Connective, a: FormulaM, b: FormulaM, m: Map<Seq<char>, u64>) -> (
    Result<GuardedM, GuardErrorM>,
    Map<Seq<char>, u64>,
)
    decreases fsize(FormulaM::Conn(c, Box::new(a), Box::new(b))), 0nat,
{
    if c == Connective::Iff {
        let lhs = FormulaM::Conn(Connective::Imp, Box::new(a), Box::new(b));
        let rhs = FormulaM::Conn(Connective::Imp, Box::new(b), Box::new(a));
        let r1 = convert_m(pol, lhs, m);
        let (r, m2) = then_pair(r1, convert_m(pol, rhs, r1.1));
        (
            match r {
                Err(e) => Err(e),
                Ok(gs) => Ok(
                    if pol {
                        gdisj_m(gs)
                    } else {
                        gconj_m(gs)
                    },
                ),
            },
            m2,
        )
    } else {
        let pa = if c == Connective::Imp { !pol } else { pol };
        let r1 = convert_m(pa, a, m);
        let (r, m2) = then_pair(r1, convert_m(pol, b, r1.1));
        (
            match r {
                Err(e) => Err(e),
                Ok(gs) => Ok(
                    if (c == Connective::And) == pol {
                        gdisj_m(gs)
                    } else {
                        gconj_m(gs)
                    },
                ),
            },
            m2,
        )
    }
}

/// A quantifier `f` of kind `q0`: its prefix opened, then the universal or
/// existential case; a failure beneath records `f` as its subject.
#[verifier::opaque]
pub open spec fn qua_m(pol: bool, q0: Quantifier, f: FormulaM, m: Map<Seq<char>, u64>) -> (
    Result<GuardedM, GuardErrorM>,
    Map<Seq<char>, u64>,
)
    decreases fsize(f), 0nat,
{
    if f is Qua && f->Qua_0 == q0 {
        let (hints, body) = prefix_m(q0, f);
        let xs = opened_vars(hints, m);
        let m1 = draw_all(m, binder_names(hints)).1;
        let b = open_prefix_m(xs, body);
        proof {
            lemma_prefix_measures(q0, f);
            lemma_map_fatoms_measures(body, 0, prefix_atom_map(xs));
        }
        let (res, m2) = if q0 == Quantifier::All {
            conv_all_m(pol, xs, b, m1)
        } else {
            conv_ex_m(pol, xs, b, m1)
        };
        (
            match res {
                Err(e) => Err(with_subject(e, f)),
                Ok(g) => Ok(g),
            },
            m2,
        )
    } else {
        (Ok(gtrue_m()), m)
    }
}

/// The conversions of the formulas in order, stopping at the first error.
#[verifier::opaque]
pub open spec fn convert_seq_m(pol: bool, fs: Seq<FormulaM>, m: Map<Seq<char>, u64>) -> (
    Result<Seq<GuardedM>, GuardErrorM>,
    Map<Seq<char>, u64>,
)
    decreases fsizes(fs), 2nat,
{
    if fs.len() == 0 {
        (Ok(Seq::empty()), m)
    } else {
        let (r, m1) = convert_seq_m(pol, fs.drop_last(), m);
        match r {
            Err(e) => (Err(e), m1),
            Ok(gs) => {
                let (r2, m2) = convert_m(pol, fs.last(), m1);
                match r2 {
                    Err(e) => (Err(e), m2),
                    Ok(g) => (Ok(gs.push(g)), m2),
                }
            },
        }
    }
}

/// Do the guards leave no binder of `xs` unguarded?
pub open spec fn all_guarded(xs: Seq<LVarM>, atoms: Seq<AtomM>) -> bool {
    positions_in(xs, unguarded_set(xs, atoms)).len() == 0
}

/// The existential case: `xs` opened, `b` the body beneath them.
#[verifier::opaque]
pub open spec fn conv_ex_m(pol: bool, xs: Seq<LVarM>, b: FormulaM, m: Map<Seq<char>, u64>) -> (
    Result<GuardedM, GuardErrorM>,
    Map<Seq<char>, u64>,
)
    decreases fsize(b), 3nat,
{
    let (atoms, others) = split_m(b);
    if !all_guarded(xs, atoms) {
        (Err(unguarded_error_m(positions_in(xs, unguarded_set(xs, atoms)), xs)), m)
    } else {
        proof {
            lemma_split(b);
        }
        let (rs, m2) = convert_seq_m(pol, others, m);
        (
            match rs {
                Err(e) => Err(e),
                Ok(gs) => Ok(
                    close_guarded_m(
                        if pol { Quantifier::All } else { Quantifier::Ex },
                        xs,
                        atoms,
                        if pol { gdisj_m(gs) } else { gconj_m(gs) },
                    ),
                ),
            },
            m2,
        )
    }
}

/// The universal case: `xs` opened, `b` the body beneath them.
#[verifier::opaque]
pub open spec fn conv_all_m(pol: bool, xs: Seq<LVarM>, b: FormulaM, m: Map<Seq<char>, u64>) -> (
    Result<GuardedM, GuardErrorM>,
    Map<Seq<char>, u64>,
)
    decreases fsize(b), 3nat,
{
    match b {
        FormulaM::Conn(Connective::Imp, ante, succ) => {
            let (atoms, others) = split_m(*ante);
            if !all_guarded(xs, atoms) {
                (Err(unguarded_error_m(positions_in(xs, unguarded_set(xs, atoms)), xs)), m)
            } else {
                proof {
                    lemma_split(*ante);
                }
                let (rs, m2) = convert_seq_m(!pol, others, m);
                match rs {
                    Err(e) => (Err(e), m2),
                    Ok(gs) => {
                        let (rsucc, m3) = convert_m(pol, *succ, m2);
                        (
                            match rsucc {
                                Err(e) => Err(e),
                                Ok(gsucc) => Ok(
                                    close_guarded_m(
                                        if pol { Quantifier::Ex } else { Quantifier::All },
                                        xs,
                                        atoms,
                                        if pol { gconj_m(gs.push(gsucc)) } else { gdisj_m(gs.push(gsucc)) },
                                    ),
                                ),
                            },
                            m3,
                        )
                    },
                }
            }
        },
        _ => (Err(err_m("universal quantifier without toplevel implication"@)), m),
    }
}

/// The model of a conversion result.
pub open spec fn result_m(r: Result<Guarded, GuardError>) -> Result<GuardedM, GuardErrorM> {
    match r {
        Ok(g) => Ok(g@),
        Err(e) => Err(e@),
    }
}

/// The model of the conversions of a sequence.
pub open spec fn seq_result_m(r: Result<Vec<Guarded>, GuardError>) -> Result<
    Seq<GuardedM>,
    GuardErrorM,
> {
    match r {
        Ok(gs) => Ok(guardeds_m(gs@)),
        Err(e) => Err(e@),
    }
}

fn split_rec(f: &Formula, atoms: &mut Vec<Atom>, others: &mut Vec<Formula>)
    requires
        fscoped(f@, 0),
    ensures
        atoms_m(final(atoms)@) == atoms_m(old(atoms)@) + split_m(f@).0,
        formulas_m(final(others)@) == formulas_m(old(others)@) + split_m(f@).1,
    decreases f,
{
    let ghost a0 = atoms_m(atoms@);
    let ghost o0 = formulas_m(others@);
    match f {
        Formula::Conn(Connective::And, a, b) => {
            split_rec(a, atoms, others);
            let ghost a1 = atoms_m(atoms@);
            let ghost o1 = formulas_m(others@);
            split_rec(b, atoms, others);
            assert(atoms_m(atoms@) =~= a0 + split_m(f@).0);
            assert(formulas_m(others@) =~= o0 + split_m(f@).1);
        },
        Formula::Atom(a) => {
            if matches!(a, Atom::Action(..) | Atom::EqE(..)) {
                proof {
                    lemma_atom_unscoped_no_bound(a@);
                }
                atoms.push(bvar_to_lvar(a));
                assert(atoms_m(atoms@) =~= a0 + split_m(f@).0);
                assert(formulas_m(others@) =~= o0 + split_m(f@).1);
            } else {
                others.push(f.copy());
                assert(atoms_m(atoms@) =~= a0 + split_m(f@).0);
                assert(formulas_m(others@) =~= o0 + split_m(f@).1);
            }
        },
        _ => {
            others.push(f.copy());
            assert(atoms_m(atoms@) =~= a0 + split_m(f@).0);
            assert(formulas_m(others@) =~= o0 + split_m(f@).1);
        },
    }
}

/// Split a conjunction into the action and equation atoms that can guard a
/// binder (read over plain variables) and the conjuncts that cannot.
fn split_conj_actions_eqs(f: &Formula) -> (r: (Vec<Atom>, Vec<Formula>))
    requires
        fscoped(f@, 0),
    ensures
        atoms_m(r.0@) == split_m(f@).0,
        formulas_m(r.1@) == split_m(f@).1,
{
    let mut atoms: Vec<Atom> = Vec::new();
    let mut others: Vec<Formula> = Vec::new();
    assert(atoms_m(atoms@) =~= Seq::<AtomM>::empty());
    assert(formulas_m(others@) =~= Seq::<FormulaM>::empty());
    split_rec(f, &mut atoms, &mut others);
    assert(atoms_m(atoms@) =~= split_m(f@).0);
    assert(formulas_m(others@) =~= split_m(f@).1);
    (atoms, others)
}

proof fn lemma_room_mono(m: Map<Seq<char>, u64>, k: int, j: int)
    requires
        room(m, k),
        0 <= j <= k,
    ensures
        room(m, j),
{
}

proof fn lemma_fsizes_prefix(fs: Seq<FormulaM>, i: int)
    requires
        0 <= i < fs.len(),
    ensures
        fsizes(fs.take(i + 1)) == fsizes(fs.take(i)) + fsize(fs[i]),
        fcosts(fs.take(i + 1)) == fcosts(fs.take(i)) + fcost(fs[i]),
        fsizes(fs.take(i + 1)) <= fsizes(fs),
        fcosts(fs.take(i + 1)) <= fcosts(fs),
{
    assert(fs.take(i + 1).drop_last() =~= fs.take(i));
    lemma_fsizes_append(fs.take(i + 1), fs.skip(i + 1));
    assert(fs.take(i + 1) + fs.skip(i + 1) =~= fs);
}

/// Once a prefix of the sequence fails, the whole sequence fails with it.
proof fn lemma_convert_seq_err(pol: bool, fs: Seq<FormulaM>, m: Map<Seq<char>, u64>, i: int)
    requires
        0 <= i <= fs.len(),
        convert_seq_m(pol, fs.take(i), m).0 is Err,
    ensures
        convert_seq_m(pol, fs, m) == convert_seq_m(pol, fs.take(i), m),
    decreases fs.len(),
{
    reveal_with_fuel(convert_seq_m, 1);
    if i < fs.len() {
        assert(fs.drop_last().take(i) =~= fs.take(i));
        lemma_convert_seq_err(pol, fs.drop_last(), m, i);
    } else {
        assert(fs.take(i) =~= fs);
    }
}

/// One more conversion in the sequence.
proof fn lemma_convert_seq_step(pol: bool, fs: Seq<FormulaM>, m: Map<Seq<char>, u64>, i: int)
    requires
        0 <= i < fs.len(),
    ensures
        convert_seq_m(pol, fs.take(i + 1), m) == ({
            let (r, m1) = convert_seq_m(pol, fs.take(i), m);
            match r {
                Err(e) => (Err(e), m1),
                Ok(gs) => {
                    let (r2, m2) = convert_m(pol, fs[i], m1);
                    match r2 {
                        Err(e) => (Err(e), m2),
                        Ok(g) => (Ok(gs.push(g)), m2),
                    }
                },
            }
        }),
{
    reveal_with_fuel(convert_seq_m, 1);
    reveal_with_fuel(convert_m, 1);
    assert(fs.take(i + 1).drop_last() =~= fs.take(i));
    assert(fs.take(i + 1).last() == fs[i]);
}

proof fn lemma_leaf_depths(a: AtomM)
    ensures
        gdepth(gtrue_m()) == 0,
        gdepth(crate::guarded::gfalse_m()) == 0,
        gdepth(gnot_atom_m(a)) == 0,
        gdepth(GuardedM::Atom(a)) == 0,
{
    assert(gdepth_seq(Seq::<GuardedM>::empty()) == 0);
    assert(gdepth(crate::guarded::gfalse_m()) == 0);
    assert(Seq::<crate::term::BinderM>::empty().len() == 0);
    reveal_with_fuel(gdepth, 2);
}

/// Convert the formulas in order; the first error stops it.
fn convert_seq(pol: bool, fs: &Vec<Formula>, fresh: &mut FreshState, Ghost(k): Ghost<int>) -> (r:
    Result<Vec<Guarded>, GuardError>)
    requires
        forall|i: int| 0 <= i < fs@.len() ==> fscoped(#[trigger] fs@[i]@, 0),
        forall|i: int| 0 <= i < fs@.len() ==> fdepth(#[trigger] fs@[i]@) <= u64::MAX,
        fcosts(formulas_m(fs@)) <= k,
        room(old(fresh)@, k),
    ensures
        seq_result_m(r) == convert_seq_m(pol, formulas_m(fs@), old(fresh)@).0,
        final(fresh)@ == convert_seq_m(pol, formulas_m(fs@), old(fresh)@).1,
        room(final(fresh)@, k - fcosts(formulas_m(fs@))),
        r matches Ok(gs) ==> gs@.len() == fs@.len() && forall|i: int|
            0 <= i < gs@.len() ==> gdepth(#[trigger] gs@[i]@) <= fdepth(fs@[i]@),
    decreases fsizes(formulas_m(fs@)), 2nat,
{
    let ghost fm = formulas_m(fs@);
    let ghost m0 = fresh@;
    let mut out: Vec<Guarded> = Vec::new();
    let mut i: usize = 0;
    proof {
        assert(fm.take(0) =~= Seq::<FormulaM>::empty());
        assert(guardeds_m(out@) =~= Seq::<GuardedM>::empty());
        reveal_with_fuel(convert_seq_m, 1);
        assert(fm.take(fs.len() as int) =~= fm);
    }
    while i < fs.len()
        invariant
            i <= fs.len(),
            fm == formulas_m(fs@),
            fm.take(fs.len() as int) == fm,
            m0 == old(fresh)@,
            out@.len() == i,
            forall|j: int| 0 <= j < fs@.len() ==> fscoped(#[trigger] fs@[j]@, 0),
            forall|j: int| 0 <= j < fs@.len() ==> fdepth(#[trigger] fs@[j]@) <= u64::MAX,
            fcosts(fm) <= k,
            convert_seq_m(pol, fm.take(i as int), m0) == (
                Ok::<Seq<GuardedM>, GuardErrorM>(guardeds_m(out@)),
                fresh@,
            ),
            room(fresh@, k - fcosts(fm.take(i as int))),
            fcosts(fm.take(i as int)) <= fcosts(fm),
            forall|j: int| 0 <= j < i ==> gdepth(#[trigger] out@[j]@) <= fdepth(fs@[j]@),
        decreases fs.len() - i,
    {
        proof {
            lemma_fsizes_prefix(fm, i as int);
            lemma_convert_seq_step(pol, fm, m0, i as int);
            assert(fm[i as int] == fs@[i as int]@);
            if i + 1 < fs.len() {
                lemma_fsizes_prefix(fm, fs.len() - 1);
            }
        }
        let r = convert(pol, &fs[i], fresh, Ghost(k - fcosts(fm.take(i as int))));
        match r {
            Err(e) => {
                proof {
                    lemma_convert_seq_err(pol, fm, m0, i + 1);
                    lemma_fsizes_prefix(fm, fs.len() - 1);
                    lemma_room_mono(fresh@, k - fcosts(fm.take(i + 1)), k - fcosts(fm));
                }
                return Err(e);
            },
            Ok(g) => {
                let ghost before = out@;
                out.push(g);
                proof {
                    crate::guarded::lemma_guardeds_m_push(before, g);
                }
            },
        }
        i += 1;
    }
    Ok(out)
}

/// Convert `f` at polarity `pol` (see [`convert_m`]), drawing fresh
/// variables for the quantifier prefixes from `fresh`.
fn convert(pol: bool, f: &Formula, fresh: &mut FreshState, Ghost(k): Ghost<int>) -> (r: Result<
    Guarded,
    GuardError,
>)
    requires
        fscoped(f@, 0),
        fdepth(f@) <= u64::MAX,
        fcost(f@) <= k,
        room(old(fresh)@, k),
    ensures
        result_m(r) == convert_m(pol, f@, old(fresh)@).0,
        final(fresh)@ == convert_m(pol, f@, old(fresh)@).1,
        room(final(fresh)@, k - fcost(f@)),
        r matches Ok(g) ==> gdepth(g@) <= fdepth(f@),
    decreases fsize(f@), 1nat,
{
    reveal_with_fuel(convert_m, 1);
    reveal_with_fuel(conn_m, 1);
    reveal_with_fuel(qua_m, 1);
    match f {
        Formula::Tf(b) => {
            proof {
                lemma_leaf_depths(AtomM::Last(crate::term::TermM::Var(crate::term::BVarM::Bound(0))));
            }
            Ok(gtf(pol != *b))
        },
        Formula::Atom(a) => {
            proof {
                lemma_leaf_depths(a@);
            }
            if pol {
                Ok(gnot_atom(a))
            } else {
                Ok(Guarded::Atom(a.copy()))
            }
        },
        Formula::Not(g) => {
            let r = convert(!pol, g, fresh, Ghost(k));
            assert(result_m(r) == convert_m(pol, f@, old(fresh)@).0);
            r
        },
        Formula::Conn(c, a, b) => {
            let r = convert_conn(pol, *c, a, b, fresh, Ghost(k));
            assert(result_m(r) == convert_m(pol, f@, old(fresh)@).0);
            r
        },
        Formula::Qua(q0, _, _) => {
            let r = convert_qua(pol, *q0, f, fresh, Ghost(k));
            assert(result_m(r) == convert_m(pol, f@, old(fresh)@).0);
            r
        },
    }
}

/// The connective case of [`convert`].
fn convert_conn(
    pol: bool,
    c: Connective,
    a: &Formula,
    b: &Formula,
    fresh: &mut FreshState,
    Ghost(k): Ghost<int>,
) -> (r: Result<Guarded, GuardError>)
    requires
        fscoped(FormulaM::Conn(c, Box::new(a@), Box::new(b@)), 0),
        fdepth(FormulaM::Conn(c, Box::new(a@), Box::new(b@))) <= u64::MAX,
        fcost(FormulaM::Conn(c, Box::new(a@), Box::new(b@))) <= k,
        room(old(fresh)@, k),
    ensures
        result_m(r) == conn_m(pol, c, a@, b@, old(fresh)@).0,
        final(fresh)@ == conn_m(pol, c, a@, b@, old(fresh)@).1,
        room(final(fresh)@, k - fcost(FormulaM::Conn(c, Box::new(a@), Box::new(b@)))),
        r matches Ok(g) ==> gdepth(g@) <= fdepth(FormulaM::Conn(c, Box::new(a@), Box::new(b@))),
    decreases fsize(FormulaM::Conn(c, Box::new(a@), Box::new(b@))), 0nat,
{
    let ghost fm = FormulaM::Conn(c, Box::new(a@), Box::new(b@));
    reveal_with_fuel(conn_m, 1);
    reveal_with_fuel(convert_m, 1);
    let iff = matches!(c, Connective::Iff);
    let (first, second, pa) = if iff {
        (
            Formula::Conn(Connective::Imp, Box::new(a.copy()), Box::new(b.copy())),
            Formula::Conn(Connective::Imp, Box::new(b.copy()), Box::new(a.copy())),
            pol,
        )
    } else {
        (a.copy(), b.copy(), if matches!(c, Connective::Imp) { !pol } else { pol })
    };
    let g1 = match convert(pa, &first, fresh, Ghost(k)) {
        Ok(g) => g,
        Err(e) => {
            proof {
                lemma_room_mono(fresh@, k - fcost(first@), k - fcost(fm));
            }
            return Err(e);
        },
    };
    let g2 = match convert(pol, &second, fresh, Ghost(k - fcost(first@))) {
        Ok(g) => g,
        Err(e) => return Err(e),
    };
    let mut sub: Vec<Guarded> = Vec::new();
    sub.push(g1);
    sub.push(g2);
    proof {
        assert(guardeds_m(sub@) =~= seq![sub@[0]@, sub@[1]@]);
        lemma_gdepth_seq_bound(guardeds_m(sub@), fdepth(fm));
        lemma_gconj_depth(guardeds_m(sub@));
        lemma_gdisj_depth(guardeds_m(sub@));
    }
    if (iff || matches!(c, Connective::And)) == pol {
        Ok(gdisj(sub))
    } else {
        Ok(gconj(sub))
    }
}

/// The quantifier case of [`convert`]: `f` is a quantifier of kind `q0`.
fn convert_qua(
    pol: bool,
    q0: Quantifier,
    f: &Formula,
    fresh: &mut FreshState,
    Ghost(k): Ghost<int>,
) -> (r: Result<Guarded, GuardError>)
    requires
        f@ is Qua && f@->Qua_0 == q0,
        fscoped(f@, 0),
        fdepth(f@) <= u64::MAX,
        fcost(f@) <= k,
        room(old(fresh)@, k),
    ensures
        result_m(r) == qua_m(pol, q0, f@, old(fresh)@).0,
        final(fresh)@ == qua_m(pol, q0, f@, old(fresh)@).1,
        room(final(fresh)@, k - fcost(f@)),
        r matches Ok(g) ==> gdepth(g@) <= fdepth(f@),
    decreases fsize(f@), 0nat,
{
    let ghost m0 = fresh@;
    let ghost (hints, body) = prefix_m(q0, f@);
    reveal_with_fuel(qua_m, 1);
    reveal_with_fuel(conv_all_m, 1);
    reveal_with_fuel(conv_ex_m, 1);
    proof {
        lemma_prefix_measures(q0, f@);
        lemma_prefix_scoped(q0, f@, 0);
        lemma_fdepth_le_fcost(f@);
        lemma_room_mono(m0, k, fdepth(f@) as int);
        lemma_draw_all_room(m0, binder_names(hints), k - hints.len());
    }
    let (xs, _, b) = open_formula_prefix(f, fresh);
    proof {
        lemma_map_fatoms_measures(body, 0, prefix_atom_map(lvars_m(xs@)));
        lemma_open_prefix_scoped(lvars_m(xs@), body, 0);
    }
    let res = if matches!(q0, Quantifier::All) {
        convert_all(pol, &xs, &b, fresh, Ghost(k - hints.len()))
    } else {
        convert_ex(pol, &xs, &b, fresh, Ghost(k - hints.len()))
    };
    match res {
        Ok(g) => Ok(g),
        Err(mut e) => {
            if e.subject_formula.is_none() {
                e.subject_formula = Some(f.copy());
            }
            Err(e)
        },
    }
}

/// The existential case of [`convert`]: `xs` opened, `b` the body beneath.
fn convert_ex(
    pol: bool,
    xs: &Vec<LVar>,
    b: &Formula,
    fresh: &mut FreshState,
    Ghost(k): Ghost<int>,
) -> (r: Result<Guarded, GuardError>)
    requires
        fscoped(b@, 0),
        xs@.len() + fdepth(b@) <= u64::MAX,
        fcost(b@) <= k,
        room(old(fresh)@, k),
    ensures
        result_m(r) == conv_ex_m(pol, lvars_m(xs@), b@, old(fresh)@).0,
        final(fresh)@ == conv_ex_m(pol, lvars_m(xs@), b@, old(fresh)@).1,
        room(final(fresh)@, k - fcost(b@)),
        r matches Ok(g) ==> gdepth(g@) <= xs@.len() + fdepth(b@),
    decreases fsize(b@), 3nat,
{
    let ghost xm = lvars_m(xs@);
    reveal_with_fuel(conv_ex_m, 1);
    reveal_with_fuel(convert_seq_m, 1);
    proof {
        lemma_split(b@);
    }
    let (atoms, others) = split_conj_actions_eqs(b);
    let ug = remaining_unguarded(xs, &atoms);
    if ug.len() > 0 {
        proof {
            assert(positions_m(ug@) =~= positions_in(xm, unguarded_set(xm, atoms_m(atoms@))));
            lemma_room_mono(fresh@, k, k - fcost(b@));
        }
        return Err(unguarded_error(&ug, xs));
    }
    proof {
        assert forall|i: int| 0 <= i < others@.len() implies fdepth(#[trigger] others@[i]@) <= u64::MAX
            && fscoped(others@[i]@, 0) by {
            assert(formulas_m(others@)[i] == others@[i]@);
        }
    }
    let converted = match convert_seq(pol, &others, fresh, Ghost(k)) {
        Ok(gs) => gs,
        Err(e) => {
            proof {
                lemma_room_mono(fresh@, k - fcosts(formulas_m(others@)), k - fcost(b@));
            }
            return Err(e);
        },
    };
    proof {
        assert forall|i: int| 0 <= i < guardeds_m(converted@).len() implies gdepth(
            #[trigger] guardeds_m(converted@)[i],
        ) <= fdepth(b@) by {
            assert(formulas_m(others@)[i] == others@[i]@);
            assert(guardeds_m(converted@)[i] == converted@[i]@);
            assert(gdepth(converted@[i]@) <= fdepth(others@[i]@));
            assert(split_m(b@).1[i] == others@[i]@);
        }
        lemma_gdepth_seq_bound(guardeds_m(converted@), fdepth(b@));
        lemma_gconj_depth(guardeds_m(converted@));
        lemma_gdisj_depth(guardeds_m(converted@));
        lemma_room_mono(fresh@, k - fcosts(formulas_m(others@)), k - fcost(b@));
    }
    let body = if pol {
        gdisj(converted)
    } else {
        gconj(converted)
    };
    let out_q = if pol {
        Quantifier::All
    } else {
        Quantifier::Ex
    };
    proof {
        lemma_close_guarded_depth(out_q, xm, atoms_m(atoms@), body@);
    }
    Ok(close_guarded(out_q, copy_lvars(xs), atoms, body))
}

/// The universal case of [`convert`]: `xs` opened, `b` the body beneath.
fn convert_all(
    pol: bool,
    xs: &Vec<LVar>,
    b: &Formula,
    fresh: &mut FreshState,
    Ghost(k): Ghost<int>,
) -> (r: Result<Guarded, GuardError>)
    requires
        fscoped(b@, 0),
        xs@.len() + fdepth(b@) <= u64::MAX,
        fcost(b@) <= k,
        room(old(fresh)@, k),
    ensures
        result_m(r) == conv_all_m(pol, lvars_m(xs@), b@, old(fresh)@).0,
        final(fresh)@ == conv_all_m(pol, lvars_m(xs@), b@, old(fresh)@).1,
        room(final(fresh)@, k - fcost(b@)),
        r matches Ok(g) ==> gdepth(g@) <= xs@.len() + fdepth(b@),
    decreases fsize(b@), 3nat,
{
    reveal_with_fuel(conv_all_m, 1);
    reveal_with_fuel(convert_seq_m, 1);
    reveal_with_fuel(convert_m, 1);
    match b {
        Formula::Conn(Connective::Imp, ante, succ) => convert_implication(pol, xs, ante, succ, fresh, Ghost(k)),
        _ => {
            proof {
                reveal_strlit("universal quantifier without toplevel implication");
                lemma_room_mono(fresh@, k, k - fcost(b@));
            }
            Err(err("universal quantifier without toplevel implication"))
        },
    }
}

/// The universal case beneath an implication `ante ==> succ`.
fn convert_implication(
    pol: bool,
    xs: &Vec<LVar>,
    ante: &Formula,
    succ: &Formula,
    fresh: &mut FreshState,
    Ghost(k): Ghost<int>,
) -> (r: Result<Guarded, GuardError>)
    requires
        fscoped(ante@, 0),
        fscoped(succ@, 0),
        xs@.len() + fdepth(ante@) <= u64::MAX,
        xs@.len() + fdepth(succ@) <= u64::MAX,
        fcost(ante@) + fcost(succ@) <= k,
        room(old(fresh)@, k),
    ensures
        result_m(r) == conv_all_m(
            pol,
            lvars_m(xs@),
            FormulaM::Conn(Connective::Imp, Box::new(ante@), Box::new(succ@)),
            old(fresh)@,
        ).0,
        final(fresh)@ == conv_all_m(
            pol,
            lvars_m(xs@),
            FormulaM::Conn(Connective::Imp, Box::new(ante@), Box::new(succ@)),
            old(fresh)@,
        ).1,
        room(final(fresh)@, k - fcost(ante@) - fcost(succ@)),
        r matches Ok(g) ==> gdepth(g@) <= xs@.len() + fdepth(ante@) && gdepth(g@) <= xs@.len()
            + fdepth(succ@) || gdepth(g@) <= xs@.len() + fdepth(
            FormulaM::Conn(Connective::Imp, Box::new(ante@), Box::new(succ@)),
        ),
    decreases fsize(FormulaM::Conn(Connective::Imp, Box::new(ante@), Box::new(succ@))), 2nat,
{
    let ghost xm = lvars_m(xs@);
    let ghost fb = FormulaM::Conn(Connective::Imp, Box::new(ante@), Box::new(succ@));
    reveal_with_fuel(conv_all_m, 1);
    reveal_with_fuel(convert_seq_m, 1);
    reveal_with_fuel(convert_m, 1);
    proof {
        lemma_split(ante@);
    }
    let (atoms, others) = split_conj_actions_eqs(ante);
    let ug = remaining_unguarded(xs, &atoms);
    if ug.len() > 0 {
        proof {
            assert(positions_m(ug@) =~= positions_in(xm, unguarded_set(xm, atoms_m(atoms@))));
            lemma_room_mono(fresh@, k, k - fcost(ante@) - fcost(succ@));
        }
        return Err(unguarded_error(&ug, xs));
    }
    proof {
        assert forall|i: int| 0 <= i < others@.len() implies fdepth(#[trigger] others@[i]@) <= u64::MAX
            && fscoped(others@[i]@, 0) by {
            assert(formulas_m(others@)[i] == others@[i]@);
        }
    }
    let mut sub = match convert_seq(!pol, &others, fresh, Ghost(k)) {
        Ok(gs) => gs,
        Err(e) => {
            proof {
                lemma_room_mono(
                    fresh@,
                    k - fcosts(formulas_m(others@)),
                    k - fcost(ante@) - fcost(succ@),
                );
            }
            return Err(e);
        },
    };
    let ghost k2 = k - fcosts(formulas_m(others@));
    let gsucc = match convert(pol, succ, fresh, Ghost(k2)) {
        Ok(g) => g,
        Err(e) => {
            proof {
                lemma_room_mono(fresh@, k2 - fcost(succ@), k - fcost(ante@) - fcost(succ@));
            }
            return Err(e);
        },
    };
    let ghost before = sub@;
    sub.push(gsucc);
    proof {
        crate::guarded::lemma_guardeds_m_push(before, gsucc);
        assert forall|i: int| 0 <= i < guardeds_m(sub@).len() implies gdepth(
            #[trigger] guardeds_m(sub@)[i],
        ) <= fdepth(fb) by {
            assert(guardeds_m(sub@)[i] == sub@[i]@);
            if i < others@.len() {
                assert(formulas_m(others@)[i] == others@[i]@);
                assert(split_m(ante@).1[i] == others@[i]@);
            }
        }
        lemma_gdepth_seq_bound(guardeds_m(sub@), fdepth(fb));
        lemma_gconj_depth(guardeds_m(sub@));
        lemma_gdisj_depth(guardeds_m(sub@));
        lemma_room_mono(fresh@, k2 - fcost(succ@), k - fcost(ante@) - fcost(succ@));
    }
    let body = if pol {
        gconj(sub)
    } else {
        gdisj(sub)
    };
    let out_q = if pol {
        Quantifier::Ex
    } else {
        Quantifier::All
    };
    proof {
        lemma_close_guarded_depth(out_q, xm, atoms_m(atoms@), body@);
    }
    Ok(close_guarded(out_q, copy_lvars(xs), atoms, body))
}

/// Convert a formula into the guarded fragment.  Every quantifier prefix
/// opened on the way draws its binders from one supply, seeded above the
/// indices of the formula's free variables.  The formula must have no
/// dangling index (an index past its binders).
pub fn formula_to_guarded(f: &Formula) -> (r: Result<Guarded, GuardError>)
    requires
        fscoped(f@, 0),
        fdepth(f@) <= u64::MAX,
        room(seeded(ffrees(f@)), fcost(f@) as int),
    ensures
        result_m(r) == convert_m(false, f@, seeded(ffrees(f@))).0,
{
    let vars = formula_frees_list(f);
    let mut fresh = FreshState::avoiding(&vars);
    convert(false, f, &mut fresh, Ghost(fcost(f@) as int))
}

/// The error a formula that still carries predicate sugar converts to.
pub open spec fn unexpanded_m() -> GuardErrorM {
    err_m("Syntactic sugar is not allowed, guarded formula expected."@)
}

/// [`formula_to_guarded`] on a formula as read from a theory: one that
/// still carries predicate sugar is refused: syntactic sugar is not
/// allowed where a guarded formula is expected.
pub fn formula_to_guarded_parsed(f: &Formula) -> (r: Result<Guarded, GuardError>)
    requires
        fscoped(f@, 0),
        fdepth(f@) <= u64::MAX,
        room(seeded(ffrees(f@)), fcost(f@) as int),
    ensures
        has_pred(f@) ==> result_m(r) == Err::<GuardedM, GuardErrorM>(unexpanded_m()),
        !has_pred(f@) ==> result_m(r) == convert_m(false, f@, seeded(ffrees(f@))).0,
{
    match to_lnformula(f) {
        None => {
            proof {
                reveal_strlit("Syntactic sugar is not allowed, guarded formula expected.");
            }
            Err(err("Syntactic sugar is not allowed, guarded formula expected."))
        },
        Some(plain) => formula_to_guarded(&plain),
    }
}

/// A bi-implication converts as the conjunction of the implications both
/// ways, at either polarity, drawing the same fresh variables in the same
/// order.
pub proof fn iff_converts_as_two_implications(
    pol: bool,
    a: FormulaM,
    b: FormulaM,
    m: Map<Seq<char>, u64>,
)
    ensures
        convert_m(pol, FormulaM::Conn(Connective::Iff, Box::new(a), Box::new(b)), m) == convert_m(
            pol,
            FormulaM::Conn(
                Connective::And,
                Box::new(FormulaM::Conn(Connective::Imp, Box::new(a), Box::new(b))),
                Box::new(FormulaM::Conn(Connective::Imp, Box::new(b), Box::new(a))),
            ),
            m,
        ),
{
    let lhs = FormulaM::Conn(Connective::Imp, Box::new(a), Box::new(b));
    let rhs = FormulaM::Conn(Connective::Imp, Box::new(b), Box::new(a));
    assert(convert_m(pol, FormulaM::Conn(Connective::Iff, Box::new(a), Box::new(b)), m) == conn_m(
        pol,
        Connective::Iff,
        a,
        b,
        m,
    )) by {
        reveal_with_fuel(convert_m, 1);
        reveal_with_fuel(conn_m, 1);
        reveal_with_fuel(qua_m, 1);
    }
    assert(convert_m(pol, FormulaM::Conn(Connective::And, Box::new(lhs), Box::new(rhs)), m) == conn_m(
        pol,
        Connective::And,
        lhs,
        rhs,
        m,
    )) by {
        reveal_with_fuel(convert_m, 1);
        reveal_with_fuel(conn_m, 1);
        reveal_with_fuel(qua_m, 1);
    }
    let r1 = convert_m(pol, lhs, m);
    let r2 = convert_m(pol, rhs, r1.1);
    let joined = ({
        let (r, m2) = then_pair(r1, r2);
        (
            match r {
                Err(e) => Err(e),
                Ok(gs) => Ok(
                    if pol {
                        gdisj_m(gs)
                    } else {
                        gconj_m(gs)
                    },
                ),
            },
            m2,
        )
    });
    assert(conn_m(pol, Connective::Iff, a, b, m) == joined) by {
        reveal_with_fuel(conn_m, 1);
        reveal_with_fuel(convert_m, 1);
    }
    assert(conn_m(pol, Connective::And, lhs, rhs, m) == joined) by {
        reveal_with_fuel(conn_m, 1);
        reveal_with_fuel(convert_m, 1);
    }
}

/// Converting a formula (see [`formula_to_guarded`]) treats a bi-implication
/// as the conjunction of the implications both ways: the two give the same
/// guarded formula or the same error, since they have the same free
/// variables and so seed the same supply.
pub proof fn formula_iff_converts_as_two_implications(a: FormulaM, b: FormulaM)
    ensures
        ({
            let f1 = FormulaM::Conn(Connective::Iff, Box::new(a), Box::new(b));
            let f2 = FormulaM::Conn(
                Connective::And,
                Box::new(FormulaM::Conn(Connective::Imp, Box::new(a), Box::new(b))),
                Box::new(FormulaM::Conn(Connective::Imp, Box::new(b), Box::new(a))),
            );
            convert_m(false, f1, seeded(ffrees(f1))).0 == convert_m(false, f2, seeded(ffrees(f2))).0
        }),
{
    let f1 = FormulaM::Conn(Connective::Iff, Box::new(a), Box::new(b));
    let f2 = FormulaM::Conn(
        Connective::And,
        Box::new(FormulaM::Conn(Connective::Imp, Box::new(a), Box::new(b))),
        Box::new(FormulaM::Conn(Connective::Imp, Box::new(b), Box::new(a))),
    );
    let fa = fatoms(a);
    let fb = fatoms(b);
    lemma_atoms_frees_append(fa, fb);
    lemma_atoms_frees_append(fb, fa);
    lemma_atoms_frees_append(fa + fb, fb + fa);
    let xa = crate::term::atoms_frees(fa);
    let xb = crate::term::atoms_frees(fb);
    assert(ffrees(f1) == xa + xb);
    assert(fatoms(f2) == (fa + fb) + (fb + fa)) by {
        reveal_with_fuel(fatoms, 2);
    }
    assert(ffrees(f2) == (xa + xb) + (xb + xa));
    let u = xa + xb;
    let w = (xa + xb) + (xb + xa);
    assert forall|v: LVarM| u.contains(v) <==> w.contains(v) by {
        if u.contains(v) {
            let i = choose|i: int| 0 <= i < u.len() && u[i] == v;
            assert(w[i] == u[i]);
        }
        if w.contains(v) {
            let i = choose|i: int| 0 <= i < w.len() && w[i] == v;
            if i < u.len() {
                assert(u[i] == w[i]);
            } else if i < u.len() + xb.len() {
                assert(u[xa.len() + (i - u.len())] == w[i]);
            } else {
                assert(u[i - u.len() - xb.len()] == w[i]);
            }
        }
    }
    lemma_seeded_same_members(ffrees(f1), ffrees(f2));
    iff_converts_as_two_implications(false, a, b, seeded(ffrees(f1)));
}

/// Guarding by an equation is symmetric in its two sides: once every
/// variable of one side is guarded, every variable of the other side is
/// guarded after it (and those of the first stay guarded); an equation never
/// makes a guarded variable unguarded again.
pub proof fn an_equation_guards_the_other_side(u: Set<LVarM>, s: TermM, t: TermM)
    ensures
        guard_step(u, AtomM::EqE(s, t)).subset_of(u),
        covered(u, term_frees(s)) ==> covered(guard_step(u, AtomM::EqE(s, t)), term_frees(t)) && covered(
            guard_step(u, AtomM::EqE(s, t)),
            term_frees(s),
        ),
        covered(u, term_frees(t)) ==> covered(guard_step(u, AtomM::EqE(s, t)), term_frees(s)) && covered(
            guard_step(u, AtomM::EqE(s, t)),
            term_frees(t),
        ),
{
    let fs = term_frees(s);
    let ft = term_frees(t);
    assert forall|j: int| 0 <= j < fs.len() implies #[trigger] seq_set(fs).contains(fs[j]) by {
        assert(fs.contains(fs[j]));
    }
    assert forall|j: int| 0 <= j < ft.len() implies #[trigger] seq_set(ft).contains(ft[j]) by {
        assert(ft.contains(ft[j]));
    }
}

/// An action guards every variable it carries, and never unguards one.
pub proof fn an_action_guards_its_variables(u: Set<LVarM>, a: AtomM)
    requires
        a is Action,
    ensures
        guard_step(u, a).subset_of(u),
        covered(guard_step(u, a), atom_frees(a)),
{
    let fa = atom_frees(a);
    assert forall|j: int| 0 <= j < fa.len() implies #[trigger] seq_set(fa).contains(fa[j]) by {
        assert(fa.contains(fa[j]));
    }
}

/// Only actions and equations guard: any other atom leaves the unguarded
/// variables as they are.
pub proof fn only_actions_and_equations_guard(u: Set<LVarM>, a: AtomM)
    requires
        !(a is Action),
        !(a is EqE),
    ensures
        guard_step(u, a) == u,
{
}

} // verus!
