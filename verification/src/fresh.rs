//! A supply of fresh variable indices, one counter per variable name: a
//! name is drawn with the smallest index not yet handed out for it.
use vstd::prelude::*;
use crate::term::{LVar, LVarM, LSort, BinderM, lvars_m};

verus! {

/// Per-name counters of the next index to hand out.
#[derive(Debug)]
pub struct FreshState {
    entries: Vec<(String, u64)>,
}

/// The counter of `name` in the map (0 when the name was never drawn).
pub open spec fn next_of(m: Map<Seq<char>, u64>, name: Seq<char>) -> u64 {
    if m.contains_key(name) {
        m[name]
    } else {
        0
    }
}

/// Draw `name`: its counter is the index handed out and is then advanced.
pub open spec fn draw(m: Map<Seq<char>, u64>, name: Seq<char>) -> Map<Seq<char>, u64> {
    m.insert(name, (next_of(m, name) + 1) as u64)
}

/// Draw the names in order: the indices handed out and the final counters.
pub open spec fn draw_all(m: Map<Seq<char>, u64>, names: Seq<Seq<char>>) -> (
    Seq<u64>,
    Map<Seq<char>, u64>,
)
    decreases names.len(),
{
    if names.len() == 0 {
        (Seq::empty(), m)
    } else {
        let (ids, m1) = draw_all(m, names.drop_last());
        (ids.push(next_of(m1, names.last())), draw(m1, names.last()))
    }
}

/// Every counter can still be advanced `k` times.
pub open spec fn room(m: Map<Seq<char>, u64>, k: int) -> bool {
    &&& 0 <= k <= u64::MAX
    &&& forall|n: Seq<char>| m.contains_key(n) ==> m[n] + k <= u64::MAX
}

/// The counters the free variables seed: for every name, one more than the
/// largest index a variable of that name carries.
pub open spec fn seeded(vars: Seq<LVarM>) -> Map<Seq<char>, u64>
    decreases vars.len(),
{
    if vars.len() == 0 {
        Map::empty()
    } else {
        let m = seeded(vars.drop_last());
        let v = vars.last();
        let above: u64 = if v.idx < u64::MAX {
            (v.idx + 1) as u64
        } else {
            u64::MAX
        };
        if above > next_of(m, v.name) {
            m.insert(v.name, above)
        } else {
            m
        }
    }
}

pub proof fn lemma_draw_all_room(m: Map<Seq<char>, u64>, names: Seq<Seq<char>>, k: int)
    requires
        room(m, k + names.len()),
        k >= 0,
    ensures
        room(draw_all(m, names).1, k),
        draw_all(m, names).0.len() == names.len(),
    decreases names.len(),
{
    if names.len() > 0 {
        lemma_draw_all_room(m, names.drop_last(), k + 1);
        let m1 = draw_all(m, names.drop_last()).1;
        assert(room(m1, k + 1));
        if !m1.contains_key(names.last()) {
            assert(next_of(m1, names.last()) == 0);
            assert(room(m, k + names.len()));
        }
    }
}

/// The counters a log of assignments leaves: later entries win.
pub open spec fn log_map(s: Seq<(Seq<char>, u64)>) -> Map<Seq<char>, u64>
    decreases s.len(),
{
    if s.len() == 0 {
        Map::empty()
    } else {
        log_map(s.drop_last()).insert(s.last().0, s.last().1)
    }
}

/// A name that no entry from `k` on assigns keeps its counter from the
/// first `k` entries.
proof fn lemma_log_map_suffix(s: Seq<(Seq<char>, u64)>, k: int, n: Seq<char>)
    requires
        0 <= k <= s.len(),
        forall|j: int| k <= j < s.len() ==> s[j].0 != n,
    ensures
        log_map(s).contains_key(n) == log_map(s.take(k)).contains_key(n),
        log_map(s).contains_key(n) ==> log_map(s)[n] == log_map(s.take(k))[n],
    decreases s.len(),
{
    if k < s.len() {
        assert(s.drop_last().take(k) =~= s.take(k));
        lemma_log_map_suffix(s.drop_last(), k, n);
    } else {
        assert(s.take(k) =~= s);
    }
}

impl FreshState {
    spec fn log(&self) -> Seq<(Seq<char>, u64)> {
        Seq::new(self.entries@.len(), |i: int| (self.entries@[i].0@, self.entries@[i].1))
    }

    /// The counters as a map from names to the next index.
    pub closed spec fn view(&self) -> Map<Seq<char>, u64> {
        log_map(self.log())
    }

    /// A supply that has handed out nothing.
    pub fn new() -> (r: FreshState)
        ensures
            r@ == Map::<Seq<char>, u64>::empty(),
    {
        let r = FreshState { entries: Vec::new() };
        assert(r.log() =~= Seq::<(Seq<char>, u64)>::empty());
        r
    }

    /// The next index `name` would be drawn with.
    pub fn peek(&self, name: &str) -> (r: u64)
        ensures
            r == next_of(self@, name@),
    {
        let key = name.to_string();
        let ghost s = self.log();
        let mut i: usize = self.entries.len();
        while i > 0
            invariant
                i <= self.entries@.len(),
                s == self.log(),
                key@ == name@,
                forall|j: int| i <= j < s.len() ==> s[j].0 != name@,
            decreases i,
        {
            if self.entries[i - 1].0 == key {
                proof {
                    lemma_log_map_suffix(s, i as int, name@);
                    assert(s.take(i as int).drop_last() =~= s.take(i - 1));
                }
                return self.entries[i - 1].1;
            }
            i -= 1;
        }
        proof {
            lemma_log_map_suffix(s, 0, name@);
            assert(s.take(0) =~= Seq::<(Seq<char>, u64)>::empty());
        }
        0
    }

    /// Set the counter of `name`.
    fn set(&mut self, name: &str, value: u64)
        ensures
            final(self)@ == old(self)@.insert(name@, value),
    {
        self.entries.push((name.to_string(), value));
        assert(self.log().drop_last() =~= old(self).log());
    }

    /// Hand out the next index for `name` and advance its counter.
    pub fn fresh_ident(&mut self, name: &str) -> (r: u64)
        requires
            room(old(self)@, 1),
        ensures
            r == next_of(old(self)@, name@),
            final(self)@ == draw(old(self)@, name@),
    {
        let r = self.peek(name);
        if r > 0 {
            assert(self@.contains_key(name@));
        }
        self.set(name, r + 1);
        r
    }

    /// A supply that avoids the given variables: each name is drawn above
    /// the largest index a variable of that name carries (an index at the
    /// top of the range seeds the top).
    pub fn avoiding(vars: &Vec<LVar>) -> (r: FreshState)
        ensures
            r@ == seeded(lvars_m(vars@)),
    {
        let mut st = FreshState::new();
        let ghost vs = lvars_m(vars@);
        let mut i: usize = 0;
        assert(vs.take(0) =~= Seq::<LVarM>::empty());
        while i < vars.len()
            invariant
                i <= vars.len(),
                vs == lvars_m(vars@),
                st@ == seeded(vs.take(i as int)),
            decreases vars.len() - i,
        {
            assert(vs.take(i + 1).drop_last() =~= vs.take(i as int));
            let v = &vars[i];
            let cur = st.peek(v.name.as_str());
            let above: u64 = if v.idx < u64::MAX {
                v.idx + 1
            } else {
                u64::MAX
            };
            if above > cur {
                st.set(v.name.as_str(), above);
            }
            i += 1;
        }
        assert(vs.take(vars.len() as int) =~= vs);
        st
    }

    /// A variable with the given name and sort and the next index of the name.
    pub fn fresh_lvar(&mut self, name: &str, sort: LSort) -> (r: LVar)
        requires
            room(old(self)@, 1),
        ensures
            r@ == (LVarM { name: name@, sort, idx: next_of(old(self)@, name@) }),
            final(self)@ == draw(old(self)@, name@),
    {
        let idx = self.fresh_ident(name);
        LVar::new(name, sort, idx)
    }
}

/// The names of the binders.
pub open spec fn binder_names(vars: Seq<BinderM>) -> Seq<Seq<char>> {
    Seq::new(vars.len(), |i: int| vars[i].name)
}

/// The variables opening draws for the binders from the supply `m`.
pub open spec fn opened_vars(vars: Seq<BinderM>, m: Map<Seq<char>, u64>) -> Seq<LVarM> {
    Seq::new(
        vars.len(),
        |i: int|
            LVarM { name: vars[i].name, sort: vars[i].sort, idx: draw_all(m, binder_names(vars)).0[i] },
    )
}

/// Drawing never lowers a counter: every name's next index after a draw is
/// at least what it was before.
pub proof fn draw_never_lowers(m: Map<Seq<char>, u64>, drawn: Seq<char>, n: Seq<char>)
    requires
        room(m, 1),
    ensures
        next_of(draw(m, drawn), n) >= next_of(m, n),
{
    if n == drawn && m.contains_key(n) {
        assert(m[n] + 1 <= u64::MAX);
    }
}

/// The seeded counters only grow as more variables are seen.
proof fn lemma_seeded_grows(vars: Seq<LVarM>, k: int, n: Seq<char>)
    requires
        0 <= k <= vars.len(),
    ensures
        next_of(seeded(vars), n) >= next_of(seeded(vars.take(k)), n),
    decreases vars.len() - k,
{
    if k < vars.len() {
        lemma_seeded_grows(vars, k + 1, n);
        let t = vars.take(k + 1);
        assert(t.drop_last() =~= vars.take(k));
    } else {
        assert(vars.take(k) =~= vars);
    }
}

/// A supply seeded from variables avoids them: every name is drawn above
/// the index of each variable of that name (below the top of the range).
pub proof fn seeded_avoids_variables(vars: Seq<LVarM>, j: int)
    requires
        0 <= j < vars.len(),
        vars[j].idx < u64::MAX,
    ensures
        next_of(seeded(vars), vars[j].name) > vars[j].idx,
{
    let t = vars.take(j + 1);
    assert(t.drop_last() =~= vars.take(j));
    assert(t.last() == vars[j]);
    lemma_seeded_grows(vars, j + 1, vars[j].name);
}

/// Draw a variable for each binder in turn, front to back: the variables
/// and the final counters.
pub open spec fn draws_in_turn(vars: Seq<BinderM>, m: Map<Seq<char>, u64>) -> (Seq<LVarM>, Map<Seq<char>, u64>)
    decreases vars.len(),
{
    if vars.len() == 0 {
        (Seq::empty(), m)
    } else {
        let x = LVarM { name: vars[0].name, sort: vars[0].sort, idx: next_of(m, vars[0].name) };
        let (rest, m2) = draws_in_turn(vars.drop_first(), draw(m, vars[0].name));
        (seq![x] + rest, m2)
    }
}

proof fn lemma_draw_all_len(m: Map<Seq<char>, u64>, ns: Seq<Seq<char>>)
    ensures
        draw_all(m, ns).0.len() == ns.len(),
    decreases ns.len(),
{
    if ns.len() > 0 {
        lemma_draw_all_len(m, ns.drop_last());
    }
}

proof fn lemma_draw_all_front(m: Map<Seq<char>, u64>, n: Seq<char>, ns: Seq<Seq<char>>)
    ensures
        draw_all(m, seq![n] + ns).0 == seq![next_of(m, n)] + draw_all(draw(m, n), ns).0,
        draw_all(m, seq![n] + ns).1 == draw_all(draw(m, n), ns).1,
    decreases ns.len(),
{
    let front = seq![n] + ns;
    let m1 = draw(m, n);
    if ns.len() > 0 {
        assert(front.drop_last() =~= seq![n] + ns.drop_last());
        assert(front.last() == ns.last());
        lemma_draw_all_front(m, n, ns.drop_last());
        let (ids, mm) = draw_all(m, front.drop_last());
        let (ids2, mm2) = draw_all(m1, ns.drop_last());
        assert(mm == mm2);
        assert(draw_all(m, front) == (ids.push(next_of(mm, ns.last())), draw(mm, ns.last())));
        assert(draw_all(m1, ns) == (ids2.push(next_of(mm2, ns.last())), draw(mm2, ns.last())));
        assert(draw_all(m, front).0 =~= seq![next_of(m, n)] + draw_all(m1, ns).0);
    } else {
        assert(front =~= seq![n]);
        assert(front.drop_last() =~= Seq::<Seq<char>>::empty());
        assert(front.last() == n);
        assert(draw_all(m, front.drop_last()) == (Seq::<u64>::empty(), m));
        assert(draw_all(m1, ns) == (Seq::<u64>::empty(), m1));
        assert(draw_all(m, front).0 =~= seq![next_of(m, n)] + draw_all(m1, ns).0);
    }
}

/// Drawing the variables of a list of binders at once gives what drawing
/// them one binder at a time gives: the same variables, the same counters
/// afterwards.
pub proof fn drawing_binders_at_once_is_drawing_them_in_turn(vars: Seq<BinderM>, m: Map<Seq<char>, u64>)
    ensures
        draws_in_turn(vars, m).0 == opened_vars(vars, m),
        draws_in_turn(vars, m).1 == draw_all(m, binder_names(vars)).1,
    decreases vars.len(),
{
    if vars.len() > 0 {
        let rest = vars.drop_first();
        let m1 = draw(m, vars[0].name);
        drawing_binders_at_once_is_drawing_them_in_turn(rest, m1);
        assert(binder_names(vars) =~= seq![vars[0].name] + binder_names(rest));
        lemma_draw_all_front(m, vars[0].name, binder_names(rest));
        let lhs = draws_in_turn(vars, m).0;
        let rhs = opened_vars(vars, m);
        let ids = draw_all(m, binder_names(vars)).0;
        let ids1 = draw_all(m1, binder_names(rest)).0;
        lemma_draw_all_len(m1, binder_names(rest));
        assert(ids == seq![next_of(m, vars[0].name)] + ids1);
        assert forall|i: int| 0 <= i < vars.len() implies #[trigger] lhs[i] == rhs[i] by {
            assert(rhs[i] == LVarM { name: vars[i].name, sort: vars[i].sort, idx: ids[i] });
            if i > 0 {
                assert(lhs[i] == draws_in_turn(rest, m1).0[i - 1]);
                assert(lhs[i] == opened_vars(rest, m1)[i - 1]);
                assert(rest[i - 1] == vars[i]);
                assert(ids[i] == ids1[i - 1]);
            }
        }
        assert(lhs =~= rhs);
    } else {
        assert(opened_vars(vars, m) =~= Seq::<LVarM>::empty());
        assert(binder_names(vars) =~= Seq::<Seq<char>>::empty());
    }
}

/// What drawing names in turn hands out: each index at least the name's
/// counter before, below its counter after; later draws of the same name get
/// larger indices; and no counter goes down.
pub proof fn drawn_indices_are_fresh_and_increasing(m: Map<Seq<char>, u64>, names: Seq<Seq<char>>)
    requires
        room(m, names.len() as int),
    ensures
        draw_all(m, names).0.len() == names.len(),
        forall|i: int| 0 <= i < names.len() ==> #[trigger] draw_all(m, names).0[i] >= next_of(m, names[i]),
        forall|i: int|
            0 <= i < names.len() ==> next_of(draw_all(m, names).1, names[i]) > #[trigger] draw_all(m, names).0[i],
        forall|n: Seq<char>| #[trigger] next_of(draw_all(m, names).1, n) >= next_of(m, n),
        forall|i: int, j: int|
            0 <= i < j < names.len() && names[i] == names[j] ==> #[trigger] draw_all(m, names).0[i]
                < #[trigger] draw_all(m, names).0[j],
    decreases names.len(),
{
    lemma_draw_all_room(m, names, 0);
    if names.len() > 0 {
        let p = names.drop_last();
        let n = names.last();
        drawn_indices_are_fresh_and_increasing(m, p);
        lemma_draw_all_room(m, p, 1);
        let (ids, m1) = draw_all(m, p);
        let ids2 = draw_all(m, names).0;
        let m2 = draw_all(m, names).1;
        assert(ids2 == ids.push(next_of(m1, n)));
        assert(m2 == draw(m1, n));
        assert(room(m1, 1));
        if m1.contains_key(n) {
            assert(m1[n] + 1 <= u64::MAX);
        }
        assert forall|x: Seq<char>| #[trigger] next_of(m2, x) >= next_of(m1, x) by {
            draw_never_lowers(m1, n, x);
        }
        assert(next_of(m2, n) == next_of(m1, n) + 1);
        assert forall|i: int| 0 <= i < names.len() implies #[trigger] ids2[i] >= next_of(m, names[i]) by {
            if i < p.len() {
                assert(ids2[i] == ids[i]);
                assert(names[i] == p[i]);
            } else {
                assert(next_of(m1, n) >= next_of(m, n));
            }
        }
        assert forall|i: int| 0 <= i < names.len() implies next_of(m2, names[i]) > #[trigger] ids2[i] by {
            if i < p.len() {
                assert(ids2[i] == ids[i]);
                assert(names[i] == p[i]);
                assert(next_of(m2, p[i]) >= next_of(m1, p[i]));
            }
        }
        assert forall|i: int, j: int|
            0 <= i < j < names.len() && names[i] == names[j] implies #[trigger] ids2[i] < #[trigger] ids2[j] by {
            assert(ids2[i] == ids[i]);
            assert(names[i] == p[i]);
            if j < p.len() {
                assert(ids2[j] == ids[j]);
                assert(names[j] == p[j]);
            } else {
                assert(next_of(m1, p[i]) > ids[i]);
            }
        }
    }
}

/// The counter a variable asks for: one more than its index, saturating.
pub open spec fn above_of(v: LVarM) -> u64 {
    if v.idx < u64::MAX {
        (v.idx + 1) as u64
    } else {
        u64::MAX
    }
}

/// What the counters seeded from `vars` say of a name: present exactly when
/// the name occurs, and then the largest counter its variables ask for.
pub proof fn lemma_seeded_char(vars: Seq<LVarM>, n: Seq<char>)
    ensures
        seeded(vars).contains_key(n) <==> exists|i: int| 0 <= i < vars.len() && (#[trigger] vars[i]).name == n,
        seeded(vars).contains_key(n) ==> exists|i: int|
            0 <= i < vars.len() && (#[trigger] vars[i]).name == n && seeded(vars)[n] == above_of(vars[i]),
        forall|i: int| 0 <= i < vars.len() && (#[trigger] vars[i]).name == n ==> above_of(vars[i]) <= seeded(vars)[n],
    decreases vars.len(),
{
    if vars.len() > 0 {
        let p = vars.drop_last();
        lemma_seeded_char(p, n);
        assert forall|i: int| 0 <= i < p.len() implies p[i] == #[trigger] vars[i] by {}
        let last = vars.len() - 1;
        assert(vars[last] == vars.last());
        if seeded(p).contains_key(n) {
            let w = choose|i: int| 0 <= i < p.len() && (#[trigger] p[i]).name == n && seeded(p)[n] == above_of(p[i]);
            assert(vars[w] == p[w]);
        }
    }
}

/// The counters seeded from two lists of variables with the same members
/// agree: order and repetition do not matter.
pub proof fn lemma_seeded_same_members(a: Seq<LVarM>, b: Seq<LVarM>)
    requires
        forall|v: LVarM| a.contains(v) <==> b.contains(v),
    ensures
        seeded(a) == seeded(b),
{
    assert forall|n: Seq<char>| #[trigger] seeded(a).contains_key(n) == seeded(b).contains_key(n) && (seeded(
        a,
    ).contains_key(n) ==> seeded(a)[n] == seeded(b)[n]) by {
        lemma_seeded_char(a, n);
        lemma_seeded_char(b, n);
        if exists|i: int| 0 <= i < a.len() && (#[trigger] a[i]).name == n {
            let i = choose|i: int| 0 <= i < a.len() && (#[trigger] a[i]).name == n;
            assert(a.contains(a[i]));
            assert(b.contains(a[i]));
            let j = choose|j: int| 0 <= j < b.len() && b[j] == a[i];
            assert(b[j].name == n);
        }
        if exists|j: int| 0 <= j < b.len() && (#[trigger] b[j]).name == n {
            let j = choose|j: int| 0 <= j < b.len() && (#[trigger] b[j]).name == n;
            assert(b.contains(b[j]));
            assert(a.contains(b[j]));
            let i = choose|i: int| 0 <= i < a.len() && a[i] == b[j];
            assert(a[i].name == n);
        }
        if seeded(a).contains_key(n) {
            let i = choose|i: int| 0 <= i < a.len() && (#[trigger] a[i]).name == n && seeded(a)[n] == above_of(a[i]);
            assert(a.contains(a[i]));
            let j = choose|j: int| 0 <= j < b.len() && b[j] == a[i];
            assert(b[j].name == n);
            assert(above_of(b[j]) <= seeded(b)[n]);
            let k = choose|k: int| 0 <= k < b.len() && (#[trigger] b[k]).name == n && seeded(b)[n] == above_of(b[k]);
            assert(b.contains(b[k]));
            let l = choose|l: int| 0 <= l < a.len() && a[l] == b[k];
            assert(a[l].name == n);
            assert(above_of(a[l]) <= seeded(a)[n]);
        }
    }
    assert(seeded(a) =~= seeded(b));
}

} // verus!
