use lib::guarded::{
    gall, gconj, gdisj, gex, gfalse, gnot, gnot_atom, gtf, gtrue, normalise_disj_list_cow, normalise_guarded_cow,
    normalise_stored_formula_cow, simplify_guarded_with, subst_bound_atom_at,
    subst_free_atom_at, to_induction_hypothesis, unbind_atom, AtomTable, Guarded,
};
use lib::convert::formula_to_guarded;
use lib::formula::{Connective, Formula, Quantifier};
use lib::term::{Atom, BVar, Binder, LSort, LVar, Term};

fn bfree(name: &str, idx: u64, sort: LSort) -> Term {
    Term::Var(BVar::Free(LVar::new(name, sort, idx)))
}

fn binders(vs: &[Binder]) -> Vec<Binder> {
    vs.iter().map(|b| b.copy()).collect()
}

fn atoms(xs: &[Atom]) -> Vec<Atom> {
    xs.iter().map(|a| a.copy()).collect()
}

fn gnot_reference(g: &Guarded) -> Guarded {
    match g {
        Guarded::Atom(a) => gnot_atom(a),
        Guarded::Disj(xs) => gconj(xs.iter().map(gnot_reference).collect()),
        Guarded::Conj(xs) => gdisj(xs.iter().map(gnot_reference).collect()),
        Guarded::GGuarded { qua, vars, guards, body } => {
            let body = gnot_reference(body);
            if *qua == Quantifier::All {
                gex(binders(vars), atoms(guards), body)
            } else {
                gall(binders(vars), atoms(guards), body)
            }
        }
    }
}

fn to_induction_hypothesis_reference(g: &Guarded) -> Result<Guarded, String> {
    match g {
        Guarded::GGuarded { qua, vars, guards, body } => {
            // Reject an invalid guard before rebuilding its body.
            if guards.iter().any(|a| matches!(a, Atom::Last(_))) {
                return Err("formula not last-free".to_string());
            }
            let body2 = to_induction_hypothesis_reference(body)?;
            let last_atos: Vec<Guarded> = vars
                .iter()
                .rev()
                .enumerate()
                .filter(|(_, v)| v.sort == LSort::Node)
                .map(|(j, _)| Guarded::Atom(Atom::Last(Term::Var(BVar::Bound(j as u64)))))
                .collect();
            match qua {
                Quantifier::All => {
                    let mut items: Vec<Guarded> = last_atos.iter().map(gnot_reference).collect();
                    items.push(body2);
                    Ok(gex(binders(vars), atoms(guards), gconj(items)))
                }
                Quantifier::Ex => {
                    let mut items = last_atos;
                    items.push(body2);
                    Ok(gall(binders(vars), atoms(guards), gdisj(items)))
                }
            }
        }
        Guarded::Atom(Atom::Less(i, j)) => Ok(Guarded::Disj(vec![
            Guarded::Atom(Atom::EqE(i.copy(), j.copy())),
            Guarded::Atom(Atom::Less(j.copy(), i.copy())),
        ])),
        Guarded::Atom(Atom::Last(_)) => Err("formula not last-free".to_string()),
        Guarded::Atom(a) => Ok(gnot_atom(a)),
        Guarded::Disj(xs) => {
            let mut out = Vec::new();
            for x in xs {
                out.push(to_induction_hypothesis_reference(x)?);
            }
            Ok(gconj(out))
        }
        Guarded::Conj(xs) => {
            let mut out = Vec::new();
            for x in xs {
                out.push(to_induction_hypothesis_reference(x)?);
            }
            Ok(gdisj(out))
        }
    }
}

fn simplify_guarded_with_reference(fm: &Guarded, valuation: &dyn Fn(&Atom) -> Option<bool>) -> Guarded {
    let eval = |a: &Atom| unbind_atom(a).and_then(|la| valuation(&la));
    match fm {
        Guarded::Atom(a) => eval(a).map_or_else(|| fm.copy(), gtf),
        Guarded::GGuarded { qua: Quantifier::All, vars, guards, body } if vars.is_empty() => {
            let evals: Vec<_> = guards.iter().map(eval).collect();
            if evals.contains(&Some(false)) {
                gtrue()
            } else {
                let kept: Vec<Atom> =
                    guards.iter().zip(evals).filter(|(_, v)| v.is_none()).map(|(a, _)| a.copy()).collect();
                gall(binders(vars), kept, simplify_guarded_with_reference(body, valuation))
            }
        }
        Guarded::GGuarded { .. } => fm.copy(),
        Guarded::Disj(xs) => gdisj(xs.iter().map(|x| simplify_guarded_with_reference(x, valuation)).collect()),
        Guarded::Conj(xs) => gconj(xs.iter().map(|x| simplify_guarded_with_reference(x, valuation)).collect()),
    }
}

/// The table that answers `answer` for every atom this test's formulas
/// evaluate, and nothing for any other.
fn constant_table(answer: Option<bool>) -> AtomTable {
    match answer {
        None => AtomTable { entries: vec![] },
        Some(v) => AtomTable {
            entries: vec![
                (Atom::Less(bfree("i", 0, LSort::Node), bfree("i", 1, LSort::Node)), v),
                (Atom::Last(bfree("i", 1, LSort::Node)), v),
                (Atom::Last(bfree("i", 0, LSort::Node)), v),
            ],
        },
    }
}

#[test]
fn smart_rewrites_preserve_raw_connective_shapes() {
    let a = Guarded::Atom(Atom::Less(bfree("i", 0, LSort::Node), bfree("i", 1, LSort::Node)));
    let b = Guarded::Atom(Atom::Last(bfree("i", 1, LSort::Node)));
    let mut pool = vec![gtrue(), gfalse(), a, b];
    for i in 0..3000usize {
        let items: Vec<_> = (0..i % 5).map(|j| pool[(i * 7 + j * 3) % pool.len()].copy()).collect();
        let raw = match i % 4 {
            0 => Guarded::Conj(items),
            1 => Guarded::Disj(items),
            _ => Guarded::GGuarded {
                qua: if i % 4 == 2 { Quantifier::All } else { Quantifier::Ex },
                vars: if i % 3 == 0 { vec![Binder::new("x", LSort::Node)] } else { vec![] },
                guards: if i % 7 == 0 { vec![Atom::Last(bfree("i", 0, LSort::Node))] } else { vec![] },
                body: Box::new(Guarded::Conj(items)),
            },
        };
        assert_eq!(gnot(&raw), gnot_reference(&raw), "negate {i}");
        assert_eq!(to_induction_hypothesis(&raw), to_induction_hypothesis_reference(&raw), "induct {i}");
        for answer in [None, Some(false), Some(true)] {
            assert_eq!(
                simplify_guarded_with(&raw, &constant_table(answer)),
                simplify_guarded_with_reference(&raw, &|_| answer),
                "simplify {i}"
            );
        }
        pool.push(raw);
        if pool.len() > 16 {
            pool.truncate(4);
        }
    }
}

#[test]
fn indexed_binder_substitution_preserves_first_match_and_scope() {
    let x = LVar::new("x", LSort::Msg, 0);
    for size in [2u64, 16] {
        let entries: Vec<_> = (0..size).map(|i| (x.copy(), i)).collect();
        let atom = Atom::EqE(Term::Var(BVar::Free(x.copy())), Term::Var(BVar::Bound(0)));
        assert_eq!(
            subst_free_atom_at(&entries, 7, &atom),
            Atom::EqE(Term::Var(BVar::Bound(7)), Term::Var(BVar::Bound(0)))
        );
        let entries: Vec<_> = (0..size).map(|i| (0u64, LVar::new("x", LSort::Msg, i))).collect();
        let atom = Atom::EqE(Term::Var(BVar::Bound(7)), Term::Var(BVar::Bound(6)));
        assert_eq!(
            subst_bound_atom_at(&entries, 7, &atom),
            Atom::EqE(Term::Var(BVar::Free(x.copy())), Term::Var(BVar::Bound(6)))
        );
    }
}

fn copies(xs: &[Guarded]) -> Vec<Guarded> {
    xs.iter().map(|x| x.copy()).collect()
}

fn normalise_guarded_reference(g: &Guarded) -> Option<Guarded> {
    let norm = |child: &Guarded| normalise_guarded_reference(child).unwrap_or_else(|| child.copy());
    let result = match g {
        Guarded::Atom(_) => return None,
        Guarded::Conj(xs) => smart_reference(xs.iter().map(norm).collect(), true),
        Guarded::Disj(xs) => smart_reference(xs.iter().map(norm).collect(), false),
        Guarded::GGuarded { qua, vars, guards, body } => Guarded::GGuarded {
            qua: *qua,
            vars: binders(vars),
            guards: atoms(guards),
            body: Box::new(norm(body)),
        },
    };
    if result != *g {
        Some(result)
    } else {
        None
    }
}

fn smart_reference(items: Vec<Guarded>, conjunction: bool) -> Guarded {
    fn flatten(item: Guarded, conjunction: bool, out: &mut Vec<Guarded>) {
        match item {
            Guarded::Conj(xs) if conjunction => {
                for x in xs.iter() {
                    flatten(x.copy(), conjunction, out);
                }
            }
            Guarded::Disj(xs) if !conjunction => {
                for x in xs.iter() {
                    flatten(x.copy(), conjunction, out);
                }
            }
            other => out.push(other),
        }
    }
    let mut flat = Vec::new();
    for item in items {
        flatten(item, conjunction, &mut flat);
    }
    if flat.contains(&if conjunction { gfalse() } else { gtrue() }) {
        return if conjunction { gfalse() } else { gtrue() };
    }
    let mut unique = Vec::new();
    for item in flat {
        if !unique.contains(&item) {
            unique.push(item);
        }
    }
    if unique.len() == 1 {
        return unique.pop().unwrap();
    }
    if conjunction {
        Guarded::Conj(unique)
    } else {
        Guarded::Disj(unique)
    }
}

// A pending goal is a list even when its canonical formula is a singleton.
fn stored_reference(g: &Guarded) -> Option<Guarded> {
    let normalized = normalise_guarded_reference(g).unwrap_or_else(|| g.copy());
    let result = match (g, normalized) {
        (Guarded::Disj(_), g @ Guarded::Disj(_)) => g,
        (Guarded::Disj(_), g) => Guarded::Disj(vec![g]),
        (_, g) => g,
    };
    if result != *g {
        Some(result)
    } else {
        None
    }
}

#[test]
fn wide_guarded_dedup_preserves_order_and_constructor_rules() {
    let atoms: Vec<Guarded> =
        (0..128u64).map(|i| Guarded::Atom(Atom::Last(bfree("i", i, LSort::Node)))).collect();
    for size in [0usize, 1, 2, 16, 17, 64, 256] {
        let items: Vec<Guarded> = (0..size).map(|i| atoms[(i * 17) % atoms.len()].copy()).collect();
        assert_eq!(gconj(copies(&items)), smart_reference(copies(&items), true));
        assert_eq!(gdisj(copies(&items)), smart_reference(copies(&items), false));
        assert_eq!(gconj(vec![Guarded::Conj(copies(&items)), gtrue()]), smart_reference(copies(&items), true));
        assert_eq!(gdisj(vec![Guarded::Disj(copies(&items)), gfalse()]), smart_reference(copies(&items), false));
        let raw = Guarded::Disj(vec![Guarded::Disj(copies(&items))]);
        assert_eq!(normalise_guarded_cow(&raw), normalise_guarded_reference(&raw));
    }
    for value in [Guarded::Conj(copies(&atoms)), Guarded::Disj(atoms)] {
        assert!(normalise_guarded_cow(&value).is_none());
    }
}

#[test]
fn flattened_normalization_matches_bottom_up_reference() {
    let a = Guarded::Atom(Atom::Last(bfree("i", 0, LSort::Node)));
    let b = Guarded::Atom(Atom::Last(bfree("i", 1, LSort::Node)));
    let mut pool = vec![gtrue(), gfalse(), a, b];
    for i in 0..1200usize {
        let x = pool[(i * 7 + 1) % pool.len()].copy();
        let y = pool[(i * 11 + 2) % pool.len()].copy();
        let raw = if i % 2 == 0 {
            Guarded::Conj(vec![x.copy(), y, x])
        } else {
            Guarded::Disj(vec![x.copy(), y, x])
        };
        let got = normalise_guarded_cow(&raw);
        let want = normalise_guarded_reference(&raw);
        assert_eq!(got, want, "case {i}");
        pool.push(if i % 5 == 0 { got.unwrap_or(raw) } else { raw });
        if pool.len() > 16 {
            pool.truncate(4);
        }
    }
}

#[test]
fn connective_policies_match_reference_and_keep_stored_goal_twins() {
    fn build(seed: &mut u64, depth: usize) -> Guarded {
        *seed = seed.wrapping_mul(6364136223846793005).wrapping_add(1);
        let n = (*seed >> 32) as usize;
        if depth == 0 || n % 5 == 0 {
            return Guarded::Atom(Atom::Last(bfree("i", (n % 4) as u64, LSort::Node)));
        }
        if n % 5 == 1 {
            return Guarded::GGuarded {
                qua: if n % 2 == 0 { Quantifier::All } else { Quantifier::Ex },
                vars: vec![Binder::new("x", LSort::Msg)],
                guards: vec![Atom::Last(bfree("i", 0, LSort::Node))],
                body: Box::new(build(seed, depth - 1)),
            };
        }
        let mut items: Vec<Guarded> = (0..n % 5).map(|_| build(seed, depth - 1)).collect();
        if n % 3 == 0 && !items.is_empty() {
            items.push(items[0].copy());
        }
        if n % 2 == 0 {
            Guarded::Conj(items)
        } else {
            Guarded::Disj(items)
        }
    }
    for seed in 0..4000u64 {
        let g = build(&mut (seed + 1), 5);
        let expected = normalise_guarded_reference(&g);
        assert_eq!(normalise_guarded_cow(&g), expected, "seed={seed}");
        assert_eq!(normalise_stored_formula_cow(&g), stored_reference(&g), "stored seed={seed}");
        let stored = stored_reference(&g).unwrap_or_else(|| g.copy());
        assert!(normalise_stored_formula_cow(&stored).is_none(), "stored fixpoint seed={seed}");
        let normalized = expected.unwrap_or_else(|| g.copy());
        assert!(normalise_guarded_cow(&normalized).is_none(), "fixpoint seed={seed}");
        let items = [g.copy(), gtrue(), g.copy(), gfalse(), normalized];
        for end in 0..=items.len() {
            let items = &items[..end];
            assert_eq!(gconj(copies(items)), smart_reference(copies(items), true));
            assert_eq!(gdisj(copies(items)), smart_reference(copies(items), false));
            let formula = Guarded::Disj(copies(items));
            let expected = stored_reference(&formula);
            let goal = normalise_disj_list_cow(&copies(items)).map(Guarded::Disj);
            assert_eq!(goal, expected, "goal twin seed={seed} end={end}");
        }
    }
}

#[test]
fn propositional_conversion_preserves_truth_and_system_polarity() {
    fn eval(f: &Formula) -> bool {
        match f {
            Formula::Tf(b) => *b,
            Formula::Not(f) => !eval(f),
            Formula::Conn(c, a, b) => match c {
                Connective::And => eval(a) && eval(b),
                Connective::Or => eval(a) || eval(b),
                Connective::Imp => !eval(a) || eval(b),
                Connective::Iff => eval(a) == eval(b),
            },
            _ => panic!("propositional input only"),
        }
    }
    fn eval_guarded(g: &Guarded) -> bool {
        match g {
            Guarded::Conj(xs) => xs.iter().all(eval_guarded),
            Guarded::Disj(xs) => xs.iter().any(eval_guarded),
            _ => panic!("propositional output only"),
        }
    }
    for a in [false, true] {
        for b in [false, true] {
            for c in [Connective::And, Connective::Or, Connective::Imp, Connective::Iff] {
                let base = Formula::Conn(c, Box::new(Formula::Tf(a)), Box::new(Formula::Tf(b)));
                for f in [base.copy(), Formula::Not(Box::new(base.copy()))] {
                    for polarity in [false, true] {
                        // The conversion at the negative polarity is the
                        // conversion of the negated formula.
                        let input = if polarity { Formula::Not(Box::new(f.copy())) } else { f.copy() };
                        let got = formula_to_guarded(&input).unwrap();
                        assert_eq!(eval_guarded(&got), eval(&f) != polarity, "{f:?}, negative={polarity}");
                    }
                }
            }
        }
    }
}
