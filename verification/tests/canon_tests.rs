use lib::canon::{canon_app, term_leq_exec};
use lib::formula::{apply_rename, apply_subst, Formula, Quantifier};
use lib::fresh::FreshState;
use lib::guarded::{
    close_guarded, gtrue, is_ac_canonical, lift_free_atom, map_free, normalize_witness_lvars_cow, open_guarded, simplify_guarded_with,
    subst_guarded, subst_guarded_cow, AtomTable, Guarded,
};
use lib::term::{
    AcSym, Atom, BVar, Binder, CSym, Constructability, FunSym, LSort, LVar, Name, NameTag, Privacy, Subst, SymInfo,
    Term,
};

fn lv(name: &str) -> LVar {
    LVar::new(name, LSort::Msg, 0)
}

fn fv(v: &LVar) -> Term {
    Term::Var(BVar::Free(v.clone()))
}

fn msg(name: &str) -> Term {
    fv(&lv(name))
}

fn pubc(s: &str) -> Term {
    Term::Con(Name { tag: NameTag::Pub, id: s.to_string() })
}

fn noeq(name: &str, args: Vec<Term>) -> Term {
    let sym = SymInfo {
        name: name.to_string(),
        arity: args.len(),
        privacy: Privacy::Public,
        constructability: Constructability::Constructor,
    };
    Term::App(FunSym::NoEq(sym), args)
}

fn mult(args: Vec<Term>) -> Term {
    canon_app(FunSym::Ac(AcSym::Mult), args)
}

fn em(args: Vec<Term>) -> Term {
    canon_app(FunSym::C(CSym::EMap), args)
}

fn eq_atom(l: Term, r: Term) -> Guarded {
    Guarded::Atom(Atom::EqE(l, r))
}

fn app_args(t: &Term) -> Vec<Term> {
    let Term::App(_, args) = t else { panic!("an application") };
    args.iter().map(|a| a.copy()).collect()
}

#[test]
fn ord_orders_pairs_by_their_nested_spine() {
    let short = noeq("pair", vec![msg("a"), msg("z")]);
    let long = noeq("pair", vec![msg("a"), noeq("pair", vec![msg("b"), msg("c")])]);
    // `short` comes strictly before `long`.
    assert!(term_leq_exec(&short, &long) && !term_leq_exec(&long, &short));
    // and `long` strictly after `short`.
    assert!(!(term_leq_exec(&long, &short) && !term_leq_exec(&short, &long)));
}

#[test]
fn guarded_ac_arguments_are_sorted_by_construction() {
    let x = msg("x");
    let p_lit = pubc("P");
    let em_unsorted = em(vec![x.copy(), p_lit.copy()]);
    let em_sorted = em(vec![p_lit.copy(), x.copy()]);
    assert_eq!(em_unsorted, em_sorted);
    assert_eq!(app_args(&em_sorted), vec![p_lit.copy(), x.copy()]);

    let exp = |inner: Term| noeq("exp", vec![inner, x.copy()]);
    assert_eq!(eq_atom(exp(em_unsorted), pubc("z")), eq_atom(exp(em_sorted), pubc("z")));

    let left = mult(vec![mult(vec![msg("a"), msg("b")]), msg("c")]);
    let right = mult(vec![msg("a"), mult(vec![msg("b"), msg("c")])]);
    assert_eq!(left, right);
    assert_eq!(app_args(&left).len(), 3);
}

#[test]
fn close_guarded_resorts_ac_arguments_under_the_bound_indices() {
    let a = lv("a");
    let x = lv("x");
    let open = mult(vec![fv(&a), fv(&x)]);
    assert_eq!(app_args(&open), vec![fv(&a), fv(&x)]);

    let closed = close_guarded(
        Quantifier::Ex,
        vec![x.clone()],
        vec![Atom::EqE(mult(vec![fv(&a), fv(&x)]), pubc("z"))],
        gtrue(),
    );
    let Guarded::GGuarded { guards, .. } = &closed else { panic!("close_guarded builds a GGuarded") };
    let Atom::EqE(lhs, _) = &guards[0] else { panic!("the guard is the equality") };
    assert_eq!(
        app_args(lhs),
        vec![Term::Var(BVar::Bound(0)), fv(&a)],
        "binding `x` moves it ahead of the free `a`"
    );
}

#[test]
fn open_guarded_sorts_a_commutative_argument_pair() {
    let a = lv("a");
    let em_term = Term::App(FunSym::C(CSym::EMap), vec![Term::Var(BVar::Bound(0)), fv(&a)]);
    let gf = Guarded::GGuarded {
        qua: Quantifier::Ex,
        vars: vec![Binder::new("x", LSort::Msg)],
        guards: vec![Atom::EqE(em_term, pubc("z"))],
        body: Box::new(gtrue()),
    };
    let mut fresh = FreshState::new();
    let (qua, vs, ats, body) = open_guarded(&gf, &mut fresh).expect("a GGuarded opens");
    assert_eq!(qua, Quantifier::Ex);
    assert_eq!(vs, vec![LVar::new("x", LSort::Msg, 0)]);
    assert_eq!(ats, vec![Atom::EqE(em(vec![fv(&a), fv(&vs[0])]), pubc("z"))]);
    assert_eq!(body, gtrue());
}

#[test]
fn renaming_a_guarded_formula_resorts_its_ac_arguments() {
    let a = lv("a");
    let b = lv("b");
    let z = lv("z");
    let g = eq_atom(mult(vec![fv(&a), fv(&b)]), pubc("t"));
    let renamed = map_free(&g, &|v: &LVar| if *v == a { z.clone() } else { v.clone() });
    assert_eq!(
        renamed,
        eq_atom(Term::App(FunSym::Ac(AcSym::Mult), vec![fv(&b), fv(&z)]), pubc("t"))
    );
}

#[test]
fn is_ac_canonical_tells_a_sorted_formula_from_an_unsorted_one() {
    let sorted = eq_atom(Term::App(FunSym::Ac(AcSym::Mult), vec![msg("a"), msg("b")]), pubc("t"));
    let unsorted = eq_atom(Term::App(FunSym::Ac(AcSym::Mult), vec![msg("b"), msg("a")]), pubc("t"));
    assert!(is_ac_canonical(&sorted));
    assert!(!is_ac_canonical(&unsorted));
}

#[test]
fn substitution_resorts_only_the_applications_above_a_substituted_leaf() {
    let s = Subst { entries: vec![(lv("a"), msg("z"))] };
    // `a * b` becomes `b * z`, re-sorted.
    let g = eq_atom(mult(vec![msg("a"), msg("b")]), pubc("t"));
    assert_eq!(
        subst_guarded(&g, &s),
        eq_atom(Term::App(FunSym::Ac(AcSym::Mult), vec![msg("b"), msg("z")]), pubc("t"))
    );
    // An unsorted application with no substituted leaf stays as it stands.
    let untouched = Guarded::Conj(vec![
        eq_atom(Term::App(FunSym::Ac(AcSym::Mult), vec![msg("d"), msg("c")]), pubc("t")),
        eq_atom(msg("a"), pubc("u")),
    ]);
    assert_eq!(
        subst_guarded(&untouched, &s),
        Guarded::Conj(vec![
            eq_atom(Term::App(FunSym::Ac(AcSym::Mult), vec![msg("d"), msg("c")]), pubc("t")),
            eq_atom(msg("z"), pubc("u")),
        ])
    );
    // Nothing in the domain: no change.
    let other = eq_atom(msg("c"), pubc("t"));
    assert!(subst_guarded_cow(&other, &s).is_none());
}

#[test]
fn witness_normalisation_resorts_above_a_moved_witness() {
    // `x.3 * y`: the witness sorts after `y` (a higher index); at index 0 it
    // sorts before it.
    let x3 = LVar::new("x", LSort::Msg, 3);
    let g = eq_atom(mult(vec![fv(&x3), msg("y")]), pubc("t"));
    assert_eq!(app_args(&mult(vec![fv(&x3), msg("y")])), vec![msg("y"), fv(&x3)]);
    let n = normalize_witness_lvars_cow(&g).expect("the witness moves");
    assert_eq!(n, eq_atom(Term::App(FunSym::Ac(AcSym::Mult), vec![msg("x"), msg("y")]), pubc("t")));
    // A witness already at index 0 changes nothing.
    assert!(normalize_witness_lvars_cow(&eq_atom(msg("x"), pubc("t"))).is_none());
}

#[test]
fn a_valuation_decides_an_atom_read_in_canonical_form() {
    let table = AtomTable { entries: vec![(Atom::EqE(mult(vec![msg("a"), msg("b")]), pubc("t")), true)] };
    let unsorted = eq_atom(Term::App(FunSym::Ac(AcSym::Mult), vec![msg("b"), msg("a")]), pubc("t"));
    assert_eq!(simplify_guarded_with(&unsorted, &table), gtrue());
}

fn strictly_before(a: &Term, b: &Term) -> bool {
    term_leq_exec(a, b) && !term_leq_exec(b, a)
}

#[test]
fn em_funsym_key_is_c_tier() {
    let gh = vec![pubc("g"), pubc("h")];
    let em_c = em(vec![pubc("g"), pubc("h")]);
    let f = noeq("f", vec![pubc("g"), pubc("h")]);
    assert!(strictly_before(&f, &em_c), "NoEq `f/2` must sort before C `em/2` despite \"em\" < \"f\"");
    assert!(!strictly_before(&em_c, &f) && !term_leq_exec(&em_c, &f), "the order must be antisymmetric");
    let aaa = noeq("aaa", vec![pubc("g"), pubc("h")]);
    assert!(strictly_before(&aaa, &em_c));
    let prod = mult(gh.iter().map(|t| t.copy()).collect());
    assert!(strictly_before(&prod, &em_c), "an AC head must sort before the C `em/2`");
    let em_alg = noeq("em", vec![pubc("g"), pubc("h")]);
    assert!(strictly_before(&em_alg, &f), "the `op{{t1}}t2` spelling of em is a NoEq symbol, ordered by name");
    assert!(strictly_before(&em_alg, &em_c), "NoEq `em/2` and C `em/2` are distinct FunSyms, NoEq first");
    let em_gg = em(vec![pubc("g"), pubc("g")]);
    assert!(strictly_before(&em_gg, &em_c), "same-FunSym C terms compare by their arguments");
    let em3 = noeq("em", vec![pubc("g"), pubc("h"), pubc("g")]);
    assert!(strictly_before(&em3, &f));
}

#[test]
fn guarded_store_holds_a_flat_ac_application() {
    let t = mult(vec![pubc("c"), pubc("a"), pubc("b")]);
    let Atom::EqE(lhs, _) = lift_free_atom(&Atom::EqE(t.copy(), t.copy())) else { panic!("an equality") };
    let Term::App(sym, args) = &lhs else { panic!("an application") };
    assert!(matches!(sym, FunSym::Ac(AcSym::Mult)));
    assert_eq!(
        args.iter().map(|a| a.copy()).collect::<Vec<Term>>(),
        vec![pubc("a"), pubc("b"), pubc("c")],
        "the three operands stay in one sorted list"
    );
}

#[test]
fn guarded_store_holds_the_nullary_constants_as_applications() {
    for name in ["one", "tone", "DH_neutral"] {
        let t = noeq(name, vec![]);
        assert_eq!(
            lift_free_atom(&Atom::EqE(t.copy(), t.copy())),
            Atom::EqE(noeq(name, vec![]), noeq(name, vec![]))
        );
    }
}

#[test]
fn guarded_store_holds_a_binary_pair_chain() {
    let pair = |a: Term, b: Term| noeq("pair", vec![a, b]);
    let b = msg("B");
    let a = msg("A");
    let ex = noeq("exp", vec![pubc("g"), fv(&LVar::new("ex", LSort::Fresh, 0))]);
    let t = pair(pubc("UM3"), pair(b.copy(), pair(a.copy(), pair(pubc("1"), ex.copy()))));
    let chain = pair(pubc("UM3"), pair(b.copy(), pair(a.copy(), pair(pubc("1"), ex.copy()))));
    assert_eq!(lift_free_atom(&Atom::EqE(t.copy(), t.copy())), Atom::EqE(chain.copy(), chain.copy()));

    let Atom::EqE(mut cur, _) = lift_free_atom(&Atom::EqE(t.copy(), t.copy())) else { panic!("an equality") };
    let mut depth = 0usize;
    loop {
        let next = match &cur {
            Term::App(FunSym::NoEq(s), args) if s.name == "pair" => {
                assert_eq!(args.len(), 2, "a pair node is binary");
                args[1].copy()
            },
            _ => break,
        };
        depth += 1;
        cur = next;
    }
    assert_eq!(depth, 4);
}

#[test]
fn applying_a_substitution_resorts_the_ac_arguments() {
    let s = Subst { entries: vec![(lv("a"), msg("z"))] };
    let t = mult(vec![msg("a"), msg("b")]);
    assert_eq!(s.apply_term(&t), Term::App(FunSym::Ac(AcSym::Mult), vec![msg("b"), msg("z")]));
    let fm = Formula::Atom(Atom::EqE(t.copy(), pubc("t")));
    assert_eq!(
        apply_subst(&s, &fm),
        Formula::Atom(Atom::EqE(Term::App(FunSym::Ac(AcSym::Mult), vec![msg("b"), msg("z")]), pubc("t")))
    );
}

#[test]
fn renaming_a_formula_resorts_its_ac_arguments() {
    let a = lv("a");
    let z = lv("z");
    let fm = Formula::Atom(Atom::EqE(mult(vec![msg("a"), msg("b")]), pubc("t")));
    let renamed = apply_rename(&fm, &|v: &LVar| if *v == a { z.clone() } else { v.clone() });
    assert_eq!(
        renamed,
        Formula::Atom(Atom::EqE(Term::App(FunSym::Ac(AcSym::Mult), vec![msg("b"), msg("z")]), pubc("t")))
    );
}
