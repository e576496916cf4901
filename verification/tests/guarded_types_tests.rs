use lib::guarded_types::{
    atom_to_gatom_free, close_subst, collect_free_term, gatom_to_atom, gterm_to_term, map_free_term, mk_gpair,
    open_subst, subst_bound_atom_at_depth, subst_free_atom_at_depth, subst_free_term_at_depth,
    subst_bound_term_at_depth, term_to_gterm_free, fact_to_gfact_free, gfact_to_fact, lvar_to_binding, BVar, GAtom,
    GFact, GTerm,
};
use lib::surface::{SurfaceAtom, SurfaceFact, SurfaceTerm};
use lib::term::LSort;
use lib::vars::VarSpec;

fn vs(name: &str, idx: u64) -> VarSpec {
    VarSpec { name: name.to_string(), idx, sort: LSort::Msg, typ: None }
}

fn vs_node(name: &str, idx: u64) -> VarSpec {
    VarSpec { name: name.to_string(), idx, sort: LSort::Node, typ: None }
}

fn copy_vs(v: &VarSpec) -> VarSpec {
    VarSpec { name: v.name.clone(), idx: v.idx, sort: v.sort, typ: v.typ.clone() }
}

#[test]
fn term_round_trip_no_bound() {
    let t = SurfaceTerm::App("f".to_string(), vec![SurfaceTerm::Var(vs("x", 0)), SurfaceTerm::Var(vs("y", 1))]);
    let g = term_to_gterm_free(&t);
    assert_eq!(t, gterm_to_term(&g));
}

#[test]
fn mk_gpair_splices_only_a_trailing_pair() {
    let lit = |s: &str| GTerm::PubLit(s.to_string());
    let flat = GTerm::Pair(vec![lit("a"), lit("b"), lit("c")]);
    assert_eq!(
        mk_gpair(vec![lit("a"), GTerm::Pair(vec![lit("b"), lit("c")])]),
        flat,
        "a trailing pair is spliced into the tail"
    );
    assert_eq!(
        mk_gpair(vec![lit("a"), GTerm::Pair(vec![lit("b"), GTerm::Pair(vec![lit("c")])])]),
        flat,
        "splicing repeats while the new tail is itself a pair"
    );
    let head_nested = GTerm::Pair(vec![GTerm::Pair(vec![lit("a"), lit("b")]), lit("c")]);
    assert_eq!(
        mk_gpair(vec![GTerm::Pair(vec![lit("a"), lit("b")]), lit("c")]),
        head_nested,
        "a pair in a non-tail position is a different term"
    );
    let p_lit = |s: &str| SurfaceTerm::PubLit(s.to_string());
    assert_eq!(
        term_to_gterm_free(&SurfaceTerm::Pair(vec![
            p_lit("a"),
            SurfaceTerm::Pair(vec![p_lit("b"), p_lit("c")]),
        ])),
        flat
    );
}

#[test]
fn atom_round_trip_no_bound() {
    let a = SurfaceAtom::Eq(SurfaceTerm::Var(vs("x", 0)), SurfaceTerm::Var(vs("y", 1)));
    let g = atom_to_gatom_free(&a);
    assert_eq!(a, gatom_to_atom(&g));
}

fn p_of(v: VarSpec) -> SurfaceAtom {
    SurfaceAtom::Action(
        SurfaceFact { persistent: false, name: "P".to_string(), args: vec![SurfaceTerm::Var(v)], annotations: vec![] },
        SurfaceTerm::Var(vs_node("t", 0)),
    )
}

#[test]
fn close_then_open_atom_identity() {
    let x = vs("x", 0);
    let p_atom = atom_to_gatom_free(&p_of(copy_vs(&x)));
    let close_s = close_subst(&vec![copy_vs(&x)]);
    let closed = subst_free_atom_at_depth(&p_atom, &close_s, 0);
    match &closed {
        GAtom::Action(f, _) => match &f.args[0] {
            GTerm::Var(BVar::Bound(n)) => assert_eq!(*n, 0),
            other => panic!("expected Bound(0), got {:?}", other),
        },
        _ => panic!("expected Action"),
    }
    let open_s = open_subst(&vec![copy_vs(&x)]);
    let opened = subst_bound_atom_at_depth(&closed, &open_s, 0);
    assert_eq!(opened, p_atom);
}

#[test]
fn close_subst_innermost_is_bound_zero() {
    let binders = vec![vs("a", 0), vs("b", 1), vs("c", 2)];
    let s = close_subst(&binders);
    assert_eq!(s.len(), 3);
    assert_eq!(s[0].0.name, "c");
    assert_eq!(s[0].1, 0);
    assert_eq!(s[1].0.name, "b");
    assert_eq!(s[1].1, 1);
    assert_eq!(s[2].0.name, "a");
    assert_eq!(s[2].1, 2);
}

#[test]
fn open_subst_bound_zero_is_innermost() {
    let binders = vec![vs("a", 0), vs("b", 1), vs("c", 2)];
    let s = open_subst(&binders);
    assert_eq!(s.len(), 3);
    assert_eq!(s[0].0, 0);
    assert_eq!(s[0].1.name, "c");
    assert_eq!(s[1].0, 1);
    assert_eq!(s[1].1.name, "b");
    assert_eq!(s[2].0, 2);
    assert_eq!(s[2].1.name, "a");
}

#[test]
fn nested_close_shift() {
    let x = vs("x", 100);
    let mut inner_body = GAtom::Action(
        GFact {
            persistent: false,
            name: "P".to_string(),
            args: vec![GTerm::Var(BVar::Free(copy_vs(&x))), GTerm::Var(BVar::Bound(0))],
            annotations: vec![],
        },
        GTerm::Var(BVar::Free(vs_node("t", 0))),
    );
    let close_s = close_subst(&vec![copy_vs(&x)]);
    inner_body = subst_free_atom_at_depth(&inner_body, &close_s, 1);
    match &inner_body {
        GAtom::Action(f, _) => {
            match &f.args[0] {
                GTerm::Var(BVar::Bound(n)) => assert_eq!(*n, 1, "x should shift to Bound(1)"),
                other => panic!("expected Bound(1), got {:?}", other),
            }
            match &f.args[1] {
                GTerm::Var(BVar::Bound(n)) => assert_eq!(*n, 0, "y stays Bound(0)"),
                other => panic!("expected Bound(0), got {:?}", other),
            }
        }
        _ => panic!("expected Action"),
    }
}

#[test]
fn close_alpha_equivalence() {
    let x = vs("x", 0);
    let y = vs("y", 7);
    let body_x = atom_to_gatom_free(&p_of(copy_vs(&x)));
    let body_y = atom_to_gatom_free(&p_of(copy_vs(&y)));
    let closed_x = subst_free_atom_at_depth(&body_x, &close_subst(&vec![x]), 0);
    let closed_y = subst_free_atom_at_depth(&body_y, &close_subst(&vec![y]), 0);
    assert_eq!(closed_x, closed_y);
}

#[test]
fn collect_free_skips_bound() {
    let t = GTerm::App(
        "f".to_string(),
        vec![GTerm::Var(BVar::Free(vs("x", 0))), GTerm::Var(BVar::Bound(0)), GTerm::Var(BVar::Free(vs("y", 1)))],
    );
    let mut out = Vec::new();
    collect_free_term(&t, &mut out);
    assert_eq!(out.len(), 2);
    assert_eq!(out[0].name, "x");
    assert_eq!(out[1].name, "y");
}

#[test]
fn map_free_skips_bound() {
    let t = GTerm::App("f".to_string(), vec![GTerm::Var(BVar::Free(vs("x", 0))), GTerm::Var(BVar::Bound(0))]);
    let mapped = map_free_term(&t, &|v: &VarSpec| VarSpec {
        name: v.name.clone(),
        idx: v.idx + 100,
        sort: v.sort,
        typ: v.typ.clone(),
    });
    match &mapped {
        GTerm::App(_, args) => {
            match &args[0] {
                GTerm::Var(BVar::Free(v)) => assert_eq!(v.idx, 100),
                other => panic!("free var should be remapped: {:?}", other),
            }
            match &args[1] {
                GTerm::Var(BVar::Bound(0)) => {}
                other => panic!("bound should pass through: {:?}", other),
            }
        }
        _ => panic!("expected App"),
    }
}

#[test]
fn closing_only_touches_matching_variables_of_the_same_sort() {
    let k_msg = vs("k", 0);
    let k_node = vs_node("k", 0);
    let t = GTerm::Pair(vec![GTerm::Var(BVar::Free(copy_vs(&k_msg))), GTerm::Var(BVar::Free(copy_vs(&k_node)))]);
    let closed = subst_free_term_at_depth(&t, &close_subst(&vec![copy_vs(&k_node)]), 2);
    let want = GTerm::Pair(vec![GTerm::Var(BVar::Free(k_msg)), GTerm::Var(BVar::Bound(2))]);
    assert_eq!(closed, want);
}

#[test]
fn opening_looks_the_index_up_shifted_by_the_depth() {
    let t = GTerm::App("f".to_string(), vec![GTerm::Var(BVar::Bound(0)), GTerm::Var(BVar::Bound(3))]);
    let opened = subst_bound_term_at_depth(&t, &open_subst(&vec![vs("a", 1), vs("b", 2)]), 2);
    let want = GTerm::App("f".to_string(), vec![GTerm::Var(BVar::Bound(0)), GTerm::Var(BVar::Free(vs("a", 1)))]);
    assert_eq!(opened, want);
}

#[test]
fn a_fact_lifts_and_lowers_with_its_annotations() {
    let f = SurfaceFact {
        persistent: true,
        name: "Key".to_string(),
        args: vec![SurfaceTerm::FreshLit("k".to_string()), SurfaceTerm::Var(vs("x", 3))],
        annotations: vec!["+".to_string()],
    };
    let g = fact_to_gfact_free(&f);
    assert!(g.persistent);
    assert_eq!(g.annotations, vec!["+".to_string()]);
    assert_eq!(gfact_to_fact(&g), f);
}

#[test]
fn a_binding_keeps_name_and_sort() {
    let b = lvar_to_binding(&vs_node("i", 4));
    assert_eq!(b.name, "i");
    assert_eq!(b.sort, LSort::Node);
}
