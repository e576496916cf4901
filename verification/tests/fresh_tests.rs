use lib::fresh::FreshState;
use lib::term::{LSort, LVar};

#[test]
fn a_supply_seeded_from_variables_draws_above_them() {
    let vars = vec![
        LVar::new("x", LSort::Msg, 3),
        LVar::new("y", LSort::Node, 0),
        LVar::new("x", LSort::Fresh, 1),
    ];
    let mut fresh = FreshState::avoiding(&vars);
    assert_eq!(fresh.peek("x"), 4);
    assert_eq!(fresh.peek("y"), 1);
    assert_eq!(fresh.peek("z"), 0);
    assert_eq!(fresh.fresh_ident("x"), 4);
    assert_eq!(fresh.fresh_ident("x"), 5);
    let v = fresh.fresh_lvar("y", LSort::Node);
    assert_eq!(v, LVar::new("y", LSort::Node, 1));
    assert_eq!(fresh.peek("y"), 2);
}

#[test]
fn drawing_only_advances_the_drawn_name() {
    let mut fresh = FreshState::new();
    assert_eq!(fresh.fresh_ident("a"), 0);
    assert_eq!(fresh.fresh_ident("b"), 0);
    assert_eq!(fresh.fresh_ident("a"), 1);
    assert_eq!(fresh.peek("a"), 2);
    assert_eq!(fresh.peek("b"), 1);
}

#[test]
fn the_top_index_seeds_the_top() {
    let fresh = FreshState::avoiding(&vec![LVar::new("x", LSort::Msg, u64::MAX)]);
    assert_eq!(fresh.peek("x"), u64::MAX);
}
