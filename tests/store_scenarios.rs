use modulo::error::OrderError;
use modulo::store::PositionStore;

fn s(x: &str) -> String {
    x.to_string()
}

fn ids(v: &[&str]) -> Vec<String> {
    v.iter().map(|x| x.to_string()).collect()
}

/// A store holding `items` in `scope`, created in that order at the end.
fn store_with(scope: &str, items: &[&str]) -> PositionStore {
    let mut st = PositionStore::new();
    for (t, id) in items.iter().enumerate() {
        st.create_item(s(id), s(scope), None, t as u64).unwrap();
    }
    st
}

fn positions(st: &PositionStore, scope: &str) -> Vec<u64> {
    st.list_ordered(&s(scope))
        .iter()
        .map(|id| st.position(id).unwrap())
        .collect()
}

fn assert_dense(st: &PositionStore, scope: &str) {
    let n = st.list_ordered(&s(scope)).len() as u64;
    assert_eq!(positions(st, scope), (0..n).collect::<Vec<u64>>());
}

#[test]
fn move_to_front_within_scope() {
    let mut st = store_with("A", &["a", "b", "c"]);
    assert_eq!(positions(&st, "A"), vec![0, 1, 2]);
    st.move_item(&s("b"), &s("A"), &s("A"), 0).unwrap();
    assert_eq!(st.list_ordered(&s("A")), ids(&["b", "a", "c"]));
    assert_eq!(positions(&st, "A"), vec![0, 1, 2]);
}

#[test]
fn move_across_scopes_at_index() {
    let mut st = store_with("A", &["a", "b", "c"]);
    st.create_item(s("d"), s("B"), None, 10).unwrap();
    st.create_item(s("e"), s("B"), None, 11).unwrap();
    st.move_item(&s("b"), &s("A"), &s("B"), 1).unwrap();
    assert_eq!(st.list_ordered(&s("A")), ids(&["a", "c"]));
    assert_eq!(positions(&st, "A"), vec![0, 1]);
    assert_eq!(st.list_ordered(&s("B")), ids(&["d", "b", "e"]));
    assert_eq!(positions(&st, "B"), vec![0, 1, 2]);
    assert_eq!(st.scope_of(&s("b")), Some(s("B")));
}

#[test]
fn delete_renumbers_rest() {
    let mut st = store_with("A", &["a", "b", "c"]);
    st.delete_item(&s("a"), &s("A")).unwrap();
    assert_eq!(st.list_ordered(&s("A")), ids(&["b", "c"]));
    assert_eq!(positions(&st, "A"), vec![0, 1]);
    assert_eq!(st.position(&s("a")), None);
}

#[test]
fn create_without_index_appends() {
    let mut st = store_with("A", &["a", "b", "c"]);
    assert_eq!(st.create_item(s("n"), s("A"), None, 9), Ok(3));
    assert_eq!(st.position(&s("n")), Some(3));
    assert_eq!(st.list_ordered(&s("A")), ids(&["a", "b", "c", "n"]));
}

#[test]
fn create_at_requested_index_shifts_later_members() {
    let mut st = store_with("A", &["a", "b", "c"]);
    assert_eq!(st.create_item(s("n"), s("A"), Some(1), 9), Ok(1));
    assert_eq!(st.list_ordered(&s("A")), ids(&["a", "n", "b", "c"]));
    assert_dense(&st, "A");
}

#[test]
fn create_clamps_requested_index() {
    let mut st = store_with("A", &["a", "b"]);
    assert_eq!(st.create_item(s("x"), s("A"), Some(-5), 9), Ok(0));
    assert_eq!(st.create_item(s("y"), s("A"), Some(999), 10), Ok(3));
    assert_eq!(st.list_ordered(&s("A")), ids(&["x", "a", "b", "y"]));
    assert_dense(&st, "A");
}

#[test]
fn create_with_taken_id_fails() {
    let mut st = store_with("A", &["a"]);
    assert_eq!(
        st.create_item(s("a"), s("B"), None, 5),
        Err(OrderError::StorageFailure)
    );
    assert_eq!(st.len(), 1);
    assert!(st.list_ordered(&s("B")).is_empty());
}

#[test]
fn positions_stay_dense_over_a_sequence_of_operations() {
    let mut st = store_with("A", &["a", "b", "c", "d"]);
    st.create_item(s("e"), s("B"), None, 20).unwrap();
    st.move_item(&s("c"), &s("A"), &s("B"), 0).unwrap();
    st.delete_item(&s("a"), &s("A")).unwrap();
    st.create_item(s("f"), s("A"), Some(1), 21).unwrap();
    st.move_item(&s("e"), &s("B"), &s("B"), 7).unwrap();
    st.move_item(&s("d"), &s("A"), &s("A"), -3).unwrap();
    st.delete_item(&s("c"), &s("B")).unwrap();
    for scope in ["A", "B"] {
        assert_dense(&st, scope);
    }
    assert_eq!(st.list_ordered(&s("A")), ids(&["d", "b", "f"]));
    assert_eq!(st.list_ordered(&s("B")), ids(&["e"]));
}

#[test]
fn renumber_twice_gives_same_positions() {
    let mut st = store_with("A", &["a", "b", "c"]);
    st.set_position(&s("a"), 40).unwrap();
    st.set_position(&s("b"), 7).unwrap();
    st.set_position(&s("c"), 7).unwrap();
    st.renumber(&s("A"));
    let once = positions(&st, "A");
    let order_once = st.list_ordered(&s("A"));
    st.renumber(&s("A"));
    assert_eq!(positions(&st, "A"), once);
    assert_eq!(st.list_ordered(&s("A")), order_once);
    assert_eq!(order_once, ids(&["b", "c", "a"]));
    assert_eq!(once, vec![0, 1, 2]);
}

#[test]
fn equal_positions_are_read_in_creation_order() {
    let mut st = PositionStore::new();
    st.create_item(s("late"), s("A"), None, 50).unwrap();
    st.create_item(s("early"), s("A"), None, 10).unwrap();
    st.set_position(&s("late"), 3).unwrap();
    st.set_position(&s("early"), 3).unwrap();
    assert_eq!(st.list_ordered(&s("A")), ids(&["early", "late"]));
    st.renumber(&s("A"));
    assert_eq!(st.position(&s("early")), Some(0));
    assert_eq!(st.position(&s("late")), Some(1));
}

#[test]
fn gaps_are_closed_by_renumbering() {
    let mut st = store_with("A", &["a", "b", "c"]);
    st.set_position(&s("a"), 10).unwrap();
    st.set_position(&s("b"), 20).unwrap();
    st.set_position(&s("c"), 30).unwrap();
    st.renumber(&s("A"));
    assert_eq!(st.list_ordered(&s("A")), ids(&["a", "b", "c"]));
    assert_eq!(positions(&st, "A"), vec![0, 1, 2]);
}

#[test]
fn below_zero_moves_as_zero_and_past_end_as_append() {
    let run = |target: i64| {
        let mut st = store_with("A", &["a", "b", "c", "d"]);
        st.move_item(&s("c"), &s("A"), &s("A"), target).unwrap();
        st.list_ordered(&s("A"))
    };
    assert_eq!(run(-5), run(0));
    assert_eq!(run(-5), ids(&["c", "a", "b", "d"]));
    assert_eq!(run(999), run(4));
    assert_eq!(run(999), ids(&["a", "b", "d", "c"]));
}

#[test]
fn cross_move_clamps_into_destination() {
    let run = |target: i64| {
        let mut st = store_with("A", &["a"]);
        for (t, id) in ["w", "x", "y", "z"].iter().enumerate() {
            st.create_item(s(id), s("B"), None, 10 + t as u64).unwrap();
        }
        st.move_item(&s("a"), &s("A"), &s("B"), target).unwrap();
        st.list_ordered(&s("B"))
    };
    assert_eq!(run(-5), run(0));
    assert_eq!(run(-5), ids(&["a", "w", "x", "y", "z"]));
    assert_eq!(run(999), run(4));
    assert_eq!(run(999), ids(&["w", "x", "y", "z", "a"]));
}

#[test]
fn cross_move_leaves_source_and_enters_destination() {
    let mut st = store_with("A", &["a", "b", "c"]);
    st.create_item(s("d"), s("B"), None, 10).unwrap();
    st.move_item(&s("a"), &s("A"), &s("B"), 1).unwrap();
    let dest = st.list_ordered(&s("B"));
    assert_eq!(dest[1], s("a"));
    assert!(!st.list_ordered(&s("A")).contains(&s("a")));
    assert_dense(&st, "A");
    assert_dense(&st, "B");
}

#[test]
fn move_into_empty_scope() {
    let mut st = store_with("A", &["a", "b"]);
    st.move_item(&s("b"), &s("A"), &s("C"), 3).unwrap();
    assert_eq!(st.list_ordered(&s("C")), ids(&["b"]));
    assert_eq!(st.position(&s("b")), Some(0));
    assert_eq!(st.list_ordered(&s("A")), ids(&["a"]));
}

#[test]
fn move_to_current_index_keeps_order() {
    let mut st = store_with("A", &["a", "b", "c", "d"]);
    let before = positions(&st, "A");
    st.move_item(&s("c"), &s("A"), &s("A"), 2).unwrap();
    assert_eq!(st.list_ordered(&s("A")), ids(&["a", "b", "c", "d"]));
    assert_eq!(positions(&st, "A"), before);
}

#[test]
fn move_of_unknown_item_is_not_found() {
    let mut st = store_with("A", &["a"]);
    assert_eq!(
        st.move_item(&s("zz"), &s("A"), &s("A"), 0),
        Err(OrderError::NotFound)
    );
}

#[test]
fn move_from_wrong_scope_is_refused() {
    let mut st = store_with("A", &["a", "b"]);
    assert_eq!(
        st.move_item(&s("a"), &s("B"), &s("A"), 0),
        Err(OrderError::OwnershipViolation)
    );
    assert_eq!(st.list_ordered(&s("A")), ids(&["a", "b"]));
}

#[test]
fn delete_from_wrong_scope_is_refused() {
    let mut st = store_with("A", &["a"]);
    assert_eq!(
        st.delete_item(&s("a"), &s("B")),
        Err(OrderError::OwnershipViolation)
    );
    assert_eq!(st.delete_item(&s("q"), &s("A")), Err(OrderError::NotFound));
    assert_eq!(st.len(), 1);
}

#[test]
fn set_position_of_unknown_item_is_not_found() {
    let mut st = PositionStore::new();
    assert_eq!(st.set_position(&s("a"), 1), Err(OrderError::NotFound));
}

#[test]
fn other_scopes_are_untouched() {
    let mut st = store_with("A", &["a", "b"]);
    st.create_item(s("x"), s("X"), None, 30).unwrap();
    st.create_item(s("y"), s("X"), None, 31).unwrap();
    st.move_item(&s("b"), &s("A"), &s("A"), 0).unwrap();
    st.delete_item(&s("a"), &s("A")).unwrap();
    assert_eq!(st.list_ordered(&s("X")), ids(&["x", "y"]));
    assert_eq!(positions(&st, "X"), vec![0, 1]);
}
