use modulo::error::OrderError;
use modulo::order::{
    clamp_index, insert_position, move_across, move_within, plan_move, position_of, MovePlan,
};

fn ids(v: &[&str]) -> Vec<String> {
    v.iter().map(|x| x.to_string()).collect()
}

#[test]
fn clamp_index_bounds() {
    assert_eq!(clamp_index(-5, 4), 0);
    assert_eq!(clamp_index(0, 4), 0);
    assert_eq!(clamp_index(3, 4), 3);
    assert_eq!(clamp_index(4, 4), 4);
    assert_eq!(clamp_index(999, 4), 4);
    assert_eq!(clamp_index(i64::MAX, 0), 0);
    assert_eq!(clamp_index(i64::MIN, 0), 0);
}

#[test]
fn insert_position_defaults_to_append() {
    assert_eq!(insert_position(3, None), 3);
    assert_eq!(insert_position(3, Some(1)), 1);
    assert_eq!(insert_position(3, Some(-1)), 0);
    assert_eq!(insert_position(3, Some(10)), 3);
    assert_eq!(insert_position(0, None), 0);
}

#[test]
fn move_within_reorders() {
    assert_eq!(move_within(vec![1, 2, 3], 1, 0), vec![2, 1, 3]);
    assert_eq!(move_within(vec![1, 2, 3], 0, 2), vec![2, 3, 1]);
    assert_eq!(move_within(vec![1, 2, 3], 0, 99), vec![2, 3, 1]);
    assert_eq!(move_within(vec![1, 2, 3], 2, -4), vec![3, 1, 2]);
    assert_eq!(move_within(vec![1, 2, 3], 1, 1), vec![1, 2, 3]);
}

#[test]
fn move_across_splits() {
    let (a, b) = move_across(vec!['a', 'b', 'c'], 1, vec!['d', 'e'], 1);
    assert_eq!(a, vec!['a', 'c']);
    assert_eq!(b, vec!['d', 'b', 'e']);
    let (_, b) = move_across(vec!['a'], 0, vec![], -2);
    assert_eq!(b, vec!['a']);
}

#[test]
fn position_of_finds_first() {
    let v = ids(&["a", "b", "a"]);
    assert_eq!(position_of(&v, &"a".to_string()), Some(0));
    assert_eq!(position_of(&v, &"b".to_string()), Some(1));
    assert_eq!(position_of(&v, &"z".to_string()), None);
}

#[test]
fn plan_move_within_scope() {
    match plan_move(&"b".to_string(), ids(&["a", "b", "c"]), None, 0) {
        Ok(MovePlan::Within(o)) => assert_eq!(o, ids(&["b", "a", "c"])),
        _ => panic!("expected a plan within one scope"),
    }
}

#[test]
fn plan_move_across_scopes() {
    match plan_move(
        &"b".to_string(),
        ids(&["a", "b", "c"]),
        Some(ids(&["d", "e"])),
        1,
    ) {
        Ok(MovePlan::Across(src, dst)) => {
            assert_eq!(src, ids(&["a", "c"]));
            assert_eq!(dst, ids(&["d", "b", "e"]));
        }
        _ => panic!("expected a plan across scopes"),
    }
}

#[test]
fn plan_move_of_absent_item_is_not_found() {
    assert!(matches!(
        plan_move(&"x".to_string(), ids(&["a"]), None, 0),
        Err(OrderError::NotFound)
    ));
}
