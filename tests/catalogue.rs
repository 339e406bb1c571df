use pizza_bot::{
    clamp_preference, compare_names, Order, OrderState, PizzaKind, PizzaKindArray,
};
use std::cmp::Ordering;

fn order(amounts: [u32; 3], preference: i32) -> Order {
    Order { amounts: PizzaKindArray(amounts), preference }
}

fn names(state: &OrderState) -> Vec<String> {
    state.order_infos.iter().map(|i| i.name.clone()).collect()
}

#[test]
fn names_stay_sorted_and_lists_aligned() {
    let mut state = OrderState::new(0);
    for name in ["mia", "bob", "zoe", "anna", "carl"] {
        assert!(state.try_add_order(name.to_string(), order([3, 1, 0], 500)).is_some());
    }
    assert!(state.try_edit_order("bob".to_string(), order([0, 4, 4], 500)).is_some());
    assert_eq!(names(&state), vec!["anna", "bob", "carl", "mia", "zoe"]);
    assert_eq!(state.orders.len(), 5);
    assert_eq!(state.distributions.len(), 5);
    assert_eq!(state.orders[1].amounts.0, [0, 4, 4]);
}

#[test]
fn version_counts_successful_changes() {
    let mut state = OrderState::new(7);
    assert!(state.try_add_order("a".to_string(), order([1, 0, 0], 500)).is_some());
    assert!(state.try_add_order("b".to_string(), order([1, 0, 0], 500)).is_some());
    assert!(state.try_edit_order("a".to_string(), order([2, 0, 0], 500)).is_some());
    assert!(state.try_edit_order("nobody".to_string(), order([2, 0, 0], 500)).is_none());
    assert!(state.try_add_order("b".to_string(), order([2, 0, 0], 500)).is_none());
    assert_eq!(state.version, 10);
}

#[test]
fn duplicate_name_leaves_state_unchanged() {
    let mut state = OrderState::new(0);
    assert!(state.try_add_order("ada".to_string(), order([8, 0, 0], 500)).is_some());
    let before_version = state.version;
    let before_orders: Vec<[u32; 3]> = state.orders.iter().map(|o| o.amounts.0).collect();
    let before_config = state.config.0;
    assert!(state.try_add_order("ada".to_string(), order([1, 1, 1], 900)).is_none());
    assert_eq!(state.version, before_version);
    assert_eq!(state.orders.iter().map(|o| o.amounts.0).collect::<Vec<_>>(), before_orders);
    assert_eq!(state.config.0, before_config);
    assert_eq!(state.orders[0].preference, 500);
}

#[test]
fn added_order_is_clamped_and_reset() {
    let mut state = OrderState::new(0);
    let full = state.try_add_order("eve".to_string(), order([15, 0, 0], 4000)).unwrap();
    assert_eq!(full.order.preference, 1000);
    assert_eq!(full.info.name, "eve");
    assert!(!full.info.has_paid);
    assert_eq!(full.info.price.cents, 0);
    assert_eq!(full.distribution.0, [15, 0, 0]);
    assert_eq!(state.config.0, [1, 0, 0]);
    assert!(state.distributions_valid);
}

#[test]
fn edit_resets_payment() {
    let mut state = OrderState::new(0);
    state.try_add_order("eve".to_string(), order([15, 0, 0], 500)).unwrap();
    state.order_infos[0].has_paid = true;
    state.order_infos[0].price.cents = 450;
    let full = state.try_edit_order("eve".to_string(), order([0, 15, 0], -3)).unwrap();
    assert!(!full.info.has_paid);
    assert_eq!(full.info.price.cents, 0);
    assert_eq!(full.order.preference, 0);
    assert_eq!(state.config.0, [0, 1, 0]);
}

#[test]
fn get_order_finds_by_name() {
    let mut state = OrderState::new(0);
    state.try_add_order("b".to_string(), order([8, 0, 0], 500)).unwrap();
    state.try_add_order("a".to_string(), order([7, 0, 0], 500)).unwrap();
    let full = state.get_order(&"b".to_string()).unwrap();
    assert_eq!(full.order.amounts.0, [8, 0, 0]);
    assert_eq!(full.distribution.0, [8, 0, 0]);
    assert!(state.get_order(&"c".to_string()).is_none());
    assert_eq!(state.find(&"a".to_string()), Ok(0));
    assert_eq!(state.find(&"ab".to_string()), Err(1));
}

#[test]
fn names_compare_bytewise() {
    assert_eq!(compare_names(&"abc".to_string(), &"abd".to_string()), Ordering::Less);
    assert_eq!(compare_names(&"ab".to_string(), &"abc".to_string()), Ordering::Less);
    assert_eq!(compare_names(&"b".to_string(), &"abc".to_string()), Ordering::Greater);
    assert_eq!(compare_names(&"Zed".to_string(), &"ann".to_string()), Ordering::Less);
    assert_eq!(compare_names(&"é".to_string(), &"é".to_string()), Ordering::Equal);
    assert_eq!(compare_names(&"".to_string(), &"a".to_string()), Ordering::Less);
}

#[test]
fn preference_is_clamped() {
    assert_eq!(clamp_preference(-5), 0);
    assert_eq!(clamp_preference(1500), 1000);
    assert_eq!(clamp_preference(250), 250);
}

#[test]
fn kind_vector_operations() {
    let a = PizzaKindArray([1u32, 2, 3]);
    assert_eq!(a.sum(), 6);
    assert_eq!(a.map(|x| x * 2).0, [2, 4, 6]);
    assert_eq!(a.zip_map(PizzaKindArray([10u32, 20, 30]), |x, y| x + y).0, [11, 22, 33]);
    assert_eq!(a.reduce(|x, y| if x > y { x } else { y }), 3);
    assert_eq!(PizzaKindArray::splat(4u8).0, [4, 4, 4]);
    let mut b = PizzaKindArray([1u64, 1, 1]);
    for v in b.iter_mut().iter_mut() {
        *v += 1;
    }
    assert_eq!(b.sum(), 6);
    assert_eq!(PizzaKind::Vegan.index(), 2);
    assert_eq!(PizzaKind::Meat.index(), 0);
}
