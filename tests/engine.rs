use pizza_bot::{
    calculate_cost, get_best, Order, Penalty, PizzaKindArray, TotalPenalty, PIECES_PER_WHOLE,
};

fn order(amounts: [u32; 3], preference: i32) -> Order {
    Order { amounts: PizzaKindArray(amounts), preference }
}

fn column(distributions: &[PizzaKindArray<u64>], k: usize) -> u64 {
    distributions.iter().map(|d| d.0[k]).sum()
}

#[test]
fn single_full_pie_is_returned_verbatim() {
    let requests = vec![order([15, 0, 0], 500)];
    let (penalty, config, distributions, valid) = get_best(PIECES_PER_WHOLE, &requests);
    assert!(valid);
    assert_eq!(config.0, [1, 0, 0]);
    assert_eq!(distributions.len(), 1);
    assert_eq!(distributions[0].0, [15, 0, 0]);
    assert!(penalty.worst == Penalty::Finite(0));
    assert!(penalty.average == Penalty::Finite(0));
}

#[test]
fn two_requests_filling_one_pie() {
    let requests = vec![order([8, 0, 0], 500), order([7, 0, 0], 500)];
    let (_, config, distributions, valid) = get_best(PIECES_PER_WHOLE, &requests);
    assert!(valid);
    assert_eq!(config.0, [1, 0, 0]);
    assert_eq!(distributions[0].0, [8, 0, 0]);
    assert_eq!(distributions[1].0, [7, 0, 0]);
}

#[test]
fn twenty_pieces_round_to_the_cheaper_total() {
    let requests = vec![order([10, 0, 0], 500), order([10, 0, 0], 500)];
    let (penalty, config, distributions, valid) = get_best(PIECES_PER_WHOLE, &requests);
    assert!(valid);
    // Losing five pieces is cheaper than forcing ten extra on two people.
    assert_eq!(config.0, [1, 0, 0]);
    assert_eq!(column(&distributions, 0), 15);
    assert_eq!(column(&distributions, 1), 0);
    assert_eq!(column(&distributions, 2), 0);
    assert!(distributions.iter().all(|d| d.0[0] <= 10));
    // Equal penalties go to the lower index first: A gives up the odd piece.
    assert_eq!(distributions[0].0, [7, 0, 0]);
    assert_eq!(distributions[1].0, [8, 0, 0]);
    assert!(!penalty.worst.is_infinite());
}

#[test]
fn count_heavy_request_keeps_its_total() {
    let requests = vec![order([5, 5, 5], 1000)];
    let (_, config, distributions, valid) = get_best(PIECES_PER_WHOLE, &requests);
    assert!(valid);
    // Each kind must fill whole pies, so the fifteen pieces are kept in total.
    let d = distributions[0].0;
    assert_eq!(d[0] + d[1] + d[2], 15);
    assert_eq!(config.0[0] + config.0[1] + config.0[2], 1);
    for k in 0..3 {
        assert_eq!(column(&distributions, k), 15 * config.0[k]);
    }
}

#[test]
fn shape_heavy_request_cannot_fill_whole_pies() {
    let requests = vec![order([5, 5, 5], 0)];
    let (penalty, config, distributions, valid) = get_best(PIECES_PER_WHOLE, &requests);
    // Keeping the shape exactly needs a multiple of three pieces per kind
    // moved together, which never reaches whole pies of every kind.
    assert!(!valid);
    assert_eq!(config.0, [0, 0, 0]);
    assert_eq!(distributions[0].0, [0, 0, 0]);
    assert!(penalty.worst.is_infinite());
}

#[test]
fn three_single_pieces_are_not_distributable() {
    let requests = vec![order([1, 0, 0], 500), order([1, 0, 0], 500), order([1, 0, 0], 500)];
    let (penalty, config, distributions, valid) = get_best(PIECES_PER_WHOLE, &requests);
    assert!(!valid);
    assert_eq!(config.0, [0, 0, 0]);
    assert_eq!(distributions.len(), 3);
    assert!(distributions.iter().all(|d| d.0 == [0, 0, 0]));
    assert!(penalty.worst.is_infinite() && penalty.average.is_infinite());
}

#[test]
fn empty_participant_list() {
    let requests: Vec<Order> = Vec::new();
    let (penalty, config, distributions, valid) = get_best(PIECES_PER_WHOLE, &requests);
    assert!(valid);
    assert_eq!(config.0, [0, 0, 0]);
    assert!(distributions.is_empty());
    assert!(penalty.worst == Penalty::Finite(0));
    assert!(penalty.average == Penalty::Finite(0));
}

#[test]
fn evenly_divisible_request_is_kept() {
    let requests = vec![order([15, 30, 0], 200)];
    let (penalty, config, distributions, valid) = get_best(PIECES_PER_WHOLE, &requests);
    assert!(valid);
    assert_eq!(config.0, [1, 2, 0]);
    assert_eq!(distributions[0].0, [15, 30, 0]);
    assert!(penalty.worst == Penalty::Finite(0));
}

#[test]
fn columns_match_whole_pies() {
    let requests = vec![
        order([4, 2, 0], 500),
        order([3, 3, 3], 700),
        order([0, 6, 2], 300),
        order([5, 0, 1], 500),
    ];
    let (_, config, distributions, valid) = get_best(PIECES_PER_WHOLE, &requests);
    assert!(valid);
    for k in 0..3 {
        assert_eq!(column(&distributions, k), 15 * config.0[k]);
    }
}

#[test]
fn exact_allocation_costs_nothing() {
    let o = order([3, 7, 1], 400);
    assert!(calculate_cost(&o, PizzaKindArray([3, 7, 1])) == Penalty::Finite(0));
    let empty = order([0, 0, 0], 400);
    assert!(calculate_cost(&empty, PizzaKindArray([0, 0, 0])) == Penalty::Finite(0));
}

#[test]
fn under_delivery_cost_value() {
    // 1/9 of a piece short, times the count weight 1.01, in millionths.
    let o = order([10, 0, 0], 500);
    assert!(calculate_cost(&o, PizzaKindArray([9, 0, 0])) == Penalty::Finite(112_222));
}

#[test]
fn over_delivery_cost_value() {
    // 19 / 181 times the count weight 1.01, in millionths.
    let o = order([10, 0, 0], 500);
    assert!(calculate_cost(&o, PizzaKindArray([11, 0, 0])) == Penalty::Finite(106_022));
}

#[test]
fn nothing_left_is_unbounded() {
    let o = order([1, 0, 0], 500);
    assert!(calculate_cost(&o, PizzaKindArray([0, 0, 0])).is_infinite());
    let none = order([0, 0, 0], 500);
    assert!(calculate_cost(&none, PizzaKindArray([1, 0, 0])).is_infinite());
}

#[test]
fn shape_cost_is_symmetric() {
    let a = calculate_cost(&order([2, 1, 0], 500), PizzaKindArray([1, 2, 0]));
    let b = calculate_cost(&order([1, 2, 0], 500), PizzaKindArray([2, 1, 0]));
    assert!(a == b);
    assert!(!a.is_infinite());
    assert!(a != Penalty::Finite(0));
}

#[test]
fn count_cost_is_asymmetric() {
    let over = calculate_cost(&order([2, 0, 0], 500), PizzaKindArray([3, 0, 0]));
    let under = calculate_cost(&order([3, 0, 0], 500), PizzaKindArray([2, 0, 0]));
    assert!(over != under);
}

#[test]
fn count_only_preference_forbids_count_changes() {
    let o = order([4, 4, 4], 1000);
    assert!(calculate_cost(&o, PizzaKindArray([5, 4, 4])).is_infinite());
    assert!(!calculate_cost(&o, PizzaKindArray([5, 3, 4])).is_infinite());
}

#[test]
fn penalty_pair_order() {
    let a = TotalPenalty { worst: Penalty::Finite(10), average: Penalty::Finite(30) };
    let b = TotalPenalty { worst: Penalty::Finite(12), average: Penalty::Finite(5) };
    let c = TotalPenalty { worst: Penalty::Finite(10), average: Penalty::Finite(20) };
    // 9 * 10 + 30 = 120 against 9 * 12 + 5 = 113.
    assert!(b.is_better_than(&a));
    assert!(!a.is_better_than(&b));
    assert!(c.is_better_than(&a));
    assert!(!a.is_better_than(&a));
    assert!(a.is_better_than(&TotalPenalty::unbounded()));
    assert!(a.total() == Penalty::Finite(120));
}

#[test]
fn penalty_pair_add() {
    let mut p = TotalPenalty::zero();
    p.add(7);
    p.add(3);
    assert!(p.worst == Penalty::Finite(7));
    assert!(p.average == Penalty::Finite(10));
    let mut q = TotalPenalty { worst: Penalty::Finite(1), average: Penalty::Finite(u128::MAX - 1) };
    q.add(5);
    assert!(q.average == Penalty::Finite(u128::MAX));
}
