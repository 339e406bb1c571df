use pizza_bot::{
    handle_package, ClientPackage, EditOrderResponse, FullOrder, GetOrderResponse,
    MakeOrderResponse, Order, OrderInfo, OrderRequest, OrderState, PizzaKindArray, Price,
    Response, ServerPackage, SubscriptionResponse,
};

fn request(name: &str, amounts: [u32; 3]) -> OrderRequest {
    OrderRequest {
        name: name.to_string(),
        order: Order { amounts: PizzaKindArray(amounts), preference: 500 },
    }
}

#[test]
fn make_order_replies_and_publishes() {
    let mut state = OrderState::new(0);
    let step = handle_package(&mut state, false, ClientPackage::MakeOrder(request("ann", [15, 0, 0])));
    assert!(matches!(
        step.reply,
        Some(ServerPackage::Response(Response::MakeOrder(MakeOrderResponse::Success)))
    ));
    match step.broadcast {
        Some(ServerPackage::Update { order, version, config, distributions, distributions_valid }) => {
            assert_eq!(order.info.name, "ann");
            assert_eq!(version, 1);
            assert_eq!(config.0, [1, 0, 0]);
            assert_eq!(distributions.len(), 1);
            assert!(distributions_valid);
        },
        _ => panic!("expected an update"),
    }
    assert!(!step.subscribed);
}

#[test]
fn replayed_make_order_is_rejected() {
    let mut state = OrderState::new(0);
    handle_package(&mut state, false, ClientPackage::MakeOrder(request("ann", [15, 0, 0])));
    let step = handle_package(&mut state, false, ClientPackage::MakeOrder(request("ann", [15, 0, 0])));
    assert!(matches!(
        step.reply,
        Some(ServerPackage::Response(Response::MakeOrder(MakeOrderResponse::NameAlreadyRegistered)))
    ));
    assert!(step.broadcast.is_none());
    assert_eq!(state.version, 1);
    assert_eq!(state.orders.len(), 1);
}

#[test]
fn edit_of_unknown_name_is_rejected() {
    let mut state = OrderState::new(0);
    let step = handle_package(&mut state, true, ClientPackage::EditOrder(request("bob", [1, 0, 0])));
    assert!(matches!(
        step.reply,
        Some(ServerPackage::Response(Response::EditOrder(EditOrderResponse::NameNotFound)))
    ));
    assert!(step.broadcast.is_none());
    assert!(step.subscribed);
    assert_eq!(state.version, 0);
}

#[test]
fn get_order_of_unknown_name() {
    let mut state = OrderState::new(0);
    let step = handle_package(&mut state, false, ClientPackage::GetOrder("bob".to_string()));
    assert!(matches!(
        step.reply,
        Some(ServerPackage::Response(Response::GetOrder(GetOrderResponse::NameNotFound)))
    ));
}

#[test]
fn subscribe_twice() {
    let mut state = OrderState::new(3);
    let first = handle_package(&mut state, false, ClientPackage::SubscribeUpdates);
    match first.reply {
        Some(ServerPackage::Response(Response::Subscription(SubscriptionResponse::Success(d)))) => {
            assert_eq!(d.version, 3);
            assert!(d.orders.is_empty());
        },
        _ => panic!("expected a snapshot"),
    }
    assert!(first.subscribed);
    let second = handle_package(&mut state, true, ClientPackage::SubscribeUpdates);
    assert!(matches!(
        second.reply,
        Some(ServerPackage::Response(Response::Subscription(SubscriptionResponse::AlreadySubscribed)))
    ));
    assert!(second.subscribed);
    let third = handle_package(&mut state, true, ClientPackage::UnsubscribeUpdates);
    assert!(third.reply.is_none());
    assert!(!third.subscribed);
}

#[test]
fn request_all_returns_snapshot() {
    let mut state = OrderState::new(0);
    handle_package(&mut state, false, ClientPackage::MakeOrder(request("b", [8, 0, 0])));
    handle_package(&mut state, false, ClientPackage::MakeOrder(request("a", [7, 0, 0])));
    let step = handle_package(&mut state, false, ClientPackage::RequestAll);
    match step.reply {
        Some(ServerPackage::All(d)) => {
            assert_eq!(d.version, 2);
            assert_eq!(d.order_infos.len(), 2);
            assert_eq!(d.order_infos[0].name, "a");
            assert_eq!(d.config.0, [1, 0, 0]);
            assert!(d.valid_distributions);
            let copy = OrderState::from_full_data(d);
            assert_eq!(copy.version, 2);
        },
        _ => panic!("expected a snapshot"),
    }
}

#[test]
fn client_replays_contiguous_updates_only() {
    let mut local = OrderState::new(4);
    let full = FullOrder {
        info: OrderInfo { name: "kim".to_string(), has_paid: false, price: Price { cents: 0 } },
        order: Order { amounts: PizzaKindArray([15, 0, 0]), preference: 500 },
        distribution: PizzaKindArray([15, 0, 0]),
    };
    let gap = local.apply_update(full.clone_for_test(), 6, PizzaKindArray([1, 0, 0]), vec![PizzaKindArray([15, 0, 0])], true);
    assert!(!gap);
    assert_eq!(local.version, 4);
    assert!(local.orders.is_empty());
    let next = local.apply_update(full.clone_for_test(), 5, PizzaKindArray([1, 0, 0]), vec![PizzaKindArray([15, 0, 0])], true);
    assert!(next);
    assert_eq!(local.version, 5);
    assert_eq!(local.order_infos[0].name, "kim");
    assert_eq!(local.config.0, [1, 0, 0]);
}

trait CloneForTest {
    fn clone_for_test(&self) -> Self;
}

impl CloneForTest for FullOrder {
    fn clone_for_test(&self) -> Self {
        FullOrder { info: self.info.clone(), order: self.order, distribution: self.distribution }
    }
}
