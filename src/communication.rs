//! The frames exchanged with peers, and what a session does with each one.

use vstd::prelude::*;
use crate::kinds::{Distribution, PizzaAmount, PizzaKindArray};
use crate::names::name_lt;
use crate::orders::{
    added, edited, has_name, FullOrder, Order, OrderInfo, OrderRequest, OrderState,
    OrderStateVersion,
};

verus! {

/// Everything a fresh subscriber needs.
pub struct FullOrderData {
    pub version: OrderStateVersion,
    pub order_infos: Vec<OrderInfo>,
    pub orders: Vec<Order>,
    pub config: PizzaKindArray<PizzaAmount>,
    pub distributions: Vec<Distribution>,
    pub valid_distributions: bool,
}

/// Frames a client sends.
pub enum ClientPackage {
    MakeOrder(OrderRequest),
    EditOrder(OrderRequest),
    GetOrder(String),
    RequestAll,
    SubscribeUpdates,
    UnsubscribeUpdates,
}

/// Frames the server sends.
pub enum ServerPackage {
    Response(Response),
    Update {
        order: FullOrder,
        version: OrderStateVersion,
        config: PizzaKindArray<PizzaAmount>,
        distributions: Vec<Distribution>,
        distributions_valid: bool,
    },
    All(FullOrderData),
}

/// The answer to one request.
pub enum Response {
    MakeOrder(MakeOrderResponse),
    EditOrder(EditOrderResponse),
    GetOrder(GetOrderResponse),
    Subscription(SubscriptionResponse),
}

#[derive(Clone, Copy, Debug, PartialEq, Eq, Structural)]
pub enum MakeOrderResponse {
    Success,
    NameAlreadyRegistered,
}

#[derive(Clone, Copy, Debug, PartialEq, Eq, Structural)]
pub enum EditOrderResponse {
    Success,
    NameNotFound,
}

pub enum GetOrderResponse {
    Success(FullOrder),
    NameNotFound,
}

pub enum SubscriptionResponse {
    Success(FullOrderData),
    AlreadySubscribed,
}

/// `d` is a snapshot of `s`.
pub open spec fn snapshot_of(d: FullOrderData, s: OrderState) -> bool {
    &&& d.version == s.version
    &&& d.order_infos@ == s.order_infos@
    &&& d.orders@ == s.orders@
    &&& d.config == s.config
    &&& d.distributions@ == s.distributions@
    &&& d.valid_distributions == s.distributions_valid
}

/// `p` is the update frame announcing `full` in state `s`.
pub open spec fn update_of(p: ServerPackage, full: FullOrder, s: OrderState) -> bool {
    p matches ServerPackage::Update { order, version, config, distributions, distributions_valid }
        && order == full && version == s.version && config == s.config && distributions@
        == s.distributions@ && distributions_valid == s.distributions_valid
}

fn clone_infos(v: &Vec<OrderInfo>) -> (r: Vec<OrderInfo>)
    ensures
        r@ == v@,
{
    let mut r: Vec<OrderInfo> = Vec::new();
    let mut i: usize = 0;
    while i < v.len()
        invariant
            i <= v@.len(),
            r@ == v@.subrange(0, i as int),
        decreases v@.len() - i,
    {
        let info = &v[i];
        r.push(OrderInfo { name: info.name.clone(), has_paid: info.has_paid, price: info.price });
        assert(r@ =~= v@.subrange(0, i + 1));
        i = i + 1;
    }
    assert(v@.subrange(0, v@.len() as int) =~= v@);
    r
}

fn copy_vec<T: Copy>(v: &Vec<T>) -> (r: Vec<T>)
    ensures
        r@ == v@,
{
    let mut r: Vec<T> = Vec::new();
    let mut i: usize = 0;
    while i < v.len()
        invariant
            i <= v@.len(),
            r@ == v@.subrange(0, i as int),
        decreases v@.len() - i,
    {
        r.push(v[i]);
        assert(r@ =~= v@.subrange(0, i + 1));
        i = i + 1;
    }
    assert(v@.subrange(0, v@.len() as int) =~= v@);
    r
}

impl OrderState {
    /// A snapshot of the whole state.
    pub fn to_full_data(&self) -> (r: FullOrderData)
        ensures
            snapshot_of(r, *self),
    {
        FullOrderData {
            version: self.version,
            order_infos: clone_infos(&self.order_infos),
            orders: copy_vec(&self.orders),
            config: self.config,
            distributions: copy_vec(&self.distributions),
            valid_distributions: self.distributions_valid,
        }
    }

    /// Replays an update frame on a local copy of the state. False, with
    /// nothing changed, when the update does not directly follow the local
    /// version; the caller then asks for a full snapshot.
    pub fn apply_update(
        &mut self,
        order: FullOrder,
        version: OrderStateVersion,
        config: PizzaKindArray<PizzaAmount>,
        distributions: Vec<Distribution>,
        distributions_valid: bool,
    ) -> (r: bool)
        requires
            old(self).catalogue_wf(),
            old(self).orders@.len() < u32::MAX,
        ensures
            r == (old(self).version + 1 == version),
            !r ==> *final(self) == *old(self),
            r ==> {
                &&& final(self).catalogue_wf()
                &&& final(self).version == version
                &&& final(self).config == config
                &&& final(self).distributions@ == distributions@
                &&& final(self).distributions_valid == distributions_valid
                &&& has_name(old(self).order_infos@, order.info.name@) ==> exists|i: int|
                    0 <= i < old(self).orders@.len() && old(self).order_infos@[i].name@
                        == order.info.name@ && #[trigger] final(self).order_infos@
                        == old(self).order_infos@.update(i, order.info) && final(self).orders@
                        == old(self).orders@.update(i, order.order)
                &&& !has_name(old(self).order_infos@, order.info.name@) ==> exists|i: int|
                    0 <= i <= old(self).orders@.len() && #[trigger] final(self).order_infos@
                        == old(self).order_infos@.insert(i, order.info) && final(self).orders@
                        == old(self).orders@.insert(i, order.order)
            },
    {
        if version == 0 || self.version != version - 1 {
            return false;
        }
        let ghost old_infos = self.order_infos@;
        let ghost info = order.info;
        match self.find(&order.info.name) {
            Ok(index) => {
                self.order_infos.set(index, order.info);
                self.orders.set(index, order.order);
                proof {
                    assert forall|a: int, b: int| 0 <= a < b < self.order_infos@.len() implies name_lt(
                        #[trigger] self.order_infos@[a].name@,
                        #[trigger] self.order_infos@[b].name@,
                    ) by {
                        assert(name_lt(old_infos[a].name@, old_infos[b].name@));
                    }
                }
            },
            Err(index) => {
                self.order_infos.insert(index, order.info);
                self.orders.insert(index, order.order);
                proof {
                    assert forall|a: int, b: int| 0 <= a < b < self.order_infos@.len() implies name_lt(
                        #[trigger] self.order_infos@[a].name@,
                        #[trigger] self.order_infos@[b].name@,
                    ) by {
                        if a < index && b > index {
                            assert(name_lt(old_infos[a].name@, old_infos[b - 1].name@));
                        } else if a > index {
                            assert(name_lt(old_infos[a - 1].name@, old_infos[b - 1].name@));
                        } else if a == index {
                            assert(name_lt(info.name@, old_infos[b - 1].name@));
                        } else if b < index {
                            assert(name_lt(old_infos[a].name@, old_infos[b].name@));
                        }
                    }
                }
            },
        }
        self.config = config;
        self.distributions = distributions;
        self.distributions_valid = distributions_valid;
        self.version = version;
        true
    }

    /// The state a snapshot describes.
    pub fn from_full_data(all: FullOrderData) -> (r: Self)
        ensures
            snapshot_of(all, r),
    {
        OrderState {
            version: all.version,
            order_infos: all.order_infos,
            orders: all.orders,
            config: all.config,
            distributions: all.distributions,
            distributions_valid: all.valid_distributions,
        }
    }
}

/// What a session does with one inbound frame: the reply to its peer, the
/// update to publish to all subscribers, and whether it is subscribed after.
pub struct SessionStep {
    pub reply: Option<ServerPackage>,
    pub broadcast: Option<ServerPackage>,
    pub subscribed: bool,
}

/// The capacity the catalogue and its version leave for one more change.
pub open spec fn can_change(s: OrderState) -> bool {
    s.wf() && s.version < u64::MAX && s.orders@.len() < u32::MAX
}

/// Handles one inbound frame against the shared state. `subscribed` says
/// whether the session already relays updates.
pub fn handle_package(state: &mut OrderState, subscribed: bool, package: ClientPackage) -> (r:
    SessionStep)
    requires
        can_change(*old(state)),
    ensures
        final(state).wf(),
        match package {
            ClientPackage::MakeOrder(req) => if has_name(old(state).order_infos@, req.name@) {
                &&& *final(state) == *old(state)
                &&& r.reply matches Some(
                    ServerPackage::Response(Response::MakeOrder(MakeOrderResponse::NameAlreadyRegistered)),
                )
                &&& r.broadcast is None
                &&& r.subscribed == subscribed
            } else {
                &&& r.reply matches Some(
                    ServerPackage::Response(Response::MakeOrder(MakeOrderResponse::Success)),
                )
                &&& r.broadcast matches Some(u) && u matches ServerPackage::Update { order, .. }
                    && added(*old(state), *final(state), req.name, req.order, order) && update_of(
                    u,
                    order,
                    *final(state),
                )
                &&& r.subscribed == subscribed
            },
            ClientPackage::EditOrder(req) => if has_name(old(state).order_infos@, req.name@) {
                &&& r.reply matches Some(
                    ServerPackage::Response(Response::EditOrder(EditOrderResponse::Success)),
                )
                &&& r.broadcast matches Some(u) && u matches ServerPackage::Update { order, .. }
                    && edited(*old(state), *final(state), req.name, req.order, order) && update_of(
                    u,
                    order,
                    *final(state),
                )
                &&& r.subscribed == subscribed
            } else {
                &&& *final(state) == *old(state)
                &&& r.reply matches Some(
                    ServerPackage::Response(Response::EditOrder(EditOrderResponse::NameNotFound)),
                )
                &&& r.broadcast is None
                &&& r.subscribed == subscribed
            },
            ClientPackage::GetOrder(name) => {
                &&& *final(state) == *old(state)
                &&& r.broadcast is None
                &&& r.subscribed == subscribed
                &&& r.reply matches Some(ServerPackage::Response(Response::GetOrder(g)))
                &&& (g is NameNotFound <==> !has_name(old(state).order_infos@, name@))
                &&& g matches GetOrderResponse::Success(full) ==> exists|i: int|
                    0 <= i < old(state).orders@.len() && old(state).order_infos@[i].name@ == name@
                        && full == (FullOrder {
                        info: old(state).order_infos@[i],
                        order: old(state).orders@[i],
                        distribution: old(state).distributions@[i],
                    })
            },
            ClientPackage::RequestAll => {
                &&& *final(state) == *old(state)
                &&& r.broadcast is None
                &&& r.subscribed == subscribed
                &&& r.reply matches Some(ServerPackage::All(d)) && snapshot_of(d, *old(state))
            },
            ClientPackage::SubscribeUpdates => {
                &&& *final(state) == *old(state)
                &&& r.broadcast is None
                &&& r.subscribed
                &&& if subscribed {
                    r.reply matches Some(
                        ServerPackage::Response(
                            Response::Subscription(SubscriptionResponse::AlreadySubscribed),
                        ),
                    )
                } else {
                    r.reply matches Some(
                        ServerPackage::Response(Response::Subscription(SubscriptionResponse::Success(d))),
                    ) && snapshot_of(d, *old(state))
                }
            },
            ClientPackage::UnsubscribeUpdates => {
                &&& *final(state) == *old(state)
                &&& r.reply is None
                &&& r.broadcast is None
                &&& !r.subscribed
            },
        },
{
    match package {
        ClientPackage::MakeOrder(req) => match state.try_add_order(req.name, req.order) {
            Some(full) => {
                let update = ServerPackage::Update {
                    order: full,
                    version: state.version,
                    config: state.config,
                    distributions: copy_vec(&state.distributions),
                    distributions_valid: state.distributions_valid,
                };
                SessionStep {
                    reply: Some(ServerPackage::Response(Response::MakeOrder(MakeOrderResponse::Success))),
                    broadcast: Some(update),
                    subscribed,
                }
            },
            None => SessionStep {
                reply: Some(
                    ServerPackage::Response(
                        Response::MakeOrder(MakeOrderResponse::NameAlreadyRegistered),
                    ),
                ),
                broadcast: None,
                subscribed,
            },
        },
        ClientPackage::EditOrder(req) => match state.try_edit_order(req.name, req.order) {
            Some(full) => {
                let update = ServerPackage::Update {
                    order: full,
                    version: state.version,
                    config: state.config,
                    distributions: copy_vec(&state.distributions),
                    distributions_valid: state.distributions_valid,
                };
                SessionStep {
                    reply: Some(ServerPackage::Response(Response::EditOrder(EditOrderResponse::Success))),
                    broadcast: Some(update),
                    subscribed,
                }
            },
            None => SessionStep {
                reply: Some(
                    ServerPackage::Response(Response::EditOrder(EditOrderResponse::NameNotFound)),
                ),
                broadcast: None,
                subscribed,
            },
        },
        ClientPackage::GetOrder(name) => {
            let g = match state.get_order(&name) {
                Some(full) => GetOrderResponse::Success(full),
                None => GetOrderResponse::NameNotFound,
            };
            SessionStep {
                reply: Some(ServerPackage::Response(Response::GetOrder(g))),
                broadcast: None,
                subscribed,
            }
        },
        ClientPackage::RequestAll => SessionStep {
            reply: Some(ServerPackage::All(state.to_full_data())),
            broadcast: None,
            subscribed,
        },
        ClientPackage::SubscribeUpdates => {
            let reply = if subscribed {
                ServerPackage::Response(Response::Subscription(SubscriptionResponse::AlreadySubscribed))
            } else {
                ServerPackage::Response(
                    Response::Subscription(SubscriptionResponse::Success(state.to_full_data())),
                )
            };
            SessionStep { reply: Some(reply), broadcast: None, subscribed: true }
        },
        ClientPackage::UnsubscribeUpdates => SessionStep {
            reply: None,
            broadcast: None,
            subscribed: false,
        },
    }
}

} // verus!
