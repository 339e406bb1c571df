//! Collective ordering of pies cut into equal pieces of several kinds: the
//! participant catalogue, the penalty model and the balancing engine that
//! decides how many whole pies to bake and who gets which pieces.

mod balancing;
mod communication;
mod kinds;
mod names;
mod orders;
mod penalty;
mod site;

pub use balancing::{balanced, column_sum, get_best, request_column};
pub use communication::{
    handle_package, ClientPackage, EditOrderResponse, FullOrderData, GetOrderResponse,
    MakeOrderResponse, Response, ServerPackage, SessionStep, SubscriptionResponse,
};
pub use kinds::{Distribution, OrderAmount, PizzaAmount, PizzaKind, PizzaKindArray, KIND_COUNT};
pub use names::compare_names;
pub use orders::{
    clamp_preference, lemma_change_sequence, lemma_valid_columns_fill_pies, FullOrder, Order, OrderInfo, OrderRequest,
    OrderState, OrderStateVersion, Preference, Price, PIECES_PER_WHOLE, PREFERENCE_SCALE,
};
pub use penalty::{
    calculate_cost, lemma_count_asymmetric, lemma_exact_allocation_costs_nothing,
    lemma_penalty_order_total, lemma_shape_symmetric, Penalty, TotalPenalty, EPSILON_INVERSE,
    PENALTY_SCALE,
};
pub use site::{ArchiveEntry, LockedStatus, PizzaConfig, WebSiteConfig, WebsiteStatus};
