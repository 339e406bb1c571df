//! Participants, their requests, and the versioned catalogue.

use vstd::prelude::*;
use crate::balancing::{balanced, column_sum, get_best};
use crate::kinds::{Distribution, OrderAmount, PizzaAmount, PizzaKindArray};
use crate::names::{compare_names, lemma_bytes_lt_irreflexive, lemma_bytes_lt_total, lemma_bytes_lt_transitive, name_key, name_lt};
use crate::penalty::TotalPenalty;
use std::cmp::Ordering;

verus! {

/// Version counter of the catalogue.
pub type OrderStateVersion = u64;

/// How much a participant cares about the total count against the shape,
/// in thousandths: 0 means only the shape matters, 1000 only the count.
pub type Preference = i32;

/// The preference that stands for "count only" (one whole).
pub const PREFERENCE_SCALE: i32 = 1000;

/// A preference brought into `[0, PREFERENCE_SCALE]`.
pub open spec fn clamped(p: int) -> int {
    if p < 0 {
        0
    } else if p > PREFERENCE_SCALE {
        PREFERENCE_SCALE as int
    } else {
        p
    }
}

/// Brings a preference into `[0, PREFERENCE_SCALE]`.
pub fn clamp_preference(p: Preference) -> (r: Preference)
    ensures
        r == clamped(p as int),
{
    if p < 0 {
        0
    } else if p > PREFERENCE_SCALE {
        PREFERENCE_SCALE
    } else {
        p
    }
}

/// A price in cents.
#[derive(Clone, Copy, PartialEq, Eq, Structural)]
pub struct Price {
    pub cents: u64,
}

/// What a participant asks for: pieces of each kind and a preference.
#[derive(Clone, Copy)]
pub struct Order {
    pub amounts: PizzaKindArray<OrderAmount>,
    pub preference: Preference,
}

/// The bookkeeping of one participant.
#[derive(Clone)]
pub struct OrderInfo {
    pub name: String,
    pub has_paid: bool,
    pub price: Price,
}

/// A named request, as a client sends it.
pub struct OrderRequest {
    pub name: String,
    pub order: Order,
}

/// Everything known of one participant.
pub struct FullOrder {
    pub info: OrderInfo,
    pub order: Order,
    pub distribution: Distribution,
}

/// Pieces in one whole pie.
pub const PIECES_PER_WHOLE: u32 = 15;

/// The order with its preference clamped, as it is stored.
pub open spec fn clamp_order(o: Order) -> Order {
    Order { amounts: o.amounts, preference: clamped(o.preference as int) as i32 }
}

/// The bookkeeping of a participant who has just placed or changed an order.
pub open spec fn fresh_info(name: String) -> OrderInfo {
    OrderInfo { name: name, has_paid: false, price: Price { cents: 0 } }
}

/// Names strictly ascending.
pub open spec fn names_ascending(infos: Seq<OrderInfo>) -> bool {
    forall|i: int, j: int| 0 <= i < j < infos.len() ==> name_lt(#[trigger] infos[i].name@, #[trigger] infos[j].name@)
}

/// Some participant has this name.
pub open spec fn has_name(infos: Seq<OrderInfo>, name: Seq<char>) -> bool {
    exists|i: int| 0 <= i < infos.len() && #[trigger] infos[i].name@ == name
}

/// The catalogue of participants, sorted by name, with the last balancing
/// result and a version that every change increments.
pub struct OrderState {
    pub version: OrderStateVersion,
    pub order_infos: Vec<OrderInfo>,
    pub orders: Vec<Order>,
    pub config: PizzaKindArray<PizzaAmount>,
    pub distributions: Vec<Distribution>,
    pub distributions_valid: bool,
}

fn clone_info(info: &OrderInfo) -> (r: OrderInfo)
    ensures
        r == *info,
{
    OrderInfo { name: info.name.clone(), has_paid: info.has_paid, price: info.price }
}

impl OrderState {
    /// The three lists are aligned and the names strictly ascending.
    pub open spec fn wf(&self) -> bool {
        &&& self.catalogue_wf()
        &&& self.distributions@.len() == self.orders@.len()
    }

    /// The participants' bookkeeping and orders are aligned, and the names
    /// strictly ascending.
    pub open spec fn catalogue_wf(&self) -> bool {
        &&& self.order_infos@.len() == self.orders@.len()
        &&& self.orders@.len() <= u32::MAX
        &&& names_ascending(self.order_infos@)
    }

    /// The whole counts, allocations and flag are what the balancing engine
    /// gives for the current orders.
    pub open spec fn is_balanced(&self) -> bool {
        exists|p: TotalPenalty|
            #[trigger] balanced(
                PIECES_PER_WHOLE as int,
                self.orders@,
                p,
                self.config@,
                self.distributions@,
                self.distributions_valid,
            )
    }

    /// An empty catalogue at the given version.
    pub fn new(version: OrderStateVersion) -> (r: Self)
        ensures
            r.wf(),
            r.is_balanced(),
            r.version == version,
            r.orders@.len() == 0,
            r.distributions_valid,
            r.config@ == seq![0u64, 0u64, 0u64],
    {
        let r = OrderState {
            version,
            order_infos: Vec::new(),
            orders: Vec::new(),
            config: PizzaKindArray([0, 0, 0]),
            distributions: Vec::new(),
            distributions_valid: true,
        };
        let ghost p = TotalPenalty { worst: crate::penalty::Penalty::Finite(0), average: crate::penalty::Penalty::Finite(0) };
        assert(r.config@ =~= seq![0u64, 0u64, 0u64]);
        assert(balanced(PIECES_PER_WHOLE as int, r.orders@, p, r.config@, r.distributions@, r.distributions_valid));
        assert(r.is_balanced());
        r
    }

    /// Binary search by name: `Ok` with the participant's index, or `Err` with
    /// the index at which the name would keep the list sorted.
    pub fn find(&self, name: &String) -> (r: Result<usize, usize>)
        requires
            self.catalogue_wf(),
        ensures
            r matches Ok(i) ==> i < self.order_infos@.len() && self.order_infos@[i as int].name@ == name@,
            r matches Err(i) ==> {
                &&& i <= self.order_infos@.len()
                &&& !has_name(self.order_infos@, name@)
                &&& forall|j: int| 0 <= j < i ==> name_lt(#[trigger] self.order_infos@[j].name@, name@)
                &&& forall|j: int| i <= j < self.order_infos@.len() ==> name_lt(name@, #[trigger] self.order_infos@[j].name@)
            },
    {
        let infos = &self.order_infos;
        let mut lo: usize = 0;
        let mut hi: usize = infos.len();
        while lo < hi
            invariant
                self.catalogue_wf(),
                infos == &self.order_infos,
                lo <= hi <= infos@.len(),
                forall|j: int| 0 <= j < lo ==> name_lt(#[trigger] infos@[j].name@, name@),
                forall|j: int| hi <= j < infos@.len() ==> !name_lt(#[trigger] infos@[j].name@, name@),
            decreases hi - lo,
        {
            let mid = lo + (hi - lo) / 2;
            match compare_names(&infos[mid].name, name) {
                Ordering::Less => {
                    proof {
                        assert forall|j: int| 0 <= j <= mid implies name_lt(#[trigger] infos@[j].name@, name@) by {
                            if j < mid {
                                assert(name_lt(infos@[j].name@, infos@[mid as int].name@));
                                lemma_bytes_lt_transitive(name_key(infos@[j].name@), name_key(infos@[mid as int].name@), name_key(name@));
                            }
                        }
                    }
                    lo = mid + 1;
                },
                Ordering::Equal => {
                    return Ok(mid);
                },
                Ordering::Greater => {
                    proof {
                        assert forall|j: int| mid <= j < infos@.len() implies !name_lt(#[trigger] infos@[j].name@, name@) by {
                            if j > mid {
                                assert(name_lt(infos@[mid as int].name@, infos@[j].name@));
                                if name_lt(infos@[j].name@, name@) {
                                    lemma_bytes_lt_transitive(name_key(infos@[mid as int].name@), name_key(infos@[j].name@), name_key(name@));
                                    lemma_bytes_lt_transitive(name_key(name@), name_key(infos@[mid as int].name@), name_key(name@));
                                    lemma_bytes_lt_irreflexive(name_key(name@));
                                }
                            } else {
                                lemma_bytes_lt_irreflexive(name_key(name@));
                                if name_lt(infos@[j].name@, name@) {
                                    lemma_bytes_lt_transitive(name_key(name@), name_key(infos@[j].name@), name_key(name@));
                                }
                            }
                        }
                    }
                    hi = mid;
                },
            }
        }
        if lo < infos.len() {
            if let Ordering::Equal = compare_names(&infos[lo].name, name) {
                return Ok(lo);
            }
        }
        proof {
            assert forall|j: int| lo <= j < infos@.len() implies name_lt(name@, #[trigger] infos@[j].name@) by {
                lemma_bytes_lt_total(name_key(infos@[lo as int].name@), name_key(name@));
                if name_key(infos@[lo as int].name@) == name_key(name@) {
                    crate::names::lemma_name_key_injective(infos@[lo as int].name@, name@);
                }
                if j > lo {
                    assert(name_lt(infos@[lo as int].name@, infos@[j].name@));
                    lemma_bytes_lt_transitive(name_key(name@), name_key(infos@[lo as int].name@), name_key(infos@[j].name@));
                }
            }
            assert forall|j: int| 0 <= j < infos@.len() implies #[trigger] infos@[j].name@ != name@ by {
                lemma_bytes_lt_irreflexive(name_key(name@));
            }
        }
        Err(lo)
    }

    /// Reruns the balancing engine on the current orders and increments the version.
    pub fn finalize_update(&mut self)
        requires
            old(self).catalogue_wf(),
            old(self).version < u64::MAX,
        ensures
            final(self).wf(),
            final(self).is_balanced(),
            final(self).version == old(self).version + 1,
            final(self).order_infos == old(self).order_infos,
            final(self).orders == old(self).orders,
    {
        let (pen, config, distributions, valid) = get_best(PIECES_PER_WHOLE, &self.orders);
        self.config = config;
        self.distributions = distributions;
        self.distributions_valid = valid;
        self.version = self.version + 1;
        assert(balanced(PIECES_PER_WHOLE as int, self.orders@, pen, self.config@, self.distributions@, self.distributions_valid));
    }

    /// Adds a participant, unless the name is taken. The preference is
    /// clamped, the participant starts unpaid at price zero, and the
    /// balancing engine is rerun.
    pub fn try_add_order(&mut self, name: String, order: Order) -> (r: Option<FullOrder>)
        requires
            old(self).wf(),
            old(self).version < u64::MAX,
            old(self).orders@.len() < u32::MAX,
        ensures
            has_name(old(self).order_infos@, name@) ==> r is None && *final(self) == *old(self),
            !has_name(old(self).order_infos@, name@) ==> (r matches Some(full) && added(
                *old(self),
                *final(self),
                name,
                order,
                full,
            )),
    {
        match self.find(&name) {
            Ok(_) => None,
            Err(index) => {
                let order = Order { preference: clamp_preference(order.preference), ..order };
                let ghost info = fresh_info(name);
                let ghost old_infos = self.order_infos@;
                self.order_infos.insert(index, OrderInfo { name, has_paid: false, price: Price { cents: 0 } });
                self.orders.insert(index, order);
                proof {
                    assert forall|a: int, b: int| 0 <= a < b < self.order_infos@.len() implies name_lt(
                        #[trigger] self.order_infos@[a].name@,
                        #[trigger] self.order_infos@[b].name@,
                    ) by {
                        if a < index && b > index {
                            assert(name_lt(old_infos[a].name@, old_infos[b - 1].name@));
                        } else if a > index {
                            assert(name_lt(old_infos[a - 1].name@, old_infos[b - 1].name@));
                        } else if a == index {
                            assert(name_lt(info.name@, old_infos[b - 1].name@));
                        } else if b < index {
                            assert(name_lt(old_infos[a].name@, old_infos[b].name@));
                        }
                    }
                }
                self.finalize_update();
                let full = FullOrder {
                    info: clone_info(&self.order_infos[index]),
                    order,
                    distribution: self.distributions[index],
                };
                assert(self.orders@ == old(self).orders@.insert(index as int, clamp_order(order)));
                Some(full)
            },
        }
    }

    /// Replaces a participant's order, if the name is known. The preference
    /// is clamped, the participant is reset to unpaid at price zero, and the
    /// balancing engine is rerun.
    pub fn try_edit_order(&mut self, name: String, order: Order) -> (r: Option<FullOrder>)
        requires
            old(self).wf(),
            old(self).version < u64::MAX,
        ensures
            !has_name(old(self).order_infos@, name@) ==> r is None && *final(self) == *old(self),
            has_name(old(self).order_infos@, name@) ==> (r matches Some(full) && edited(
                *old(self),
                *final(self),
                name,
                order,
                full,
            )),
    {
        match self.find(&name) {
            Ok(index) => {
                let new_order = Order { preference: clamp_preference(order.preference), ..order };
                let ghost old_infos = self.order_infos@;
                let ghost info = fresh_info(name);
                self.order_infos.set(index, OrderInfo { name, has_paid: false, price: Price { cents: 0 } });
                self.orders.set(index, new_order);
                proof {
                    assert forall|a: int, b: int| 0 <= a < b < self.order_infos@.len() implies name_lt(
                        #[trigger] self.order_infos@[a].name@,
                        #[trigger] self.order_infos@[b].name@,
                    ) by {
                        assert(name_lt(old_infos[a].name@, old_infos[b].name@));
                    }
                }
                self.finalize_update();
                let full = FullOrder {
                    info: clone_info(&self.order_infos[index]),
                    order: new_order,
                    distribution: self.distributions[index],
                };
                assert(self.order_infos@ == old(self).order_infos@.update(index as int, info));
                assert(self.orders@ == old(self).orders@.update(index as int, clamp_order(order)));
                Some(full)
            },
            Err(_) => None,
        }
    }

    /// Everything known of the named participant.
    pub fn get_order(&self, name: &String) -> (r: Option<FullOrder>)
        requires
            self.wf(),
        ensures
            r is Some == has_name(self.order_infos@, name@),
            r matches Some(full) ==> exists|i: int|
                0 <= i < self.orders@.len() && self.order_infos@[i].name@ == name@ && full == (
                FullOrder {
                    info: self.order_infos@[i],
                    order: self.orders@[i],
                    distribution: self.distributions@[i],
                }),
    {
        match self.find(name) {
            Ok(index) => Some(
                FullOrder {
                    info: clone_info(&self.order_infos[index]),
                    order: self.orders[index],
                    distribution: self.distributions[index],
                },
            ),
            Err(_) => None,
        }
    }
}

/// In a balanced state marked valid, the pieces of each kind handed out add
/// up to exactly the whole pies of that kind.
pub proof fn lemma_valid_columns_fill_pies(s: OrderState)
    requires
        s.is_balanced(),
        s.distributions_valid,
    ensures
        forall|k: int|
            0 <= k < 3 ==> #[trigger] column_sum(s.distributions@, k) == PIECES_PER_WHOLE * s.config@[k],
{
    let p = choose|p: TotalPenalty|
        #[trigger] balanced(
            PIECES_PER_WHOLE as int,
            s.orders@,
            p,
            s.config@,
            s.distributions@,
            s.distributions_valid,
        );
}

/// `new` follows `old` by one successful add or edit.
pub open spec fn changed(old: OrderState, new: OrderState) -> bool {
    exists|name: String, order: Order, full: FullOrder|
        added(old, new, name, order, full) || edited(old, new, name, order, full)
}

/// Along any run of successful adds and edits, every state keeps its names
/// strictly ascending and its lists aligned, and the version moves by exactly
/// the number of changes.
pub proof fn lemma_change_sequence(states: Seq<OrderState>)
    requires
        states.len() >= 1,
        states[0].wf(),
        forall|i: int| 0 <= i < states.len() - 1 ==> changed(#[trigger] states[i], states[i + 1]),
    ensures
        forall|i: int| 0 <= i < states.len() ==> (#[trigger] states[i]).wf(),
        states.last().version == states[0].version + states.len() - 1,
    decreases states.len(),
{
    if states.len() > 1 {
        let prefix = states.drop_last();
        assert forall|i: int| 0 <= i < prefix.len() - 1 implies changed(#[trigger] prefix[i], prefix[i + 1]) by {
            assert(prefix[i] == states[i] && prefix[i + 1] == states[i + 1]);
        }
        lemma_change_sequence(prefix);
        let k = states.len() - 2;
        assert(changed(states[k], states[k + 1]));
        assert(prefix.last() == states[k]);
        assert forall|i: int| 0 <= i < states.len() implies (#[trigger] states[i]).wf() by {
            if i < states.len() - 1 {
                assert(prefix[i] == states[i]);
            }
        }
    }
}

/// `new` is `old` with a participant added: one more version, the lists
/// still aligned and sorted and freshly balanced, the new entry inserted at
/// some index, and `full` describing it.
pub open spec fn added(old: OrderState, new: OrderState, name: String, order: Order, full: FullOrder) -> bool {
    &&& new.wf()
    &&& new.is_balanced()
    &&& new.version == old.version + 1
    &&& exists|i: int|
        0 <= i <= old.orders@.len() && #[trigger] new.order_infos@ == old.order_infos@.insert(i, fresh_info(name))
            && new.orders@ == old.orders@.insert(i, clamp_order(order)) && full == (FullOrder {
            info: fresh_info(name),
            order: clamp_order(order),
            distribution: new.distributions@[i],
        })
}

/// `new` is `old` with the named participant's order replaced.
pub open spec fn edited(old: OrderState, new: OrderState, name: String, order: Order, full: FullOrder) -> bool {
    &&& new.wf()
    &&& new.is_balanced()
    &&& new.version == old.version + 1
    &&& exists|i: int|
        0 <= i < old.orders@.len() && old.order_infos@[i].name@ == name@ && #[trigger] new.order_infos@
            == old.order_infos@.update(i, fresh_info(name)) && new.orders@ == old.orders@.update(
            i,
            clamp_order(order),
        ) && full == (FullOrder {
            info: fresh_info(name),
            order: clamp_order(order),
            distribution: new.distributions@[i],
        })
}

} // verus!
