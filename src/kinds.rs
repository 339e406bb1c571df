//! The fixed-width vector indexed by pie kind.

use vstd::prelude::*;

verus! {

/// Number of pie kinds; every kind vector has exactly this many slots.
pub const KIND_COUNT: usize = 3;

/// Pieces of one kind that a participant asks for.
pub type OrderAmount = u32;

/// Whole pies of one kind.
pub type PizzaAmount = u64;

/// Pieces of each kind handed to one participant.
pub type Distribution = PizzaKindArray<u64>;

/// The enumerated pie kinds, in slot order.
pub enum PizzaKind {
    Meat,
    Vegetarian,
    Vegan,
}

impl PizzaKind {
    /// The slot of this kind in a kind vector.
    pub fn index(&self) -> (r: usize)
        ensures
            r < KIND_COUNT,
            r == self.slot(),
    {
        match self {
            PizzaKind::Meat => 0,
            PizzaKind::Vegetarian => 1,
            PizzaKind::Vegan => 2,
        }
    }

    pub open spec fn slot(&self) -> nat {
        match self {
            PizzaKind::Meat => 0,
            PizzaKind::Vegetarian => 1,
            PizzaKind::Vegan => 2,
        }
    }
}

/// One value per pie kind.
#[derive(Clone, Copy)]
pub struct PizzaKindArray<T>(pub [T; KIND_COUNT]);

impl<T> View for PizzaKindArray<T> {
    type V = Seq<T>;

    open spec fn view(&self) -> Seq<T> {
        self.0@
    }
}

impl<T: Copy> PizzaKindArray<T> {
    /// An array where each element is `value`.
    pub fn splat(value: T) -> (r: Self)
        ensures
            forall|i: int| 0 <= i < KIND_COUNT ==> r@[i] == value,
    {
        PizzaKindArray([value, value, value])
    }

    /// Maps the array elementwise with `f`.
    pub fn map<S, F: Fn(T) -> S>(self, f: F) -> (r: PizzaKindArray<S>)
        requires
            forall|i: int| 0 <= i < KIND_COUNT ==> f.requires((self@[i],)),
        ensures
            forall|i: int| 0 <= i < KIND_COUNT ==> f.ensures((self@[i],), r@[i]),
    {
        assert(f.requires((self@[0],)) && f.requires((self@[1],)) && f.requires((self@[2],)));
        let a = f(self.0[0]);
        let b = f(self.0[1]);
        let c = f(self.0[2]);
        PizzaKindArray([a, b, c])
    }

    /// Combines two arrays elementwise with `f`.
    pub fn zip_map<S: Copy, R, F: Fn(T, S) -> R>(self, other: PizzaKindArray<S>, f: F) -> (r:
        PizzaKindArray<R>)
        requires
            forall|i: int| 0 <= i < KIND_COUNT ==> f.requires((self@[i], other@[i])),
        ensures
            forall|i: int| 0 <= i < KIND_COUNT ==> f.ensures((self@[i], other@[i]), r@[i]),
    {
        assert(f.requires((self@[0], other@[0])) && f.requires((self@[1], other@[1])));
        assert(f.requires((self@[2], other@[2])));
        let a = f(self.0[0], other.0[0]);
        let b = f(self.0[1], other.0[1]);
        let c = f(self.0[2], other.0[2]);
        PizzaKindArray([a, b, c])
    }

    /// Folds the elements from the first slot on with `f`.
    pub fn reduce<F: Fn(T, T) -> T>(self, f: F) -> (r: T)
        requires
            f.requires((self@[0], self@[1])),
            forall|x: T| f.requires((x, self@[2])),
        ensures
            exists|x: T| f.ensures((self@[0], self@[1]), x) && f.ensures((x, self@[2]), r),
    {
        let x = f(self.0[0], self.0[1]);
        f(x, self.0[2])
    }
}

impl<T> PizzaKindArray<T> {
    /// Mutable access to the slots.
    pub fn iter_mut(&mut self) -> (r: &mut [T; KIND_COUNT])
        ensures
            *r == old(self).0,
            final(self).0 == *final(r),
    {
        &mut self.0
    }
}

/// The sum of the three slots of a request.
pub open spec fn amount_total(a: PizzaKindArray<u32>) -> int {
    a@[0] + a@[1] + a@[2]
}

/// The sum of the three slots of an allocation.
pub open spec fn distribution_total(a: PizzaKindArray<u64>) -> int {
    a@[0] + a@[1] + a@[2]
}

impl PizzaKindArray<u32> {
    /// Sums up all elements.
    pub fn sum(self) -> (r: u64)
        ensures
            r == amount_total(self),
    {
        self.0[0] as u64 + self.0[1] as u64 + self.0[2] as u64
    }
}

impl PizzaKindArray<u64> {
    /// Sums up all elements.
    pub fn sum(self) -> (r: u128)
        ensures
            r == distribution_total(self),
    {
        self.0[0] as u128 + self.0[1] as u128 + self.0[2] as u128
    }
}

} // verus!
