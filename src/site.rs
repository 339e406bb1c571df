//! Site-wide settings and status.

use vstd::prelude::*;
use crate::orders::Price;

verus! {

/// Settings of the whole site.
pub struct WebSiteConfig {
    pub pizza: PizzaConfig,
}

/// What one pie is like and what a piece costs.
pub struct PizzaConfig {
    pub width_of_piece_in_cm: u8,
    pub length_of_piece_in_cm: u8,
    pub price_per_piece: Price,
    pub pieces_per_pizza: u16,
}

/// A past configuration, with the time it was recorded.
pub struct ArchiveEntry {
    pub timestamp: i64,
    pub config: PizzaConfig,
}

/// Whether orders are taken, and a notice for everyone.
pub struct WebsiteStatus {
    pub status: LockedStatus,
    pub announcement: String,
}

#[derive(Clone, Copy, Debug, PartialEq, Eq, Structural)]
pub enum LockedStatus {
    Open,
    Locked,
}

} // verus!
