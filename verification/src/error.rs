//! The ways in which an operation of the market is refused.

use vstd::prelude::*;

verus! {

/// Why the market refused an operation. A refused operation leaves the
/// market as it was.
#[derive(Debug, Clone, Copy, PartialEq, Eq, Structural)]
pub enum MarketError {
    /// The item is on sale already.
    AlreadyListed,
    /// The item is not on sale.
    NotListed,
    /// The caller does not own the listing.
    NotOwner,
    /// No offer goes by that identifier.
    NoSuchOffer,
    /// The caller did not place the offer.
    NotOfferOwner,
    /// The seller of an item cannot bid on it or buy it.
    SelfOffer,
    /// The offer was placed on another item.
    OfferMismatch,
    /// The funds at hand are not the listing's price.
    PriceMismatch,
    /// The caller is not the identity that may remove stale listings.
    NotRemover,
    /// The indexes disagree, or a settlement was resolved twice.
    InvariantViolation,
    /// The custody service reported that the transfer failed.
    ExternalTransferFailed,
}

} // verus!
