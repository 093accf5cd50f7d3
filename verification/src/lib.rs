//! A marketplace settlement core: a listing directory, an escrow ledger of
//! offers, the arithmetic of payout splits and the two-phase purchase
//! settlement, each with a machine-checked contract.
//!
//! The market is [`Contract`]. Its contracts speak of its view, a
//! [`model::ContractView`]: the indexes as mathematical maps and sequences,
//! the invariant that ties them together, and what each operation makes of
//! them. [`preserve`] proves that the operations keep the invariant, and
//! [`laws`] states what follows for listings, offers and escrow.
//!
//! A purchase takes the listing off the market and hands back a
//! [`Settlement`] with the request to send to the service that keeps the
//! item; when the result of the transfer comes back, the settlement turns it
//! into the transfers to make. Nothing here reads a clock, a caller or a
//! balance: whoever calls hands them in.

pub mod approval;
pub mod contract;
pub mod error;
pub mod laws;
pub mod migrate;
pub mod model;
pub mod offers;
pub mod payout;
pub mod preserve;
pub mod settlement;
pub mod snapshot;
pub mod table;
pub mod token_data;
pub mod utils;
pub mod whitelist;

pub use approval::{ApprovedNFT, ApprovedNFTFull, CollectionMetadata, MarketArgs};
pub use contract::{Contract, Removal};
pub use error::MarketError;
pub use offers::{Offer, OfferId};
pub use payout::{Payout, PayoutEntry, PayoutStruct, Transfer};
pub use settlement::{Purchase, Settlement, SettlementState, TransferOutcome, TransferRequest};
pub use snapshot::Snapshot;
pub use token_data::{MarketData, TokenData};
pub use utils::{delete_from_vector_by_offer_id, delete_from_vector_by_uid};
