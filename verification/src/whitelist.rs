//! Descriptions of the items, sites and collections that the market admits.

use vstd::prelude::*;

verus! {

/// The site an item was minted on.
#[derive(Debug, PartialEq, Eq)]
pub struct SiteMetadata {
    pub name: String,
    pub nft_link: String,
}

/// An item that was approved for sale, with where it came from.
#[derive(Debug, PartialEq, Eq)]
pub struct ApprovedNFT {
    pub contract_id: String,
    pub token_id: String,
    pub owner_id: String,
    pub title: String,
    pub description: Option<String>,
    pub copies: u64,
    pub media_url: String,
    pub reference_url: String,
    pub mint_site: SiteMetadata,
    pub price: u128,
}

/// What comes with the approval of such an item.
#[derive(Debug, PartialEq, Eq)]
pub struct MarketArgs {
    pub json_nft: ApprovedNFT,
}

/// A collection that the market admits.
#[derive(Debug, PartialEq, Eq)]
pub struct ApprovedCollection {
    pub contract_id: String,
    pub title: String,
    pub desc: String,
    pub media: String,
    pub reference: Option<String>,
}

} // verus!
