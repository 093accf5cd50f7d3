//! What a seller sends along when an item is approved for sale.

use vstd::prelude::*;

verus! {

/// The collection that an item belongs to.
#[derive(Debug, PartialEq, Eq)]
pub struct CollectionMetadata {
    pub collection_name: String,
    pub collection_id: String,
}

/// The description of an item as its seller gives it, with the price asked.
#[derive(Debug, PartialEq, Eq)]
pub struct ApprovedNFT {
    pub title: String,
    pub description: Option<String>,
    pub copies: u64,
    pub media_url: Option<String>,
    pub reference_url: Option<String>,
    pub collection_metadata: Option<CollectionMetadata>,
    pub price: u128,
}

/// The description of an item with what the market adds to it: where the
/// item is kept, under what name, and who sells it.
#[derive(Debug, PartialEq, Eq)]
pub struct ApprovedNFTFull {
    pub contract_id: String,
    pub token_id: String,
    pub owner_id: String,
    pub title: String,
    pub description: Option<String>,
    pub copies: u64,
    pub media_url: Option<String>,
    pub reference_url: Option<String>,
    pub collection_metadata: Option<CollectionMetadata>,
    pub price: u128,
}

/// What comes with the approval of an item.
#[derive(Debug, PartialEq, Eq)]
pub struct MarketArgs {
    pub json_nft: ApprovedNFT,
}

impl ApprovedNFT {
    /// The description completed with the item's place, name and seller;
    /// everything that the seller gave is kept as it was.
    pub fn into_full(self, contract_id: String, token_id: String, owner_id: String) -> (full: ApprovedNFTFull)
        ensures
            full.contract_id == contract_id,
            full.token_id == token_id,
            full.owner_id == owner_id,
            full.title == self.title,
            full.description == self.description,
            full.copies == self.copies,
            full.media_url == self.media_url,
            full.reference_url == self.reference_url,
            full.collection_metadata == self.collection_metadata,
            full.price == self.price,
    {
        ApprovedNFTFull {
            contract_id,
            token_id,
            owner_id,
            title: self.title,
            description: self.description,
            copies: self.copies,
            media_url: self.media_url,
            reference_url: self.reference_url,
            collection_metadata: self.collection_metadata,
            price: self.price,
        }
    }
}

} // verus!
