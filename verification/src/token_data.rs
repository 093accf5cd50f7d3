//! The record of a listing.

use vstd::prelude::*;

verus! {

/// An item on sale: who sells it, where it is kept, at what price, and the
/// approval under which the market may have it transferred.
#[derive(Debug, PartialEq, Eq)]
pub struct TokenData {
    pub owner_id: String,
    pub nft_contract_id: String,
    pub token_id: String,
    pub price: u128,
    pub approval_id: u64,
}

/// A listing as contracts see it.
pub struct TokenDataView {
    pub owner_id: Seq<char>,
    pub nft_contract_id: Seq<char>,
    pub token_id: Seq<char>,
    pub price: u128,
    pub approval_id: u64,
}

impl View for TokenData {
    type V = TokenDataView;

    open spec fn view(&self) -> TokenDataView {
        TokenDataView {
            owner_id: self.owner_id@,
            nft_contract_id: self.nft_contract_id@,
            token_id: self.token_id@,
            price: self.price,
            approval_id: self.approval_id,
        }
    }
}

impl DeepView for TokenData {
    type V = TokenDataView;

    open spec fn deep_view(&self) -> TokenDataView {
        self@
    }
}

impl Clone for TokenData {
    fn clone(&self) -> (r: Self)
        ensures
            r@ == self@,
    {
        TokenData {
            owner_id: self.owner_id.clone(),
            nft_contract_id: self.nft_contract_id.clone(),
            token_id: self.token_id.clone(),
            price: self.price,
            approval_id: self.approval_id,
        }
    }
}

/// A window of the listings, newest first.
#[derive(Debug, PartialEq, Eq)]
pub struct MarketData {
    pub tokens: Vec<TokenData>,
    pub has_next_batch: bool,
    pub total_count: u64,
}

} // verus!
