//! The purchase: the request for the transfer of the item, and what is paid
//! out when its result comes back.

use vstd::prelude::*;
use crate::contract::Contract;
use crate::error::MarketError;
use crate::model::refunds_of;
use crate::payout::{
    callback_split, distinct_receivers, fallback_transfers, pairs_to_map, payout_from_result,
    settle, settlement_transfers, transfer_lines, Line, Transfer, TREASURY_ID,
};
use crate::preserve::{lemma_offer, lemma_take_offer};
use crate::token_data::TokenDataView;
use crate::utils::{token_uid, uid_of};

verus! {

/// The most lines that a split may have.
pub const MAX_LEN_PAYOUT: u32 = 10;

/// Where a settlement stands: waiting for the result of the transfer, or
/// done with it.
#[derive(Debug, Clone, Copy, PartialEq, Eq, Structural)]
pub enum SettlementState {
    Pending,
    Resolved,
}

/// A sale under way: who buys, who sells, what, and at what price.
#[derive(Debug, PartialEq, Eq)]
pub struct Settlement {
    buyer_id: String,
    seller_id: String,
    nft_uid: String,
    price: u128,
    state: SettlementState,
}

/// A settlement as contracts see it.
pub struct SettlementView {
    pub buyer_id: Seq<char>,
    pub seller_id: Seq<char>,
    pub nft_uid: Seq<char>,
    pub price: u128,
    pub state: SettlementState,
}

impl View for Settlement {
    type V = SettlementView;

    closed spec fn view(&self) -> SettlementView {
        SettlementView {
            buyer_id: self.buyer_id@,
            seller_id: self.seller_id@,
            nft_uid: self.nft_uid@,
            price: self.price,
            state: self.state,
        }
    }
}

/// What the custody service is asked to do: hand the item to the buyer
/// under the listing's approval, and, where it supports payouts, say how a
/// balance is to be split into no more lines than asked.
#[derive(Debug, PartialEq, Eq)]
pub struct TransferRequest {
    pub nft_contract_id: String,
    pub receiver_id: String,
    pub token_id: String,
    pub approval_id: u64,
    pub balance: Option<u128>,
    pub max_len_payout: Option<u32>,
}

/// A request as contracts see it.
pub struct TransferRequestView {
    pub nft_contract_id: Seq<char>,
    pub receiver_id: Seq<char>,
    pub token_id: Seq<char>,
    pub approval_id: u64,
    pub balance: Option<u128>,
    pub max_len_payout: Option<u32>,
}

impl View for TransferRequest {
    type V = TransferRequestView;

    open spec fn view(&self) -> TransferRequestView {
        TransferRequestView {
            nft_contract_id: self.nft_contract_id@,
            receiver_id: self.receiver_id@,
            token_id: self.token_id@,
            approval_id: self.approval_id,
            balance: self.balance,
            max_len_payout: self.max_len_payout,
        }
    }
}

/// What a purchase sets off: the settlement that waits for the transfer,
/// the request to send, and what the bidders on the item get back.
#[derive(Debug, PartialEq, Eq)]
pub struct Purchase {
    pub settlement: Settlement,
    pub request: TransferRequest,
    pub refunds: Vec<Transfer>,
}

/// What came back from the custody service.
#[derive(Debug, PartialEq, Eq)]
pub enum TransferOutcome {
    Failed,
    Successful(Vec<u8>),
}

/// The request for the transfer of the item of `d` to `buyer` at `price`.
pub open spec fn request_for(d: TokenDataView, buyer: Seq<char>, price: u128, payouts: bool) -> TransferRequestView {
    TransferRequestView {
        nft_contract_id: d.nft_contract_id,
        receiver_id: buyer,
        token_id: d.token_id,
        approval_id: d.approval_id,
        balance: if payouts {
            Some(price)
        } else {
            None
        },
        max_len_payout: if payouts {
            Some(MAX_LEN_PAYOUT)
        } else {
            None
        },
    }
}

/// The settlement of a sale of `uid` by `seller` to `buyer` that waits for
/// its transfer.
pub open spec fn pending(buyer: Seq<char>, seller: Seq<char>, uid: Seq<char>, price: u128) -> SettlementView {
    SettlementView { buyer_id: buyer, seller_id: seller, nft_uid: uid, price, state: SettlementState::Pending }
}

/// `lines` settle a sale for which `bytes` came back with the transfer: by
/// the split that the bytes hold, its lines in some order, or as a sale
/// without a split where they hold none.
pub open spec fn settles(price: u128, seller: Seq<char>, bytes: Seq<u8>, lines: Seq<Line>) -> bool {
    match callback_split(bytes) {
        Some(m) => exists|p: Seq<Line>|
            distinct_receivers(p) && pairs_to_map(p) == m && lines == #[trigger] settlement_transfers(
                price,
                seller,
                Some(p),
            ),
        None => lines == fallback_transfers(price, seller, TREASURY_ID@),
    }
}

impl Settlement {
    /// A settlement that waits for its transfer.
    pub fn new(buyer_id: String, seller_id: String, nft_uid: String, price: u128) -> (s: Settlement)
        ensures
            s@ == pending(buyer_id@, seller_id@, nft_uid@, price),
    {
        Settlement { buyer_id, seller_id, nft_uid, price, state: SettlementState::Pending }
    }

    /// Who buys.
    pub fn buyer_id(&self) -> (r: &String)
        ensures
            r@ == self@.buyer_id,
    {
        &self.buyer_id
    }

    /// Who sells.
    pub fn seller_id(&self) -> (r: &String)
        ensures
            r@ == self@.seller_id,
    {
        &self.seller_id
    }

    /// What is sold.
    pub fn nft_uid(&self) -> (r: &String)
        ensures
            r@ == self@.nft_uid,
    {
        &self.nft_uid
    }

    /// At what price.
    pub fn price(&self) -> (r: u128)
        ensures
            r == self@.price,
    {
        self.price
    }

    /// Where the settlement stands.
    pub fn state(&self) -> (r: SettlementState)
        ensures
            r == self@.state,
    {
        self.state
    }

    /// Takes the one result that a settlement may have. A settlement that
    /// has had its result gives `InvariantViolation`, a failed transfer
    /// `ExternalTransferFailed`; either way the settlement is done.
    fn consume(&mut self, outcome: TransferOutcome) -> (r: Result<Vec<u8>, MarketError>)
        ensures
            final(self)@ == (SettlementView { state: SettlementState::Resolved, ..old(self)@ }),
            match r {
                Ok(bytes) => old(self)@.state == SettlementState::Pending && outcome == TransferOutcome::Successful(
                    bytes,
                ),
                Err(e) => e == if old(self)@.state == SettlementState::Resolved {
                    MarketError::InvariantViolation
                } else {
                    MarketError::ExternalTransferFailed
                } && (old(self)@.state == SettlementState::Pending ==> outcome == TransferOutcome::Failed),
            },
    {
        match self.state {
            SettlementState::Resolved => Err(MarketError::InvariantViolation),
            SettlementState::Pending => {
                self.state = SettlementState::Resolved;
                match outcome {
                    TransferOutcome::Failed => Err(MarketError::ExternalTransferFailed),
                    TransferOutcome::Successful(bytes) => Ok(bytes),
                }
            },
        }
    }
}

impl Contract {
    /// Settles a sale whose transfer came back, with the split that the
    /// custody service sent along: by that split where it is accepted and
    /// the seller's line covers the fee, else the price less the fee to the
    /// seller and the fee to the treasury.
    pub fn resolve_purchase(settlement: &mut Settlement, outcome: TransferOutcome) -> (r: Result<
        Vec<Transfer>,
        MarketError,
    >)
        ensures
            final(settlement)@ == (SettlementView { state: SettlementState::Resolved, ..old(settlement)@ }),
            match r {
                Ok(transfers) => {
                    &&& old(settlement)@.state == SettlementState::Pending
                    &&& outcome matches TransferOutcome::Successful(bytes)
                    &&& settles(
                        old(settlement)@.price,
                        old(settlement)@.seller_id,
                        bytes@,
                        transfer_lines(transfers@),
                    )
                },
                Err(e) => {
                    &&& e == if old(settlement)@.state == SettlementState::Resolved {
                        MarketError::InvariantViolation
                    } else {
                        MarketError::ExternalTransferFailed
                    }
                    &&& old(settlement)@.state == SettlementState::Pending ==> outcome == TransferOutcome::Failed
                },
            },
    {
        match settlement.consume(outcome) {
            Err(e) => Err(e),
            Ok(bytes) => {
                let split = payout_from_result(bytes.as_slice());
                let ghost given = match &split {
                    Some(p) => Some(p@),
                    None => None,
                };
                let transfers = settle(settlement.price, &settlement.seller_id, split);
                proof {
                    if let Some(p) = given {
                        assert(transfer_lines(transfers@) == settlement_transfers(
                            settlement.price,
                            settlement.seller_id@,
                            Some(p),
                        ));
                    }
                }
                Ok(transfers)
            },
        }
    }

    /// Settles a sale whose transfer came back, where the custody service
    /// sends no split: the price less the fee to the seller and the fee to
    /// the treasury.
    pub fn resolve_purchase_no_payouts(settlement: &mut Settlement, outcome: TransferOutcome) -> (r: Result<
        Vec<Transfer>,
        MarketError,
    >)
        ensures
            final(settlement)@ == (SettlementView { state: SettlementState::Resolved, ..old(settlement)@ }),
            match r {
                Ok(transfers) => {
                    &&& old(settlement)@.state == SettlementState::Pending
                    &&& outcome is Successful
                    &&& transfer_lines(transfers@) == fallback_transfers(
                        old(settlement)@.price,
                        old(settlement)@.seller_id,
                        TREASURY_ID@,
                    )
                },
                Err(e) => {
                    &&& e == if old(settlement)@.state == SettlementState::Resolved {
                        MarketError::InvariantViolation
                    } else {
                        MarketError::ExternalTransferFailed
                    }
                    &&& old(settlement)@.state == SettlementState::Pending ==> outcome == TransferOutcome::Failed
                },
            },
    {
        match settlement.consume(outcome) {
            Err(e) => Err(e),
            Ok(_) => Ok(settle(settlement.price, &settlement.seller_id, None)),
        }
    }
}

impl Contract {
    /// Buys the item that `nft_contract_id` keeps as `token_id` for
    /// `buyer_id`, who attached `attached_deposit`: the listing leaves the
    /// market with every offer on it, before the transfer is asked for. The
    /// seller cannot buy, and the deposit must be the price to the unit.
    pub fn buy(
        &mut self,
        nft_contract_id: &String,
        token_id: &String,
        is_payouts_supported: bool,
        buyer_id: &String,
        attached_deposit: u128,
    ) -> (r: Result<Purchase, MarketError>)
        requires
            old(self).wf(),
        ensures
            final(self).wf(),
            ({
                let uid = uid_of(nft_contract_id@, token_id@);
                let d = old(self)@.uid_to_data[uid];
                match r {
                    Ok(p) => {
                        &&& old(self)@.listed(uid)
                        &&& d.owner_id != buyer_id@
                        &&& attached_deposit == d.price
                        &&& final(self)@ == old(self)@.remove(uid)
                        &&& p.settlement@ == pending(buyer_id@, d.owner_id, uid, d.price)
                        &&& p.request@ == request_for(d, buyer_id@, d.price, is_payouts_supported)
                        &&& transfer_lines(p.refunds@) == refunds_of(old(self)@.offers_on(uid))
                    },
                    Err(e) => {
                        &&& final(self)@ == old(self)@
                        &&& e == if !old(self)@.listed(uid) {
                            MarketError::NotListed
                        } else if d.owner_id == buyer_id@ {
                            MarketError::SelfOffer
                        } else {
                            MarketError::PriceMismatch
                        }
                        &&& old(self)@.listed(uid) && d.owner_id != buyer_id@ ==> attached_deposit != d.price
                    },
                }
            }),
    {
        let uid = token_uid(nft_contract_id, token_id);
        let data = match self.get_nft(&uid) {
            Some(d) => d,
            None => {
                return Err(MarketError::NotListed);
            },
        };
        if data.owner_id == *buyer_id {
            return Err(MarketError::SelfOffer);
        }
        if attached_deposit != data.price {
            return Err(MarketError::PriceMismatch);
        }
        match self.remove_nft(&data.owner_id, &uid) {
            Err(e) => Err(e),
            Ok(removal) => Ok(
                Purchase {
                    settlement: Settlement::new(buyer_id.clone(), data.owner_id, uid, data.price),
                    request: make_request(&removal.data, buyer_id, data.price, is_payouts_supported),
                    refunds: removal.refunds,
                },
            ),
        }
    }

    /// Accepts the offer that goes by `offer_id` on the listing `nft_uid`,
    /// for the seller: the offer leaves the escrow ledger, its amount pays
    /// for the item, and the listing leaves the market with every other
    /// offer on it, before the transfer is asked for. The offer must be on
    /// that item, and hold the price to the unit.
    pub fn accept_offer(
        &mut self,
        nft_uid: &String,
        offer_id: &String,
        caller_id: &String,
        is_payouts_supported: bool,
    ) -> (r: Result<Purchase, MarketError>)
        requires
            old(self).wf(),
        ensures
            final(self).wf(),
            ({
                let d = old(self)@.uid_to_data[nft_uid@];
                let o = old(self)@.offer(offer_id@);
                match r {
                    Ok(p) => {
                        &&& old(self)@.listed(nft_uid@)
                        &&& d.owner_id == caller_id@
                        &&& old(self)@.offer_to_bidder.dom().contains(offer_id@)
                        &&& o.token_uid == nft_uid@
                        &&& o.price == d.price
                        &&& final(self)@ == old(self)@.take_offer(offer_id@).remove(nft_uid@)
                        &&& p.settlement@ == pending(o.buyer_id, d.owner_id, nft_uid@, o.price)
                        &&& p.request@ == request_for(d, o.buyer_id, o.price, is_payouts_supported)
                        &&& transfer_lines(p.refunds@) == refunds_of(
                            old(self)@.take_offer(offer_id@).offers_on(nft_uid@),
                        )
                    },
                    Err(e) => {
                        &&& final(self)@ == old(self)@
                        &&& e == if !old(self)@.listed(nft_uid@) {
                            MarketError::NotListed
                        } else if d.owner_id != caller_id@ {
                            MarketError::NotOwner
                        } else if !old(self)@.offer_to_bidder.dom().contains(offer_id@) {
                            MarketError::NoSuchOffer
                        } else if o.token_uid != nft_uid@ {
                            MarketError::OfferMismatch
                        } else {
                            MarketError::PriceMismatch
                        }
                        &&& old(self)@.listed(nft_uid@) && d.owner_id == caller_id@ && old(
                            self,
                        )@.offer_to_bidder.dom().contains(offer_id@) && o.token_uid == nft_uid@ ==> o.price
                            != d.price
                    },
                }
            }),
    {
        let data = match self.get_nft(nft_uid) {
            Some(d) => d,
            None => {
                return Err(MarketError::NotListed);
            },
        };
        if data.owner_id != *caller_id {
            return Err(MarketError::NotOwner);
        }
        let offer = match self.get_offer(offer_id) {
            Some(o) => o,
            None => {
                return Err(MarketError::NoSuchOffer);
            },
        };
        if offer.token_uid != *nft_uid {
            return Err(MarketError::OfferMismatch);
        }
        if offer.price != data.price {
            return Err(MarketError::PriceMismatch);
        }
        proof {
            lemma_offer(self@, offer_id@);
            lemma_take_offer(self@, offer_id@);
        }
        let _ = self.take_offer(offer_id);
        match self.remove_nft(&data.owner_id, nft_uid) {
            Err(e) => {
                proof {
                    assert(false);
                }
                Err(e)
            },
            Ok(removal) => Ok(
                Purchase {
                    settlement: Settlement::new(offer.buyer_id.clone(), data.owner_id, offer.token_uid, offer.price),
                    request: make_request(&removal.data, &offer.buyer_id, offer.price, is_payouts_supported),
                    refunds: removal.refunds,
                },
            ),
        }
    }
}

/// The request for the transfer of the item of `data` to `buyer_id`.
fn make_request(data: &crate::token_data::TokenData, buyer_id: &String, price: u128, payouts: bool) -> (r:
    TransferRequest)
    ensures
        r@ == request_for(data@, buyer_id@, price, payouts),
{
    TransferRequest {
        nft_contract_id: data.nft_contract_id.clone(),
        receiver_id: buyer_id.clone(),
        token_id: data.token_id.clone(),
        approval_id: data.approval_id,
        balance: if payouts {
            Some(price)
        } else {
            None
        },
        max_len_payout: if payouts {
            Some(MAX_LEN_PAYOUT)
        } else {
            None
        },
    }
}

} // verus!
