//! The market: its indexes in executable form, and the operations on them.

use vstd::prelude::*;
use crate::error::MarketError;
use crate::model::{minted_before, refunds_of, ContractView};
use crate::offers::{mint_offer_id, offer_id_text, Offer, OfferView};
use crate::payout::{transfer_lines, Transfer};
use crate::preserve::{
    lemma_add_offer, lemma_drop_offers, lemma_empty_inv, lemma_list_inv, lemma_mint, lemma_offer,
    lemma_place_offer, lemma_remove, lemma_set_price_inv, lemma_take_offer,
};
use crate::snapshot::{snapshot_offers, snapshot_tokens, Snapshot};
use crate::table::Table;
use crate::token_data::{MarketData, TokenData, TokenDataView};
use crate::utils::{
    delete_from_vector_by_offer_id, delete_from_vector_by_uid, lemma_last_index_of, offer_ids,
    token_uid, uid_of,
};

verus! {

/// The identity that may set the market up.
pub const CONTRACT_ID: &'static str = "mjol.near";

/// The identity that may remove stale listings.
pub const REMOVER_ACCOUNT_ID: &'static str = "cleaner.mjol.near";

/// The market: what is on sale, by whom, and the offers that stand.
pub struct Contract {
    pub(crate) listings: Vec<String>,
    pub(crate) uid_to_data: Table<TokenData>,
    pub(crate) user_to_uids: Table<Vec<String>>,
    pub(crate) offers_by_item: Table<Vec<Offer>>,
    pub(crate) offers_by_bidder: Table<Vec<Offer>>,
    pub(crate) offer_to_bidder: Table<String>,
    pub(crate) offers_minted: u64,
}

impl View for Contract {
    type V = ContractView;

    closed spec fn view(&self) -> ContractView {
        ContractView {
            listings: self.listings.deep_view(),
            uid_to_data: self.uid_to_data.model(),
            user_to_uids: self.user_to_uids.model(),
            offers_by_item: self.offers_by_item.model(),
            offers_by_bidder: self.offers_by_bidder.model(),
            offer_to_bidder: self.offer_to_bidder.model(),
            offers_minted: self.offers_minted as nat,
        }
    }
}

impl Default for Contract {
    fn default() -> (c: Contract)
        ensures
            c.wf(),
            c@ == ContractView::empty(),
    {
        Contract::new()
    }
}

/// A listing that left the market, and what its bidders get back.
#[derive(Debug, PartialEq, Eq)]
pub struct Removal {
    pub data: TokenData,
    pub refunds: Vec<Transfer>,
}

impl Contract {
    /// The tables are in order.
    pub closed spec fn rep(&self) -> bool {
        &&& self.uid_to_data.wf()
        &&& self.user_to_uids.wf()
        &&& self.offers_by_item.wf()
        &&& self.offers_by_bidder.wf()
        &&& self.offer_to_bidder.wf()
    }

    /// The market is well formed: its tables are in order and its indexes
    /// agree.
    pub open spec fn wf(&self) -> bool {
        &&& self.rep()
        &&& self@.inv()
        &&& self@.offers_minted <= u64::MAX
    }

    /// A market with nothing on sale.
    pub fn new() -> (c: Contract)
        ensures
            c.wf(),
            c@ == ContractView::empty(),
    {
        let c = Contract {
            listings: Vec::new(),
            uid_to_data: Table::new(),
            user_to_uids: Table::new(),
            offers_by_item: Table::new(),
            offers_by_bidder: Table::new(),
            offer_to_bidder: Table::new(),
            offers_minted: 0,
        };
        proof {
            lemma_empty_inv();
            assert(c.listings.deep_view() =~= Seq::<Seq<char>>::empty());
        }
        c
    }

    /// Puts the item that `nft_contract_id` keeps as `token_id` on sale for
    /// `owner_id` at `price`, under the approval `approval_id`, and returns
    /// its identifier. An item that is on sale already is refused.
    pub fn nft_on_approve(
        &mut self,
        token_id: String,
        owner_id: String,
        approval_id: u64,
        nft_contract_id: String,
        price: u128,
    ) -> (r: Result<String, MarketError>)
        requires
            old(self).wf(),
        ensures
            final(self).wf(),
            match r {
                Ok(uid) => {
                    &&& uid@ == uid_of(nft_contract_id@, token_id@)
                    &&& !old(self)@.listed(uid@)
                    &&& final(self)@ == old(self)@.list(
                        TokenDataView {
                            owner_id: owner_id@,
                            nft_contract_id: nft_contract_id@,
                            token_id: token_id@,
                            price,
                            approval_id,
                        },
                    )
                },
                Err(e) => {
                    &&& e == MarketError::AlreadyListed
                    &&& old(self)@.listed(uid_of(nft_contract_id@, token_id@))
                    &&& final(self)@ == old(self)@
                },
            },
    {
        let uid = token_uid(&nft_contract_id, &token_id);
        if self.uid_to_data.contains_key(&uid) {
            return Err(MarketError::AlreadyListed);
        }
        let data = TokenData { owner_id: owner_id.clone(), nft_contract_id, token_id, price, approval_id };
        let ghost d = data@;
        let mut mine = match self.user_to_uids.remove(&owner_id) {
            Some(v) => v,
            None => Vec::new(),
        };
        let ghost before = mine.deep_view();
        mine.push(uid.clone());
        self.user_to_uids.insert(owner_id, mine);
        self.listings.push(uid.clone());
        self.uid_to_data.insert(uid.clone(), data);
        proof {
            assert(before =~= old(self)@.uids_of(d.owner_id));
            assert(mine.deep_view() =~= before.push(uid@));
            assert(self.listings.deep_view() =~= old(self).listings.deep_view().push(uid@));
            assert(self@.user_to_uids =~= old(self)@.list(d).user_to_uids);
            assert(self@ == old(self)@.list(d));
            lemma_list_inv(old(self)@, d);
        }
        Ok(uid)
    }
}

impl Contract {
    /// Sets the price of a listing, for its owner.
    pub fn update_token_price(
        &mut self,
        nft_contract_id: &String,
        token_id: &String,
        price: u128,
        caller_id: &String,
    ) -> (r: Result<(), MarketError>)
        requires
            old(self).wf(),
        ensures
            final(self).wf(),
            ({
                let uid = uid_of(nft_contract_id@, token_id@);
                match r {
                    Ok(_) => {
                        &&& old(self)@.listed(uid)
                        &&& old(self)@.uid_to_data[uid].owner_id == caller_id@
                        &&& final(self)@ == old(self)@.set_price(uid, price)
                    },
                    Err(e) => {
                        &&& final(self)@ == old(self)@
                        &&& e == if !old(self)@.listed(uid) {
                            MarketError::NotListed
                        } else {
                            MarketError::NotOwner
                        }
                        &&& old(self)@.listed(uid) ==> old(self)@.uid_to_data[uid].owner_id != caller_id@
                    },
                }
            }),
    {
        let uid = token_uid(nft_contract_id, token_id);
        let data = match self.uid_to_data.get(&uid) {
            Some(d) => d.clone(),
            None => {
                return Err(MarketError::NotListed);
            },
        };
        if data.owner_id != *caller_id {
            return Err(MarketError::NotOwner);
        }
        let updated = TokenData { price, ..data };
        self.uid_to_data.insert(uid, updated);
        proof {
            assert(self@.uid_to_data =~= old(self)@.set_price(uid@, price).uid_to_data);
            assert(self@ == old(self)@.set_price(uid@, price));
            lemma_set_price_inv(old(self)@, uid@, price);
        }
        Ok(())
    }

    /// The price of a listing, if the item is on sale.
    pub fn get_nft_price(&self, token_uid: &String) -> (r: Option<u128>)
        requires
            self.wf(),
        ensures
            r == if self@.listed(token_uid@) {
                Some(self@.uid_to_data[token_uid@].price)
            } else {
                None
            },
    {
        match self.uid_to_data.get(token_uid) {
            Some(d) => Some(d.price),
            None => None,
        }
    }

    /// The record of a listing, if the item is on sale.
    pub fn get_nft(&self, token_uid: &String) -> (r: Option<TokenData>)
        requires
            self.wf(),
        ensures
            r is Some <==> self@.listed(token_uid@),
            r matches Some(d) ==> d@ == self@.uid_to_data[token_uid@],
    {
        match self.uid_to_data.get(token_uid) {
            Some(d) => Some(d.clone()),
            None => None,
        }
    }

    /// The listings of `owner_id`, oldest first.
    pub fn get_user_nfts(&self, owner_id: &String) -> (r: Vec<TokenData>)
        requires
            self.wf(),
        ensures
            r.deep_view() == self@.tokens_of(owner_id@),
    {
        let mut r: Vec<TokenData> = Vec::new();
        match self.user_to_uids.get(owner_id) {
            None => {
                assert(r.deep_view() =~= self@.tokens_of(owner_id@));
            },
            Some(uids) => {
                let n = uids.len();
                let mut i: usize = 0;
                while i < n
                    invariant
                        i <= n,
                        n == uids@.len(),
                        self.wf(),
                        self@.user_to_uids.dom().contains(owner_id@),
                        uids.deep_view() == self@.user_to_uids[owner_id@],
                        r@.len() == i,
                        forall|k: int| 0 <= k < i ==> (#[trigger] r@[k])@ == self@.tokens_of(owner_id@)[k],
                    decreases n - i,
                {
                    assert(uids.deep_view()[i as int] == uids@[i as int]@);
                    assert(self@.uid_to_data.dom().contains(self@.user_to_uids[owner_id@][i as int]));
                    match self.uid_to_data.get(&uids[i]) {
                        Some(d) => {
                            r.push(d.clone());
                        },
                        None => {
                            assert(false);
                        },
                    }
                    i = i + 1;
                }
                assert(r.deep_view() =~= self@.tokens_of(owner_id@));
            },
        }
        r
    }

    /// The window of at most `limit` listings that starts `from` listings
    /// back from the newest, newest first, with the number of all listings
    /// and whether older ones than those of the window remain.
    pub fn get_nfts(&self, from: u64, limit: u64) -> (r: MarketData)
        requires
            self.wf(),
        ensures
            r.tokens.deep_view() == self@.page(from, limit),
            r.has_next_batch == (self@.page_start(from, limit) > 0),
            r.total_count == self@.listings.len(),
    {
        let len: usize = self.listings.len();
        let size: u64 = len as u64;
        let mut tokens: Vec<TokenData> = Vec::new();
        if from >= size {
            assert(tokens.deep_view() =~= self@.page(from, limit));
            return MarketData { tokens, has_next_batch: false, total_count: size };
        }
        let real_to: usize = len - (from as usize);
        let real_from: usize = if real_to as u64 <= limit {
            0
        } else {
            real_to - (limit as usize)
        };
        let mut i: usize = real_to;
        while i > real_from
            invariant
                real_from <= i <= real_to,
                real_to == self@.page_end(from),
                real_from == self@.page_start(from, limit),
                real_to <= self.listings@.len(),
                self.wf(),
                tokens@.len() == real_to - i,
                forall|k: int| 0 <= k < tokens@.len() ==> (#[trigger] tokens@[k])@ == self@.page(from, limit)[k],
            decreases i,
        {
            i = i - 1;
            let uid = &self.listings[i];
            assert(self.listings.deep_view()[i as int] == uid@);
            assert(self@.listings.contains(uid@));
            match self.uid_to_data.get(uid) {
                Some(d) => {
                    tokens.push(d.clone());
                },
                None => {
                    assert(false);
                },
            }
        }
        assert(tokens.deep_view() =~= self@.page(from, limit));
        MarketData { tokens, has_next_batch: real_from > 0, total_count: size }
    }
}

impl Contract {
    /// Takes the offer that goes by `offer_id` out of all three indexes.
    pub(crate) fn take_offer(&mut self, offer_id: &String) -> (o: Offer)
        requires
            old(self).wf(),
            old(self)@.offer_to_bidder.dom().contains(offer_id@),
        ensures
            final(self).wf(),
            final(self)@ == old(self)@.take_offer(offer_id@),
            o@ == old(self)@.offer(offer_id@),
    {
        proof {
            lemma_offer(self@, offer_id@);
            lemma_take_offer(self@, offer_id@);
        }
        let ghost target = self@.offer(offer_id@);
        let bidder = self.offer_to_bidder.remove(offer_id).unwrap();
        let mut mine = self.offers_by_bidder.remove(&bidder).unwrap();
        let o = delete_from_vector_by_offer_id(&mut mine, offer_id).unwrap();
        self.offers_by_bidder.insert(bidder, mine);
        let mut on = self.offers_by_item.remove(&o.token_uid).unwrap();
        assert(offer_ids(on.deep_view()).contains(offer_id@)) by {
            let l = old(self)@.offers_by_item[target.token_uid];
            let k = choose|k: int| 0 <= k < l.len() && l[k] == target;
            assert(offer_ids(l)[k] == offer_id@);
        }
        let _ = delete_from_vector_by_offer_id(&mut on, offer_id);
        self.offers_by_item.insert(o.token_uid.clone(), on);
        proof {
            let t = old(self)@.take_offer(offer_id@);
            assert(self@.offers_by_item =~= t.offers_by_item);
            assert(self@.offers_by_bidder =~= t.offers_by_bidder);
            assert(self@.offer_to_bidder =~= t.offer_to_bidder);
            assert(self@ == t);
        }
        o
    }

    /// Takes every offer on `uid` out of the indexes, oldest first, and
    /// returns what each bidder gets back.
    fn drop_offers(&mut self, uid: &String) -> (refunds: Vec<Transfer>)
        requires
            old(self).wf(),
        ensures
            final(self).rep(),
            final(self)@ == old(self)@.drop_offers(uid@, old(self)@.offers_on(uid@).len()),
            transfer_lines(refunds@) == refunds_of(old(self)@.offers_on(uid@)),
    {
        let mut refunds: Vec<Transfer> = Vec::new();
        let ghost all = self@.offers_on(uid@);
        let ghost target = self@.drop_offers(uid@, all.len());
        loop
            invariant_except_break
                self.wf(),
                refunds@.len() + self@.offers_on(uid@).len() == all.len(),
                forall|k: int| 0 <= k < refunds@.len() ==> (#[trigger] refunds@[k])@ == refunds_of(all)[k],
                forall|k: int|
                    0 <= k < self@.offers_on(uid@).len() ==> #[trigger] self@.offers_on(uid@)[k] == all[
                        refunds@.len() + k],
                self@.drop_offers(uid@, self@.offers_on(uid@).len()) == target,
            ensures
                self.wf(),
                refunds@.len() == all.len(),
                forall|k: int| 0 <= k < refunds@.len() ==> (#[trigger] refunds@[k])@ == refunds_of(all)[k],
                self@.offers_on(uid@).len() == 0,
                self@.drop_offers(uid@, 0) == target,
            decreases self@.offers_on(uid@).len(),
        {
            let first = match self.offers_by_item.get(uid) {
                Some(v) => {
                    if v.len() > 0 {
                        assert(v.deep_view()[0] == v@[0]@);
                        Some(v[0].offer_id.clone())
                    } else {
                        None
                    }
                },
                None => None,
            };
            match first {
                None => {
                    break ;
                },
                Some(id) => {
                    let ghost before = self@;
                    proof {
                        assert(before.recorded(before.offers_by_item[uid@][0]));
                        lemma_offer(before, id@);
                        lemma_take_offer(before, id@);
                    }
                    let o = self.take_offer(&id);
                    refunds.push(Transfer { receiver_id: o.buyer_id, amount: o.price });
                    proof {
                        assert(o@ == before.offers_on(uid@)[0]);
                        assert(self@.offers_on(uid@) == before.offers_on(uid@).drop_first());
                    }
                },
            }
        }
        let _ = self.offers_by_item.remove(uid);
        proof {
            assert(self@.offers_by_item =~= target.offers_by_item);
            assert(self@ == target);
            assert(transfer_lines(refunds@) =~= refunds_of(all));
        }
        refunds
    }

    /// Takes `nft_uid` off the market for `owner_id`: out of the index of
    /// its seller, out of the listing set and from the records, with every
    /// offer on it, and returns what each bidder gets back. Where the indexes
    /// do not hold the item for that seller, nothing is changed.
    pub fn remove_nft(&mut self, owner_id: &String, nft_uid: &String) -> (r: Result<Removal, MarketError>)
        requires
            old(self).wf(),
        ensures
            final(self).wf(),
            match r {
                Ok(removal) => {
                    &&& old(self)@.listed(nft_uid@)
                    &&& old(self)@.uid_to_data[nft_uid@].owner_id == owner_id@
                    &&& final(self)@ == old(self)@.remove(nft_uid@)
                    &&& removal.data@ == old(self)@.uid_to_data[nft_uid@]
                    &&& transfer_lines(removal.refunds@) == refunds_of(old(self)@.offers_on(nft_uid@))
                },
                Err(e) => {
                    &&& e == MarketError::InvariantViolation
                    &&& !(old(self)@.listed(nft_uid@) && old(self)@.uid_to_data[nft_uid@].owner_id == owner_id@)
                    &&& final(self)@ == old(self)@
                },
            },
    {
        match self.uid_to_data.get(nft_uid) {
            Some(d) => {
                if d.owner_id != *owner_id {
                    return Err(MarketError::InvariantViolation);
                }
            },
            None => {
                return Err(MarketError::InvariantViolation);
            },
        }
        proof {
            lemma_remove(self@, nft_uid@);
            lemma_drop_offers(self@, nft_uid@, self@.offers_on(nft_uid@).len());
        }
        let refunds = self.drop_offers(nft_uid);
        let mut mine = self.user_to_uids.remove(owner_id).unwrap();
        let _ = delete_from_vector_by_uid(&mut mine, nft_uid);
        self.user_to_uids.insert(owner_id.clone(), mine);
        let _ = delete_from_vector_by_uid(&mut self.listings, nft_uid);
        let data = self.uid_to_data.remove(nft_uid).unwrap();
        proof {
            let t = old(self)@.remove(nft_uid@);
            assert(self@.user_to_uids =~= t.user_to_uids);
            assert(self@ == t);
        }
        Ok(Removal { data, refunds })
    }

    /// Takes a listing off the market, for its owner.
    pub fn remove_from_market(
        &mut self,
        nft_contract_id: &String,
        token_id: &String,
        caller_id: &String,
    ) -> (r: Result<Removal, MarketError>)
        requires
            old(self).wf(),
        ensures
            final(self).wf(),
            ({
                let uid = uid_of(nft_contract_id@, token_id@);
                match r {
                    Ok(removal) => {
                        &&& old(self)@.listed(uid)
                        &&& old(self)@.uid_to_data[uid].owner_id == caller_id@
                        &&& final(self)@ == old(self)@.remove(uid)
                        &&& removal.data@ == old(self)@.uid_to_data[uid]
                        &&& transfer_lines(removal.refunds@) == refunds_of(old(self)@.offers_on(uid))
                    },
                    Err(e) => {
                        &&& final(self)@ == old(self)@
                        &&& e == if !old(self)@.listed(uid) {
                            MarketError::NotListed
                        } else {
                            MarketError::NotOwner
                        }
                        &&& old(self)@.listed(uid) ==> old(self)@.uid_to_data[uid].owner_id != caller_id@
                    },
                }
            }),
    {
        let uid = token_uid(nft_contract_id, token_id);
        match self.uid_to_data.get(&uid) {
            Some(d) => {
                if d.owner_id != *caller_id {
                    return Err(MarketError::NotOwner);
                }
            },
            None => {
                return Err(MarketError::NotListed);
            },
        }
        self.remove_nft(caller_id, &uid)
    }

    /// Takes a stale listing off the market, for the identity that may.
    pub fn remove_old_listing(&mut self, token_uid: &String, caller_id: &String) -> (r: Result<
        Removal,
        MarketError,
    >)
        requires
            old(self).wf(),
        ensures
            final(self).wf(),
            match r {
                Ok(removal) => {
                    &&& caller_id@ == REMOVER_ACCOUNT_ID@
                    &&& old(self)@.listed(token_uid@)
                    &&& final(self)@ == old(self)@.remove(token_uid@)
                    &&& removal.data@ == old(self)@.uid_to_data[token_uid@]
                    &&& transfer_lines(removal.refunds@) == refunds_of(old(self)@.offers_on(token_uid@))
                },
                Err(e) => {
                    &&& final(self)@ == old(self)@
                    &&& e == if caller_id@ != REMOVER_ACCOUNT_ID@ {
                        MarketError::NotRemover
                    } else {
                        MarketError::NotListed
                    }
                    &&& caller_id@ == REMOVER_ACCOUNT_ID@ ==> !old(self)@.listed(token_uid@)
                },
            },
    {
        let remover = String::from_str(REMOVER_ACCOUNT_ID);
        if *caller_id != remover {
            return Err(MarketError::NotRemover);
        }
        let owner = match self.uid_to_data.get(token_uid) {
            Some(d) => d.owner_id.clone(),
            None => {
                return Err(MarketError::NotListed);
            },
        };
        self.remove_nft(&owner, token_uid)
    }
}

/// A copy of `offers`.
pub fn clone_offers(offers: &Vec<Offer>) -> (r: Vec<Offer>)
    ensures
        r.deep_view() == offers.deep_view(),
{
    let mut r: Vec<Offer> = Vec::new();
    let mut i: usize = 0;
    while i < offers.len()
        invariant
            i <= offers.len(),
            r@.len() == i,
            forall|k: int| 0 <= k < i ==> (#[trigger] r@[k])@ == offers@[k]@,
        decreases offers.len() - i,
    {
        r.push(offers[i].clone());
        i = i + 1;
    }
    assert(r.deep_view() =~= offers.deep_view());
    r
}

impl Contract {
    /// Enters `offer` into all three indexes.
    pub(crate) fn add_offer(&mut self, offer: Offer)
        requires
            old(self).wf(),
            old(self)@.listed(offer@.token_uid),
            old(self)@.uid_to_data[offer@.token_uid].owner_id != offer@.buyer_id,
            !old(self)@.offer_to_bidder.dom().contains(offer@.offer_id),
            minted_before(offer@.offer_id, old(self)@.offers_minted),
        ensures
            final(self).wf(),
            final(self)@ == old(self)@.add_offer(offer@),
    {
        let ghost o = offer@;
        let mut on = match self.offers_by_item.remove(&offer.token_uid) {
            Some(v) => v,
            None => Vec::new(),
        };
        let ghost on0 = on.deep_view();
        on.push(offer.clone());
        self.offers_by_item.insert(offer.token_uid.clone(), on);
        let mut by = match self.offers_by_bidder.remove(&offer.buyer_id) {
            Some(v) => v,
            None => Vec::new(),
        };
        let ghost by0 = by.deep_view();
        by.push(offer.clone());
        self.offers_by_bidder.insert(offer.buyer_id.clone(), by);
        self.offer_to_bidder.insert(offer.offer_id, offer.buyer_id);
        proof {
            let t = old(self)@.add_offer(o);
            assert(on0 =~= old(self)@.offers_on(o.token_uid));
            assert(by0 =~= old(self)@.offers_by(o.buyer_id));
            assert(on.deep_view() =~= on0.push(o));
            assert(by.deep_view() =~= by0.push(o));
            assert(self@.offers_by_item =~= t.offers_by_item);
            assert(self@.offers_by_bidder =~= t.offers_by_bidder);
            assert(self@.offer_to_bidder =~= t.offer_to_bidder);
            assert(self@ == t);
            lemma_add_offer(old(self)@, o);
        }
    }

    /// How many offers were ever placed.
    pub fn offers_minted(&self) -> (n: u64)
        ensures
            n == self@.offers_minted,
    {
        self.offers_minted
    }

    /// Places an offer of `amount` by `bidder_id` on the listing `nft_uid`;
    /// the amount is in escrow from then on. No offer is taken on an item
    /// that is not on sale, nor from its seller.
    pub fn place_offer(&mut self, nft_uid: &String, bidder_id: &String, amount: u128) -> (r: Result<
        Offer,
        MarketError,
    >)
        requires
            old(self).wf(),
            old(self)@.offers_minted < u64::MAX,
        ensures
            final(self).wf(),
            match r {
                Ok(o) => {
                    &&& old(self)@.listed(nft_uid@)
                    &&& old(self)@.uid_to_data[nft_uid@].owner_id != bidder_id@
                    &&& o@ == (OfferView {
                        token_uid: nft_uid@,
                        offer_id: offer_id_text(old(self)@.offers_minted),
                        price: amount,
                        buyer_id: bidder_id@,
                    })
                    &&& final(self)@ == old(self)@.place_offer(nft_uid@, bidder_id@, amount)
                },
                Err(e) => {
                    &&& final(self)@ == old(self)@
                    &&& e == if !old(self)@.listed(nft_uid@) {
                        MarketError::NotListed
                    } else {
                        MarketError::SelfOffer
                    }
                    &&& old(self)@.listed(nft_uid@) ==> old(self)@.uid_to_data[nft_uid@].owner_id == bidder_id@
                },
            },
    {
        match self.uid_to_data.get(nft_uid) {
            Some(d) => {
                if d.owner_id == *bidder_id {
                    return Err(MarketError::SelfOffer);
                }
            },
            None => {
                return Err(MarketError::NotListed);
            },
        }
        let id = mint_offer_id(self.offers_minted);
        let offer = Offer { token_uid: nft_uid.clone(), offer_id: id, price: amount, buyer_id: bidder_id.clone() };
        proof {
            lemma_place_offer(self@, nft_uid@, bidder_id@, amount);
            lemma_mint(self@, self@.offers_minted + 1);
            assert(offer@.offer_id == offer_id_text(self@.offers_minted));
        }
        self.offers_minted = self.offers_minted + 1;
        self.add_offer(offer.clone());
        Ok(offer)
    }

    /// Withdraws the offer that goes by `offer_id`, for the bidder who
    /// placed it, and returns what the bidder gets back: the amount that the
    /// offer held in escrow.
    pub fn withdraw_offer(&mut self, offer_id: &String, caller_id: &String) -> (r: Result<Transfer, MarketError>)
        requires
            old(self).wf(),
        ensures
            final(self).wf(),
            match r {
                Ok(refund) => {
                    &&& old(self)@.offer_to_bidder.dom().contains(offer_id@)
                    &&& old(self)@.offer_to_bidder[offer_id@] == caller_id@
                    &&& refund@ == (caller_id@, old(self)@.offer(offer_id@).price)
                    &&& final(self)@ == old(self)@.take_offer(offer_id@)
                },
                Err(e) => {
                    &&& final(self)@ == old(self)@
                    &&& e == if !old(self)@.offer_to_bidder.dom().contains(offer_id@) {
                        MarketError::NoSuchOffer
                    } else {
                        MarketError::NotOfferOwner
                    }
                    &&& old(self)@.offer_to_bidder.dom().contains(offer_id@) ==> old(
                        self,
                    )@.offer_to_bidder[offer_id@] != caller_id@
                },
            },
    {
        match self.offer_to_bidder.get(offer_id) {
            Some(bidder) => {
                if *bidder != *caller_id {
                    return Err(MarketError::NotOfferOwner);
                }
            },
            None => {
                return Err(MarketError::NoSuchOffer);
            },
        }
        proof {
            lemma_offer(self@, offer_id@);
        }
        let o = self.take_offer(offer_id);
        Ok(Transfer { receiver_id: o.buyer_id, amount: o.price })
    }

    /// The offers on `nft_uid`, oldest first.
    pub fn get_offers_by_item(&self, nft_uid: &String) -> (r: Vec<Offer>)
        requires
            self.wf(),
        ensures
            r.deep_view() == self@.offers_on(nft_uid@),
    {
        match self.offers_by_item.get(nft_uid) {
            Some(v) => clone_offers(v),
            None => {
                let r: Vec<Offer> = Vec::new();
                assert(r.deep_view() =~= self@.offers_on(nft_uid@));
                r
            },
        }
    }

    /// The offers of `bidder_id`, oldest first.
    pub fn get_offers_by_bidder(&self, bidder_id: &String) -> (r: Vec<Offer>)
        requires
            self.wf(),
        ensures
            r.deep_view() == self@.offers_by(bidder_id@),
    {
        match self.offers_by_bidder.get(bidder_id) {
            Some(v) => clone_offers(v),
            None => {
                let r: Vec<Offer> = Vec::new();
                assert(r.deep_view() =~= self@.offers_by(bidder_id@));
                r
            },
        }
    }

    /// The bidder behind the offer that goes by `offer_id`.
    pub fn get_offer_bidder(&self, offer_id: &String) -> (r: Option<String>)
        requires
            self.wf(),
        ensures
            r is Some <==> self@.offer_to_bidder.dom().contains(offer_id@),
            r matches Some(b) ==> b@ == self@.offer_to_bidder[offer_id@],
    {
        match self.offer_to_bidder.get(offer_id) {
            Some(b) => Some(b.clone()),
            None => None,
        }
    }
}

impl Contract {
    /// The offer that goes by `offer_id`.
    pub fn get_offer(&self, offer_id: &String) -> (r: Option<Offer>)
        requires
            self.wf(),
        ensures
            r is Some <==> self@.offer_to_bidder.dom().contains(offer_id@),
            r matches Some(o) ==> o@ == self@.offer(offer_id@),
    {
        let bidder = match self.offer_to_bidder.get(offer_id) {
            Some(b) => b,
            None => {
                return None;
            },
        };
        proof {
            lemma_offer(self@, offer_id@);
        }
        let mine = self.offers_by_bidder.get(bidder).unwrap();
        let ghost ids = offer_ids(mine.deep_view());
        let mut i: usize = mine.len();
        while i > 0
            invariant
                i <= mine@.len(),
                ids == offer_ids(mine.deep_view()),
                ids.contains(offer_id@),
                self@.offer_to_bidder.dom().contains(offer_id@),
                mine.deep_view() == self@.offers_by(self@.offer_to_bidder[offer_id@]),
                forall|j: int| i <= j < ids.len() ==> ids[j] != offer_id@,
            decreases i,
        {
            i = i - 1;
            if mine[i].offer_id == *offer_id {
                proof {
                    lemma_last_index_of(ids, offer_id@);
                    assert(ids[i as int] == offer_id@);
                    assert(mine.deep_view()[i as int] == mine@[i as int]@);
                }
                return Some(mine[i].clone());
            }
        }
        proof {
            let k = choose|k: int| 0 <= k < ids.len() && ids[k] == offer_id@;
            assert(false);
        }
        None
    }
}

impl Contract {
    /// The order in which the offers that stand were placed.
    pub closed spec fn offer_order(&self) -> Seq<Seq<char>> {
        self.offer_to_bidder.keys()
    }

    /// Every offer that stands has its place in the order, once.
    pub proof fn lemma_offer_order(&self)
        requires
            self.wf(),
        ensures
            self.offer_order().no_duplicates(),
            forall|id: Seq<char>| #[trigger]
                self@.offer_to_bidder.dom().contains(id) <==> self.offer_order().contains(id),
    {
        self.offer_to_bidder.lemma_keys();
    }

    /// Sets the number of offers ever placed, to no less than it was.
    pub(crate) fn set_offers_minted(&mut self, n: u64)
        requires
            old(self).wf(),
            old(self)@.offers_minted <= n,
        ensures
            final(self).wf(),
            final(self)@ == (ContractView { offers_minted: n as nat, ..old(self)@ }),
    {
        proof {
            lemma_mint(self@, n as nat);
        }
        self.offers_minted = n;
    }

    /// The market as plain records: the listings, oldest first, and the
    /// offers that stand, in the order in which they were placed.
    pub fn snapshot(&self) -> (r: Snapshot)
        requires
            self.wf(),
        ensures
            r.tokens.deep_view() == snapshot_tokens(self@),
            r.offers.deep_view() == snapshot_offers(self@, self.offer_order()),
            r.offers_minted == self@.offers_minted,
    {
        let mut tokens: Vec<TokenData> = Vec::new();
        let mut i: usize = 0;
        while i < self.listings.len()
            invariant
                i <= self.listings@.len(),
                self.wf(),
                tokens@.len() == i,
                forall|k: int| 0 <= k < i ==> (#[trigger] tokens@[k])@ == self@.uid_to_data[self@.listings[k]],
            decreases self.listings@.len() - i,
        {
            let uid = &self.listings[i];
            assert(self.listings.deep_view()[i as int] == uid@);
            assert(self@.listings.contains(uid@));
            match self.uid_to_data.get(uid) {
                Some(d) => {
                    tokens.push(d.clone());
                },
                None => {
                    assert(false);
                },
            }
            i = i + 1;
        }
        let mut offers: Vec<Offer> = Vec::new();
        let n = self.offer_to_bidder.len();
        let mut j: usize = 0;
        proof {
            self.lemma_offer_order();
        }
        while j < n
            invariant
                j <= n,
                n == self.offer_order().len(),
                self.wf(),
                offers@.len() == j,
                forall|id: Seq<char>| #[trigger]
                    self@.offer_to_bidder.dom().contains(id) <==> self.offer_order().contains(id),
                forall|k: int| 0 <= k < j ==> (#[trigger] offers@[k])@ == self@.offer(self.offer_order()[k]),
            decreases n - j,
        {
            let id = self.offer_to_bidder.key_at(j);
            assert(self.offer_order().contains(self.offer_order()[j as int]));
            match self.get_offer(id) {
                Some(o) => {
                    offers.push(o);
                },
                None => {
                    assert(false);
                },
            }
            j = j + 1;
        }
        let r = Snapshot { tokens, offers, offers_minted: self.offers_minted };
        assert(r.tokens.deep_view() =~= snapshot_tokens(self@));
        assert(r.offers.deep_view() =~= snapshot_offers(self@, self.offer_order()));
        r
    }
}

} // verus!
