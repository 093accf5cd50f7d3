//! The market as a mathematical value: its indexes, the invariant that ties
//! them together, and what each operation makes of them.

use vstd::prelude::*;
use crate::offers::{offer_id_text, OfferView};
use crate::payout::Line;
use crate::token_data::TokenDataView;
use crate::utils::{last_index_of, offer_ids, remove_offer, remove_value, uid_of};

verus! {

/// The indexes of the market.
pub struct ContractView {
    /// The items on sale, oldest listing first.
    pub listings: Seq<Seq<char>>,
    /// The record of each item on sale.
    pub uid_to_data: Map<Seq<char>, TokenDataView>,
    /// The items that each seller has on sale.
    pub user_to_uids: Map<Seq<char>, Seq<Seq<char>>>,
    /// The offers on each item, oldest first.
    pub offers_by_item: Map<Seq<char>, Seq<OfferView>>,
    /// The offers of each bidder, oldest first.
    pub offers_by_bidder: Map<Seq<char>, Seq<OfferView>>,
    /// The bidder behind each offer.
    pub offer_to_bidder: Map<Seq<char>, Seq<char>>,
    /// How many offers were ever placed.
    pub offers_minted: nat,
}

/// The identifier under which a record is listed.
pub open spec fn uid_of_data(d: TokenDataView) -> Seq<char> {
    uid_of(d.nft_contract_id, d.token_id)
}

/// `id` is the identifier of one of the first `n` offers.
pub open spec fn minted_before(id: Seq<char>, n: nat) -> bool {
    exists|k: nat| k < n && id == #[trigger] offer_id_text(k)
}

/// What each bidder of `offers` gets back, offer by offer.
pub open spec fn refunds_of(offers: Seq<OfferView>) -> Seq<Line> {
    Seq::new(offers.len(), |i: int| (offers[i].buyer_id, offers[i].price))
}

impl ContractView {
    /// The market with nothing on sale and no offer placed.
    pub open spec fn empty() -> ContractView {
        ContractView {
            listings: Seq::empty(),
            uid_to_data: Map::empty(),
            user_to_uids: Map::empty(),
            offers_by_item: Map::empty(),
            offers_by_bidder: Map::empty(),
            offer_to_bidder: Map::empty(),
            offers_minted: 0,
        }
    }

    /// Whether `uid` is on sale.
    pub open spec fn listed(self, uid: Seq<char>) -> bool {
        self.uid_to_data.dom().contains(uid)
    }

    /// The items that `owner` has on sale, oldest listing first.
    pub open spec fn uids_of(self, owner: Seq<char>) -> Seq<Seq<char>> {
        if self.user_to_uids.dom().contains(owner) {
            self.user_to_uids[owner]
        } else {
            Seq::empty()
        }
    }

    /// The offers on `uid`, oldest first.
    pub open spec fn offers_on(self, uid: Seq<char>) -> Seq<OfferView> {
        if self.offers_by_item.dom().contains(uid) {
            self.offers_by_item[uid]
        } else {
            Seq::empty()
        }
    }

    /// The offers of `bidder`, oldest first.
    pub open spec fn offers_by(self, bidder: Seq<char>) -> Seq<OfferView> {
        if self.offers_by_bidder.dom().contains(bidder) {
            self.offers_by_bidder[bidder]
        } else {
            Seq::empty()
        }
    }

    /// The offer that goes by `id`, read from the index of its bidder.
    pub open spec fn offer(self, id: Seq<char>) -> OfferView {
        let mine = self.offers_by(self.offer_to_bidder[id]);
        mine[last_index_of(offer_ids(mine), id)]
    }

    /// The records of the items that `owner` has on sale, oldest listing
    /// first.
    pub open spec fn tokens_of(self, owner: Seq<char>) -> Seq<TokenDataView> {
        Seq::new(self.uids_of(owner).len(), |i: int| self.uid_to_data[self.uids_of(owner)[i]])
    }

    /// Where the window that starts `from` listings back ends: one behind
    /// its newest listing.
    pub open spec fn page_end(self, from: u64) -> int {
        if from >= self.listings.len() {
            0
        } else {
            self.listings.len() - from
        }
    }

    /// Where the window of at most `limit` listings begins: at its oldest
    /// listing.
    pub open spec fn page_start(self, from: u64, limit: u64) -> int {
        if self.page_end(from) <= limit {
            0
        } else {
            self.page_end(from) - limit
        }
    }

    /// The records in the window, newest listing first.
    pub open spec fn page(self, from: u64, limit: u64) -> Seq<TokenDataView> {
        Seq::new(
            (self.page_end(from) - self.page_start(from, limit)) as nat,
            |k: int| self.uid_to_data[self.listings[self.page_end(from) - 1 - k]],
        )
    }

    /// The listing set and the records speak of the same items, each under
    /// the identifier that its record spells.
    pub open spec fn listings_agree(self) -> bool {
        &&& self.listings.no_duplicates()
        &&& forall|uid: Seq<char>|
            #![trigger self.listings.contains(uid)]
            #![trigger self.uid_to_data.dom().contains(uid)]
            self.listings.contains(uid) <==> self.uid_to_data.dom().contains(uid)
        &&& forall|uid: Seq<char>| #[trigger]
            self.uid_to_data.dom().contains(uid) ==> uid_of_data(self.uid_to_data[uid]) == uid
    }

    /// Every item on sale stands in the index of its seller, once, and the
    /// index of a seller holds nothing else.
    pub open spec fn owners_agree(self) -> bool {
        &&& forall|uid: Seq<char>| #[trigger]
            self.uid_to_data.dom().contains(uid) ==> self.user_to_uids.dom().contains(
                self.uid_to_data[uid].owner_id,
            ) && self.user_to_uids[self.uid_to_data[uid].owner_id].contains(uid)
        &&& forall|owner: Seq<char>, i: int|
            self.user_to_uids.dom().contains(owner) && 0 <= i < self.user_to_uids[owner].len()
                ==> self.uid_to_data.dom().contains(#[trigger] self.user_to_uids[owner][i])
                && self.uid_to_data[self.user_to_uids[owner][i]].owner_id == owner
        &&& forall|owner: Seq<char>| #[trigger]
            self.user_to_uids.dom().contains(owner) ==> self.user_to_uids[owner].no_duplicates()
    }

    /// The offer stands in all three indexes, on an item that is on sale and
    /// that its bidder does not sell.
    pub open spec fn recorded(self, o: OfferView) -> bool {
        &&& self.uid_to_data.dom().contains(o.token_uid)
        &&& self.uid_to_data[o.token_uid].owner_id != o.buyer_id
        &&& self.offers_by_item.dom().contains(o.token_uid)
        &&& self.offers_by_item[o.token_uid].contains(o)
        &&& self.offers_by_bidder.dom().contains(o.buyer_id)
        &&& self.offers_by_bidder[o.buyer_id].contains(o)
        &&& self.offer_to_bidder.dom().contains(o.offer_id)
        &&& self.offer_to_bidder[o.offer_id] == o.buyer_id
    }

    /// The three indexes of offers hold the same offers, each under an
    /// identifier that was minted for it alone.
    pub open spec fn offers_agree(self) -> bool {
        &&& forall|uid: Seq<char>| #[trigger]
            self.offers_by_item.dom().contains(uid) ==> self.uid_to_data.dom().contains(uid)
                && offer_ids(self.offers_by_item[uid]).no_duplicates()
        &&& forall|uid: Seq<char>, i: int|
            self.offers_by_item.dom().contains(uid) && 0 <= i < self.offers_by_item[uid].len() ==> (
            #[trigger] self.offers_by_item[uid][i]).token_uid == uid && self.recorded(
                self.offers_by_item[uid][i],
            )
        &&& forall|bidder: Seq<char>| #[trigger]
            self.offers_by_bidder.dom().contains(bidder) ==> offer_ids(
                self.offers_by_bidder[bidder],
            ).no_duplicates()
        &&& forall|bidder: Seq<char>, i: int|
            self.offers_by_bidder.dom().contains(bidder) && 0 <= i < self.offers_by_bidder[bidder].len()
                ==> (#[trigger] self.offers_by_bidder[bidder][i]).buyer_id == bidder && self.recorded(
                self.offers_by_bidder[bidder][i],
            )
        &&& forall|id: Seq<char>| #[trigger]
            self.offer_to_bidder.dom().contains(id) ==> self.offers_by_bidder.dom().contains(
                self.offer_to_bidder[id],
            ) && offer_ids(self.offers_by_bidder[self.offer_to_bidder[id]]).contains(id) && minted_before(
                id,
                self.offers_minted,
            )
    }

    /// The invariant of the market.
    pub open spec fn inv(self) -> bool {
        &&& self.listings_agree()
        &&& self.owners_agree()
        &&& self.offers_agree()
    }

    /// The market after `d` was put on sale.
    pub open spec fn list(self, d: TokenDataView) -> ContractView {
        ContractView {
            listings: self.listings.push(uid_of_data(d)),
            uid_to_data: self.uid_to_data.insert(uid_of_data(d), d),
            user_to_uids: self.user_to_uids.insert(d.owner_id, self.uids_of(d.owner_id).push(uid_of_data(d))),
            ..self
        }
    }

    /// The market after the price of `uid` was set to `price`.
    pub open spec fn set_price(self, uid: Seq<char>, price: u128) -> ContractView {
        ContractView {
            uid_to_data: self.uid_to_data.insert(uid, TokenDataView { price, ..self.uid_to_data[uid] }),
            ..self
        }
    }

    /// The market after `o` entered all three indexes.
    pub open spec fn add_offer(self, o: OfferView) -> ContractView {
        ContractView {
            offers_by_item: self.offers_by_item.insert(o.token_uid, self.offers_on(o.token_uid).push(o)),
            offers_by_bidder: self.offers_by_bidder.insert(o.buyer_id, self.offers_by(o.buyer_id).push(o)),
            offer_to_bidder: self.offer_to_bidder.insert(o.offer_id, o.buyer_id),
            ..self
        }
    }

    /// The market after `bidder` placed an offer of `amount` on `uid`: the
    /// offer goes by the next identifier to mint.
    pub open spec fn place_offer(self, uid: Seq<char>, bidder: Seq<char>, amount: u128) -> ContractView {
        let o = OfferView {
            token_uid: uid,
            offer_id: offer_id_text(self.offers_minted),
            price: amount,
            buyer_id: bidder,
        };
        ContractView { offers_minted: self.offers_minted + 1, ..self.add_offer(o) }
    }

    /// The market after the offer that goes by `id` left all three indexes.
    pub open spec fn take_offer(self, id: Seq<char>) -> ContractView {
        let o = self.offer(id);
        ContractView {
            offers_by_item: self.offers_by_item.insert(o.token_uid, remove_offer(self.offers_on(o.token_uid), id)),
            offers_by_bidder: self.offers_by_bidder.insert(o.buyer_id, remove_offer(self.offers_by(o.buyer_id), id)),
            offer_to_bidder: self.offer_to_bidder.remove(id),
            ..self
        }
    }

    /// The market after the first `n` offers on `uid` left it, one by one,
    /// and with them the entry of `uid` in the index of offers by item.
    pub open spec fn drop_offers(self, uid: Seq<char>, n: nat) -> ContractView
        decreases n,
    {
        if n == 0 {
            ContractView { offers_by_item: self.offers_by_item.remove(uid), ..self }
        } else {
            self.take_offer(self.offers_on(uid)[0].offer_id).drop_offers(uid, (n - 1) as nat)
        }
    }

    /// The market after `uid` left it: its offers first, then its place in
    /// the index of its seller, in the listing set and among the records.
    pub open spec fn remove(self, uid: Seq<char>) -> ContractView {
        let owner = self.uid_to_data[uid].owner_id;
        let s = self.drop_offers(uid, self.offers_on(uid).len());
        ContractView {
            listings: remove_value(self.listings, uid),
            uid_to_data: self.uid_to_data.remove(uid),
            user_to_uids: self.user_to_uids.insert(owner, remove_value(self.uids_of(owner), uid)),
            ..s
        }
    }
}

} // verus!
