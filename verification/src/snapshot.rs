//! The market as plain records, to keep it between calls, and the market
//! made again from them.

use vstd::prelude::*;
use crate::contract::Contract;
use crate::error::MarketError;
use crate::model::{minted_before, uid_of_data, ContractView};
use crate::offers::{lemma_offer_id_text_injective, offer_id_text, offer_number, Offer, OfferView};
use crate::preserve::{lemma_add_offer, lemma_empty_inv, lemma_list_inv, lemma_mint, lemma_offer};
use crate::token_data::{TokenData, TokenDataView};

verus! {

/// The market as plain records: the listings, oldest first, the offers that
/// stand, and how many offers were ever placed.
#[derive(Debug, PartialEq, Eq)]
pub struct Snapshot {
    pub tokens: Vec<TokenData>,
    pub offers: Vec<Offer>,
    pub offers_minted: u64,
}

/// `o` may enter the indexes of `s`: its item is on sale, its bidder is not
/// the seller, and its identifier was minted and is held by no offer.
pub open spec fn admits(s: ContractView, o: OfferView) -> bool {
    &&& s.listed(o.token_uid)
    &&& s.uid_to_data[o.token_uid].owner_id != o.buyer_id
    &&& !s.offer_to_bidder.dom().contains(o.offer_id)
    &&& minted_before(o.offer_id, s.offers_minted)
}

/// `s` with `tokens` put on sale one after the other, if no item comes
/// twice.
pub open spec fn with_tokens(s: ContractView, tokens: Seq<TokenDataView>) -> Option<ContractView>
    decreases tokens.len(),
{
    if tokens.len() == 0 {
        Some(s)
    } else {
        match with_tokens(s, tokens.drop_last()) {
            Some(t) if !t.listed(uid_of_data(tokens.last())) => Some(t.list(tokens.last())),
            _ => None,
        }
    }
}

/// `s` with `offers` entered one after the other, if each may enter.
pub open spec fn with_offers(s: ContractView, offers: Seq<OfferView>) -> Option<ContractView>
    decreases offers.len(),
{
    if offers.len() == 0 {
        Some(s)
    } else {
        match with_offers(s, offers.drop_last()) {
            Some(t) if admits(t, offers.last()) => Some(t.add_offer(offers.last())),
            _ => None,
        }
    }
}

/// The market that the records describe, if they describe one.
pub open spec fn restored(tokens: Seq<TokenDataView>, offers: Seq<OfferView>, minted: u64) -> Option<ContractView> {
    match with_tokens(ContractView::empty(), tokens) {
        Some(t) => with_offers(ContractView { offers_minted: minted as nat, ..t }, offers),
        None => None,
    }
}

/// Records of which a beginning describes no market describe none.
pub proof fn lemma_with_tokens_take(s: ContractView, tokens: Seq<TokenDataView>, i: int)
    requires
        0 <= i <= tokens.len(),
        with_tokens(s, tokens.take(i)) is None,
    ensures
        with_tokens(s, tokens) is None,
    decreases tokens.len() - i,
{
    if i < tokens.len() {
        assert(tokens.take(i + 1).drop_last() =~= tokens.take(i));
        lemma_with_tokens_take(s, tokens, i + 1);
    } else {
        assert(tokens.take(i) =~= tokens);
    }
}

/// Offers of which a beginning cannot enter cannot enter.
pub proof fn lemma_with_offers_take(s: ContractView, offers: Seq<OfferView>, i: int)
    requires
        0 <= i <= offers.len(),
        with_offers(s, offers.take(i)) is None,
    ensures
        with_offers(s, offers) is None,
    decreases offers.len() - i,
{
    if i < offers.len() {
        assert(offers.take(i + 1).drop_last() =~= offers.take(i));
        lemma_with_offers_take(s, offers, i + 1);
    } else {
        assert(offers.take(i) =~= offers);
    }
}

/// The records of the listings of `s`, oldest first.
pub open spec fn snapshot_tokens(s: ContractView) -> Seq<TokenDataView> {
    Seq::new(s.listings.len(), |i: int| s.uid_to_data[s.listings[i]])
}

/// The offers of `s` that go by the identifiers of `order`, in that order.
pub open spec fn snapshot_offers(s: ContractView, order: Seq<Seq<char>>) -> Seq<OfferView> {
    Seq::new(order.len(), |i: int| s.offer(order[i]))
}

proof fn lemma_tokens_restore(s: ContractView, n: int)
    requires
        s.inv(),
        0 <= n <= s.listings.len(),
    ensures
        with_tokens(ContractView::empty(), snapshot_tokens(s).take(n)) matches Some(t) && t.inv() && t.listings
            == s.listings.take(n) && t.uid_to_data == Map::new(
            |u: Seq<char>| s.listings.take(n).contains(u),
            |u: Seq<char>| s.uid_to_data[u],
        ) && t.offers_by_item == Map::<Seq<char>, Seq<OfferView>>::empty() && t.offers_by_bidder == Map::<
            Seq<char>,
            Seq<OfferView>,
        >::empty() && t.offer_to_bidder == Map::<Seq<char>, Seq<char>>::empty() && t.offers_minted == 0,
    decreases n,
{
    let tokens = snapshot_tokens(s).take(n);
    if n == 0 {
        lemma_empty_inv();
        let t = ContractView::empty();
        assert(t.listings =~= s.listings.take(0));
        assert(t.uid_to_data =~= Map::new(
            |u: Seq<char>| s.listings.take(0).contains(u),
            |u: Seq<char>| s.uid_to_data[u],
        ));
    } else {
        lemma_tokens_restore(s, n - 1);
        let before = with_tokens(ContractView::empty(), snapshot_tokens(s).take(n - 1))->0;
        let uid = s.listings[n - 1];
        let d = s.uid_to_data[uid];
        assert(tokens.drop_last() =~= snapshot_tokens(s).take(n - 1));
        assert(tokens.last() == d);
        assert(s.listings.contains(uid));
        assert(uid_of_data(d) == uid);
        let prev = s.listings.take(n - 1);
        let cur = s.listings.take(n);
        if prev.contains(uid) {
            let k = choose|k: int| 0 <= k < prev.len() && prev[k] == uid;
            assert(s.listings[k] == s.listings[n - 1]);
        }
        lemma_list_inv(before, d);
        let t = before.list(d);
        assert(t.listings =~= s.listings.take(n));
        assert(t.uid_to_data =~= Map::new(
            |u: Seq<char>| s.listings.take(n).contains(u),
            |u: Seq<char>| s.uid_to_data[u],
        )) by {
            assert forall|u: Seq<char>| cur.contains(u) <==> prev.contains(u) || u == uid by {
                if cur.contains(u) {
                    let k = choose|k: int| 0 <= k < cur.len() && cur[k] == u;
                    if k < n - 1 {
                        assert(prev[k] == u);
                    }
                }
                if prev.contains(u) {
                    let k = choose|k: int| 0 <= k < prev.len() && prev[k] == u;
                    assert(cur[k] == u);
                }
                if u == uid {
                    assert(cur[n - 1] == u);
                }
            }
        }
    }
}

proof fn lemma_offers_restore(s: ContractView, order: Seq<Seq<char>>, start: ContractView, j: int)
    requires
        s.inv(),
        order.no_duplicates(),
        forall|id: Seq<char>| #[trigger] s.offer_to_bidder.dom().contains(id) <==> order.contains(id),
        start.inv(),
        start.listings == s.listings,
        start.uid_to_data == s.uid_to_data,
        start.offers_minted == s.offers_minted,
        start.offer_to_bidder == Map::<Seq<char>, Seq<char>>::empty(),
        0 <= j <= order.len(),
    ensures
        with_offers(start, snapshot_offers(s, order).take(j)) matches Some(t) && t.inv() && t.listings
            == s.listings && t.uid_to_data == s.uid_to_data && t.offers_minted == s.offers_minted
            && t.offer_to_bidder == Map::new(
            |id: Seq<char>| order.take(j).contains(id),
            |id: Seq<char>| s.offer_to_bidder[id],
        ) && forall|i: int| 0 <= i < j ==> t.recorded(#[trigger] s.offer(order[i])),
    decreases j,
{
    let offers = snapshot_offers(s, order).take(j);
    if j == 0 {
        assert(start.offer_to_bidder =~= Map::new(
            |id: Seq<char>| order.take(0).contains(id),
            |id: Seq<char>| s.offer_to_bidder[id],
        ));
    } else {
        lemma_offers_restore(s, order, start, j - 1);
        let before = with_offers(start, snapshot_offers(s, order).take(j - 1))->0;
        let id = order[j - 1];
        let o = s.offer(id);
        assert(order.contains(id));
        lemma_offer(s, id);
        assert(offers.drop_last() =~= snapshot_offers(s, order).take(j - 1));
        assert(offers.last() == o);
        let prev = order.take(j - 1);
        let cur = order.take(j);
        if prev.contains(id) {
            let k = choose|k: int| 0 <= k < prev.len() && prev[k] == id;
            assert(order[k] == order[j - 1]);
        }
        assert(admits(before, o));
        lemma_add_offer(before, o);
        let t = before.add_offer(o);
        assert(t.offer_to_bidder =~= Map::new(
            |x: Seq<char>| order.take(j).contains(x),
            |x: Seq<char>| s.offer_to_bidder[x],
        )) by {
            assert forall|x: Seq<char>| cur.contains(x) <==> prev.contains(x) || x == id by {
                if cur.contains(x) {
                    let k = choose|k: int| 0 <= k < cur.len() && cur[k] == x;
                    if k < j - 1 {
                        assert(prev[k] == x);
                    }
                }
                if prev.contains(x) {
                    let k = choose|k: int| 0 <= k < prev.len() && prev[k] == x;
                    assert(cur[k] == x);
                }
                if x == id {
                    assert(cur[j - 1] == x);
                }
            }
        }
        assert forall|i: int| 0 <= i < j implies t.recorded(#[trigger] s.offer(order[i])) by {
            if i < j - 1 {
                assert(before.recorded(s.offer(order[i])));
            } else {
                lemma_offer(t, id);
            }
        }
    }
}

/// The records of a market that keeps its invariant describe a market: one
/// with the same listings, records, offers and identifiers, and the same
/// count of offers placed.
pub proof fn lemma_snapshot_restores(s: ContractView, order: Seq<Seq<char>>)
    requires
        s.inv(),
        s.offers_minted <= u64::MAX,
        order.no_duplicates(),
        forall|id: Seq<char>| #[trigger] s.offer_to_bidder.dom().contains(id) <==> order.contains(id),
    ensures
        restored(snapshot_tokens(s), snapshot_offers(s, order), s.offers_minted as u64) matches Some(t) && t.inv()
            && t.listings == s.listings && t.uid_to_data == s.uid_to_data && t.offer_to_bidder
            == s.offer_to_bidder && t.offers_minted == s.offers_minted && forall|o: OfferView|
            t.recorded(o) <==> s.recorded(o),
{
    let n = s.listings.len() as int;
    lemma_tokens_restore(s, n);
    assert(snapshot_tokens(s).take(n) =~= snapshot_tokens(s));
    let listed = with_tokens(ContractView::empty(), snapshot_tokens(s))->0;
    assert(listed.listings =~= s.listings) by {
        assert(s.listings.take(n) =~= s.listings);
    }
    assert(listed.uid_to_data =~= s.uid_to_data) by {
        assert(s.listings.take(n) =~= s.listings);
    }
    lemma_mint(listed, s.offers_minted);
    let start = ContractView { offers_minted: s.offers_minted, ..listed };
    let m = order.len() as int;
    lemma_offers_restore(s, order, start, m);
    assert(snapshot_offers(s, order).take(m) =~= snapshot_offers(s, order));
    let t = with_offers(start, snapshot_offers(s, order))->0;
    assert(order.take(m) =~= order);
    assert(t.offer_to_bidder =~= s.offer_to_bidder);
    assert forall|o: OfferView| t.recorded(o) <==> s.recorded(o) by {
        if t.recorded(o) {
            lemma_offer(t, o.offer_id);
            lemma_offer(s, o.offer_id);
            let k = choose|k: int| 0 <= k < order.len() && order[k] == o.offer_id;
            assert(t.recorded(s.offer(order[k])));
        }
        if s.recorded(o) {
            lemma_offer(s, o.offer_id);
            let k = choose|k: int| 0 <= k < order.len() && order[k] == o.offer_id;
            assert(t.recorded(s.offer(order[k])));
        }
    }
}

impl Contract {
    /// Whether `offer` may enter the indexes.
    fn admits(&self, offer: &Offer) -> (b: bool)
        requires
            self.wf(),
        ensures
            b == admits(self@, offer@),
    {
        let owner_differs = match self.get_nft(&offer.token_uid) {
            Some(d) => d.owner_id != offer.buyer_id,
            None => false,
        };
        if !owner_differs {
            return false;
        }
        if self.get_offer_bidder(&offer.offer_id).is_some() {
            return false;
        }
        match offer_number(&offer.offer_id) {
            Some(k) => {
                proof {
                    if minted_before(offer@.offer_id, self@.offers_minted) {
                        let j = choose|j: nat| j < self@.offers_minted && offer@.offer_id == #[trigger] offer_id_text(j);
                        lemma_offer_id_text_injective(j, k as nat);
                    }
                    if k < self@.offers_minted {
                        assert(offer@.offer_id == offer_id_text(k as nat));
                    }
                }
                k < self.offers_minted()
            },
            None => false,
        }
    }

    /// The market that `snapshot` describes. Records that describe none — an
    /// item twice, or an offer on an item that is not on sale, by the seller,
    /// under an identifier that was not minted or that another offer holds —
    /// are refused.
    pub fn restore(snapshot: Snapshot) -> (r: Result<Contract, MarketError>)
        ensures
            match r {
                Ok(c) => c.wf() && restored(
                    snapshot.tokens.deep_view(),
                    snapshot.offers.deep_view(),
                    snapshot.offers_minted,
                ) == Some(c@),
                Err(e) => e == MarketError::InvariantViolation && restored(
                    snapshot.tokens.deep_view(),
                    snapshot.offers.deep_view(),
                    snapshot.offers_minted,
                ) is None,
            },
    {
        let mut c = Contract::new();
        let ghost tokens = snapshot.tokens.deep_view();
        let ghost offers = snapshot.offers.deep_view();
        let mut i: usize = 0;
        while i < snapshot.tokens.len()
            invariant
                i <= snapshot.tokens@.len(),
                tokens == snapshot.tokens.deep_view(),
                c.wf(),
                c@.offers_minted == 0,
                with_tokens(ContractView::empty(), tokens.take(i as int)) == Some(c@),
            decreases snapshot.tokens@.len() - i,
        {
            let d = snapshot.tokens[i].clone();
            proof {
                assert(tokens.take(i + 1).drop_last() =~= tokens.take(i as int));
                assert(tokens.take(i + 1).last() == d@);
            }
            match c.nft_on_approve(d.token_id, d.owner_id, d.approval_id, d.nft_contract_id, d.price) {
                Ok(_) => {},
                Err(_) => {
                    proof {
                        lemma_with_tokens_take(ContractView::empty(), tokens, i + 1);
                    }
                    return Err(MarketError::InvariantViolation);
                },
            }
            i = i + 1;
        }
        assert(tokens.take(i as int) =~= tokens);
        let ghost listed = c@;
        c.set_offers_minted(snapshot.offers_minted);
        let ghost start = c@;
        let mut j: usize = 0;
        while j < snapshot.offers.len()
            invariant
                j <= snapshot.offers@.len(),
                tokens == snapshot.tokens.deep_view(),
                offers == snapshot.offers.deep_view(),
                with_tokens(ContractView::empty(), tokens) == Some(listed),
                start == (ContractView { offers_minted: snapshot.offers_minted as nat, ..listed }),
                c.wf(),
                with_offers(start, offers.take(j as int)) == Some(c@),
            decreases snapshot.offers@.len() - j,
        {
            let o = snapshot.offers[j].clone();
            proof {
                assert(offers.take(j + 1).drop_last() =~= offers.take(j as int));
                assert(offers.take(j + 1).last() == o@);
            }
            if !c.admits(&o) {
                proof {
                    lemma_with_offers_take(start, offers, j + 1);
                }
                return Err(MarketError::InvariantViolation);
            }
            c.add_offer(o);
            j = j + 1;
        }
        assert(offers.take(j as int) =~= offers);
        Ok(c)
    }
}

} // verus!
