//! What holds of the market whatever is done with it.

use vstd::prelude::*;
use crate::model::{refunds_of, uid_of_data, ContractView};
use crate::offers::{offer_id_text, OfferView};
use crate::payout::{lemma_total_push, received, total};
use crate::preserve::{
    lemma_empty_inv, lemma_list_inv, lemma_offer, lemma_offer_found, lemma_offer_list_remove,
    lemma_place_offer, lemma_remove, lemma_take_offer,
};
use crate::token_data::TokenDataView;
use crate::utils::{last_index_of, lemma_last_index_of, offer_ids};

verus! {

/// A request to put an item on sale or to take one off.
pub enum ListingOp {
    /// The seller of the record puts its item on sale.
    List(TokenDataView),
    /// `caller` takes `uid` off the market.
    Delist { uid: Seq<char>, caller: Seq<char> },
}

/// The market after one request: an item that is on sale already is not
/// listed again, and only its seller takes an item off.
pub open spec fn step(s: ContractView, op: ListingOp) -> ContractView {
    match op {
        ListingOp::List(d) => if s.listed(uid_of_data(d)) {
            s
        } else {
            s.list(d)
        },
        ListingOp::Delist { uid, caller } => if s.listed(uid) && s.uid_to_data[uid].owner_id == caller {
            s.remove(uid)
        } else {
            s
        },
    }
}

/// The market after a sequence of requests, first to last.
pub open spec fn run(s: ContractView, ops: Seq<ListingOp>) -> ContractView
    decreases ops.len(),
{
    if ops.len() == 0 {
        s
    } else {
        step(run(s, ops.drop_last()), ops.last())
    }
}

/// In a market that keeps its invariant, an item is in the listing set
/// exactly when it is in the index of a seller, and then in that of the
/// seller that its record names and of no other.
pub proof fn lemma_listing_set_and_owner_index_agree(s: ContractView, uid: Seq<char>)
    requires
        s.inv(),
    ensures
        s.listings.contains(uid) <==> exists|owner: Seq<char>| #[trigger] s.uids_of(owner).contains(uid),
        s.listings.contains(uid) ==> s.uids_of(s.uid_to_data[uid].owner_id).contains(uid),
        forall|owner: Seq<char>| #[trigger]
            s.uids_of(owner).contains(uid) ==> s.listings.contains(uid) && s.uid_to_data[uid].owner_id == owner,
{
    assert forall|owner: Seq<char>| #[trigger] s.uids_of(owner).contains(uid) implies s.listings.contains(uid)
        && s.uid_to_data[uid].owner_id == owner by {
        let i = choose|i: int| 0 <= i < s.uids_of(owner).len() && s.uids_of(owner)[i] == uid;
        assert(s.uid_to_data.dom().contains(s.user_to_uids[owner][i]));
    }
    if s.listings.contains(uid) {
        assert(s.uid_to_data.dom().contains(uid));
        assert(s.uids_of(s.uid_to_data[uid].owner_id).contains(uid));
    }
}

/// After any sequence of listings and delistings from the empty market, the
/// listing set and the index by seller hold the same items.
pub proof fn lemma_listings_and_owner_index_agree_always(ops: Seq<ListingOp>, uid: Seq<char>)
    ensures
        run(ContractView::empty(), ops).inv(),
        run(ContractView::empty(), ops).listings.contains(uid) <==> exists|owner: Seq<char>| #[trigger]
            run(ContractView::empty(), ops).uids_of(owner).contains(uid),
    decreases ops.len(),
{
    if ops.len() == 0 {
        lemma_empty_inv();
    } else {
        lemma_listings_and_owner_index_agree_always(ops.drop_last(), uid);
        let s = run(ContractView::empty(), ops.drop_last());
        match ops.last() {
            ListingOp::List(d) => {
                if !s.listed(uid_of_data(d)) {
                    lemma_list_inv(s, d);
                }
            },
            ListingOp::Delist { uid: gone, caller } => {
                if s.listed(gone) && s.uid_to_data[gone].owner_id == caller {
                    lemma_remove(s, gone);
                }
            },
        }
    }
    lemma_listing_set_and_owner_index_agree(run(ContractView::empty(), ops), uid);
}

/// In a market that keeps its invariant, an offer stands in the index of its
/// item exactly when it stands in the index of its bidder, and then the map
/// of identifiers gives its bidder; an identifier in that map is that of an
/// offer which stands in both.
pub proof fn lemma_offer_indexes_agree(s: ContractView, o: OfferView)
    requires
        s.inv(),
    ensures
        s.offers_on(o.token_uid).contains(o) <==> s.offers_by(o.buyer_id).contains(o),
        s.offers_on(o.token_uid).contains(o) ==> s.offer_to_bidder.dom().contains(o.offer_id)
            && s.offer_to_bidder[o.offer_id] == o.buyer_id && s.offer(o.offer_id) == o && s.listed(o.token_uid),
        s.offer_to_bidder.dom().contains(o.offer_id) ==> s.offers_on(s.offer(o.offer_id).token_uid).contains(
            s.offer(o.offer_id),
        ) && s.offers_by(s.offer_to_bidder[o.offer_id]).contains(s.offer(o.offer_id)),
{
    if s.offers_on(o.token_uid).contains(o) {
        let on = s.offers_by_item[o.token_uid];
        let i = choose|i: int| 0 <= i < on.len() && on[i] == o;
        assert(s.recorded(s.offers_by_item[o.token_uid][i]));
        lemma_offer(s, o.offer_id);
    }
    if s.offers_by(o.buyer_id).contains(o) {
        let by = s.offers_by_bidder[o.buyer_id];
        let i = choose|i: int| 0 <= i < by.len() && by[i] == o;
        assert(s.recorded(s.offers_by_bidder[o.buyer_id][i]));
    }
    if s.offer_to_bidder.dom().contains(o.offer_id) {
        lemma_offer(s, o.offer_id);
    }
}

/// What the market holds in escrow for `bidder`: the prices of the offers
/// of `bidder` that stand.
pub open spec fn escrow_of(s: ContractView, bidder: Seq<char>) -> nat {
    total(refunds_of(s.offers_by(bidder)))
}

/// An offer that is placed and then withdrawn gives its bidder back the
/// amount that was put in escrow. The offer is then in neither index nor in
/// the map of identifiers, every index of offers is as it was before the
/// offer was placed, and so is what the market holds for the bidder.
pub proof fn lemma_place_then_withdraw(s: ContractView, uid: Seq<char>, bidder: Seq<char>, amount: u128)
    requires
        s.inv(),
        s.listed(uid),
        s.uid_to_data[uid].owner_id != bidder,
    ensures
        ({
            let id = offer_id_text(s.offers_minted);
            let placed = s.place_offer(uid, bidder, amount);
            let after = placed.take_offer(id);
            &&& placed.inv()
            &&& placed.offer_to_bidder.dom().contains(id)
            &&& placed.offer_to_bidder[id] == bidder
            &&& placed.offer(id).price == amount
            &&& placed.offer(id).buyer_id == bidder
            &&& escrow_of(placed, bidder) == escrow_of(s, bidder) + amount
            &&& after.inv()
            &&& !after.offer_to_bidder.dom().contains(id)
            &&& !offer_ids(after.offers_on(uid)).contains(id)
            &&& !offer_ids(after.offers_by(bidder)).contains(id)
            &&& forall|o: OfferView| after.recorded(o) ==> o.offer_id != id
            &&& after.offers_on(uid) == s.offers_on(uid)
            &&& after.offers_by(bidder) == s.offers_by(bidder)
            &&& after.offer_to_bidder == s.offer_to_bidder
            &&& escrow_of(after, bidder) == escrow_of(s, bidder)
        }),
{
    let id = offer_id_text(s.offers_minted);
    let placed = s.place_offer(uid, bidder, amount);
    let after = placed.take_offer(id);
    let o = OfferView { token_uid: uid, offer_id: id, price: amount, buyer_id: bidder };
    lemma_place_offer(s, uid, bidder, amount);
    lemma_offer(placed, id);
    lemma_take_offer(placed, id);
    let on = s.offers_on(uid);
    let by = s.offers_by(bidder);
    assert(refunds_of(by.push(o)) =~= refunds_of(by).push((bidder, amount)));
    lemma_total_push(refunds_of(by), (bidder, amount));
    lemma_offer_found(placed.offers_on(uid), on.len() as int);
    lemma_offer_found(placed.offers_by(bidder), by.len() as int);
    lemma_offer_list_remove(placed.offers_on(uid), id);
    lemma_offer_list_remove(placed.offers_by(bidder), id);
    assert(on.push(o).remove(on.len() as int) =~= on);
    assert(by.push(o).remove(by.len() as int) =~= by);
    assert(after.offer_to_bidder =~= s.offer_to_bidder);
}

/// Withdrawing an offer gives back what the offer held in escrow, and takes
/// that much, and no more, out of what the market holds for the bidder.
pub proof fn lemma_withdraw_refunds_escrow(s: ContractView, id: Seq<char>)
    requires
        s.inv(),
        s.offer_to_bidder.dom().contains(id),
    ensures
        escrow_of(s, s.offer(id).buyer_id) == escrow_of(s.take_offer(id), s.offer(id).buyer_id) + s.offer(id).price,
        forall|b: Seq<char>| b != s.offer(id).buyer_id ==> escrow_of(s.take_offer(id), b) == escrow_of(s, b),
{
    lemma_offer(s, id);
    lemma_take_offer(s, id);
    let o = s.offer(id);
    let by = s.offers_by(o.buyer_id);
    let j = last_index_of(offer_ids(by), id);
    lemma_last_index_of(offer_ids(by), id);
    lemma_offer_list_remove(by, id);
    assert(refunds_of(by.remove(j)) =~= refunds_of(by).remove(j));
    lemma_total_remove(refunds_of(by), j);
    assert forall|b: Seq<char>| b != o.buyer_id implies escrow_of(s.take_offer(id), b) == escrow_of(s, b) by {
        assert(s.take_offer(id).offers_by(b) == s.offers_by(b));
    }
}

/// The sum of a sequence of lines without one of them.
pub proof fn lemma_total_remove(s: Seq<(Seq<char>, u128)>, j: int)
    requires
        0 <= j < s.len(),
    ensures
        total(s) == total(s.remove(j)) + s[j].1,
    decreases s.len(),
{
    if j == s.len() - 1 {
        assert(s.remove(j) =~= s.drop_last());
    } else {
        lemma_total_remove(s.drop_last(), j);
        assert(s.remove(j).drop_last() =~= s.drop_last().remove(j));
        assert(s.remove(j).last() == s.last());
    }
}

/// An item that was taken off the market, as a purchase does before the
/// transfer is asked for, is in no window of the listings from then on.
pub proof fn lemma_removed_item_leaves_pages(s: ContractView, uid: Seq<char>, from: u64, limit: u64)
    requires
        s.inv(),
        s.listed(uid),
    ensures
        forall|k: int|
            0 <= k < s.remove(uid).page(from, limit).len() ==> uid_of_data(
                #[trigger] s.remove(uid).page(from, limit)[k],
            ) != uid,
{
    let t = s.remove(uid);
    lemma_remove(s, uid);
    assert forall|k: int| 0 <= k < t.page(from, limit).len() implies uid_of_data(#[trigger] t.page(from, limit)[k])
        != uid by {
        let j = t.page_end(from) - 1 - k;
        assert(t.listings.contains(t.listings[j]));
        assert(t.uid_to_data.dom().contains(t.listings[j]));
    }
}

/// When an item leaves the market, each of its bidders gets back what its
/// offer held, and no offer on the item stays in any index.
pub proof fn lemma_removal_refunds_bidders(s: ContractView, uid: Seq<char>)
    requires
        s.inv(),
        s.listed(uid),
    ensures
        refunds_of(s.offers_on(uid)).len() == s.offers_on(uid).len(),
        forall|i: int|
            0 <= i < s.offers_on(uid).len() ==> #[trigger] refunds_of(s.offers_on(uid))[i] == (
                s.offers_on(uid)[i].buyer_id,
                s.offers_on(uid)[i].price,
            ),
        s.remove(uid).offers_on(uid) == Seq::<OfferView>::empty(),
        forall|b: Seq<char>, i: int|
            0 <= i < s.remove(uid).offers_by(b).len() ==> (#[trigger] s.remove(uid).offers_by(b)[i]).token_uid
                != uid,
        forall|i: int|
            0 <= i < s.offers_on(uid).len() ==> !s.remove(uid).offer_to_bidder.dom().contains(
                (#[trigger] s.offers_on(uid)[i]).offer_id,
            ),
{
    let t = s.remove(uid);
    lemma_remove(s, uid);
    assert forall|b: Seq<char>, i: int| 0 <= i < t.offers_by(b).len() implies (#[trigger] t.offers_by(
        b,
    )[i]).token_uid != uid by {
        assert(t.recorded(t.offers_by_bidder[b][i]));
    }
    assert forall|i: int| 0 <= i < s.offers_on(uid).len() implies !t.offer_to_bidder.dom().contains(
        (#[trigger] s.offers_on(uid)[i]).offer_id,
    ) by {
        let o = s.offers_by_item[uid][i];
        let id = o.offer_id;
        assert(s.recorded(o));
        if t.offer_to_bidder.dom().contains(id) {
            lemma_offer(t, id);
            let x = t.offer(id);
            assert(t.recorded(x));
            assert(s.recorded(x));
            lemma_offer(s, id);
            assert(x == s.offer(id));
            assert(o == s.offer(id));
        }
    }
}

/// What a recipient is paid by a sequence of lines with one more line in
/// front.
pub proof fn lemma_received_first(x: (Seq<char>, u128), t: Seq<(Seq<char>, u128)>, who: Seq<char>)
    ensures
        received(seq![x] + t, who) == received(t, who) + if x.0 == who {
            x.1 as nat
        } else {
            0
        },
    decreases t.len(),
{
    let all = seq![x] + t;
    if t.len() == 0 {
        assert(all.drop_last() =~= Seq::<(Seq<char>, u128)>::empty());
        assert(all.last() == x);
        assert(received(all.drop_last(), who) == 0);
    } else {
        lemma_received_first(x, t.drop_last(), who);
        assert(all.drop_last() =~= seq![x] + t.drop_last());
        assert(all.last() == t.last());
    }
}

proof fn lemma_drop_offers_conserves_escrow(s: ContractView, uid: Seq<char>, n: nat, bidder: Seq<char>)
    requires
        s.inv(),
        n == s.offers_on(uid).len(),
    ensures
        escrow_of(s, bidder) == escrow_of(s.drop_offers(uid, n), bidder) + received(
            refunds_of(s.offers_on(uid)),
            bidder,
        ),
    decreases n,
{
    let on = s.offers_on(uid);
    if n == 0 {
        assert(refunds_of(on) =~= Seq::<(Seq<char>, u128)>::empty());
    } else {
        let first = s.offers_by_item[uid][0];
        let id = first.offer_id;
        assert(s.recorded(first));
        lemma_offer(s, id);
        lemma_take_offer(s, id);
        lemma_withdraw_refunds_escrow(s, id);
        let s1 = s.take_offer(id);
        lemma_drop_offers_conserves_escrow(s1, uid, (n - 1) as nat, bidder);
        assert(s1.offers_on(uid) == on.drop_first());
        assert(refunds_of(on) =~= seq![(first.buyer_id, first.price)] + refunds_of(on.drop_first()));
        lemma_received_first((first.buyer_id, first.price), refunds_of(on.drop_first()), bidder);
    }
}

/// When an item leaves the market, what the market held for a bidder is
/// what it still holds for that bidder and what the bidder gets back: no
/// escrowed funds are lost, and none are made.
pub proof fn lemma_removal_conserves_escrow(s: ContractView, uid: Seq<char>, bidder: Seq<char>)
    requires
        s.inv(),
        s.listed(uid),
    ensures
        escrow_of(s, bidder) == escrow_of(s.remove(uid), bidder) + received(refunds_of(s.offers_on(uid)), bidder),
{
    lemma_drop_offers_conserves_escrow(s, uid, s.offers_on(uid).len(), bidder);
    assert(s.remove(uid).offers_by(bidder) == s.drop_offers(uid, s.offers_on(uid).len()).offers_by(bidder));
}

} // verus!
