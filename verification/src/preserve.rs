//! The operations of the market keep its invariant.

use vstd::prelude::*;
use crate::model::{minted_before, uid_of_data, ContractView};
use crate::offers::{lemma_offer_id_text_injective, offer_id_text, OfferView};
use crate::token_data::TokenDataView;
use crate::utils::{last_index_of, lemma_last_index_of, offer_ids, remove_offer, remove_value};

verus! {

/// A sequence that holds nothing twice still does after one more element
/// that it did not hold.
pub proof fn lemma_push_no_duplicates<A>(s: Seq<A>, x: A)
    requires
        s.no_duplicates(),
        !s.contains(x),
    ensures
        s.push(x).no_duplicates(),
        forall|y: A| s.push(x).contains(y) <==> s.contains(y) || y == x,
{
    assert forall|i: int, j: int| 0 <= i < s.push(x).len() && 0 <= j < s.push(x).len() && i != j implies s.push(
        x,
    )[i] != s.push(x)[j] by {
        if i < s.len() {
            assert(s[i] == s.push(x)[i]);
        }
        if j < s.len() {
            assert(s[j] == s.push(x)[j]);
        }
    }
    assert forall|y: A| s.push(x).contains(y) <==> s.contains(y) || y == x by {
        if s.contains(y) {
            let i = choose|i: int| 0 <= i < s.len() && s[i] == y;
            assert(s.push(x)[i] == y);
        }
        if y == x {
            assert(s.push(x)[s.len() as int] == x);
        }
        if s.push(x).contains(y) {
            let i = choose|i: int| 0 <= i < s.push(x).len() && s.push(x)[i] == y;
            if i < s.len() {
                assert(s[i] == y);
            }
        }
    }
}

/// The empty market keeps the invariant.
pub proof fn lemma_empty_inv()
    ensures
        ContractView::empty().inv(),
{
}

/// Putting an item on sale that was not keeps the invariant.
pub proof fn lemma_list_inv(s: ContractView, d: TokenDataView)
    requires
        s.inv(),
        !s.listed(uid_of_data(d)),
    ensures
        s.list(d).inv(),
{
    let uid = uid_of_data(d);
    let t = s.list(d);
    let mine = s.uids_of(d.owner_id);
    lemma_push_no_duplicates(s.listings, uid);
    assert(mine.no_duplicates());
    if mine.contains(uid) {
        let i = choose|i: int| 0 <= i < mine.len() && mine[i] == uid;
        assert(s.uid_to_data.dom().contains(s.user_to_uids[d.owner_id][i]));
    }
    lemma_push_no_duplicates(mine, uid);
    assert(t.listings_agree());
    assert(t.owners_agree()) by {
        assert forall|owner: Seq<char>, i: int|
            t.user_to_uids.dom().contains(owner) && 0 <= i < t.user_to_uids[owner].len()
                implies t.uid_to_data.dom().contains(#[trigger] t.user_to_uids[owner][i])
            && t.uid_to_data[t.user_to_uids[owner][i]].owner_id == owner by {
            if owner == d.owner_id {
                if i < mine.len() {
                    assert(t.user_to_uids[owner][i] == s.user_to_uids[owner][i]);
                }
            } else {
                assert(t.user_to_uids[owner][i] == s.user_to_uids[owner][i]);
            }
        }
    }
    assert(t.offers_agree()) by {
        assert forall|o: OfferView| s.recorded(o) implies t.recorded(o) by {}
    }
}

/// Setting the price of an item on sale keeps the invariant.
pub proof fn lemma_set_price_inv(s: ContractView, uid: Seq<char>, price: u128)
    requires
        s.inv(),
        s.listed(uid),
    ensures
        s.set_price(uid, price).inv(),
{
    let t = s.set_price(uid, price);
    assert(t.uid_to_data.dom() =~= s.uid_to_data.dom());
    assert(t.listings_agree());
    assert(t.owners_agree()) by {
        assert forall|owner: Seq<char>, i: int|
            t.user_to_uids.dom().contains(owner) && 0 <= i < t.user_to_uids[owner].len()
                implies t.uid_to_data.dom().contains(#[trigger] t.user_to_uids[owner][i])
            && t.uid_to_data[t.user_to_uids[owner][i]].owner_id == owner by {
            assert(t.user_to_uids[owner][i] == s.user_to_uids[owner][i]);
        }
    }
    assert(t.offers_agree()) by {
        assert forall|o: OfferView| s.recorded(o) implies t.recorded(o) by {}
    }
}

/// What taking one offer out of a list of offers with distinct
/// identifiers leaves.
pub proof fn lemma_offer_list_remove(l: Seq<OfferView>, id: Seq<char>)
    requires
        offer_ids(l).no_duplicates(),
        offer_ids(l).contains(id),
    ensures
        ({
            let j = last_index_of(offer_ids(l), id);
            let r = remove_offer(l, id);
            &&& 0 <= j < l.len()
            &&& l[j].offer_id == id
            &&& r == l.remove(j)
            &&& r.len() == l.len() - 1
            &&& offer_ids(r).no_duplicates()
            &&& !offer_ids(r).contains(id)
            &&& forall|k: int| 0 <= k < r.len() ==> l.contains(#[trigger] r[k]) && r[k].offer_id != id
            &&& forall|k: int| 0 <= k < l.len() && (#[trigger] l[k]).offer_id != id ==> r.contains(l[k])
            &&& forall|other: Seq<char>|
                other != id ==> (#[trigger] offer_ids(r).contains(other) <==> offer_ids(l).contains(other))
            &&& j == 0 ==> r == l.drop_first()
        }),
{
    let ids = offer_ids(l);
    lemma_last_index_of(ids, id);
    let j = last_index_of(ids, id);
    let r = l.remove(j);
    assert(ids[j] == l[j].offer_id);
    assert(offer_ids(r) =~= ids.remove(j));
    assert forall|k: int| 0 <= k < r.len() implies l.contains(#[trigger] r[k]) && r[k].offer_id != id by {
        let k0 = if k < j { k } else { k + 1 };
        assert(r[k] == l[k0]);
        assert(ids[k0] == l[k0].offer_id);
        assert(ids[k0] != ids[j]);
    }
    assert forall|k: int| 0 <= k < l.len() && (#[trigger] l[k]).offer_id != id implies r.contains(l[k]) by {
        let k1 = if k < j { k } else { k - 1 };
        assert(r[k1] == l[k]);
    }
    assert forall|a: int, b: int| 0 <= a < r.len() && 0 <= b < r.len() && a != b implies offer_ids(r)[a]
        != offer_ids(r)[b] by {
        let a0 = if a < j { a } else { a + 1 };
        let b0 = if b < j { b } else { b + 1 };
        assert(offer_ids(r)[a] == ids[a0] && offer_ids(r)[b] == ids[b0]);
    }
    if offer_ids(r).contains(id) {
        let k = choose|k: int| 0 <= k < offer_ids(r).len() && offer_ids(r)[k] == id;
        assert(r[k].offer_id == id);
    }
    assert forall|other: Seq<char>| other != id implies (#[trigger] offer_ids(r).contains(other) <==> ids.contains(
        other,
    )) by {
        if offer_ids(r).contains(other) {
            let k = choose|k: int| 0 <= k < offer_ids(r).len() && offer_ids(r)[k] == other;
            let k0 = if k < j { k } else { k + 1 };
            assert(ids[k0] == other);
        }
        if ids.contains(other) {
            let k = choose|k: int| 0 <= k < ids.len() && ids[k] == other;
            let k1 = if k < j { k } else { k - 1 };
            assert(offer_ids(r)[k1] == other);
        }
    }
    if j == 0 {
        assert(r =~= l.drop_first());
    }
}

/// In a list of offers with distinct identifiers, an offer is found by its
/// identifier where it stands.
pub proof fn lemma_offer_found(l: Seq<OfferView>, k: int)
    requires
        offer_ids(l).no_duplicates(),
        0 <= k < l.len(),
    ensures
        last_index_of(offer_ids(l), l[k].offer_id) == k,
        offer_ids(l).contains(l[k].offer_id),
{
    assert(offer_ids(l)[k] == l[k].offer_id);
    lemma_last_index_of(offer_ids(l), l[k].offer_id);
}

/// What the market knows of an offer that goes by a known identifier.
pub proof fn lemma_offer(s: ContractView, id: Seq<char>)
    requires
        s.inv(),
        s.offer_to_bidder.dom().contains(id),
    ensures
        s.offer(id).offer_id == id,
        s.offer(id).buyer_id == s.offer_to_bidder[id],
        s.recorded(s.offer(id)),
        forall|o: OfferView| s.recorded(o) && o.offer_id == id ==> o == s.offer(id),
{
    let b = s.offer_to_bidder[id];
    let mine = s.offers_by_bidder[b];
    lemma_last_index_of(offer_ids(mine), id);
    let j = last_index_of(offer_ids(mine), id);
    assert(offer_ids(mine)[j] == mine[j].offer_id);
    assert(s.recorded(s.offers_by_bidder[b][j]));
    assert forall|o: OfferView| s.recorded(o) && o.offer_id == id implies o == s.offer(id) by {
        let k = choose|k: int| 0 <= k < mine.len() && mine[k] == o;
        lemma_offer_found(mine, k);
    }
}

/// Taking an offer out of all three indexes keeps the invariant and leaves
/// the listings and every other offer as they were.
pub proof fn lemma_take_offer(s: ContractView, id: Seq<char>)
    requires
        s.inv(),
        s.offer_to_bidder.dom().contains(id),
    ensures
        s.take_offer(id).inv(),
        s.take_offer(id).offers_on(s.offer(id).token_uid) == remove_offer(
            s.offers_on(s.offer(id).token_uid),
            id,
        ),
        s.take_offer(id).offers_by(s.offer(id).buyer_id) == remove_offer(s.offers_by(s.offer(id).buyer_id), id),
        forall|uid: Seq<char>| uid != s.offer(id).token_uid ==> #[trigger] s.take_offer(id).offers_on(uid) == s.offers_on(uid),
        forall|b: Seq<char>| b != s.offer(id).buyer_id ==> #[trigger] s.take_offer(id).offers_by(b) == s.offers_by(b),
        s.offers_on(s.offer(id).token_uid).len() > 0,
        s.take_offer(id).offers_on(s.offer(id).token_uid).len() == s.offers_on(s.offer(id).token_uid).len() - 1,
        s.offers_on(s.offer(id).token_uid)[0].offer_id == id ==> s.take_offer(id).offers_on(
            s.offer(id).token_uid,
        ) == s.offers_on(s.offer(id).token_uid).drop_first(),
        forall|o: OfferView| s.recorded(o) && o.offer_id != id ==> s.take_offer(id).recorded(o),
        forall|o: OfferView| s.take_offer(id).recorded(o) ==> s.recorded(o) && o.offer_id != id,
{
    let t = s.take_offer(id);
    let o = s.offer(id);
    lemma_offer(s, id);
    let on = s.offers_by_item[o.token_uid];
    let by = s.offers_by_bidder[o.buyer_id];
    assert(offer_ids(on).contains(id)) by {
        let k = choose|k: int| 0 <= k < on.len() && on[k] == o;
        lemma_offer_found(on, k);
    }
    lemma_offer_list_remove(on, id);
    lemma_offer_list_remove(by, id);
    lemma_offer_found(on, 0);
    let on1 = remove_offer(on, id);
    let by1 = remove_offer(by, id);
    assert(t.offers_by_item[o.token_uid] == on1);
    assert(t.offers_by_bidder[o.buyer_id] == by1);
    assert forall|x: OfferView| s.recorded(x) && x.offer_id != id implies t.recorded(x) by {
        if x.token_uid == o.token_uid {
            let k = choose|k: int| 0 <= k < on.len() && on[k] == x;
            assert(on1.contains(on[k]));
        }
        if x.buyer_id == o.buyer_id {
            let k = choose|k: int| 0 <= k < by.len() && by[k] == x;
            assert(by1.contains(by[k]));
        }
    }
    assert forall|x: OfferView| t.recorded(x) implies s.recorded(x) && x.offer_id != id by {
        if x.token_uid == o.token_uid {
            let k = choose|k: int| 0 <= k < on1.len() && on1[k] == x;
            assert(on.contains(on1[k]));
        }
        if x.buyer_id == o.buyer_id {
            let k = choose|k: int| 0 <= k < by1.len() && by1[k] == x;
            assert(by.contains(by1[k]));
        }
    }
    assert(t.offers_agree()) by {
        assert forall|uid: Seq<char>, i: int|
            t.offers_by_item.dom().contains(uid) && 0 <= i < t.offers_by_item[uid].len() implies (
        #[trigger] t.offers_by_item[uid][i]).token_uid == uid && t.recorded(t.offers_by_item[uid][i]) by {
            let x = t.offers_by_item[uid][i];
            if uid == o.token_uid {
                assert(on.contains(on1[i]));
                let k = choose|k: int| 0 <= k < on.len() && on[k] == x;
                assert(s.recorded(s.offers_by_item[uid][k]));
            } else {
                assert(x == s.offers_by_item[uid][i]);
            }
        }
        assert forall|b: Seq<char>, i: int|
            t.offers_by_bidder.dom().contains(b) && 0 <= i < t.offers_by_bidder[b].len() implies (
        #[trigger] t.offers_by_bidder[b][i]).buyer_id == b && t.recorded(t.offers_by_bidder[b][i]) by {
            let x = t.offers_by_bidder[b][i];
            if b == o.buyer_id {
                assert(by.contains(by1[i]));
                let k = choose|k: int| 0 <= k < by.len() && by[k] == x;
                assert(s.recorded(s.offers_by_bidder[b][k]));
            } else {
                assert(x == s.offers_by_bidder[b][i]);
            }
        }
        assert forall|other: Seq<char>| #[trigger] t.offer_to_bidder.dom().contains(other) implies
            t.offers_by_bidder.dom().contains(t.offer_to_bidder[other]) && offer_ids(
            t.offers_by_bidder[t.offer_to_bidder[other]],
        ).contains(other) && minted_before(other, t.offers_minted) by {
            assert(s.offer_to_bidder.dom().contains(other));
        }
    }
    assert(t.listings_agree());
    assert(t.owners_agree());
}

/// What taking a value out of a sequence that holds nothing twice leaves.
pub proof fn lemma_remove_value(l: Seq<Seq<char>>, x: Seq<char>)
    requires
        l.no_duplicates(),
    ensures
        remove_value(l, x).no_duplicates(),
        forall|y: Seq<char>| #[trigger] remove_value(l, x).contains(y) <==> l.contains(y) && y != x,
        l.contains(x) ==> remove_value(l, x).len() == l.len() - 1,
        !l.contains(x) ==> remove_value(l, x) == l,
{
    lemma_last_index_of(l, x);
    let j = last_index_of(l, x);
    let r = remove_value(l, x);
    if j >= 0 {
        assert forall|a: int, b: int| 0 <= a < r.len() && 0 <= b < r.len() && a != b implies r[a] != r[b] by {
            let a0 = if a < j { a } else { a + 1 };
            let b0 = if b < j { b } else { b + 1 };
            assert(r[a] == l[a0] && r[b] == l[b0]);
        }
        assert forall|y: Seq<char>| #[trigger] r.contains(y) <==> l.contains(y) && y != x by {
            if r.contains(y) {
                let k = choose|k: int| 0 <= k < r.len() && r[k] == y;
                let k0 = if k < j { k } else { k + 1 };
                assert(l[k0] == y);
            }
            if l.contains(y) && y != x {
                let k = choose|k: int| 0 <= k < l.len() && l[k] == y;
                let k1 = if k < j { k } else { k - 1 };
                assert(r[k1] == y);
            }
        }
    }
}

/// Taking the offers on an item out one by one keeps the invariant, leaves
/// no offer on the item in any index, and every other offer where it was.
pub proof fn lemma_drop_offers(s: ContractView, uid: Seq<char>, n: nat)
    requires
        s.inv(),
        n == s.offers_on(uid).len(),
    ensures
        s.drop_offers(uid, n).inv(),
        s.drop_offers(uid, n).listings == s.listings,
        s.drop_offers(uid, n).uid_to_data == s.uid_to_data,
        s.drop_offers(uid, n).user_to_uids == s.user_to_uids,
        s.drop_offers(uid, n).offers_minted == s.offers_minted,
        !s.drop_offers(uid, n).offers_by_item.dom().contains(uid),
        forall|o: OfferView| #[trigger]
            s.drop_offers(uid, n).recorded(o) <==> s.recorded(o) && o.token_uid != uid,
    decreases n,
{
    let t = s.drop_offers(uid, n);
    if n == 0 {
        assert forall|o: OfferView| s.recorded(o) implies o.token_uid != uid by {
            if o.token_uid == uid {
                let k = choose|k: int| 0 <= k < s.offers_by_item[uid].len() && s.offers_by_item[uid][k] == o;
            }
        }
        assert forall|o: OfferView| #[trigger] t.recorded(o) <==> s.recorded(o) && o.token_uid != uid by {}
        assert(t.offers_agree()) by {
            assert forall|u: Seq<char>, i: int|
                t.offers_by_item.dom().contains(u) && 0 <= i < t.offers_by_item[u].len() implies (
            #[trigger] t.offers_by_item[u][i]).token_uid == u && t.recorded(t.offers_by_item[u][i]) by {
                assert(s.recorded(s.offers_by_item[u][i]));
            }
            assert forall|b: Seq<char>, i: int|
                t.offers_by_bidder.dom().contains(b) && 0 <= i < t.offers_by_bidder[b].len() implies (
            #[trigger] t.offers_by_bidder[b][i]).buyer_id == b && t.recorded(t.offers_by_bidder[b][i]) by {
                assert(s.recorded(s.offers_by_bidder[b][i]));
            }
        }
    } else {
        let first = s.offers_by_item[uid][0];
        let id = first.offer_id;
        assert(s.recorded(first));
        lemma_offer(s, id);
        lemma_take_offer(s, id);
        let s1 = s.take_offer(id);
        lemma_drop_offers(s1, uid, (n - 1) as nat);
        assert forall|o: OfferView| #[trigger] t.recorded(o) <==> s.recorded(o) && o.token_uid != uid by {
            if s.recorded(o) && o.token_uid != uid {
                assert(o.offer_id != id) by {
                    if o.offer_id == id {
                        assert(o == s.offer(id));
                    }
                }
                assert(s1.recorded(o));
            }
        }
    }
}

/// Taking an item off the market keeps the invariant. The item is then in no
/// index, no offer on it is in any, and every other listing and offer is
/// where it was.
pub proof fn lemma_remove(s: ContractView, uid: Seq<char>)
    requires
        s.inv(),
        s.listed(uid),
    ensures
        s.remove(uid).inv(),
        !s.remove(uid).listed(uid),
        !s.remove(uid).listings.contains(uid),
        forall|other: Seq<char>| #[trigger]
            s.remove(uid).listed(other) <==> s.listed(other) && other != uid,
        forall|other: Seq<char>|
            other != uid && s.listed(other) ==> #[trigger] s.remove(uid).uid_to_data[other] == s.uid_to_data[other],
        s.remove(uid).listings == remove_value(s.listings, uid),
        s.remove(uid).offers_minted == s.offers_minted,
        !s.remove(uid).offers_by_item.dom().contains(uid),
        forall|o: OfferView| #[trigger] s.remove(uid).recorded(o) <==> s.recorded(o) && o.token_uid != uid,
{
    let owner = s.uid_to_data[uid].owner_id;
    let s1 = s.drop_offers(uid, s.offers_on(uid).len());
    lemma_drop_offers(s, uid, s.offers_on(uid).len());
    let t = s.remove(uid);
    let mine = s.user_to_uids[owner];
    lemma_remove_value(s.listings, uid);
    lemma_remove_value(mine, uid);
    assert(t.listings_agree());
    assert(t.owners_agree()) by {
        assert forall|o2: Seq<char>, i: int|
            t.user_to_uids.dom().contains(o2) && 0 <= i < t.user_to_uids[o2].len()
                implies t.uid_to_data.dom().contains(#[trigger] t.user_to_uids[o2][i])
            && t.uid_to_data[t.user_to_uids[o2][i]].owner_id == o2 by {
            let u = t.user_to_uids[o2][i];
            if o2 == owner {
                assert(remove_value(mine, uid).contains(u));
                let k = choose|k: int| 0 <= k < mine.len() && mine[k] == u;
                assert(s.uid_to_data.dom().contains(s.user_to_uids[o2][k]));
            } else {
                assert(u == s.user_to_uids[o2][i]);
                assert(s.uid_to_data[u].owner_id == o2);
            }
        }
    }
    assert forall|o: OfferView| #[trigger] t.recorded(o) <==> s.recorded(o) && o.token_uid != uid by {
        assert(s1.recorded(o) <==> s.recorded(o) && o.token_uid != uid);
        if t.recorded(o) {
            assert(s1.recorded(o));
        }
    }
    assert(t.offers_agree()) by {
        assert forall|u: Seq<char>, i: int|
            t.offers_by_item.dom().contains(u) && 0 <= i < t.offers_by_item[u].len() implies (
        #[trigger] t.offers_by_item[u][i]).token_uid == u && t.recorded(t.offers_by_item[u][i]) by {
            assert(s1.recorded(s1.offers_by_item[u][i]));
        }
        assert forall|b: Seq<char>, i: int|
            t.offers_by_bidder.dom().contains(b) && 0 <= i < t.offers_by_bidder[b].len() implies (
        #[trigger] t.offers_by_bidder[b][i]).buyer_id == b && t.recorded(t.offers_by_bidder[b][i]) by {
            assert(s1.recorded(s1.offers_by_bidder[b][i]));
        }
    }
}

/// An offer that enters the indexes under an identifier that was minted and
/// that no offer goes by, on an item on sale and from another than its
/// seller, keeps the invariant.
pub proof fn lemma_add_offer(s: ContractView, o: OfferView)
    requires
        s.inv(),
        s.listed(o.token_uid),
        s.uid_to_data[o.token_uid].owner_id != o.buyer_id,
        !s.offer_to_bidder.dom().contains(o.offer_id),
        minted_before(o.offer_id, s.offers_minted),
    ensures
        s.add_offer(o).inv(),
        s.add_offer(o).offer(o.offer_id) == o,
        forall|x: OfferView| s.recorded(x) ==> x.offer_id != o.offer_id && s.add_offer(o).recorded(x),
{
    let id = o.offer_id;
    let uid = o.token_uid;
    let bidder = o.buyer_id;
    let t = s.add_offer(o);
    let on = s.offers_on(uid);
    let by = s.offers_by(bidder);
    assert(offer_ids(on.push(o)) =~= offer_ids(on).push(id));
    assert(offer_ids(by.push(o)) =~= offer_ids(by).push(id));
    assert(offer_ids(on).no_duplicates());
    assert(offer_ids(by).no_duplicates());
    if offer_ids(on).contains(id) {
        let k = choose|k: int| 0 <= k < offer_ids(on).len() && offer_ids(on)[k] == id;
        assert(s.recorded(s.offers_by_item[uid][k]));
    }
    if offer_ids(by).contains(id) {
        let k = choose|k: int| 0 <= k < offer_ids(by).len() && offer_ids(by)[k] == id;
        assert(s.recorded(s.offers_by_bidder[bidder][k]));
    }
    lemma_push_no_duplicates(offer_ids(on), id);
    lemma_push_no_duplicates(offer_ids(by), id);
    lemma_push_contains(on, o);
    lemma_push_contains(by, o);
    assert(t.recorded(o));
    assert forall|x: OfferView| s.recorded(x) implies t.recorded(x) && x.offer_id != id by {}
    assert(t.offers_agree()) by {
        assert forall|u: Seq<char>, i: int|
            t.offers_by_item.dom().contains(u) && 0 <= i < t.offers_by_item[u].len() implies (
        #[trigger] t.offers_by_item[u][i]).token_uid == u && t.recorded(t.offers_by_item[u][i]) by {
            if u == uid {
                if i < on.len() {
                    assert(t.offers_by_item[u][i] == s.offers_by_item[u][i]);
                    assert(s.recorded(s.offers_by_item[u][i]));
                }
            } else {
                assert(s.recorded(s.offers_by_item[u][i]));
            }
        }
        assert forall|b: Seq<char>, i: int|
            t.offers_by_bidder.dom().contains(b) && 0 <= i < t.offers_by_bidder[b].len() implies (
        #[trigger] t.offers_by_bidder[b][i]).buyer_id == b && t.recorded(t.offers_by_bidder[b][i]) by {
            if b == bidder {
                if i < by.len() {
                    assert(t.offers_by_bidder[b][i] == s.offers_by_bidder[b][i]);
                    assert(s.recorded(s.offers_by_bidder[b][i]));
                }
            } else {
                assert(s.recorded(s.offers_by_bidder[b][i]));
            }
        }
    }
    assert(t.listings_agree());
    assert(t.owners_agree());
    lemma_offer(t, id);
}

/// Minting more identifiers keeps the invariant.
pub proof fn lemma_mint(s: ContractView, n: nat)
    requires
        s.inv(),
        s.offers_minted <= n,
    ensures
        (ContractView { offers_minted: n, ..s }).inv(),
        forall|o: OfferView| s.recorded(o) <==> (ContractView { offers_minted: n, ..s }).recorded(o),
{
    let t = ContractView { offers_minted: n, ..s };
    assert(t.offers_agree()) by {
        assert forall|other: Seq<char>| #[trigger] t.offer_to_bidder.dom().contains(other) implies minted_before(
            other,
            t.offers_minted,
        ) by {
            let k = choose|k: nat| k < s.offers_minted && other == #[trigger] offer_id_text(k);
            assert(k < n);
        }
        assert forall|u: Seq<char>, i: int|
            t.offers_by_item.dom().contains(u) && 0 <= i < t.offers_by_item[u].len() implies (
        #[trigger] t.offers_by_item[u][i]).token_uid == u && t.recorded(t.offers_by_item[u][i]) by {
            assert(s.recorded(s.offers_by_item[u][i]));
        }
        assert forall|b: Seq<char>, i: int|
            t.offers_by_bidder.dom().contains(b) && 0 <= i < t.offers_by_bidder[b].len() implies (
        #[trigger] t.offers_by_bidder[b][i]).buyer_id == b && t.recorded(t.offers_by_bidder[b][i]) by {
            assert(s.recorded(s.offers_by_bidder[b][i]));
        }
    }
    assert(t.listings_agree());
    assert(t.owners_agree());
}

/// Placing an offer on an item on sale, by another than its seller, keeps
/// the invariant; the new offer goes by an identifier that no offer had.
pub proof fn lemma_place_offer(s: ContractView, uid: Seq<char>, bidder: Seq<char>, amount: u128)
    requires
        s.inv(),
        s.listed(uid),
        s.uid_to_data[uid].owner_id != bidder,
    ensures
        s.place_offer(uid, bidder, amount).inv(),
        !s.offer_to_bidder.dom().contains(offer_id_text(s.offers_minted)),
        forall|o: OfferView| s.recorded(o) ==> o.offer_id != offer_id_text(s.offers_minted),
        s.place_offer(uid, bidder, amount).offer(offer_id_text(s.offers_minted)) == (OfferView {
            token_uid: uid,
            offer_id: offer_id_text(s.offers_minted),
            price: amount,
            buyer_id: bidder,
        }),
{
    let id = offer_id_text(s.offers_minted);
    let o = OfferView { token_uid: uid, offer_id: id, price: amount, buyer_id: bidder };
    if s.offer_to_bidder.dom().contains(id) {
        let k = choose|k: nat| k < s.offers_minted && id == #[trigger] offer_id_text(k);
        lemma_offer_id_text_injective(k, s.offers_minted);
    }
    let s1 = ContractView { offers_minted: s.offers_minted + 1, ..s };
    lemma_mint(s, s.offers_minted + 1);
    assert(id == offer_id_text(s.offers_minted));
    assert(minted_before(id, s1.offers_minted));
    lemma_add_offer(s1, o);
    assert(s1.add_offer(o) == s.place_offer(uid, bidder, amount));
}

/// A sequence holds what was pushed to it, and what it held.
pub proof fn lemma_push_contains<A>(s: Seq<A>, x: A)
    ensures
        s.push(x).contains(x),
        forall|y: A| s.contains(y) ==> s.push(x).contains(y),
{
    assert(s.push(x)[s.len() as int] == x);
    assert forall|y: A| s.contains(y) implies s.push(x).contains(y) by {
        let i = choose|i: int| 0 <= i < s.len() && s[i] == y;
        assert(s.push(x)[i] == y);
    }
}

} // verus!
