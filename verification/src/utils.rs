//! Removal by key from an ordered vector, and the composite item identifier.

use vstd::prelude::*;
use crate::offers::{Offer, OfferView};

verus! {

/// What stands between the two parts of an item's identifier.
pub const UID_DELIMITER: &'static str = ":";

/// The identifier of an item: the address of the service that keeps it, the
/// delimiter, and the item's name there.
pub open spec fn uid_of(nft_contract_id: Seq<char>, token_id: Seq<char>) -> Seq<char> {
    nft_contract_id + UID_DELIMITER@ + token_id
}

/// The identifier of the item that `nft_contract_id` keeps as `token_id`.
pub fn token_uid(nft_contract_id: &String, token_id: &String) -> (uid: String)
    ensures
        uid@ == uid_of(nft_contract_id@, token_id@),
{
    let mut uid = nft_contract_id.clone();
    uid.append(UID_DELIMITER);
    uid.append(token_id.as_str());
    uid
}

/// Index of the last element of `s` equal to `x`, or `-1` when `s` holds none.
pub open spec fn last_index_of(s: Seq<Seq<char>>, x: Seq<char>) -> int
    decreases s.len(),
{
    if s.len() == 0 {
        -1
    } else if s.last() == x {
        s.len() - 1
    } else {
        last_index_of(s.drop_last(), x)
    }
}

/// `last_index_of` finds an occurrence exactly when there is one, and nothing
/// equal to `x` stands behind the index it returns.
pub proof fn lemma_last_index_of(s: Seq<Seq<char>>, x: Seq<char>)
    ensures
        -1 <= last_index_of(s, x) < s.len(),
        last_index_of(s, x) >= 0 <==> s.contains(x),
        last_index_of(s, x) >= 0 ==> s[last_index_of(s, x)] == x,
        forall|j: int| last_index_of(s, x) < j < s.len() ==> s[j] != x,
    decreases s.len(),
{
    if s.len() == 0 {
    } else if s.last() == x {
        assert(s[s.len() - 1] == x);
    } else {
        let t = s.drop_last();
        lemma_last_index_of(t, x);
        if last_index_of(t, x) >= 0 {
            assert(s[last_index_of(t, x)] == x);
        }
        if s.contains(x) {
            let i = choose|i: int| 0 <= i < s.len() && s[i] == x;
            assert(t[i] == x);
        }
        assert forall|j: int| last_index_of(s, x) < j < s.len() implies s[j] != x by {
            if j < t.len() {
                assert(t[j] == s[j]);
            }
        }
    }
}

/// `s` without the last of its elements equal to `x`.
pub open spec fn remove_value(s: Seq<Seq<char>>, x: Seq<char>) -> Seq<Seq<char>> {
    if last_index_of(s, x) >= 0 {
        s.remove(last_index_of(s, x))
    } else {
        s
    }
}

/// The identifiers of the offers of `s`.
pub open spec fn offer_ids(s: Seq<OfferView>) -> Seq<Seq<char>> {
    Seq::new(s.len(), |i: int| s[i].offer_id)
}

/// `s` without the last of its offers that goes by `id`.
pub open spec fn remove_offer(s: Seq<OfferView>, id: Seq<char>) -> Seq<OfferView> {
    if last_index_of(offer_ids(s), id) >= 0 {
        s.remove(last_index_of(offer_ids(s), id))
    } else {
        s
    }
}

/// Removes the last element equal to `uid` and returns it; the elements that
/// stay keep their order. With no such element the vector is left as it was.
pub fn delete_from_vector_by_uid(uids: &mut Vec<String>, uid: &String) -> (removed: Option<String>)
    ensures
        removed is Some <==> old(uids).deep_view().contains(uid@),
        removed matches Some(r) ==> r@ == uid@,
        final(uids).deep_view() == remove_value(old(uids).deep_view(), uid@),
{
    let ghost before = uids.deep_view();
    let mut i: usize = uids.len();
    while i > 0
        invariant
            i <= uids.len(),
            before == old(uids).deep_view(),
            uids.deep_view() == before,
            forall|j: int| i <= j < before.len() ==> before[j] != uid@,
        decreases i,
    {
        i = i - 1;
        if uids[i] == *uid {
            proof {
                lemma_last_index_of(before, uid@);
                assert(before[i as int] == uid@);
            }
            let r = uids.remove(i);
            assert(uids.deep_view() =~= before.remove(i as int));
            return Some(r);
        }
    }
    proof {
        lemma_last_index_of(before, uid@);
    }
    None
}

/// Removes the last offer that goes by `offer_id` and returns it; the offers
/// that stay keep their order. With no such offer the vector is left as it was.
pub fn delete_from_vector_by_offer_id(offers: &mut Vec<Offer>, offer_id: &String) -> (removed: Option<Offer>)
    ensures
        removed is Some <==> offer_ids(old(offers).deep_view()).contains(offer_id@),
        removed matches Some(o) ==> o@ == old(offers).deep_view()[last_index_of(
            offer_ids(old(offers).deep_view()),
            offer_id@,
        )],
        final(offers).deep_view() == remove_offer(old(offers).deep_view(), offer_id@),
{
    let ghost before = offers.deep_view();
    let ghost ids = offer_ids(before);
    let mut i: usize = offers.len();
    while i > 0
        invariant
            i <= offers.len(),
            before == old(offers).deep_view(),
            ids == offer_ids(before),
            offers.deep_view() == before,
            forall|j: int| i <= j < ids.len() ==> ids[j] != offer_id@,
        decreases i,
    {
        i = i - 1;
        if offers[i].offer_id == *offer_id {
            proof {
                lemma_last_index_of(ids, offer_id@);
                assert(ids[i as int] == offer_id@);
            }
            let o = offers.remove(i);
            assert(offers.deep_view() =~= before.remove(i as int));
            return Some(o);
        }
    }
    proof {
        lemma_last_index_of(ids, offer_id@);
    }
    None
}

/// Whether `uids` holds `uid`.
pub fn contains_uid(uids: &Vec<String>, uid: &String) -> (b: bool)
    ensures
        b == uids.deep_view().contains(uid@),
{
    let ghost dv = uids.deep_view();
    let mut i: usize = 0;
    while i < uids.len()
        invariant
            i <= uids.len(),
            dv == uids.deep_view(),
            forall|j: int| 0 <= j < i ==> dv[j] != uid@,
        decreases uids.len() - i,
    {
        if uids[i] == *uid {
            assert(dv[i as int] == uid@);
            return true;
        }
        i = i + 1;
    }
    false
}

} // verus!
