//! Moving the listing set and the index by seller from ordered lists to
//! sets, a window at a time.

use vstd::prelude::*;
use crate::contract::Contract;
use crate::table::Table;
use crate::utils::contains_uid;

verus! {

/// The items that a seller had on sale, as the index by seller held them
/// when it was a list.
#[derive(Debug, PartialEq, Eq)]
pub struct UserUids {
    pub owner_id: String,
    pub uids: Vec<String>,
}

impl DeepView for UserUids {
    type V = (Seq<char>, Seq<Seq<char>>);

    open spec fn deep_view(&self) -> (Seq<char>, Seq<Seq<char>>) {
        (self.owner_id@, self.uids.deep_view())
    }
}

/// Where a window of `bs` elements that begins at `from` ends in a list of
/// `len`.
pub open spec fn window_end(len: nat, from: nat, bs: nat) -> nat {
    if from + bs < len {
        from + bs
    } else {
        len
    }
}

/// Where such a window begins: at `from`, or at the end of the list where
/// `from` lies behind it.
pub open spec fn window_start(len: nat, from: nat) -> nat {
    if from < len {
        from
    } else {
        len
    }
}

/// `set` with each of the first `n` elements of `items` that it did not
/// hold added behind, in their order.
pub open spec fn insert_each(set: Seq<Seq<char>>, items: Seq<Seq<char>>, n: nat) -> Seq<Seq<char>>
    decreases n,
{
    if n == 0 || n > items.len() {
        set
    } else {
        let before = insert_each(set, items, (n - 1) as nat);
        if before.contains(items[n - 1]) {
            before
        } else {
            before.push(items[n - 1])
        }
    }
}

/// The elements of `list` in the window of `bs` that begins at `from`.
pub open spec fn window<A>(list: Seq<A>, from: nat, bs: nat) -> Seq<A> {
    list.subrange(window_start(list.len(), from) as int, window_end(list.len(), from, bs) as int)
}

/// The index by seller after the first `n` sellers of `users` had the
/// window of their items added to their sets.
pub open spec fn migrate_users(
    index: Map<Seq<char>, Seq<Seq<char>>>,
    users: Seq<(Seq<char>, Seq<Seq<char>>)>,
    from: nat,
    bs: nat,
    n: nat,
) -> Map<Seq<char>, Seq<Seq<char>>>
    decreases n,
{
    if n == 0 || n > users.len() {
        index
    } else {
        let before = migrate_users(index, users, from, bs, (n - 1) as nat);
        let (owner, uids) = users[n - 1];
        let had = if before.dom().contains(owner) {
            before[owner]
        } else {
            Seq::empty()
        };
        let moved = window(uids, from, bs);
        before.insert(owner, insert_each(had, moved, moved.len()))
    }
}

/// Adds to `set` each element of `items` between `start` and `end` that it
/// does not hold.
fn insert_window(set: &mut Vec<String>, items: &Vec<String>, start: usize, end: usize)
    requires
        start <= end <= items@.len(),
    ensures
        final(set).deep_view() == insert_each(
            old(set).deep_view(),
            items.deep_view().subrange(start as int, end as int),
            (end - start) as nat,
        ),
{
    let ghost moved = items.deep_view().subrange(start as int, end as int);
    let mut i: usize = start;
    while i < end
        invariant
            start <= i <= end,
            end <= items@.len(),
            moved == items.deep_view().subrange(start as int, end as int),
            set.deep_view() == insert_each(old(set).deep_view(), moved, (i - start) as nat),
        decreases end - i,
    {
        let ghost before = set.deep_view();
        assert(moved[i - start] == items@[i as int]@);
        if !contains_uid(set, &items[i]) {
            set.push(items[i].clone());
            assert(set.deep_view() =~= before.push(items@[i as int]@));
        }
        i = i + 1;
    }
}

/// The bounds of the window of `bs` that begins at `from` in a list of
/// `len`.
fn window_bounds(len: usize, from: u64, bs: usize) -> (r: (usize, usize))
    ensures
        r.0 == window_start(len as nat, from as nat),
        r.1 == window_end(len as nat, from as nat, bs as nat),
        r.0 <= r.1 <= len,
{
    if from >= len as u64 {
        (len, len)
    } else {
        let start = from as usize;
        let end = if bs >= len - start {
            len
        } else {
            start + bs
        };
        (start, end)
    }
}

impl Contract {
    /// Moves the listings in the window of `bs` that begins at `from` from
    /// the old list to the listing set; one that the set holds already is
    /// not added again.
    pub fn migrate_listings(listings_old: &Vec<String>, listings: &mut Vec<String>, from: u64, bs: usize)
        ensures
            final(listings).deep_view() == insert_each(
                old(listings).deep_view(),
                window(listings_old.deep_view(), from as nat, bs as nat),
                window(listings_old.deep_view(), from as nat, bs as nat).len(),
            ),
    {
        let (start, end) = window_bounds(listings_old.len(), from, bs);
        insert_window(listings, listings_old, start, end);
    }

    /// For each seller in the window of `user_bs` that begins at
    /// `from_user`, moves the items in the window of `listing_bs` that
    /// begins at `from_user_listing` from the seller's old list to the
    /// seller's set in the index.
    pub fn migrate_users_uids(
        user_to_uids_old: &Vec<UserUids>,
        user_to_uids: &mut Table<Vec<String>>,
        from_user: u64,
        user_bs: usize,
        from_user_listing: u64,
        listing_bs: usize,
    )
        requires
            old(user_to_uids).wf(),
        ensures
            final(user_to_uids).wf(),
            final(user_to_uids).model() == migrate_users(
                old(user_to_uids).model(),
                window(user_to_uids_old.deep_view(), from_user as nat, user_bs as nat),
                from_user_listing as nat,
                listing_bs as nat,
                window(user_to_uids_old.deep_view(), from_user as nat, user_bs as nat).len(),
            ),
    {
        let (first, last) = window_bounds(user_to_uids_old.len(), from_user, user_bs);
        let ghost users = user_to_uids_old.deep_view().subrange(first as int, last as int);
        let mut i: usize = first;
        while i < last
            invariant
                first <= i <= last,
                last <= user_to_uids_old@.len(),
                users == user_to_uids_old.deep_view().subrange(first as int, last as int),
                user_to_uids.wf(),
                user_to_uids.model() == migrate_users(
                    old(user_to_uids).model(),
                    users,
                    from_user_listing as nat,
                    listing_bs as nat,
                    (i - first) as nat,
                ),
            decreases last - i,
        {
            let user = &user_to_uids_old[i];
            assert(users[i - first] == user.deep_view());
            let ghost m = user_to_uids.model();
            let mut uids = match user_to_uids.remove(&user.owner_id) {
                Some(v) => v,
                None => Vec::new(),
            };
            let ghost had = uids.deep_view();
            assert(had =~= if m.dom().contains(user.owner_id@) {
                m[user.owner_id@]
            } else {
                Seq::empty()
            });
            let (start, end) = window_bounds(user.uids.len(), from_user_listing, listing_bs);
            insert_window(&mut uids, &user.uids, start, end);
            user_to_uids.insert(user.owner_id.clone(), uids);
            proof {
                let moved = window(user.uids.deep_view(), from_user_listing as nat, listing_bs as nat);
                assert(moved.len() == end - start);
                assert(uids.deep_view() == insert_each(had, moved, moved.len()));
                assert(user_to_uids.model() =~= m.insert(user.owner_id@, uids.deep_view()));
                assert(users[i - first] == (user.owner_id@, user.uids.deep_view()));
            }
            i = i + 1;
        }
    }
}

} // verus!
