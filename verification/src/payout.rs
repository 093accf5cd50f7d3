//! Payout splits: their validation against the sale price, the platform fee
//! and the transfers that settle a sale.

use vstd::prelude::*;
use crate::utils::{last_index_of, lemma_last_index_of};

verus! {

/// The platform fee, in ten-thousandths of the price.
pub const TREASURY_FEE: u128 = 200;

/// The identity that receives the platform fee.
pub const TREASURY_ID: &'static str = "treasury1.near";

/// A recipient with an amount, as contracts see it.
pub type Line = (Seq<char>, u128);

/// One line of a payout split: who is paid, and how much.
#[derive(Debug, PartialEq, Eq)]
pub struct PayoutEntry {
    pub receiver_id: String,
    pub amount: u128,
}

/// A payout split: recipients with their amounts, no recipient twice.
#[derive(Debug, PartialEq, Eq)]
pub struct Payout {
    entries: Vec<PayoutEntry>,
}

/// A split in its envelope: an object whose field `payout` holds it.
#[derive(Debug, PartialEq, Eq)]
pub struct PayoutStruct {
    pub payout: Payout,
}

/// A payment that the settlement asks for.
#[derive(Debug, PartialEq, Eq)]
pub struct Transfer {
    pub receiver_id: String,
    pub amount: u128,
}

impl View for PayoutEntry {
    type V = Line;

    open spec fn view(&self) -> Line {
        (self.receiver_id@, self.amount)
    }
}

impl View for Transfer {
    type V = Line;

    open spec fn view(&self) -> Line {
        (self.receiver_id@, self.amount)
    }
}

impl View for Payout {
    type V = Seq<Line>;

    closed spec fn view(&self) -> Seq<Line> {
        Seq::new(self.entries@.len(), |i: int| self.entries@[i]@)
    }
}

/// The lines of a vector of transfers.
pub open spec fn transfer_lines(v: Seq<Transfer>) -> Seq<Line> {
    Seq::new(v.len(), |i: int| v[i]@)
}

/// No recipient stands twice in `s`.
pub open spec fn distinct_receivers(s: Seq<Line>) -> bool {
    forall|i: int, j: int| 0 <= i < j < s.len() ==> (#[trigger] s[i]).0 != (#[trigger] s[j]).0
}

/// The mapping that a sequence of lines stands for; of two lines for one
/// recipient the later counts.
pub open spec fn pairs_to_map(s: Seq<Line>) -> Map<Seq<char>, u128>
    decreases s.len(),
{
    if s.len() == 0 {
        Map::empty()
    } else {
        pairs_to_map(s.drop_last()).insert(s.last().0, s.last().1)
    }
}

/// The sum of the amounts of `s`.
pub open spec fn total(s: Seq<Line>) -> nat
    decreases s.len(),
{
    if s.len() == 0 {
        0
    } else {
        total(s.drop_last()) + s.last().1 as nat
    }
}

/// What `who` is paid by the lines of `s`, all of them together.
pub open spec fn received(s: Seq<Line>, who: Seq<char>) -> nat
    decreases s.len(),
{
    if s.len() == 0 {
        0
    } else if s.last().0 == who {
        received(s.drop_last(), who) + s.last().1 as nat
    } else {
        received(s.drop_last(), who)
    }
}

/// The recipients of `s`, line by line.
pub open spec fn receivers(s: Seq<Line>) -> Seq<Seq<char>> {
    Seq::new(s.len(), |i: int| s[i].0)
}

/// The amount on the last line of `s` for `who`, if there is such a line.
pub open spec fn share_of(s: Seq<Line>, who: Seq<char>) -> Option<u128> {
    let i = last_index_of(receivers(s), who);
    if i >= 0 {
        Some(s[i].1)
    } else {
        None
    }
}

/// The platform fee on a sale at `price`: 200 ten-thousandths, rounded down.
pub open spec fn fee_of(price: nat) -> nat {
    price * 200 / 10_000
}

/// A split is accepted for a sale at `price` when its amounts sum to the
/// price or to one unit less.
pub open spec fn validates(price: u128, s: Seq<Line>) -> bool {
    total(s) <= price && price - total(s) <= 1
}

/// A split is paid out as it stands when it is accepted and the seller has a
/// line of its own that covers the fee.
pub open spec fn honoured(price: u128, seller: Seq<char>, s: Seq<Line>) -> bool {
    &&& validates(price, s)
    &&& share_of(s, seller) matches Some(a)
    &&& a >= fee_of(price as nat)
}

/// The transfers for an accepted split: each line as it stands, but for the
/// seller's, which is paid less the fee and followed by the fee's own transfer.
pub open spec fn split_transfers(s: Seq<Line>, seller: Seq<char>, treasury: Seq<char>, fee: u128) -> Seq<Line>
    decreases s.len(),
{
    if s.len() == 0 {
        Seq::empty()
    } else {
        let before = split_transfers(s.drop_last(), seller, treasury, fee);
        if s.last().0 == seller {
            before.push((seller, (s.last().1 - fee) as u128)).push((treasury, fee))
        } else {
            before.push(s.last())
        }
    }
}

/// The transfers where no split is paid out: the price less the fee to the
/// seller, the fee to the treasury.
pub open spec fn fallback_transfers(price: u128, seller: Seq<char>, treasury: Seq<char>) -> Seq<Line> {
    seq![
        (seller, (price - fee_of(price as nat)) as u128),
        (treasury, fee_of(price as nat) as u128),
    ]
}

/// The transfers that settle a sale at `price`, given the split that came
/// back with the transfer of the item, if one came.
pub open spec fn settlement_transfers(price: u128, seller: Seq<char>, split: Option<Seq<Line>>) -> Seq<Line> {
    match split {
        Some(s) if honoured(price, seller, s) => split_transfers(s, seller, TREASURY_ID@, fee_of(price as nat) as u128),
        _ => fallback_transfers(price, seller, TREASURY_ID@),
    }
}

/// What `serde_json` reads from `bytes` as a JSON object of account names to
/// decimal amounts in strings: the mapping, or `None` where the text is no
/// such object.
pub uninterp spec fn flat_payout_json(bytes: Seq<u8>) -> Option<Map<Seq<char>, u128>>;

/// The platform fee on a sale at `price`.
pub fn treasury_fee(price: u128) -> (fee: u128)
    ensures
        fee == fee_of(price as nat),
        fee <= price,
{
    assert(price as nat * 200 / 10_000 == price as nat / 50) by (nonlinear_arith);
    price / 50
}

impl Payout {
    /// Every recipient has one line.
    pub open spec fn wf(&self) -> bool {
        distinct_receivers(self@)
    }

    /// Calls `near_sdk::serde_json::from_slice` to read `bytes` as a map from
    /// `AccountId` to `U128`. The contract claims that the outcome depends on
    /// the bytes alone, and that the lines handed back are the entries of the
    /// map that was read, each key once, in no stated order.
    #[verifier::external_body]
    fn parse_flat(bytes: &[u8]) -> (r: Option<Payout>)
        ensures
            r is Some <==> flat_payout_json(bytes@) is Some,
            r matches Some(p) ==> p.wf() && pairs_to_map(p@) == flat_payout_json(bytes@)->0,
    {
        match near_sdk::serde_json::from_slice::<std::collections::HashMap<near_sdk::AccountId, near_sdk::json_types::U128>>(bytes) {
            Ok(m) => Some(Payout {
                entries: m.into_iter().map(|(k, v)| PayoutEntry { receiver_id: String::from(k), amount: v.0 }).collect(),
            }),
            Err(_) => None,
        }
    }

    /// A split without lines.
    pub fn new() -> (p: Payout)
        ensures
            p@ == Seq::<Line>::empty(),
            p.wf(),
    {
        let p = Payout { entries: Vec::new() };
        assert(p@ =~= Seq::<Line>::empty());
        p
    }

    /// The number of lines.
    pub fn len(&self) -> (n: usize)
        ensures
            n == self@.len(),
    {
        self.entries.len()
    }

    /// The line at `i`.
    pub fn entry(&self, i: usize) -> (e: &PayoutEntry)
        requires
            i < self@.len(),
        ensures
            e@ == self@[i as int],
    {
        &self.entries[i]
    }

    /// Where the line of `who` stands, if there is one.
    fn position(&self, who: &String) -> (r: Option<usize>)
        ensures
            match r {
                Some(i) => i < self@.len() && i as int == last_index_of(receivers(self@), who@),
                None => last_index_of(receivers(self@), who@) == -1,
            },
    {
        let ghost keys = receivers(self@);
        let mut i: usize = self.entries.len();
        while i > 0
            invariant
                i <= self.entries@.len(),
                keys == receivers(self@),
                forall|j: int| i <= j < keys.len() ==> keys[j] != who@,
            decreases i,
        {
            i = i - 1;
            if self.entries[i].receiver_id == *who {
                proof {
                    lemma_last_index_of(keys, who@);
                    assert(keys[i as int] == who@);
                }
                return Some(i);
            }
        }
        proof {
            lemma_last_index_of(keys, who@);
        }
        None
    }

    /// The amount that the split gives `who`.
    pub fn get(&self, who: &String) -> (r: Option<u128>)
        ensures
            r == share_of(self@, who@),
    {
        match self.position(who) {
            Some(i) => Some(self.entries[i].amount),
            None => None,
        }
    }

    /// Gives `receiver_id` the amount `amount`, in place of what it had, and
    /// returns what it had.
    pub fn insert(&mut self, receiver_id: String, amount: u128) -> (before: Option<u128>)
        requires
            old(self).wf(),
        ensures
            final(self).wf(),
            before == share_of(old(self)@, receiver_id@),
            final(self)@ == match before {
                Some(_) => old(self)@.update(
                    last_index_of(receivers(old(self)@), receiver_id@),
                    (receiver_id@, amount),
                ),
                None => old(self)@.push((receiver_id@, amount)),
            },
    {
        proof {
            lemma_last_index_of(receivers(self@), receiver_id@);
        }
        match self.position(&receiver_id) {
            Some(i) => {
                let had = self.entries[i].amount;
                self.entries.set(i, PayoutEntry { receiver_id, amount });
                assert(self@ =~= old(self)@.update(i as int, (receiver_id@, amount)));
                Some(had)
            },
            None => {
                self.entries.push(PayoutEntry { receiver_id, amount });
                assert(self@ =~= old(self)@.push((receiver_id@, amount)));
                assert forall|i: int, j: int| 0 <= i < j < self@.len() implies (#[trigger] self@[i]).0
                    != (#[trigger] self@[j]).0 by {
                    if j == self@.len() - 1 {
                        assert(receivers(old(self)@)[i] == self@[i].0);
                    } else {
                        assert(self@[i] == old(self)@[i] && self@[j] == old(self)@[j]);
                    }
                }
                None
            },
        }
    }
}

/// The sum of a split grows by each line that is added.
pub proof fn lemma_total_push(s: Seq<Line>, x: Line)
    ensures
        total(s.push(x)) == total(s) + x.1,
{
    assert(s.push(x).drop_last() =~= s);
}

/// The sum of the first lines of a split is no more than the sum of all.
pub proof fn lemma_total_take(s: Seq<Line>, n: int)
    requires
        0 <= n <= s.len(),
    ensures
        total(s.take(n)) <= total(s),
    decreases s.len() - n,
{
    if n < s.len() {
        lemma_total_take(s, n + 1);
        assert(s.take(n + 1).drop_last() =~= s.take(n));
    } else {
        assert(s.take(n) =~= s);
    }
}

/// Accepts `payout` for a sale at `price` when its amounts sum to the price
/// or to one unit less, and hands it back; refuses it otherwise.
pub fn check_payouts(price: u128, payout: Payout) -> (r: Option<Payout>)
    ensures
        r == if validates(price, payout@) {
            Some(payout)
        } else {
            None
        },
{
    let mut remainder: u128 = price;
    let n = payout.len();
    let mut i: usize = 0;
    while i < n
        invariant
            i <= n,
            n == payout@.len(),
            remainder + total(payout@.take(i as int)) == price,
        decreases n - i,
    {
        let amount = payout.entry(i).amount;
        proof {
            assert(payout@.take(i + 1).drop_last() =~= payout@.take(i as int));
            lemma_total_take(payout@, i + 1);
        }
        match remainder.checked_sub(amount) {
            Some(left) => {
                remainder = left;
            },
            None => {
                return None;
            },
        }
        i = i + 1;
    }
    assert(payout@.take(n as int) =~= payout@);
    if remainder == 0 || remainder == 1 {
        Some(payout)
    } else {
        None
    }
}


/// In a split without a recipient twice, the line of a recipient is the one
/// that `share_of` reads.
pub proof fn lemma_share_of_line(s: Seq<Line>, j: int)
    requires
        distinct_receivers(s),
        0 <= j < s.len(),
    ensures
        share_of(s, s[j].0) == Some(s[j].1),
        last_index_of(receivers(s), s[j].0) == j,
{
    let who = s[j].0;
    lemma_last_index_of(receivers(s), who);
    assert(receivers(s)[j] == who);
    let i = last_index_of(receivers(s), who);
    assert(receivers(s)[i] == s[i].0);
    if i < j {
        assert(s[i].0 != s[j].0);
    } else if j < i {
        assert(s[j].0 != s[i].0);
    }
}

/// The first lines of a split without a recipient twice have none twice.
pub proof fn lemma_distinct_take(s: Seq<Line>, n: int)
    requires
        distinct_receivers(s),
        0 <= n <= s.len(),
    ensures
        distinct_receivers(s.take(n)),
{
    assert forall|i: int, j: int| 0 <= i < j < s.take(n).len() implies (#[trigger] s.take(n)[i]).0 != (
    #[trigger] s.take(n)[j]).0 by {
        assert(s.take(n)[i] == s[i] && s.take(n)[j] == s[j]);
    }
}

/// The transfers that settle a sale at `price`: those of `split` where it is
/// accepted and the seller's line covers the fee, else the price less the fee
/// to the seller and the fee to the treasury.
pub fn settle(price: u128, seller_id: &String, split: Option<Payout>) -> (transfers: Vec<Transfer>)
    requires
        split matches Some(p) ==> p.wf(),
    ensures
        transfer_lines(transfers@) == settlement_transfers(
            price,
            seller_id@,
            match split {
                Some(p) => Some(p@),
                None => None,
            },
        ),
{
    let fee = treasury_fee(price);
    let mut transfers: Vec<Transfer> = Vec::new();
    if let Some(given) = split {
        if let Some(p) = check_payouts(price, given) {
            let share = p.get(seller_id);
            if share.is_some() && share.unwrap() >= fee {
                let n = p.len();
                let mut i: usize = 0;
                assert(transfer_lines(transfers@) =~= split_transfers(p@.take(0), seller_id@, TREASURY_ID@, fee));
                while i < n
                    invariant
                        i <= n,
                        n == p@.len(),
                        p.wf(),
                        share_of(p@, seller_id@) == Some(share.unwrap()),
                        share.unwrap() >= fee,
                        transfer_lines(transfers@) == split_transfers(
                            p@.take(i as int),
                            seller_id@,
                            TREASURY_ID@,
                            fee,
                        ),
                    decreases n - i,
                {
                    let e = p.entry(i);
                    let ghost before = transfers@;
                    proof {
                        assert(p@.take(i + 1).drop_last() =~= p@.take(i as int));
                        assert(p@.take(i + 1).last() == p@[i as int]);
                    }
                    if e.receiver_id == *seller_id {
                        proof {
                            lemma_share_of_line(p@, i as int);
                        }
                        transfers.push(Transfer { receiver_id: e.receiver_id.clone(), amount: e.amount - fee });
                        transfers.push(Transfer { receiver_id: String::from_str(TREASURY_ID), amount: fee });
                        assert(transfer_lines(transfers@) =~= transfer_lines(before).push(
                            (seller_id@, (e.amount - fee) as u128),
                        ).push((TREASURY_ID@, fee)));
                    } else {
                        transfers.push(Transfer { receiver_id: e.receiver_id.clone(), amount: e.amount });
                        assert(transfer_lines(transfers@) =~= transfer_lines(before).push(e@));
                    }
                    i = i + 1;
                }
                assert(p@.take(n as int) =~= p@);
                return transfers;
            }
        }
    }
    transfers.push(Transfer { receiver_id: seller_id.clone(), amount: price - fee });
    transfers.push(Transfer { receiver_id: String::from_str(TREASURY_ID), amount: fee });
    assert(transfer_lines(transfers@) =~= fallback_transfers(price, seller_id@, TREASURY_ID@));
    transfers
}


/// What `serde_json` reads from `bytes` as a JSON object whose every field
/// holds an object of account names to decimal amounts in strings: the fields
/// by name, or `None` where the text is no such object.
pub uninterp spec fn envelope_json(bytes: Seq<u8>) -> Option<Map<Seq<char>, Map<Seq<char>, u128>>>;

/// The split that `bytes` hold in the envelope framing: the field `payout` of
/// the object that was read.
pub open spec fn enveloped_split(bytes: Seq<u8>) -> Option<Map<Seq<char>, u128>> {
    match envelope_json(bytes) {
        Some(fields) if fields.dom().contains("payout"@) => Some(fields["payout"@]),
        _ => None,
    }
}

/// The split that came back with a transfer: the one in the envelope where
/// the bytes hold an envelope, else the flat one, else none.
pub open spec fn callback_split(bytes: Seq<u8>) -> Option<Map<Seq<char>, u128>> {
    match enveloped_split(bytes) {
        Some(m) => Some(m),
        None => flat_payout_json(bytes),
    }
}

/// A field of an envelope.
struct EnvelopeField {
    name: String,
    payout: Payout,
}

/// The names of the fields of `s`.
spec fn field_names(s: Seq<EnvelopeField>) -> Seq<Seq<char>> {
    Seq::new(s.len(), |i: int| s[i].name@)
}

/// The object that the fields of `s` make up; of two fields of one name the
/// later counts.
spec fn fields_to_map(s: Seq<EnvelopeField>) -> Map<Seq<char>, Map<Seq<char>, u128>>
    decreases s.len(),
{
    if s.len() == 0 {
        Map::empty()
    } else {
        fields_to_map(s.drop_last()).insert(s.last().name@, pairs_to_map(s.last().payout@))
    }
}

proof fn lemma_fields_to_map(s: Seq<EnvelopeField>, k: Seq<char>)
    ensures
        fields_to_map(s).dom().contains(k) <==> last_index_of(field_names(s), k) >= 0,
        last_index_of(field_names(s), k) >= 0 ==> fields_to_map(s)[k] == pairs_to_map(
            s[last_index_of(field_names(s), k)].payout@,
        ),
    decreases s.len(),
{
    if s.len() > 0 {
        let t = s.drop_last();
        lemma_fields_to_map(t, k);
        lemma_last_index_of(field_names(t), k);
        assert(field_names(s).drop_last() =~= field_names(t));
        assert(field_names(s).last() == s.last().name@);
        if last_index_of(field_names(t), k) >= 0 {
            assert(t[last_index_of(field_names(t), k)] == s[last_index_of(field_names(t), k)]);
        }
    }
}

/// Calls `near_sdk::serde_json::from_slice` to read `bytes` as a map from
/// `String` to maps from `AccountId` to `U128`. The contract claims that the
/// outcome depends on the bytes alone, that the fields handed back make up
/// the object that was read, and that no split among them names a recipient
/// twice.
#[verifier::external_body]
fn parse_envelope(bytes: &[u8]) -> (r: Option<Vec<EnvelopeField>>)
    ensures
        r is Some <==> envelope_json(bytes@) is Some,
        r matches Some(fields) ==> fields_to_map(fields@) == envelope_json(bytes@)->0 && forall|i: int|
            0 <= i < fields@.len() ==> (#[trigger] fields@[i]).payout.wf(),
{
    match near_sdk::serde_json::from_slice::<std::collections::HashMap<String, std::collections::HashMap<near_sdk::AccountId, near_sdk::json_types::U128>>>(bytes) {
        Ok(m) => Some(m.into_iter().map(|(name, inner)| EnvelopeField {
            name,
            payout: Payout {
                entries: inner.into_iter().map(|(k, v)| PayoutEntry { receiver_id: String::from(k), amount: v.0 }).collect(),
            },
        }).collect()),
        Err(_) => None,
    }
}

impl PayoutStruct {
    /// The split that `bytes` hold in the envelope framing, if they hold one.
    pub fn from_json(bytes: &[u8]) -> (r: Option<PayoutStruct>)
        ensures
            r is Some <==> enveloped_split(bytes@) is Some,
            r matches Some(ps) ==> ps.payout.wf() && pairs_to_map(ps.payout@) == enveloped_split(bytes@)->0,
    {
        let key = String::from_str("payout");
        match parse_envelope(bytes) {
            None => None,
            Some(fields) => {
                let mut fields = fields;
                let ghost names = field_names(fields@);
                proof {
                    lemma_fields_to_map(fields@, key@);
                    lemma_last_index_of(names, key@);
                }
                let mut i: usize = fields.len();
                while i > 0
                    invariant
                        i <= fields@.len(),
                        names == field_names(fields@),
                        key@ == "payout"@,
                        forall|j: int| i <= j < names.len() ==> names[j] != key@,
                        forall|j: int| 0 <= j < fields@.len() ==> (#[trigger] fields@[j]).payout.wf(),
                        envelope_json(bytes@) == Some(fields_to_map(fields@)),
                    decreases i,
                {
                    i = i - 1;
                    if fields[i].name == key {
                        proof {
                            lemma_fields_to_map(fields@, key@);
                            lemma_last_index_of(names, key@);
                            assert(names[i as int] == key@);
                        }
                        let field = fields.remove(i);
                        return Some(PayoutStruct { payout: field.payout });
                    }
                }
                None
            },
        }
    }
}

/// The split that came back with a transfer of an item, in either framing.
pub fn payout_from_result(bytes: &[u8]) -> (r: Option<Payout>)
    ensures
        r is Some <==> callback_split(bytes@) is Some,
        r matches Some(p) ==> p.wf() && pairs_to_map(p@) == callback_split(bytes@)->0,
{
    match PayoutStruct::from_json(bytes) {
        Some(ps) => Some(ps.payout),
        None => Payout::parse_flat(bytes),
    }
}


/// What a recipient is paid grows by the lines that are added for it.
pub proof fn lemma_received_push(s: Seq<Line>, x: Line, who: Seq<char>)
    ensures
        received(s.push(x), who) == received(s, who) + if x.0 == who {
            x.1 as nat
        } else {
            0
        },
{
    assert(s.push(x).drop_last() =~= s);
}

/// In a split without a recipient twice, a recipient is paid what its line
/// says, and nothing where it has no line.
pub proof fn lemma_received_is_share(s: Seq<Line>, who: Seq<char>)
    requires
        distinct_receivers(s),
    ensures
        received(s, who) == match share_of(s, who) {
            Some(a) => a as nat,
            None => 0,
        },
    decreases s.len(),
{
    if s.len() > 0 {
        let t = s.drop_last();
        lemma_distinct_take(s, s.len() - 1);
        assert(s.take(s.len() - 1) =~= t);
        lemma_received_is_share(t, who);
        lemma_last_index_of(receivers(t), who);
        assert(receivers(s).drop_last() =~= receivers(t));
        assert(receivers(s).last() == s.last().0);
        if s.last().0 == who {
            if last_index_of(receivers(t), who) >= 0 {
                let i = last_index_of(receivers(t), who);
                assert(receivers(t)[i] == s[i].0);
                assert(s[i].0 != s[s.len() - 1].0);
            }
        } else if last_index_of(receivers(t), who) >= 0 {
            assert(t[last_index_of(receivers(t), who)] == s[last_index_of(receivers(t), who)]);
        }
    }
}

proof fn lemma_split_transfers(s: Seq<Line>, seller: Seq<char>, treasury: Seq<char>, fee: u128, who: Seq<char>)
    requires
        distinct_receivers(s),
        forall|i: int| 0 <= i < s.len() && (#[trigger] s[i]).0 == seller ==> s[i].1 >= fee,
    ensures
        total(split_transfers(s, seller, treasury, fee)) == total(s),
        received(split_transfers(s, seller, treasury, fee), who) == received(s, who) - (if who == seller
            && share_of(s, seller) is Some {
            fee as int
        } else {
            0
        }) + (if who == treasury && share_of(s, seller) is Some {
            fee as int
        } else {
            0
        }),
    decreases s.len(),
{
    if s.len() > 0 {
        let t = s.drop_last();
        let e = s.last();
        let before = split_transfers(t, seller, treasury, fee);
        lemma_distinct_take(s, s.len() - 1);
        assert(s.take(s.len() - 1) =~= t);
        assert forall|i: int| 0 <= i < t.len() && (#[trigger] t[i]).0 == seller implies t[i].1 >= fee by {
            assert(t[i] == s[i]);
        }
        lemma_split_transfers(t, seller, treasury, fee, who);
        lemma_last_index_of(receivers(t), seller);
        lemma_last_index_of(receivers(s), seller);
        assert(receivers(s).drop_last() =~= receivers(t));
        assert(receivers(s).last() == e.0);
        if e.0 == seller {
            assert(s[s.len() - 1].1 >= fee);
            if last_index_of(receivers(t), seller) >= 0 {
                let i = last_index_of(receivers(t), seller);
                assert(receivers(t)[i] == s[i].0);
                assert(s[i].0 != s[s.len() - 1].0);
            }
            let paid = (seller, (e.1 - fee) as u128);
            lemma_total_push(before, paid);
            lemma_total_push(before.push(paid), (treasury, fee));
            lemma_received_push(before, paid, who);
            lemma_received_push(before.push(paid), (treasury, fee), who);
        } else {
            lemma_total_push(before, e);
            lemma_received_push(before, e, who);
        }
    }
}

/// A sale settled on an accepted split in which the seller's line covers the
/// fee pays every other recipient its line in full, the seller its line less
/// the fee, and the treasury the fee; together the transfers carry what the
/// split sums to. (Where the treasury has a line of its own in the split, it
/// is paid that line besides the fee.)
pub proof fn lemma_split_settlement(price: u128, seller: Seq<char>, s: Seq<Line>)
    requires
        distinct_receivers(s),
        honoured(price, seller, s),
    ensures
        ({
            let paid = settlement_transfers(price, seller, Some(s));
            let fee = fee_of(price as nat);
            &&& forall|i: int|
                0 <= i < s.len() && (#[trigger] s[i]).0 != seller && s[i].0 != TREASURY_ID@ ==> received(
                    paid,
                    s[i].0,
                ) == s[i].1
            &&& seller != TREASURY_ID@ ==> received(paid, seller) == share_of(s, seller)->0 - fee
            &&& seller != TREASURY_ID@ ==> received(paid, TREASURY_ID@) == fee + received(s, TREASURY_ID@)
            &&& seller != TREASURY_ID@ && share_of(s, TREASURY_ID@) is None ==> received(paid, TREASURY_ID@)
                == fee
            &&& total(paid) == total(s)
            &&& total(s) == price || total(s) == price - 1
        }),
{
    let fee = fee_of(price as nat) as u128;
    let paid = split_transfers(s, seller, TREASURY_ID@, fee);
    assert(fee_of(price as nat) <= price) by (nonlinear_arith);
    assert forall|i: int| 0 <= i < s.len() && (#[trigger] s[i]).0 == seller implies s[i].1 >= fee by {
        lemma_share_of_line(s, i);
    }
    assert forall|i: int| 0 <= i < s.len() && (#[trigger] s[i]).0 != seller && s[i].0 != TREASURY_ID@ implies received(
        paid,
        s[i].0,
    ) == s[i].1 by {
        lemma_split_transfers(s, seller, TREASURY_ID@, fee, s[i].0);
        lemma_received_is_share(s, s[i].0);
        lemma_share_of_line(s, i);
    }
    lemma_split_transfers(s, seller, TREASURY_ID@, fee, seller);
    lemma_split_transfers(s, seller, TREASURY_ID@, fee, TREASURY_ID@);
    lemma_received_is_share(s, seller);
    lemma_received_is_share(s, TREASURY_ID@);
}

/// A sale settled without a split, or on one that is not accepted or in
/// which the seller's line does not cover the fee, pays the seller the price
/// less the fee and the treasury the fee: the price in all.
pub proof fn lemma_fallback_settlement(price: u128, seller: Seq<char>, split: Option<Seq<Line>>)
    requires
        split matches Some(s) ==> !honoured(price, seller, s),
    ensures
        ({
            let paid = settlement_transfers(price, seller, split);
            let fee = fee_of(price as nat);
            &&& fee <= price
            &&& paid == seq![(seller, (price - fee) as u128), (TREASURY_ID@, fee as u128)]
            &&& total(paid) == price
            &&& seller != TREASURY_ID@ ==> received(paid, seller) == price - fee && received(paid, TREASURY_ID@)
                == fee
        }),
{
    let fee = fee_of(price as nat);
    assert(fee <= price) by (nonlinear_arith)
        requires
            fee == price as nat * 200 / 10_000,
    ;
    let first = (seller, (price - fee) as u128);
    let second = (TREASURY_ID@, fee as u128);
    let paid = settlement_transfers(price, seller, split);
    assert(paid =~= Seq::<Line>::empty().push(first).push(second));
    lemma_total_push(Seq::<Line>::empty(), first);
    lemma_total_push(Seq::<Line>::empty().push(first), second);
    lemma_received_push(Seq::<Line>::empty(), first, seller);
    lemma_received_push(Seq::<Line>::empty().push(first), second, seller);
    lemma_received_push(Seq::<Line>::empty(), first, TREASURY_ID@);
    lemma_received_push(Seq::<Line>::empty().push(first), second, TREASURY_ID@);
}

/// However a sale is settled, the transfers carry the price or one unit
/// less: the market pays out no more than the buyer paid in, and keeps back
/// no more than the one unit that a split may leave.
pub proof fn lemma_settlement_pays_the_price(price: u128, seller: Seq<char>, split: Option<Seq<Line>>)
    requires
        split matches Some(s) ==> distinct_receivers(s),
    ensures
        price - 1 <= total(settlement_transfers(price, seller, split)) <= price,
{
    match split {
        Some(s) if honoured(price, seller, s) => {
            lemma_split_settlement(price, seller, s);
        },
        _ => {
            lemma_fallback_settlement(price, seller, split);
        },
    }
}

} // verus!
