//! Offers, and the identifiers that the market mints for them.

use vstd::prelude::*;

verus! {

pub type OfferId = String;

/// A bid on a listed item. Its price is held in escrow while it lives.
#[derive(Debug, PartialEq, Eq)]
pub struct Offer {
    pub token_uid: String,
    pub offer_id: OfferId,
    pub price: u128,
    pub buyer_id: String,
}

/// An offer as contracts see it.
pub struct OfferView {
    pub token_uid: Seq<char>,
    pub offer_id: Seq<char>,
    pub price: u128,
    pub buyer_id: Seq<char>,
}

impl View for Offer {
    type V = OfferView;

    open spec fn view(&self) -> OfferView {
        OfferView {
            token_uid: self.token_uid@,
            offer_id: self.offer_id@,
            price: self.price,
            buyer_id: self.buyer_id@,
        }
    }
}

impl DeepView for Offer {
    type V = OfferView;

    open spec fn deep_view(&self) -> OfferView {
        self@
    }
}

impl Clone for Offer {
    fn clone(&self) -> (r: Self)
        ensures
            r@ == self@,
    {
        Offer {
            token_uid: self.token_uid.clone(),
            offer_id: self.offer_id.clone(),
            price: self.price,
            buyer_id: self.buyer_id.clone(),
        }
    }
}

/// The text of a decimal digit.
pub open spec fn digit_text(d: nat) -> Seq<char> {
    if d == 0 {
        "0"@
    } else if d == 1 {
        "1"@
    } else if d == 2 {
        "2"@
    } else if d == 3 {
        "3"@
    } else if d == 4 {
        "4"@
    } else if d == 5 {
        "5"@
    } else if d == 6 {
        "6"@
    } else if d == 7 {
        "7"@
    } else if d == 8 {
        "8"@
    } else {
        "9"@
    }
}

/// The identifier of the offer that is minted after `n` others: `n` in
/// decimal digits.
pub open spec fn offer_id_text(n: nat) -> Seq<char>
    decreases n,
{
    if n < 10 {
        digit_text(n)
    } else {
        offer_id_text(n / 10) + digit_text(n % 10)
    }
}

/// Each digit is one character, and no two digits share theirs.
pub proof fn lemma_digit_text(a: nat, b: nat)
    requires
        a < 10,
        b < 10,
    ensures
        digit_text(a).len() == 1,
        digit_text(a) == digit_text(b) ==> a == b,
{
    reveal_strlit("0");
    reveal_strlit("1");
    reveal_strlit("2");
    reveal_strlit("3");
    reveal_strlit("4");
    reveal_strlit("5");
    reveal_strlit("6");
    reveal_strlit("7");
    reveal_strlit("8");
    reveal_strlit("9");
    if digit_text(a) == digit_text(b) {
        assert(digit_text(a)[0] == digit_text(b)[0]);
    }
}

/// An identifier has at least one character, and two from ten on.
pub proof fn lemma_offer_id_text_len(n: nat)
    ensures
        offer_id_text(n).len() >= 1,
        n >= 10 ==> offer_id_text(n).len() >= 2,
    decreases n,
{
    lemma_digit_text(n % 10, 0);
    if n >= 10 {
        lemma_offer_id_text_len(n / 10);
    }
}

/// No two offers are minted under one identifier.
pub proof fn lemma_offer_id_text_injective(a: nat, b: nat)
    requires
        offer_id_text(a) == offer_id_text(b),
    ensures
        a == b,
    decreases a,
{
    lemma_offer_id_text_len(a);
    lemma_offer_id_text_len(b);
    lemma_digit_text(a % 10, b % 10);
    lemma_digit_text(b % 10, a % 10);
    if a < 10 && b < 10 {
    } else if a >= 10 && b >= 10 {
        let x = offer_id_text(a / 10);
        let y = offer_id_text(b / 10);
        let da = digit_text(a % 10);
        let db = digit_text(b % 10);
        assert((x + da).drop_last() =~= x);
        assert((y + db).drop_last() =~= y);
        assert((x + da).last() == da[0]);
        assert((y + db).last() == db[0]);
        assert(da =~= db);
        lemma_offer_id_text_injective(a / 10, b / 10);
    }
}

fn digit_str(d: u64) -> (r: &'static str)
    requires
        d < 10,
    ensures
        r@ == digit_text(d as nat),
{
    if d == 0 {
        "0"
    } else if d == 1 {
        "1"
    } else if d == 2 {
        "2"
    } else if d == 3 {
        "3"
    } else if d == 4 {
        "4"
    } else if d == 5 {
        "5"
    } else if d == 6 {
        "6"
    } else if d == 7 {
        "7"
    } else if d == 8 {
        "8"
    } else {
        "9"
    }
}

/// Mints the identifier of the offer that comes after `n` others.
pub fn mint_offer_id(n: u64) -> (id: OfferId)
    ensures
        id@ == offer_id_text(n as nat),
    decreases n,
{
    if n < 10 {
        String::from_str(digit_str(n))
    } else {
        let mut id = mint_offer_id(n / 10);
        id.append(digit_str(n % 10));
        id
    }
}

/// The value of a decimal digit, if `c` is one.
pub open spec fn digit_value(c: char) -> Option<nat> {
    if c == '0' {
        Some(0)
    } else if c == '1' {
        Some(1)
    } else if c == '2' {
        Some(2)
    } else if c == '3' {
        Some(3)
    } else if c == '4' {
        Some(4)
    } else if c == '5' {
        Some(5)
    } else if c == '6' {
        Some(6)
    } else if c == '7' {
        Some(7)
    } else if c == '8' {
        Some(8)
    } else if c == '9' {
        Some(9)
    } else {
        None
    }
}

/// The number that a text of decimal digits spells, if it holds nothing but
/// digits.
pub open spec fn number_of(s: Seq<char>) -> Option<nat>
    decreases s.len(),
{
    if s.len() == 0 {
        Some(0)
    } else {
        match (number_of(s.drop_last()), digit_value(s.last())) {
            (Some(v), Some(d)) => Some(v * 10 + d),
            _ => None,
        }
    }
}

/// An identifier spells the number of the offers minted before it.
pub proof fn lemma_number_of_offer_id(n: nat)
    ensures
        number_of(offer_id_text(n)) == Some(n),
    decreases n,
{
    reveal_strlit("0");
    reveal_strlit("1");
    reveal_strlit("2");
    reveal_strlit("3");
    reveal_strlit("4");
    reveal_strlit("5");
    reveal_strlit("6");
    reveal_strlit("7");
    reveal_strlit("8");
    reveal_strlit("9");
    let d = digit_text(n % 10);
    assert(d.len() == 1);
    assert(digit_value(d[0]) == Some(n % 10));
    if n < 10 {
        assert(d.drop_last() =~= Seq::<char>::empty());
        assert(number_of(d.drop_last()) == Some(0nat));
    } else {
        lemma_number_of_offer_id(n / 10);
        let x = offer_id_text(n / 10);
        assert((x + d).drop_last() =~= x);
        assert((x + d).last() == d[0]);
    }
}

/// A text spells no number where one of its beginnings does not, and no
/// smaller number than any of its beginnings.
pub proof fn lemma_number_of_take(s: Seq<char>, i: int)
    requires
        0 <= i <= s.len(),
    ensures
        number_of(s.take(i)) is None ==> number_of(s) is None,
        number_of(s) matches Some(v) ==> number_of(s.take(i)) matches Some(w) && w <= v,
    decreases s.len() - i,
{
    if i < s.len() {
        lemma_number_of_take(s, i + 1);
        assert(s.take(i + 1).drop_last() =~= s.take(i));
    } else {
        assert(s.take(i) =~= s);
    }
}

fn digit_of(c: char) -> (r: Option<u64>)
    ensures
        match r {
            Some(d) => d < 10 && digit_value(c) == Some(d as nat),
            None => digit_value(c) is None,
        },
{
    if c == '0' {
        Some(0)
    } else if c == '1' {
        Some(1)
    } else if c == '2' {
        Some(2)
    } else if c == '3' {
        Some(3)
    } else if c == '4' {
        Some(4)
    } else if c == '5' {
        Some(5)
    } else if c == '6' {
        Some(6)
    } else if c == '7' {
        Some(7)
    } else if c == '8' {
        Some(8)
    } else if c == '9' {
        Some(9)
    } else {
        None
    }
}

/// How many offers were minted before the one that goes by `id`, where `id`
/// is an identifier that the market can mint.
pub fn offer_number(id: &String) -> (r: Option<u64>)
    ensures
        match r {
            Some(n) => id@ == offer_id_text(n as nat),
            None => forall|n: nat| n <= u64::MAX ==> id@ != #[trigger] offer_id_text(n),
        },
{
    let text = id.as_str();
    let len = text.unicode_len();
    let mut value: u64 = 0;
    let mut i: usize = 0;
    while i < len
        invariant
            i <= len,
            len == text@.len(),
            text@ == id@,
            number_of(text@.take(i as int)) == Some(value as nat),
        decreases len - i,
    {
        let c = text.get_char(i);
        proof {
            assert(text@.take(i + 1).drop_last() =~= text@.take(i as int));
            assert(text@.take(i + 1).last() == c);
            lemma_number_of_take(text@, i + 1);
        }
        let d = match digit_of(c) {
            Some(d) => d,
            None => {
                assert forall|n: nat| n <= u64::MAX implies id@ != #[trigger] offer_id_text(n) by {
                    lemma_number_of_offer_id(n);
                }
                return None;
            },
        };
        if value > (u64::MAX - d) / 10 {
            assert forall|n: nat| n <= u64::MAX implies id@ != #[trigger] offer_id_text(n) by {
                lemma_number_of_offer_id(n);
            }
            return None;
        }
        value = value * 10 + d;
        i = i + 1;
    }
    assert(text@.take(len as int) =~= text@);
    let minted = mint_offer_id(value);
    if minted == *id {
        Some(value)
    } else {
        assert forall|n: nat| n <= u64::MAX implies id@ != #[trigger] offer_id_text(n) by {
            lemma_number_of_offer_id(n);
        }
        None
    }
}

} // verus!
