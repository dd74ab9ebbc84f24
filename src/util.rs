//! Small conversions between card containers.

use vstd::prelude::*;
use crate::card::Card;

verus! {

/// The first five cards of `cards` as an array, or `None` when there are fewer than five.
pub fn card_vec_to_card_array(cards: &Vec<Card>) -> (r: Option<[Card; 5]>)
    ensures
        cards@.len() >= 5 <==> r is Some,
        r matches Some(a) ==> a@ == cards@.take(5),
{
    if cards.len() >= 5 {
        let a = [cards[0], cards[1], cards[2], cards[3], cards[4]];
        assert(a@ =~= cards@.take(5));
        Some(a)
    } else {
        None
    }
}

} // verus!
