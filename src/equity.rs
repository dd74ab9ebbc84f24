//! Win and tie counts of one hole-card pair against another, over random completions of
//! the board.

use vstd::prelude::*;
use rand::seq::SliceRandom;
use crate::card::{Card, HoleCards, all_cards};
use crate::hand_type::{classify, seven_sorted, versus, ordering_of, hand_type};
use crate::hand_type::lemma_versus_antisymmetric;

verus! {

/// Why an equity computation was refused before any trial was played.
#[derive(Debug, Clone, Copy, PartialEq, Eq, Structural)]
pub enum InvalidInputError {
    /// A card appears twice among the two hole pairs and the board.
    DuplicateCard,
    /// The board holds more than five cards.
    BoardTooLong,
    /// No trial was asked for.
    NoTrials,
}

/// How the trials came out, counted from the first player's side.
#[derive(Debug, Clone, Copy, PartialEq, Eq, Structural)]
pub struct Tally {
    pub p1_wins: u32,
    pub p2_wins: u32,
    pub ties: u32,
}

/// The counts of a tally as (first player wins, second player wins, ties).
pub open spec fn counts(t: Tally) -> (int, int, int) {
    (t.p1_wins as int, t.p2_wins as int, t.ties as int)
}

/// The cards already committed: both hole pairs and the board.
pub open spec fn dead_cards(h1: HoleCards, h2: HoleCards, board: Seq<Card>) -> Seq<Card> {
    h1@ + h2@ + board
}

/// A deal that equity can be computed for: no card twice, at most five board cards.
pub open spec fn valid_deal(h1: HoleCards, h2: HoleCards, board: Seq<Card>) -> bool {
    dead_cards(h1, h2, board).no_duplicates() && board.len() <= 5
}

/// `extra` completes the board: exactly the missing cards, distinct, none of them dead.
pub open spec fn completes(h1: HoleCards, h2: HoleCards, board: Seq<Card>, extra: Seq<Card>) -> bool {
    extra.len() + board.len() == 5 && (dead_cards(h1, h2, board) + extra).no_duplicates()
}

/// How the first player's seven cards stand against the second's on a full board.
pub open spec fn outcome(h1: HoleCards, h2: HoleCards, full: Seq<Card>) -> int {
    versus(classify(seven_sorted(h1@, full)), classify(seven_sorted(h2@, full)))
}

/// The counts over a sequence of board completions, one trial each.
pub open spec fn tally_of(h1: HoleCards, h2: HoleCards, board: Seq<Card>, draws: Seq<Seq<Card>>) -> (
    int,
    int,
    int,
)
    decreases draws.len(),
{
    if draws.len() == 0 {
        (0, 0, 0)
    } else {
        let t = tally_of(h1, h2, board, draws.drop_last());
        let o = outcome(h1, h2, board + draws.last());
        if o > 0 {
            (t.0 + 1, t.1, t.2)
        } else if o < 0 {
            (t.0, t.1 + 1, t.2)
        } else {
            (t.0, t.1, t.2 + 1)
        }
    }
}

/// Every completion in `draws` completes the board.
pub open spec fn all_complete(
    h1: HoleCards,
    h2: HoleCards,
    board: Seq<Card>,
    draws: Seq<Seq<Card>>,
) -> bool {
    forall|i: int| 0 <= i < draws.len() ==> completes(h1, h2, board, #[trigger] draws[i])
}

proof fn lemma_tally_bounds(h1: HoleCards, h2: HoleCards, board: Seq<Card>, draws: Seq<Seq<Card>>)
    ensures
        tally_of(h1, h2, board, draws).0 >= 0,
        tally_of(h1, h2, board, draws).1 >= 0,
        tally_of(h1, h2, board, draws).2 >= 0,
        tally_of(h1, h2, board, draws).0 + tally_of(h1, h2, board, draws).1 + tally_of(
            h1,
            h2,
            board,
            draws,
        ).2 == draws.len(),
    decreases draws.len(),
{
    if draws.len() > 0 {
        lemma_tally_bounds(h1, h2, board, draws.drop_last());
    }
}

/// Swapping the two players swaps their win counts and keeps the tie count, trial by trial.
pub proof fn lemma_tally_swaps_players(
    h1: HoleCards,
    h2: HoleCards,
    board: Seq<Card>,
    draws: Seq<Seq<Card>>,
)
    ensures
        tally_of(h2, h1, board, draws) == (
            tally_of(h1, h2, board, draws).1,
            tally_of(h1, h2, board, draws).0,
            tally_of(h1, h2, board, draws).2,
        ),
    decreases draws.len(),
{
    if draws.len() > 0 {
        lemma_tally_swaps_players(h1, h2, board, draws.drop_last());
        let full = board + draws.last();
        lemma_versus_antisymmetric(
            classify(seven_sorted(h1@, full)),
            classify(seven_sorted(h2@, full)),
        );
    }
}

/// Swapping the players keeps a deal valid and keeps each completion of its board.
pub proof fn lemma_completes_swaps_players(
    h1: HoleCards,
    h2: HoleCards,
    board: Seq<Card>,
    extra: Seq<Card>,
)
    ensures
        valid_deal(h1, h2, board) == valid_deal(h2, h1, board),
        completes(h1, h2, board, extra) == completes(h2, h1, board, extra),
{
    if dead_cards(h1, h2, board).no_duplicates() {
        lemma_swap_no_dup(h1, h2, board);
    }
    if dead_cards(h2, h1, board).no_duplicates() {
        lemma_swap_no_dup(h2, h1, board);
    }
    assert(dead_cards(h1, h2, board) + extra =~= dead_cards(h1, h2, board + extra));
    assert(dead_cards(h2, h1, board) + extra =~= dead_cards(h2, h1, board + extra));
    if dead_cards(h1, h2, board + extra).no_duplicates() {
        lemma_swap_no_dup(h1, h2, board + extra);
    }
    if dead_cards(h2, h1, board + extra).no_duplicates() {
        lemma_swap_no_dup(h2, h1, board + extra);
    }
}

proof fn lemma_swap_no_dup(h1: HoleCards, h2: HoleCards, rest: Seq<Card>)
    requires
        dead_cards(h1, h2, rest).no_duplicates(),
    ensures
        dead_cards(h2, h1, rest).no_duplicates(),
{
    let a = dead_cards(h1, h2, rest);
    let b = dead_cards(h2, h1, rest);
    assert(h1@.len() == 2 && h2@.len() == 2) by {
        vstd::array::array_len_matches_n(&h1);
        vstd::array::array_len_matches_n(&h2);
    }
    assert forall|i: int, j: int| 0 <= i < b.len() && 0 <= j < b.len() && i != j implies b[i]
        != b[j] by {
        let fi = if i < 2 { i + 2 } else if i < 4 { i - 2 } else { i };
        let fj = if j < 2 { j + 2 } else if j < 4 { j - 2 } else { j };
        assert(b[i] == a[fi]);
        assert(b[j] == a[fj]);
    }
}

/// From a valid deal and a completion of its board, each player's seven cards are distinct.
proof fn lemma_players_cards_distinct(h1: HoleCards, h2: HoleCards, full: Seq<Card>)
    requires
        dead_cards(h1, h2, full).no_duplicates(),
    ensures
        (h1@ + full).no_duplicates(),
        (h2@ + full).no_duplicates(),
{
    let a = dead_cards(h1, h2, full);
    let x = h1@ + full;
    let y = h2@ + full;
    assert(h1@.len() == 2 && h2@.len() == 2) by {
        vstd::array::array_len_matches_n(&h1);
        vstd::array::array_len_matches_n(&h2);
    }
    assert forall|i: int, j: int| 0 <= i < x.len() && 0 <= j < x.len() && i != j implies x[i]
        != x[j] by {
        let fi = if i < 2 { i } else { i + 2 };
        let fj = if j < 2 { j } else { j + 2 };
        assert(x[i] == a[fi]);
        assert(x[j] == a[fj]);
    }
    assert forall|i: int, j: int| 0 <= i < y.len() && 0 <= j < y.len() && i != j implies y[i]
        != y[j] by {
        assert(y[i] == a[i + 2]);
        assert(y[j] == a[j + 2]);
    }
}

/// Whether `c` is among `cards`.
fn holds(cards: &Vec<Card>, c: Card) -> (r: bool)
    ensures
        r == cards@.contains(c),
{
    let mut i: usize = 0;
    while i < cards.len()
        invariant
            0 <= i <= cards@.len(),
            forall|k: int| 0 <= k < i ==> cards@[k] != c,
        decreases cards@.len() - i,
    {
        if cards[i] == c {
            return true;
        }
        i = i + 1;
    }
    false
}

/// Both hole pairs and the board, in that order.
pub fn dead_card_list(h1: &HoleCards, h2: &HoleCards, board: &Vec<Card>) -> (r: Vec<Card>)
    ensures
        r@ == dead_cards(*h1, *h2, board@),
{
    let mut r: Vec<Card> = Vec::new();
    r.push(h1[0]);
    r.push(h1[1]);
    r.push(h2[0]);
    r.push(h2[1]);
    let mut i: usize = 0;
    while i < board.len()
        invariant
            0 <= i <= board@.len(),
            r@ == h1@ + h2@ + board@.take(i as int),
        decreases board@.len() - i,
    {
        r.push(board[i]);
        assert(board@.take(i + 1) =~= board@.take(i as int).push(board@[i as int]));
        i = i + 1;
    }
    assert(board@.take(board@.len() as int) =~= board@);
    r
}

/// Whether no card appears twice in `cards`.
fn all_distinct(cards: &Vec<Card>) -> (r: bool)
    ensures
        r == cards@.no_duplicates(),
{
    let mut i: usize = 0;
    while i < cards.len()
        invariant
            0 <= i <= cards@.len(),
            forall|p: int, q: int| 0 <= p < q < cards@.len() && p < i ==> cards@[p] != cards@[q],
        decreases cards@.len() - i,
    {
        let mut j: usize = i + 1;
        while j < cards.len()
            invariant
                i < j <= cards@.len(),
                forall|p: int, q: int| 0 <= p < q < cards@.len() && p < i ==> cards@[p] != cards@[q],
                forall|q: int| i < q < j ==> cards@[i as int] != cards@[q],
            decreases cards@.len() - j,
        {
            if cards[i] == cards[j] {
                return false;
            }
            j = j + 1;
        }
        i = i + 1;
    }
    true
}

/// The deck without the dead cards: every other card, each once.
pub fn remaining_deck(h1: &HoleCards, h2: &HoleCards, board: &Vec<Card>) -> (r: Vec<Card>)
    ensures
        r@.no_duplicates(),
        forall|c: Card| r@.contains(c) <==> !dead_cards(*h1, *h2, board@).contains(c),
        r@.len() + dead_cards(*h1, *h2, board@).len() >= 52,
{
    let dead = dead_card_list(h1, h2, board);
    let deck = all_cards();
    let mut r: Vec<Card> = Vec::new();
    let mut i: usize = 0;
    while i < deck.len()
        invariant
            0 <= i <= deck@.len(),
            deck@.no_duplicates(),
            forall|c: Card| deck@.contains(c),
            r@.no_duplicates(),
            forall|c: Card|
                r@.contains(c) <==> (deck@.take(i as int).contains(c) && !dead@.contains(c)),
        decreases deck@.len() - i,
    {
        let c = deck[i];
        assert(deck@.take(i + 1) =~= deck@.take(i as int).push(c));
        assert(!deck@.take(i as int).contains(c)) by {
            if deck@.take(i as int).contains(c) {
                let k = choose|k: int| 0 <= k < i && deck@.take(i as int)[k] == c;
                assert(deck@[k] == deck@[i as int]);
            }
        }
        let ghost before = r@;
        let is_dead = holds(&dead, c);
        if !is_dead {
            r.push(c);
        }
        proof {
            let grown = deck@.take(i + 1);
            let old_part = deck@.take(i as int);
            assert(grown == old_part.push(c));
            assert forall|d: Card| r@.contains(d) <==> (grown.contains(d) && !dead@.contains(d)) by {
                if d != c {
                    if grown.contains(d) {
                        let k = choose|k: int| 0 <= k < grown.len() && grown[k] == d;
                        assert(old_part[k] == d);
                        assert(old_part.contains(d));
                        if !dead@.contains(d) {
                            assert(before.contains(d));
                            let m = choose|m: int| 0 <= m < before.len() && before[m] == d;
                            assert(r@[m] == d);
                        }
                    }
                    if r@.contains(d) {
                        let k = choose|k: int| 0 <= k < r@.len() && r@[k] == d;
                        assert(before[k] == d);
                        assert(before.contains(d));
                        let m = choose|m: int| 0 <= m < old_part.len() && old_part[m] == d;
                        assert(grown[m] == d);
                    }
                } else {
                    assert(grown[i as int] == c);
                    if !is_dead {
                        assert(r@[r@.len() - 1] == c);
                    } else {
                        assert(!before.contains(c));
                    }
                }
            }
        }
        i = i + 1;
    }
    proof {
        assert(deck@.take(deck@.len() as int) =~= deck@);
        let all = deck@.to_set();
        let gone = dead@.to_set();
        let kept = r@.to_set();
        deck@.unique_seq_to_set();
        dead@.lemma_cardinality_of_set();
        r@.unique_seq_to_set();
        assert(all.subset_of(kept.union(gone)));
        vstd::set_lib::lemma_len_union(kept, gone);
        vstd::set_lib::lemma_len_subset(all, kept.union(gone));
    }
    r
}

/// Relies on rand's `SliceRandom::choose_multiple` with `thread_rng`: `n` elements of the
/// slice from distinct positions, in random order.
#[verifier::external_body]
fn draw_cards(deck: &Vec<Card>, n: usize) -> (r: Vec<Card>)
    requires
        n <= deck@.len(),
    ensures
        r@.len() == n,
        forall|i: int| 0 <= i < r@.len() ==> deck@.contains(#[trigger] r@[i]),
        deck@.no_duplicates() ==> r@.no_duplicates(),
{
    let mut rng = rand::thread_rng();
    deck.choose_multiple(&mut rng, n).cloned().collect()
}

/// Plays one trial: completes the board with `extra` and compares the two players' hands.
pub fn play_out(h1: &HoleCards, h2: &HoleCards, board: &Vec<Card>, extra: &Vec<Card>) -> (r:
    std::cmp::Ordering)
    requires
        completes(*h1, *h2, board@, extra@),
    ensures
        r == ordering_of(outcome(*h1, *h2, board@ + extra@)),
{
    let ghost full = board@ + extra@;
    let mut cards: Vec<Card> = Vec::new();
    let mut i: usize = 0;
    while i < board.len()
        invariant
            0 <= i <= board@.len(),
            board@.len() + extra@.len() == 5,
            cards@ == board@.take(i as int),
        decreases board@.len() - i,
    {
        cards.push(board[i]);
        assert(board@.take(i + 1) =~= board@.take(i as int).push(board@[i as int]));
        i = i + 1;
    }
    let mut j: usize = 0;
    while j < extra.len()
        invariant
            0 <= j <= extra@.len(),
            board@.len() + extra@.len() == 5,
            cards@ == board@ + extra@.take(j as int),
        decreases extra@.len() - j,
    {
        cards.push(extra[j]);
        assert(extra@.take(j + 1) =~= extra@.take(j as int).push(extra@[j as int]));
        j = j + 1;
    }
    assert(board@.take(board@.len() as int) =~= board@);
    assert(extra@.take(extra@.len() as int) =~= extra@);
    let full_board = [cards[0], cards[1], cards[2], cards[3], cards[4]];
    assert(full_board@ =~= full);
    proof {
        assert(dead_cards(*h1, *h2, board@) + extra@ =~= dead_cards(*h1, *h2, full));
        lemma_players_cards_distinct(*h1, *h2, full);
    }
    let first = hand_type(h1, &full_board);
    let second = hand_type(h2, &full_board);
    first.compare(&second)
}

/// Plays one trial per completion in `draws` and counts the outcomes.
pub fn tally_boards(
    h1: &HoleCards,
    h2: &HoleCards,
    board: &Vec<Card>,
    draws: &Vec<Vec<Card>>,
) -> (r: Tally)
    requires
        draws@.len() <= u32::MAX,
        forall|i: int| 0 <= i < draws@.len() ==> completes(*h1, *h2, board@, (#[trigger] draws@[i])@),
    ensures
        counts(r) == tally_of(*h1, *h2, board@, draws@.map_values(|d: Vec<Card>| d@)),
{
    let ghost all = draws@.map_values(|d: Vec<Card>| d@);
    let mut t = Tally { p1_wins: 0, p2_wins: 0, ties: 0 };
    let mut i: usize = 0;
    while i < draws.len()
        invariant
            0 <= i <= draws@.len(),
            draws@.len() <= u32::MAX,
            all == draws@.map_values(|d: Vec<Card>| d@),
            forall|k: int| 0 <= k < draws@.len() ==> completes(*h1, *h2, board@, (#[trigger] draws@[k])@),
            counts(t) == tally_of(*h1, *h2, board@, all.take(i as int)),
        decreases draws@.len() - i,
    {
        proof {
            lemma_tally_bounds(*h1, *h2, board@, all.take(i as int));
            assert(all.take(i + 1).drop_last() =~= all.take(i as int));
            assert(all.take(i + 1).last() == draws@[i as int]@);
        }
        match play_out(h1, h2, board, &draws[i]) {
            std::cmp::Ordering::Greater => t.p1_wins = t.p1_wins + 1,
            std::cmp::Ordering::Less => t.p2_wins = t.p2_wins + 1,
            std::cmp::Ordering::Equal => t.ties = t.ties + 1,
        }
        i = i + 1;
    }
    assert(all.take(draws@.len() as int) =~= all);
    t
}

/// Plays `num_trials` trials, each on its own random completion of the board drawn from the
/// cards that are not dead, and counts how they came out. The inputs are checked before any
/// trial: a board of more than five cards, a card dealt twice, or no trials is refused.
pub fn count_outcomes(h1: &HoleCards, h2: &HoleCards, board: &Vec<Card>, num_trials: u32) -> (r:
    Result<Tally, InvalidInputError>)
    ensures
        board@.len() > 5 ==> r == Err::<Tally, InvalidInputError>(InvalidInputError::BoardTooLong),
        board@.len() <= 5 && !dead_cards(*h1, *h2, board@).no_duplicates() ==> r == Err::<
            Tally,
            InvalidInputError,
        >(InvalidInputError::DuplicateCard),
        valid_deal(*h1, *h2, board@) && num_trials == 0 ==> r == Err::<Tally, InvalidInputError>(
            InvalidInputError::NoTrials,
        ),
        valid_deal(*h1, *h2, board@) && num_trials > 0 ==> r is Ok,
        r matches Ok(t) ==> exists|draws: Seq<Seq<Card>>|
            draws.len() == num_trials && all_complete(*h1, *h2, board@, draws) && counts(t)
                == tally_of(*h1, *h2, board@, draws),
{
    if board.len() > 5 {
        return Err(InvalidInputError::BoardTooLong);
    }
    let dead = dead_card_list(h1, h2, board);
    if !all_distinct(&dead) {
        return Err(InvalidInputError::DuplicateCard);
    }
    if num_trials == 0 {
        return Err(InvalidInputError::NoTrials);
    }
    let deck = remaining_deck(h1, h2, board);
    let missing = 5 - board.len();
    let ghost mut draws: Seq<Seq<Card>> = seq![];
    let mut t = Tally { p1_wins: 0, p2_wins: 0, ties: 0 };
    let mut trial: u32 = 0;
    while trial < num_trials
        invariant
            0 <= trial <= num_trials,
            valid_deal(*h1, *h2, board@),
            missing as int == 5 - board@.len(),
            missing <= deck@.len(),
            deck@.no_duplicates(),
            forall|c: Card| deck@.contains(c) <==> !dead_cards(*h1, *h2, board@).contains(c),
            draws.len() == trial,
            all_complete(*h1, *h2, board@, draws),
            counts(t) == tally_of(*h1, *h2, board@, draws),
        decreases num_trials - trial,
    {
        let extra = draw_cards(&deck, missing);
        proof {
            let d = dead_cards(*h1, *h2, board@);
            assert forall|p: int, q: int| 0 <= p < d.len() && 0 <= q < extra@.len() implies d[p]
                != extra@[q] by {
                assert(deck@.contains(extra@[q]));
                assert(d.contains(d[p]));
            }
            vstd::seq_lib::lemma_no_dup_in_concat(d, extra@);
            lemma_tally_bounds(*h1, *h2, board@, draws);
        }
        let o = play_out(h1, h2, board, &extra);
        match o {
            std::cmp::Ordering::Greater => t.p1_wins = t.p1_wins + 1,
            std::cmp::Ordering::Less => t.p2_wins = t.p2_wins + 1,
            std::cmp::Ordering::Equal => t.ties = t.ties + 1,
        }
        proof {
            let next = draws.push(extra@);
            assert(next.drop_last() =~= draws);
            assert forall|i: int| 0 <= i < next.len() implies completes(
                *h1,
                *h2,
                board@,
                #[trigger] next[i],
            ) by {
                if i < draws.len() {
                    assert(next[i] == draws[i]);
                }
            }
            draws = next;
        }
        trial = trial + 1;
    }
    Ok(t)
}

} // verus!
