//! Classification of seven cards into the best poker hand category, with the cards that
//! break ties inside the category.

use vstd::prelude::*;
use vstd::relations::{sorted_by, total_ordering};
use crate::card::{Card, Suit, HoleCards, rank_value, rank_of, suit_index, suit_at};
use crate::card::{lemma_rank_value_injective, lemma_suit_index_injective};
use crate::util::card_vec_to_card_array;

verus! {

broadcast use vstd::seq_lib::group_filter_ensures;

#[derive(Eq, PartialEq, Debug, Clone, Copy)]
pub enum HandType {
    /// The five highest cards, high to low
    HighCard([Card; 5]),
    /// The pair, then three kickers high to low
    Pair([Card; 2], [Card; 3]),
    /// TwoPair(higher pair, lower pair, kicker)
    TwoPair([Card; 2], [Card; 2], Card),
    /// Trips(the three cards, two kickers)
    Trips([Card; 3], [Card; 2]),
    /// The five cards of the straight, high to low (a wheel ends with its Ace)
    Straight([Card; 5]),
    /// The five highest cards of the suit, high to low
    Flush([Card; 5]),
    /// FullHouse(the three cards, two cards of the pair)
    FullHouse([Card; 3], [Card; 2]),
    /// Quads(the four cards, kicker)
    Quads([Card; 4], Card),
    /// The five cards of the straight flush, high to low
    StraightFlush([Card; 5]),
}

/// Strength of a hand's category: HighCard 0, Pair 1, TwoPair 2, Trips 3, Straight 4,
/// Flush 5, FullHouse 6, Quads 7, StraightFlush 8.
pub open spec fn category(h: HandType) -> int {
    match h {
        HandType::HighCard(_) => 0,
        HandType::Pair(_, _) => 1,
        HandType::TwoPair(_, _, _) => 2,
        HandType::Trips(_, _) => 3,
        HandType::Straight(_) => 4,
        HandType::Flush(_) => 5,
        HandType::FullHouse(_, _) => 6,
        HandType::Quads(_, _) => 7,
        HandType::StraightFlush(_) => 8,
    }
}

/// The cards a hand carries, in the order they are compared.
pub open spec fn payload(h: HandType) -> Seq<Card> {
    match h {
        HandType::HighCard(a) => a@,
        HandType::Pair(p, k) => p@ + k@,
        HandType::TwoPair(p, q, k) => p@ + q@ + seq![k],
        HandType::Trips(t, k) => t@ + k@,
        HandType::Straight(a) => a@,
        HandType::Flush(a) => a@,
        HandType::FullHouse(t, p) => t@ + p@,
        HandType::Quads(q, k) => q@ + seq![k],
        HandType::StraightFlush(a) => a@,
    }
}

/// A hand as its category and the cards it carries; the two determine the hand.
pub open spec fn shape(h: HandType) -> (int, Seq<Card>) {
    (category(h), payload(h))
}

pub open spec fn shape_of(r: Option<HandType>) -> Option<(int, Seq<Card>)> {
    match r {
        Some(h) => Some(shape(h)),
        None => None,
    }
}

/// Rank values of a sequence of cards.
pub open spec fn rank_values(s: Seq<Card>) -> Seq<int> {
    s.map_values(|c: Card| rank_value(c.rank))
}

/// What two hands are compared by: the category, then the ranks of the carried cards.
pub open spec fn strength_key(k: (int, Seq<Card>)) -> Seq<int> {
    seq![k.0] + rank_values(k.1)
}

/// Lexicographic comparison of integer sequences: -1, 0 or 1.
pub open spec fn lex_cmp(a: Seq<int>, b: Seq<int>) -> int
    decreases a.len(),
{
    if a.len() == 0 && b.len() == 0 {
        0
    } else if a.len() == 0 {
        -1
    } else if b.len() == 0 {
        1
    } else if a[0] < b[0] {
        -1
    } else if a[0] > b[0] {
        1
    } else {
        lex_cmp(a.drop_first(), b.drop_first())
    }
}

/// How hand `a` stands against hand `b`: -1 weaker, 0 equal, 1 stronger.
pub open spec fn versus(a: (int, Seq<Card>), b: (int, Seq<Card>)) -> int {
    lex_cmp(strength_key(a), strength_key(b))
}

pub open spec fn ordering_of(x: int) -> std::cmp::Ordering {
    if x < 0 {
        std::cmp::Ordering::Less
    } else if x == 0 {
        std::cmp::Ordering::Equal
    } else {
        std::cmp::Ordering::Greater
    }
}

/// Comparing `a` with `b` gives the opposite of comparing `b` with `a`.
pub proof fn lemma_lex_cmp_antisymmetric(a: Seq<int>, b: Seq<int>)
    ensures
        lex_cmp(a, b) == -lex_cmp(b, a),
        -1 <= lex_cmp(a, b) <= 1,
    decreases a.len(),
{
    if a.len() > 0 && b.len() > 0 && a[0] == b[0] {
        lemma_lex_cmp_antisymmetric(a.drop_first(), b.drop_first());
    }
}

/// Hands of different categories compare as their categories do: a straight flush beats
/// quads, quads beat a full house, and so on down to a high card.
pub proof fn lemma_category_decides(a: (int, Seq<Card>), b: (int, Seq<Card>))
    requires
        a.0 != b.0,
    ensures
        versus(a, b) == (if a.0 < b.0 { -1int } else { 1int }),
{
    let ka = strength_key(a);
    let kb = strength_key(b);
    assert(ka[0] == a.0);
    assert(kb[0] == b.0);
}

/// Hand `a` stands against `b` as `b` stands against `a`, reversed.
pub proof fn lemma_versus_antisymmetric(a: (int, Seq<Card>), b: (int, Seq<Card>))
    ensures
        versus(a, b) == -versus(b, a),
        -1 <= versus(a, b) <= 1,
{
    lemma_lex_cmp_antisymmetric(strength_key(a), strength_key(b));
}

fn append_cards<const N: usize>(v: &mut Vec<Card>, a: &[Card; N])
    ensures
        final(v)@ == old(v)@ + a@,
{
    let mut i: usize = 0;
    while i < N
        invariant
            0 <= i <= N,
            a@.len() == N,
            v@ == old(v)@ + a@.take(i as int),
        decreases N - i,
    {
        v.push(a[i]);
        assert(a@.take(i + 1) =~= a@.take(i as int).push(a@[i as int]));
        i = i + 1;
    }
    assert(a@.take(N as int) =~= a@);
}

impl HandType {
    /// The cards this hand carries, in the order they are compared.
    pub fn cards(&self) -> (r: Vec<Card>)
        ensures
            r@ == payload(*self),
    {
        let mut v: Vec<Card> = Vec::new();
        match self {
            HandType::HighCard(a) => append_cards(&mut v, a),
            HandType::Pair(p, k) => {
                append_cards(&mut v, p);
                append_cards(&mut v, k);
            },
            HandType::TwoPair(p, q, k) => {
                append_cards(&mut v, p);
                append_cards(&mut v, q);
                v.push(*k);
            },
            HandType::Trips(t, k) => {
                append_cards(&mut v, t);
                append_cards(&mut v, k);
            },
            HandType::Straight(a) => append_cards(&mut v, a),
            HandType::Flush(a) => append_cards(&mut v, a),
            HandType::FullHouse(t, p) => {
                append_cards(&mut v, t);
                append_cards(&mut v, p);
            },
            HandType::Quads(q, k) => {
                append_cards(&mut v, q);
                v.push(*k);
            },
            HandType::StraightFlush(a) => append_cards(&mut v, a),
        }
        assert(v@ =~= payload(*self));
        v
    }

    /// Strength of this hand's category, 0 for a high card up to 8 for a straight flush.
    pub fn category(&self) -> (r: u32)
        ensures
            r as int == category(*self),
    {
        match self {
            HandType::HighCard(_) => 0,
            HandType::Pair(_, _) => 1,
            HandType::TwoPair(_, _, _) => 2,
            HandType::Trips(_, _) => 3,
            HandType::Straight(_) => 4,
            HandType::Flush(_) => 5,
            HandType::FullHouse(_, _) => 6,
            HandType::Quads(_, _) => 7,
            HandType::StraightFlush(_) => 8,
        }
    }

    fn strength(&self) -> (r: Vec<u32>)
        ensures
            r@.len() == strength_key(shape(*self)).len(),
            forall|i: int| 0 <= i < r@.len() ==> r@[i] as int == strength_key(shape(*self))[i],
    {
        let cards = self.cards();
        let mut r: Vec<u32> = Vec::new();
        r.push(self.category());
        let mut i: usize = 0;
        while i < cards.len()
            invariant
                0 <= i <= cards@.len(),
                cards@ == payload(*self),
                r@.len() == i + 1,
                r@[0] as int == category(*self),
                forall|j: int| 0 < j <= i ==> r@[j] as int == rank_value(cards@[j - 1].rank),
            decreases cards@.len() - i,
        {
            r.push(cards[i].rank.value());
            i = i + 1;
        }
        r
    }

    /// Compares two hands by category, then by the ranks of the cards they carry; suits
    /// never matter.
    pub fn compare(&self, other: &HandType) -> (r: std::cmp::Ordering)
        ensures
            r == ordering_of(versus(shape(*self), shape(*other))),
    {
        let a = self.strength();
        let b = other.strength();
        let ghost ka = strength_key(shape(*self));
        let ghost kb = strength_key(shape(*other));
        let mut i: usize = 0;
        assert(ka.skip(0) =~= ka);
        assert(kb.skip(0) =~= kb);
        while i < a.len() && i < b.len()
            invariant
                0 <= i <= a@.len(),
                i <= b@.len(),
                ka == strength_key(shape(*self)),
                kb == strength_key(shape(*other)),
                a@.len() == ka.len(),
                b@.len() == kb.len(),
                forall|j: int| 0 <= j < a@.len() ==> a@[j] as int == ka[j],
                forall|j: int| 0 <= j < b@.len() ==> b@[j] as int == kb[j],
                lex_cmp(ka, kb) == lex_cmp(ka.skip(i as int), kb.skip(i as int)),
            decreases a@.len() - i,
        {
            let ghost sa = ka.skip(i as int);
            let ghost sb = kb.skip(i as int);
            assert(sa[0] == ka[i as int]);
            assert(sb[0] == kb[i as int]);
            assert(sa.len() > 0 && sb.len() > 0);
            if a[i] < b[i] {
                assert(lex_cmp(sa, sb) == -1);
                return std::cmp::Ordering::Less;
            }
            if a[i] > b[i] {
                assert(lex_cmp(sa, sb) == 1);
                return std::cmp::Ordering::Greater;
            }
            assert(sa.drop_first() =~= ka.skip(i + 1));
            assert(sb.drop_first() =~= kb.skip(i + 1));
            i = i + 1;
        }
        if a.len() < b.len() {
            std::cmp::Ordering::Less
        } else if a.len() > b.len() {
            std::cmp::Ordering::Greater
        } else {
            std::cmp::Ordering::Equal
        }
    }
}

// ---------------------------------------------------------------------------------------
// Grouping

/// The cards of suit number `i`, in their order in `s`.
pub open spec fn with_suit(s: Seq<Card>, i: int) -> Seq<Card> {
    s.filter(|c: Card| suit_index(c.suit) == i)
}

/// The cards whose rank has value `v`, in their order in `s`.
pub open spec fn with_rank(s: Seq<Card>, v: int) -> Seq<Card> {
    s.filter(|c: Card| rank_value(c.rank) == v)
}

/// How many cards of `s` have rank value `v`.
pub open spec fn rank_count(s: Seq<Card>, v: int) -> nat {
    with_rank(s, v).len()
}

/// The cards of `s` whose rank value is neither `a` nor `b`, in their order in `s`.
pub open spec fn without_ranks(s: Seq<Card>, a: int, b: int) -> Seq<Card> {
    s.filter(|c: Card| rank_value(c.rank) != a && rank_value(c.rank) != b)
}

/// No rank occurs more than four times, as in any set of cards from one deck.
pub open spec fn one_deck_counts(s: Seq<Card>) -> bool {
    forall|v: int| 2 <= v <= 14 ==> #[trigger] rank_count(s, v) <= 4
}

/// The rank values above `v` that occur exactly `f` times in `s`, from the Ace down.
pub open spec fn ranks_above(s: Seq<Card>, f: nat, v: int) -> Seq<int>
    decreases 14 - v,
{
    if v >= 14 {
        seq![]
    } else {
        let higher = ranks_above(s, f, v + 1);
        if f > 0 && rank_count(s, v + 1) == f {
            higher.push(v + 1)
        } else {
            higher
        }
    }
}

/// The rank values that occur exactly `f` times in `s`, from the Ace down to the Two.
pub open spec fn ranks_with_count(s: Seq<Card>, f: nat) -> Seq<int> {
    ranks_above(s, f, 1)
}

/// `groups` holds, for each rank value of `ranks` in turn, the cards of `s` of that rank.
pub open spec fn groups_of(groups: Seq<Vec<Card>>, s: Seq<Card>, ranks: Seq<int>) -> bool {
    &&& groups.len() == ranks.len()
    &&& forall|j: int| 0 <= j < groups.len() ==> #[trigger] groups[j]@ == with_rank(s, ranks[j])
}

pub proof fn lemma_ranks_above(s: Seq<Card>, f: nat, v: int)
    requires
        v >= 1,
    ensures
        forall|j: int|
            0 <= j < ranks_above(s, f, v).len() ==> v < #[trigger] ranks_above(s, f, v)[j] <= 14
                && rank_count(s, ranks_above(s, f, v)[j]) == f && f > 0,
        forall|j: int, k: int|
            0 <= j < k < ranks_above(s, f, v).len() ==> #[trigger] ranks_above(s, f, v)[j]
                > #[trigger] ranks_above(s, f, v)[k],
    decreases 14 - v,
{
    if v < 14 {
        lemma_ranks_above(s, f, v + 1);
        let higher = ranks_above(s, f, v + 1);
        if f > 0 && rank_count(s, v + 1) == f {
            assert(ranks_above(s, f, v) == higher.push(v + 1));
            assert forall|j: int| 0 <= j < higher.len() implies #[trigger] higher[j] > v + 1 by {}
        } else {
            assert(ranks_above(s, f, v) == higher);
        }
    }
}

proof fn lemma_with_rank_step(s: Seq<Card>, i: int, v: int)
    requires
        0 <= i < s.len(),
    ensures
        with_rank(s.take(i + 1), v) == (if rank_value(s[i].rank) == v {
            with_rank(s.take(i), v).push(s[i])
        } else {
            with_rank(s.take(i), v)
        }),
{
    reveal(Seq::filter);
    assert(s.take(i + 1).drop_last() =~= s.take(i));
    assert(s.take(i + 1).last() == s[i]);
}

proof fn lemma_with_suit_step(s: Seq<Card>, i: int, k: int)
    requires
        0 <= i < s.len(),
    ensures
        with_suit(s.take(i + 1), k) == (if suit_index(s[i].suit) == k {
            with_suit(s.take(i), k).push(s[i])
        } else {
            with_suit(s.take(i), k)
        }),
{
    reveal(Seq::filter);
    assert(s.take(i + 1).drop_last() =~= s.take(i));
    assert(s.take(i + 1).last() == s[i]);
}

/// The cards of `cards` with rank value `v`, in order.
fn cards_of_rank(cards: &Vec<Card>, v: u32) -> (r: Vec<Card>)
    ensures
        r@ == with_rank(cards@, v as int),
{
    let mut r: Vec<Card> = Vec::new();
    let mut i: usize = 0;
    while i < cards.len()
        invariant
            0 <= i <= cards@.len(),
            r@ == with_rank(cards@.take(i as int), v as int),
        decreases cards@.len() - i,
    {
        proof {
            lemma_with_rank_step(cards@, i as int, v as int);
        }
        if cards[i].rank.value() == v {
            r.push(cards[i]);
        }
        i = i + 1;
    }
    assert(cards@.take(cards@.len() as int) =~= cards@);
    r
}

/// Splits the cards by suit: at the index of each suit (`Suit::index`), the cards of that
/// suit in their order in `cards`. All four suits are present, possibly empty.
pub fn group_by_suit(cards: &Vec<Card>) -> (r: [Vec<Card>; 4])
    ensures
        forall|i: int| 0 <= i < 4 ==> (#[trigger] r@[i])@ == with_suit(cards@, i),
{
    let mut spades: Vec<Card> = Vec::new();
    let mut clubs: Vec<Card> = Vec::new();
    let mut hearts: Vec<Card> = Vec::new();
    let mut diamonds: Vec<Card> = Vec::new();
    let mut i: usize = 0;
    while i < cards.len()
        invariant
            0 <= i <= cards@.len(),
            spades@ == with_suit(cards@.take(i as int), 0),
            clubs@ == with_suit(cards@.take(i as int), 1),
            hearts@ == with_suit(cards@.take(i as int), 2),
            diamonds@ == with_suit(cards@.take(i as int), 3),
        decreases cards@.len() - i,
    {
        proof {
            lemma_with_suit_step(cards@, i as int, 0);
            lemma_with_suit_step(cards@, i as int, 1);
            lemma_with_suit_step(cards@, i as int, 2);
            lemma_with_suit_step(cards@, i as int, 3);
        }
        let c = cards[i];
        match c.suit {
            Suit::Spades => spades.push(c),
            Suit::Clubs => clubs.push(c),
            Suit::Hearts => hearts.push(c),
            Suit::Diamonds => diamonds.push(c),
        }
        i = i + 1;
    }
    assert(cards@.take(cards@.len() as int) =~= cards@);
    let r = [spades, clubs, hearts, diamonds];
    assert(r@[0]@ == with_suit(cards@, 0));
    assert(r@[1]@ == with_suit(cards@, 1));
    assert(r@[2]@ == with_suit(cards@, 2));
    assert(r@[3]@ == with_suit(cards@, 3));
    r
}

/// Buckets the cards by how often their rank occurs: at index `f`, one group per rank that
/// occurs exactly `f` times, from the Ace down, each group holding that rank's cards in
/// their order in `cards`. Index 0 stays empty.
pub fn group_by_rank_freq(cards: &Vec<Card>) -> (r: [Vec<Vec<Card>>; 5])
    requires
        one_deck_counts(cards@),
    ensures
        forall|f: int| 0 <= f < 5 ==> groups_of(#[trigger] r@[f]@, cards@, ranks_with_count(cards@, f as nat)),
{
    let ghost s = cards@;
    let mut ones: Vec<Vec<Card>> = Vec::new();
    let mut twos: Vec<Vec<Card>> = Vec::new();
    let mut threes: Vec<Vec<Card>> = Vec::new();
    let mut fours: Vec<Vec<Card>> = Vec::new();
    let mut v: u32 = 14;
    while v >= 2
        invariant
            1 <= v <= 14,
            s == cards@,
            one_deck_counts(s),
            groups_of(ones@, s, ranks_above(s, 1, v as int)),
            groups_of(twos@, s, ranks_above(s, 2, v as int)),
            groups_of(threes@, s, ranks_above(s, 3, v as int)),
            groups_of(fours@, s, ranks_above(s, 4, v as int)),
        decreases v,
    {
        let g = cards_of_rank(cards, v);
        assert(rank_count(s, v as int) <= 4);
        let n = g.len();
        if n == 1 {
            ones.push(g);
        } else if n == 2 {
            twos.push(g);
        } else if n == 3 {
            threes.push(g);
        } else if n == 4 {
            fours.push(g);
        }
        v = v - 1;
    }
    assert(ranks_with_count(s, 0) =~= seq![]) by {
        lemma_ranks_above(s, 0, 1);
        if ranks_with_count(s, 0).len() > 0 {
            assert(rank_count(s, ranks_with_count(s, 0)[0]) == 0);
        }
    }
    let r = [Vec::new(), ones, twos, threes, fours];
    assert(groups_of(r@[0]@, s, ranks_with_count(s, 0)));
    r
}

proof fn lemma_without_step(s: Seq<Card>, i: int, a: int, b: int)
    requires
        0 <= i < s.len(),
    ensures
        without_ranks(s.take(i + 1), a, b) == (if rank_value(s[i].rank) != a && rank_value(
            s[i].rank,
        ) != b {
            without_ranks(s.take(i), a, b).push(s[i])
        } else {
            without_ranks(s.take(i), a, b)
        }),
{
    reveal(Seq::filter);
    assert(s.take(i + 1).drop_last() =~= s.take(i));
    assert(s.take(i + 1).last() == s[i]);
}

/// Leaving out the cards of one or two ranks leaves the rest of the cards.
pub proof fn lemma_without_len(s: Seq<Card>, a: int, b: int)
    ensures
        without_ranks(s, a, b).len() == s.len() - rank_count(s, a) - (if a != b {
            rank_count(s, b)
        } else {
            0
        }),
    decreases s.len(),
{
    reveal(Seq::filter);
    if s.len() > 0 {
        lemma_without_len(s.drop_last(), a, b);
    }
}

/// The first `n` cards of `cards` whose rank value is neither `a` nor `b` (fewer when
/// there are not that many).
fn first_outside(cards: &Vec<Card>, a: u32, b: u32, n: usize) -> (r: Vec<Card>)
    ensures
        r@ == without_ranks(cards@, a as int, b as int).take(
            if n <= without_ranks(cards@, a as int, b as int).len() {
                n as int
            } else {
                without_ranks(cards@, a as int, b as int).len() as int
            },
        ),
{
    let mut r: Vec<Card> = Vec::new();
    let mut i: usize = 0;
    while i < cards.len()
        invariant
            0 <= i <= cards@.len(),
            r@ == without_ranks(cards@.take(i as int), a as int, b as int).take(
                if n <= without_ranks(cards@.take(i as int), a as int, b as int).len() {
                    n as int
                } else {
                    without_ranks(cards@.take(i as int), a as int, b as int).len() as int
                },
            ),
        decreases cards@.len() - i,
    {
        proof {
            lemma_without_step(cards@, i as int, a as int, b as int);
        }
        let ghost w = without_ranks(cards@.take(i as int), a as int, b as int);
        let v = cards[i].rank.value();
        if v != a && v != b && r.len() < n {
            r.push(cards[i]);
            assert(w.push(cards@[i as int]).take(r@.len() as int) =~= r@);
        } else if v != a && v != b {
            assert(w.push(cards@[i as int]).take(n as int) =~= w.take(n as int));
        }
        i = i + 1;
    }
    assert(cards@.take(cards@.len() as int) =~= cards@);
    r
}

// ---------------------------------------------------------------------------------------
// Detectors, strongest first. Each gives the category number of `category` and the cards
// the hand carries, or nothing.

/// Whether a card of rank value `v` is among `s`.
pub open spec fn has_rank(s: Seq<Card>, v: int) -> bool {
    rank_count(s, v) > 0
}

/// The first card of rank value `v` in `s`.
pub open spec fn first_of_rank(s: Seq<Card>, v: int) -> Card {
    with_rank(s, v)[0]
}

/// Five consecutive ranks from `t` down to `t - 4` are all present.
pub open spec fn run_down_from(s: Seq<Card>, t: int) -> bool {
    &&& has_rank(s, t)
    &&& has_rank(s, t - 1)
    &&& has_rank(s, t - 2)
    &&& has_rank(s, t - 3)
    &&& has_rank(s, t - 4)
}

/// The highest top, at most `t`, of five consecutive ranks of `s` (the lowest top is Six).
pub open spec fn straight_top(s: Seq<Card>, t: int) -> Option<int>
    decreases t,
{
    if t < 6 {
        None
    } else if run_down_from(s, t) {
        Some(t)
    } else {
        straight_top(s, t - 1)
    }
}

/// Ace, Five, Four, Three and Two are all present.
pub open spec fn has_wheel(s: Seq<Card>) -> bool {
    has_rank(s, 14) && has_rank(s, 5) && has_rank(s, 4) && has_rank(s, 3) && has_rank(s, 2)
}

/// The best straight among `s`: the first card of each of the five ranks, high to low; the
/// Ace plays low only when no other straight exists, and then comes last.
pub open spec fn straight_cards(s: Seq<Card>) -> Option<Seq<Card>> {
    match straight_top(s, 14) {
        Some(t) => Some(
            seq![
                first_of_rank(s, t),
                first_of_rank(s, t - 1),
                first_of_rank(s, t - 2),
                first_of_rank(s, t - 3),
                first_of_rank(s, t - 4),
            ],
        ),
        None => if has_wheel(s) {
            Some(
                seq![
                    first_of_rank(s, 5),
                    first_of_rank(s, 4),
                    first_of_rank(s, 3),
                    first_of_rank(s, 2),
                    first_of_rank(s, 14),
                ],
            )
        } else {
            None
        },
    }
}

pub open spec fn straight_of(s: Seq<Card>) -> Option<(int, Seq<Card>)> {
    match straight_cards(s) {
        Some(c) => Some((4, c)),
        None => None,
    }
}

/// The straight of the first suit, from suit number `i` on, whose cards hold one.
pub open spec fn suited_straight_from(s: Seq<Card>, i: int) -> Option<Seq<Card>>
    decreases 4 - i,
{
    if i >= 4 {
        None
    } else {
        match straight_cards(with_suit(s, i)) {
            Some(c) => Some(c),
            None => suited_straight_from(s, i + 1),
        }
    }
}

pub open spec fn straight_flush_of(s: Seq<Card>) -> Option<(int, Seq<Card>)> {
    match suited_straight_from(s, 0) {
        Some(c) => Some((8, c)),
        None => None,
    }
}

/// The first five cards of the first suit, from suit number `i` on, that has five or more.
pub open spec fn flush_from(s: Seq<Card>, i: int) -> Option<Seq<Card>>
    decreases 4 - i,
{
    if i >= 4 {
        None
    } else if with_suit(s, i).len() >= 5 {
        Some(with_suit(s, i).take(5))
    } else {
        flush_from(s, i + 1)
    }
}

pub open spec fn flush_of(s: Seq<Card>) -> Option<(int, Seq<Card>)> {
    match flush_from(s, 0) {
        Some(c) => Some((5, c)),
        None => None,
    }
}

/// The four cards of the highest rank that occurs four times, then the first other card.
pub open spec fn quads_of(s: Seq<Card>) -> Option<(int, Seq<Card>)> {
    let q = ranks_with_count(s, 4);
    if q.len() == 0 {
        None
    } else {
        let rest = without_ranks(s, q[0], q[0]);
        if rest.len() == 0 {
            None
        } else {
            Some((7, with_rank(s, q[0]) + rest.take(1)))
        }
    }
}

/// The three cards of the highest rank that occurs three times, then the highest pair, or
/// failing one two cards of a second rank that occurs three times.
pub open spec fn full_house_of(s: Seq<Card>) -> Option<(int, Seq<Card>)> {
    let t = ranks_with_count(s, 3);
    let p = ranks_with_count(s, 2);
    if t.len() == 0 {
        None
    } else if p.len() > 0 {
        Some((6, with_rank(s, t[0]) + with_rank(s, p[0])))
    } else if t.len() > 1 {
        Some((6, with_rank(s, t[0]) + with_rank(s, t[1]).take(2)))
    } else {
        None
    }
}

/// Trips with the first two other cards; else the two highest pairs with the first card of
/// neither rank; else the one pair with the first three other cards. Fewer than five cards
/// make none of these.
pub open spec fn sets_of(s: Seq<Card>) -> Option<(int, Seq<Card>)> {
    let t = ranks_with_count(s, 3);
    let p = ranks_with_count(s, 2);
    if s.len() < 5 {
        None
    } else if t.len() > 0 {
        Some((3, with_rank(s, t[0]) + without_ranks(s, t[0], t[0]).take(2)))
    } else if p.len() >= 2 {
        Some((2, with_rank(s, p[0]) + with_rank(s, p[1]) + without_ranks(s, p[0], p[1]).take(1)))
    } else if p.len() == 1 {
        Some((1, with_rank(s, p[0]) + without_ranks(s, p[0], p[0]).take(3)))
    } else {
        None
    }
}

/// The first five cards.
pub open spec fn high_card_of(s: Seq<Card>) -> (int, Seq<Card>) {
    (0, s.take(5))
}

/// The hand that `s` makes: the first detector that matches, strongest first.
pub open spec fn classify(s: Seq<Card>) -> (int, Seq<Card>) {
    if let Some(h) = straight_flush_of(s) {
        h
    } else if let Some(h) = quads_of(s) {
        h
    } else if let Some(h) = full_house_of(s) {
        h
    } else if let Some(h) = flush_of(s) {
        h
    } else if let Some(h) = straight_of(s) {
        h
    } else if let Some(h) = sets_of(s) {
        h
    } else {
        high_card_of(s)
    }
}

/// Finds quads, with the first card of another rank as kicker (the highest one when the
/// cards are sorted strongest first).
pub fn get_quads(cards: &Vec<Card>) -> (r: Option<HandType>)
    requires
        one_deck_counts(cards@),
    ensures
        shape_of(r) == quads_of(cards@),
{
    let ghost s = cards@;
    let grouped = group_by_rank_freq(cards);
    proof {
        lemma_ranks_above(s, 4, 1);
    }
    if grouped[4].len() == 0 {
        return None;
    }
    let g = &grouped[4][0];
    let ghost q = ranks_with_count(s, 4)[0];
    assert(g@ == with_rank(s, q));
    let quads = [g[0], g[1], g[2], g[3]];
    let quad_rank = g[0].rank.value();
    let rest = first_outside(cards, quad_rank, quad_rank, 1);
    if rest.len() == 0 {
        return None;
    }
    let r = HandType::Quads(quads, rest[0]);
    assert(payload(r) =~= with_rank(s, q) + without_ranks(s, q, q).take(1));
    Some(r)
}

/// Finds a full house: the highest trips, with the highest pair, or two cards of the second
/// trips when there is no pair.
pub fn get_full_house(cards: &Vec<Card>) -> (r: Option<HandType>)
    requires
        one_deck_counts(cards@),
    ensures
        shape_of(r) == full_house_of(cards@),
{
    let ghost s = cards@;
    let grouped = group_by_rank_freq(cards);
    proof {
        lemma_ranks_above(s, 3, 1);
        lemma_ranks_above(s, 2, 1);
    }
    if grouped[3].len() == 0 {
        return None;
    }
    let g = &grouped[3][0];
    let trips = [g[0], g[1], g[2]];
    let pair: [Card; 2] = if grouped[2].len() > 0 {
        let p = &grouped[2][0];
        [p[0], p[1]]
    } else if grouped[3].len() > 1 {
        let p = &grouped[3][1];
        [p[0], p[1]]
    } else {
        return None;
    };
    let r = HandType::FullHouse(trips, pair);
    proof {
        let t3 = ranks_with_count(s, 3);
        let p2 = ranks_with_count(s, 2);
        assert(g@ == with_rank(s, t3[0]));
        if p2.len() > 0 {
            assert(grouped@[2]@[0]@ == with_rank(s, p2[0]));
            assert(payload(r) =~= with_rank(s, t3[0]) + with_rank(s, p2[0]));
        } else {
            assert(grouped@[3]@[1]@ == with_rank(s, t3[1]));
            assert(payload(r) =~= with_rank(s, t3[0]) + with_rank(s, t3[1]).take(2));
        }
    }
    Some(r)
}

/// Finds trips, else two pair, else a pair, with their kickers: the first cards of other
/// ranks (the highest ones when the cards are sorted strongest first). Fewer than five
/// cards match nothing.
pub fn get_trips_or_pairs(cards: &Vec<Card>) -> (r: Option<HandType>)
    requires
        one_deck_counts(cards@),
    ensures
        shape_of(r) == sets_of(cards@),
        cards@.len() < 5 ==> r is None,
{
    let ghost s = cards@;
    if cards.len() < 5 {
        return None;
    }
    let grouped = group_by_rank_freq(cards);
    let ghost t3 = ranks_with_count(s, 3);
    let ghost p2 = ranks_with_count(s, 2);
    proof {
        lemma_ranks_above(s, 3, 1);
        lemma_ranks_above(s, 2, 1);
    }
    if grouped[3].len() > 0 {
        let g = &grouped[3][0];
        assert(g@ == with_rank(s, t3[0]));
        let trips = [g[0], g[1], g[2]];
        let trips_rank = g[0].rank.value();
        proof {
            lemma_without_len(s, t3[0], t3[0]);
        }
        let kickers = first_outside(cards, trips_rank, trips_rank, 2);
        let r = HandType::Trips(trips, [kickers[0], kickers[1]]);
        assert(payload(r) =~= with_rank(s, t3[0]) + without_ranks(s, t3[0], t3[0]).take(2));
        return Some(r);
    }
    let pairs = &grouped[2];
    if pairs.len() >= 2 {
        let a = &pairs[0];
        let b = &pairs[1];
        assert(a@ == with_rank(s, p2[0]));
        assert(b@ == with_rank(s, p2[1]));
        let high = [a[0], a[1]];
        let low = [b[0], b[1]];
        proof {
            lemma_without_len(s, p2[0], p2[1]);
        }
        let kicker = first_outside(cards, a[0].rank.value(), b[0].rank.value(), 1);
        let r = HandType::TwoPair(high, low, kicker[0]);
        assert(payload(r) =~= with_rank(s, p2[0]) + with_rank(s, p2[1]) + without_ranks(
            s,
            p2[0],
            p2[1],
        ).take(1));
        return Some(r);
    }
    if pairs.len() == 1 {
        let a = &pairs[0];
        assert(a@ == with_rank(s, p2[0]));
        let pair = [a[0], a[1]];
        let pair_rank = a[0].rank.value();
        proof {
            lemma_without_len(s, p2[0], p2[0]);
        }
        let kickers = first_outside(cards, pair_rank, pair_rank, 3);
        let r = HandType::Pair(pair, [kickers[0], kickers[1], kickers[2]]);
        assert(payload(r) =~= with_rank(s, p2[0]) + without_ranks(s, p2[0], p2[0]).take(3));
        return Some(r);
    }
    None
}

/// Finds a flush: the first five cards of the first suit, in enumeration order, that has
/// five or more (the five highest when the cards are sorted strongest first).
pub fn get_flush(cards: &Vec<Card>) -> (r: Option<HandType>)
    ensures
        shape_of(r) == flush_of(cards@),
{
    let by_suit = group_by_suit(cards);
    let mut i: usize = 0;
    while i < 4
        invariant
            0 <= i <= 4,
            forall|k: int| 0 <= k < 4 ==> (#[trigger] by_suit@[k])@ == with_suit(cards@, k),
            flush_from(cards@, 0) == flush_from(cards@, i as int),
        decreases 4 - i,
    {
        assert(by_suit@[i as int]@ == with_suit(cards@, i as int));
        match card_vec_to_card_array(&by_suit[i]) {
            Some(arr) => {
                return Some(HandType::Flush(arr));
            },
            None => {},
        }
        i = i + 1;
    }
    None
}

/// For each rank value up to 14, the first card of that rank, if any.
fn first_cards_by_rank(cards: &Vec<Card>) -> (r: Vec<Option<Card>>)
    ensures
        r@.len() == 15,
        forall|v: int|
            0 <= v < 15 ==> #[trigger] r@[v] == (if has_rank(cards@, v) {
                Some(first_of_rank(cards@, v))
            } else {
                None
            }),
{
    let mut r: Vec<Option<Card>> = Vec::new();
    let mut v: u32 = 0;
    while v < 15
        invariant
            0 <= v <= 15,
            r@.len() == v,
            forall|w: int|
                0 <= w < v ==> #[trigger] r@[w] == (if has_rank(cards@, w) {
                    Some(first_of_rank(cards@, w))
                } else {
                    None
                }),
        decreases 15 - v,
    {
        let g = cards_of_rank(cards, v);
        if g.len() > 0 {
            r.push(Some(g[0]));
        } else {
            r.push(None);
        }
        v = v + 1;
    }
    r
}

/// Finds the best straight: the highest five consecutive ranks, the first card of each; a
/// wheel (Ace, Five, Four, Three, Two) counts Five high, its Ace last.
pub fn get_straight(cards: &Vec<Card>) -> (r: Option<HandType>)
    ensures
        shape_of(r) == straight_of(cards@),
{
    let ghost s = cards@;
    let firsts = first_cards_by_rank(cards);
    let mut t: usize = 14;
    while t >= 6
        invariant
            5 <= t <= 14,
            s == cards@,
            firsts@.len() == 15,
            forall|v: int|
                0 <= v < 15 ==> #[trigger] firsts@[v] == (if has_rank(s, v) {
                    Some(first_of_rank(s, v))
                } else {
                    None
                }),
            straight_top(s, 14) == straight_top(s, t as int),
        decreases t,
    {
        match (firsts[t], firsts[t - 1], firsts[t - 2], firsts[t - 3], firsts[t - 4]) {
            (Some(c0), Some(c1), Some(c2), Some(c3), Some(c4)) => {
                let r = HandType::Straight([c0, c1, c2, c3, c4]);
                assert(payload(r) =~= straight_cards(s)->Some_0);
                return Some(r);
            },
            _ => {},
        }
        t = t - 1;
    }
    match (firsts[5], firsts[4], firsts[3], firsts[2], firsts[14]) {
        (Some(c5), Some(c4), Some(c3), Some(c2), Some(ace)) => {
            let r = HandType::Straight([c5, c4, c3, c2, ace]);
            assert(payload(r) =~= straight_cards(s)->Some_0);
            Some(r)
        },
        _ => None,
    }
}

/// Finds a straight flush: the best straight among the cards of the first suit, in
/// enumeration order, whose cards hold one.
pub fn get_straight_flush(cards: &Vec<Card>) -> (r: Option<HandType>)
    ensures
        shape_of(r) == straight_flush_of(cards@),
{
    let by_suit = group_by_suit(cards);
    let mut i: usize = 0;
    while i < 4
        invariant
            0 <= i <= 4,
            forall|k: int| 0 <= k < 4 ==> (#[trigger] by_suit@[k])@ == with_suit(cards@, k),
            suited_straight_from(cards@, 0) == suited_straight_from(cards@, i as int),
        decreases 4 - i,
    {
        assert(by_suit@[i as int]@ == with_suit(cards@, i as int));
        match get_straight(&by_suit[i]) {
            Some(HandType::Straight(c)) => {
                return Some(HandType::StraightFlush(c));
            },
            _ => {},
        }
        i = i + 1;
    }
    None
}

/// The first five cards as a high-card hand (the five highest when the cards are sorted
/// strongest first); fewer than five cards match nothing.
pub fn get_high_card(cards: &Vec<Card>) -> (r: Option<HandType>)
    ensures
        cards@.len() >= 5 ==> shape_of(r) == Some(high_card_of(cards@)),
        cards@.len() < 5 ==> r is None,
{
    match card_vec_to_card_array(cards) {
        Some(a) => Some(HandType::HighCard(a)),
        None => None,
    }
}

// ---------------------------------------------------------------------------------------
// Classification of seven cards

/// Sort key of a card: higher ranks first, and within a rank Spades, Clubs, Hearts, Diamonds.
pub open spec fn card_key(c: Card) -> int {
    4 * rank_value(c.rank) + 3 - suit_index(c.suit)
}

/// The order in which the classifier reads the cards: strongest rank first, ties between
/// equal ranks broken by suit.
pub open spec fn strongest_first() -> spec_fn(Card, Card) -> bool {
    |a: Card, b: Card| card_key(a) >= card_key(b)
}

/// The cards of a deal as the classifier reads them.
pub open spec fn seven_sorted(hand: Seq<Card>, board: Seq<Card>) -> Seq<Card> {
    (hand + board).sort_by(strongest_first())
}

proof fn lemma_card_key_injective(a: Card, b: Card)
    ensures
        card_key(a) == card_key(b) ==> a == b,
{
    lemma_rank_value_injective(a.rank, b.rank);
    lemma_suit_index_injective(a.suit, b.suit);
    lemma_rank_value_injective(b.rank, a.rank);
    lemma_suit_index_injective(b.suit, a.suit);
}

pub proof fn lemma_strongest_first_total()
    ensures
        total_ordering(strongest_first()),
{
    assert forall|a: Card, b: Card|
        #[trigger] strongest_first()(a, b) && #[trigger] strongest_first()(b, a) implies a == b by {
        lemma_card_key_injective(a, b);
    }
}

fn card_key_of(c: &Card) -> (r: u32)
    ensures
        r as int == card_key(*c),
{
    4 * c.rank.value() + 3 - c.suit.index() as u32
}

/// The cards reordered strongest first.
fn sort_strongest_first(cards: &Vec<Card>) -> (r: Vec<Card>)
    ensures
        sorted_by(r@, strongest_first()),
        r@.to_multiset() == cards@.to_multiset(),
{
    broadcast use vstd::seq_lib::group_to_multiset_ensures;

    let mut out: Vec<Card> = Vec::new();
    let mut i: usize = 0;
    while i < cards.len()
        invariant
            0 <= i <= cards@.len(),
            forall|p: int, q: int|
                0 <= p < q < out@.len() ==> card_key(#[trigger] out@[p]) >= card_key(
                    #[trigger] out@[q],
                ),
            out@.to_multiset() == cards@.take(i as int).to_multiset(),
        decreases cards@.len() - i,
    {
        let x = cards[i];
        let kx = card_key_of(&x);
        let mut j: usize = 0;
        while j < out.len() && card_key_of(&out[j]) >= kx
            invariant
                0 <= j <= out@.len(),
                kx as int == card_key(x),
                forall|p: int| 0 <= p < j ==> card_key(#[trigger] out@[p]) >= kx,
            decreases out@.len() - j,
        {
            j = j + 1;
        }
        let ghost before = out@;
        assert(forall|q: int| j <= q < before.len() ==> card_key(#[trigger] before[q]) < kx) by {
            assert forall|q: int| j <= q < before.len() implies card_key(#[trigger] before[q]) < kx by {
                if j < q {
                    assert(card_key(before[j as int]) >= card_key(before[q]));
                }
            }
        }
        out.insert(j, x);
        proof {
            vstd::seq_lib::to_multiset_insert(before, j as int, x);
            vstd::seq_lib::to_multiset_build(cards@.take(i as int), x);
            assert(cards@.take(i + 1) =~= cards@.take(i as int).push(x));
        }
        i = i + 1;
    }
    assert(cards@.take(cards@.len() as int) =~= cards@);
    assert(sorted_by(out@, strongest_first()));
    out
}

proof fn lemma_with_rank_no_duplicates(s: Seq<Card>, v: int)
    requires
        s.no_duplicates(),
    ensures
        with_rank(s, v).no_duplicates(),
    decreases s.len(),
{
    reveal(Seq::filter);
    if s.len() > 0 {
        let d = s.drop_last();
        assert(d.no_duplicates());
        lemma_with_rank_no_duplicates(d, v);
        if with_rank(d, v).contains(s.last()) {
            d.lemma_filter_contains_rev(|c: Card| rank_value(c.rank) == v, s.last());
            assert(d.contains(s.last()));
        }
    }
}

/// Cards from one deck, each at most once, hold no rank more than four times.
pub proof fn lemma_distinct_cards_one_deck(s: Seq<Card>)
    requires
        s.no_duplicates(),
    ensures
        one_deck_counts(s),
{
    assert forall|v: int| 2 <= v <= 14 implies #[trigger] rank_count(s, v) <= 4 by {
        let w = with_rank(s, v);
        lemma_with_rank_no_duplicates(s, v);
        w.unique_seq_to_set();
        let r = rank_of(v);
        let four = set![
            Card { rank: r, suit: Suit::Spades },
            Card { rank: r, suit: Suit::Clubs },
            Card { rank: r, suit: Suit::Hearts },
            Card { rank: r, suit: Suit::Diamonds },
        ];
        assert(four.len() <= 4);
        assert forall|c: Card| w.to_set().contains(c) implies four.contains(c) by {
            let k = choose|k: int| 0 <= k < w.len() && w[k] == c;
            assert(rank_value(c.rank) == v);
            lemma_rank_value_injective(c.rank, r);
        }
        vstd::set_lib::lemma_len_subset(w.to_set(), four);
    }
}

proof fn lemma_sorted_deal(hand: HoleCards, board: [Card; 5], sorted: Seq<Card>)
    requires
        (hand@ + board@).no_duplicates(),
        sorted_by(sorted, strongest_first()),
        sorted.to_multiset() == (hand@ + board@).to_multiset(),
    ensures
        sorted == seven_sorted(hand@, board@),
        sorted.len() == 7,
        one_deck_counts(sorted),
{
    broadcast use vstd::seq_lib::group_to_multiset_ensures;

    let all = hand@ + board@;
    assert(hand@.len() == 2 && board@.len() == 5) by {
        vstd::array::array_len_matches_n(&hand);
        vstd::array::array_len_matches_n(&board);
    }
    vstd::seq_lib::to_multiset_len(all);
    vstd::seq_lib::to_multiset_len(sorted);
    lemma_strongest_first_total();
    all.lemma_sort_by_ensures(strongest_first());
    vstd::seq_lib::lemma_sorted_unique(sorted, all.sort_by(strongest_first()), strongest_first());
    all.lemma_multiset_has_no_duplicates();
    sorted.lemma_multiset_has_no_duplicates_conv();
    lemma_distinct_cards_one_deck(sorted);
}

/// The best hand that two hole cards and five board cards make. The seven cards are read
/// strongest first and the detectors are tried from straight flush down to high card; the
/// first that matches gives the hand.
pub fn hand_type(hand: &HoleCards, board: &[Card; 5]) -> (r: HandType)
    requires
        (hand@ + board@).no_duplicates(),
    ensures
        shape(r) == classify(seven_sorted(hand@, board@)),
{
    let mut cards: Vec<Card> = Vec::new();
    append_cards(&mut cards, hand);
    append_cards(&mut cards, board);
    let cards = sort_strongest_first(&cards);
    proof {
        lemma_sorted_deal(*hand, *board, cards@);
    }
    if let Some(h) = get_straight_flush(&cards) {
        return h;
    }
    if let Some(h) = get_quads(&cards) {
        return h;
    }
    if let Some(h) = get_full_house(&cards) {
        return h;
    }
    if let Some(h) = get_flush(&cards) {
        return h;
    }
    if let Some(h) = get_straight(&cards) {
        return h;
    }
    if let Some(h) = get_trips_or_pairs(&cards) {
        return h;
    }
    let a = [cards[0], cards[1], cards[2], cards[3], cards[4]];
    let r = HandType::HighCard(a);
    assert(payload(r) =~= cards@.take(5));
    r
}

/// Classification depends on which seven cards are dealt, not on their order or on which
/// of them are hole cards: two deals of the same cards give the same category and the same
/// tie-break cards.
pub proof fn lemma_classification_ignores_order(
    hand1: HoleCards,
    board1: [Card; 5],
    hand2: HoleCards,
    board2: [Card; 5],
)
    requires
        (hand1@ + board1@).to_multiset() == (hand2@ + board2@).to_multiset(),
    ensures
        seven_sorted(hand1@, board1@) == seven_sorted(hand2@, board2@),
        classify(seven_sorted(hand1@, board1@)) == classify(seven_sorted(hand2@, board2@)),
{
    let a = hand1@ + board1@;
    let b = hand2@ + board2@;
    lemma_strongest_first_total();
    a.lemma_sort_by_ensures(strongest_first());
    b.lemma_sort_by_ensures(strongest_first());
    vstd::seq_lib::lemma_sorted_unique(
        a.sort_by(strongest_first()),
        b.sort_by(strongest_first()),
        strongest_first(),
    );
}

/// With the cards of suit `i` set apart, the cards of ranks `a` and `b` number at most one
/// of each rank in that suit, plus the cards of other suits.
proof fn lemma_two_rank_bound(s: Seq<Card>, i: int, a: int, b: int)
    requires
        s.no_duplicates(),
        0 <= i <= 3,
        2 <= a <= 14,
        2 <= b <= 14,
    ensures
        rank_count(s, a) + (if a != b { rank_count(s, b) } else { 0 }) <= (if s.contains(
            Card { rank: rank_of(a), suit: suit_at(i) },
        ) {
            1int
        } else {
            0
        }) + (if a != b && s.contains(Card { rank: rank_of(b), suit: suit_at(i) }) {
            1int
        } else {
            0
        }) + s.len() - with_suit(s, i).len(),
    decreases s.len(),
{
    reveal(Seq::filter);
    if s.len() > 0 {
        let d = s.drop_last();
        let x = s.last();
        assert(d.no_duplicates());
        lemma_two_rank_bound(d, i, a, b);
        lemma_rank_value_injective(x.rank, rank_of(a));
        lemma_rank_value_injective(x.rank, rank_of(b));
        lemma_suit_index_injective(x.suit, suit_at(i));
        let ca = Card { rank: rank_of(a), suit: suit_at(i) };
        let cb = Card { rank: rank_of(b), suit: suit_at(i) };
        assert(rank_value(ca.rank) == a) by {
            lemma_rank_value_injective(rank_of(a), rank_of(a));
        }
        assert(rank_value(cb.rank) == b);
        assert(suit_index(ca.suit) == i);
        assert(s == d.push(x));
        if d.contains(ca) {
            let k = choose|k: int| 0 <= k < d.len() && d[k] == ca;
            assert(s[k] == ca);
        }
        if d.contains(cb) {
            let k = choose|k: int| 0 <= k < d.len() && d[k] == cb;
            assert(s[k] == cb);
        }
        if x == ca {
            assert(!d.contains(ca));
        }
        if x == cb {
            assert(!d.contains(cb));
        }
        assert(s[s.len() - 1] == x);
    }
}

proof fn lemma_flush_suit(s: Seq<Card>, i: int)
    requires
        0 <= i,
        flush_from(s, i) is Some,
    ensures
        exists|k: int| i <= k <= 3 && #[trigger] with_suit(s, k).len() >= 5,
    decreases 4 - i,
{
    if i < 4 && with_suit(s, i).len() < 5 {
        lemma_flush_suit(s, i + 1);
    }
}

/// Seven distinct cards that hold a flush but no straight flush are classified as a flush:
/// never as a straight, whatever straight they also hold, and never higher, since five
/// cards of one suit leave no room for quads or a full house.
pub proof fn lemma_flush_outranks_straight(s: Seq<Card>)
    requires
        s.len() == 7,
        s.no_duplicates(),
        flush_of(s) is Some,
        straight_flush_of(s) is None,
    ensures
        classify(s).0 == 5,
{
    lemma_flush_suit(s, 0);
    let i = choose|k: int| 0 <= k <= 3 && #[trigger] with_suit(s, k).len() >= 5;
    let q = ranks_with_count(s, 4);
    let t = ranks_with_count(s, 3);
    let p = ranks_with_count(s, 2);
    lemma_ranks_above(s, 4, 1);
    lemma_ranks_above(s, 3, 1);
    lemma_ranks_above(s, 2, 1);
    if q.len() > 0 {
        lemma_two_rank_bound(s, i, q[0], q[0]);
    }
    if t.len() > 0 && p.len() > 0 {
        lemma_two_rank_bound(s, i, t[0], p[0]);
    }
    if t.len() > 1 {
        lemma_two_rank_bound(s, i, t[0], t[1]);
    }
}

} // verus!
