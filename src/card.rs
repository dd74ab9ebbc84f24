//! Suits, ranks and cards, the deck they make, and the two-character card notation.

use vstd::prelude::*;
use vstd::string::*;

verus! {

#[derive(Debug, Copy, Clone, PartialEq, Eq, Hash, Structural)]
pub enum Suit {
    Spades,
    Clubs,
    Hearts,
    Diamonds,
}

/// Position of a suit in the fixed enumeration order: Spades, Clubs, Hearts, Diamonds.
pub open spec fn suit_index(s: Suit) -> int {
    match s {
        Suit::Spades => 0,
        Suit::Clubs => 1,
        Suit::Hearts => 2,
        Suit::Diamonds => 3,
    }
}

/// The suit at a position of the enumeration order.
pub open spec fn suit_at(i: int) -> Suit {
    if i == 0 {
        Suit::Spades
    } else if i == 1 {
        Suit::Clubs
    } else if i == 2 {
        Suit::Hearts
    } else {
        Suit::Diamonds
    }
}

impl Suit {
    /// Position of this suit in the enumeration order.
    pub fn index(&self) -> (r: usize)
        ensures
            r as int == suit_index(*self),
    {
        match self {
            Suit::Spades => 0,
            Suit::Clubs => 1,
            Suit::Hearts => 2,
            Suit::Diamonds => 3,
        }
    }
}

/// The four suits in enumeration order.
pub fn all_suits() -> (r: [Suit; 4])
    ensures
        r@ == seq![Suit::Spades, Suit::Clubs, Suit::Hearts, Suit::Diamonds],
{
    let r = [Suit::Spades, Suit::Clubs, Suit::Hearts, Suit::Diamonds];
    assert(r@ =~= seq![Suit::Spades, Suit::Clubs, Suit::Hearts, Suit::Diamonds]);
    r
}

#[derive(Debug, Copy, Clone, PartialEq, Eq, Hash, PartialOrd, Ord, Structural)]
pub enum Rank {
    Two,
    Three,
    Four,
    Five,
    Six,
    Seven,
    Eight,
    Nine,
    Ten,
    Jack,
    Queen,
    King,
    Ace,
}

/// Numeric value of a rank: 2 through 10, then Jack 11, Queen 12, King 13, Ace 14.
pub open spec fn rank_value(r: Rank) -> int {
    match r {
        Rank::Two => 2,
        Rank::Three => 3,
        Rank::Four => 4,
        Rank::Five => 5,
        Rank::Six => 6,
        Rank::Seven => 7,
        Rank::Eight => 8,
        Rank::Nine => 9,
        Rank::Ten => 10,
        Rank::Jack => 11,
        Rank::Queen => 12,
        Rank::King => 13,
        Rank::Ace => 14,
    }
}

/// The rank whose value is `v` (meaningful for 2 <= v <= 14).
pub open spec fn rank_of(v: int) -> Rank {
    if v <= 2 {
        Rank::Two
    } else if v == 3 {
        Rank::Three
    } else if v == 4 {
        Rank::Four
    } else if v == 5 {
        Rank::Five
    } else if v == 6 {
        Rank::Six
    } else if v == 7 {
        Rank::Seven
    } else if v == 8 {
        Rank::Eight
    } else if v == 9 {
        Rank::Nine
    } else if v == 10 {
        Rank::Ten
    } else if v == 11 {
        Rank::Jack
    } else if v == 12 {
        Rank::Queen
    } else if v == 13 {
        Rank::King
    } else {
        Rank::Ace
    }
}

impl Rank {
    /// The rank with numeric value `rank`.
    pub fn from_u32(rank: u32) -> (r: Rank)
        requires
            2 <= rank <= 14,
        ensures
            rank_value(r) == rank as int,
            r == rank_of(rank as int),
    {
        match rank {
            2 => Rank::Two,
            3 => Rank::Three,
            4 => Rank::Four,
            5 => Rank::Five,
            6 => Rank::Six,
            7 => Rank::Seven,
            8 => Rank::Eight,
            9 => Rank::Nine,
            10 => Rank::Ten,
            11 => Rank::Jack,
            12 => Rank::Queen,
            13 => Rank::King,
            _ => Rank::Ace,
        }
    }

    /// Numeric value of this rank.
    pub fn value(&self) -> (r: u32)
        ensures
            r as int == rank_value(*self),
    {
        match self {
            Rank::Two => 2,
            Rank::Three => 3,
            Rank::Four => 4,
            Rank::Five => 5,
            Rank::Six => 6,
            Rank::Seven => 7,
            Rank::Eight => 8,
            Rank::Nine => 9,
            Rank::Ten => 10,
            Rank::Jack => 11,
            Rank::Queen => 12,
            Rank::King => 13,
            Rank::Ace => 14,
        }
    }

    /// Whether this rank comes directly below `other`; the Ace precedes nothing.
    pub fn preceeds(&self, other: &Self) -> (r: bool)
        ensures
            r == (rank_value(*self) + 1 == rank_value(*other)),
    {
        self.value() + 1 == other.value()
    }
}

/// The ranks in increasing order, Two to Ace.
pub fn ranks() -> (r: [Rank; 13])
    ensures
        forall|i: int| 0 <= i < 13 ==> rank_value(#[trigger] r@[i]) == i + 2,
{
    [
        Rank::Two,
        Rank::Three,
        Rank::Four,
        Rank::Five,
        Rank::Six,
        Rank::Seven,
        Rank::Eight,
        Rank::Nine,
        Rank::Ten,
        Rank::Jack,
        Rank::Queen,
        Rank::King,
        Rank::Ace,
    ]
}

/// The four suits in enumeration order.
pub fn suits() -> (r: [Suit; 4])
    ensures
        r@ == seq![Suit::Spades, Suit::Clubs, Suit::Hearts, Suit::Diamonds],
{
    all_suits()
}

#[derive(Debug, Clone, Copy, PartialEq, Eq, Hash, Structural)]
pub struct Card {
    pub rank: Rank,
    pub suit: Suit,
}

impl Card {
    /// The card of rank `rank` and suit `suit`.
    pub fn new(rank: Rank, suit: Suit) -> (r: Card)
        ensures
            r.rank == rank,
            r.suit == suit,
    {
        Card { rank, suit }
    }
}

/// The two private cards of one player.
pub type HoleCards = [Card; 2];

pub proof fn lemma_rank_value_injective(a: Rank, b: Rank)
    ensures
        rank_value(a) == rank_value(b) <==> a == b,
        2 <= rank_value(a) <= 14,
        rank_of(rank_value(a)) == a,
{
}

pub proof fn lemma_suit_index_injective(a: Suit, b: Suit)
    ensures
        suit_index(a) == suit_index(b) <==> a == b,
        0 <= suit_index(a) <= 3,
        suit_at(suit_index(a)) == a,
{
}

/// Every card of the deck, each once: the 13 ranks of Spades, then of Clubs, Hearts and Diamonds.
pub fn all_cards() -> (r: Vec<Card>)
    ensures
        r@.len() == 52,
        r@.no_duplicates(),
        forall|c: Card| r@.contains(c),
{
    let mut cards: Vec<Card> = Vec::new();
    let ss = suits();
    let rs = ranks();
    let mut si: usize = 0;
    while si < 4
        invariant
            0 <= si <= 4,
            ss@ == seq![Suit::Spades, Suit::Clubs, Suit::Hearts, Suit::Diamonds],
            forall|i: int| 0 <= i < 13 ==> rank_value(#[trigger] rs@[i]) == i + 2,
            cards@.len() == 13 * si,
            cards@.no_duplicates(),
            forall|k: int| 0 <= k < cards@.len() ==> suit_index(#[trigger] cards@[k].suit) < si,
            forall|c: Card| suit_index(c.suit) < si ==> cards@.contains(c),
        decreases 4 - si,
    {
        let suit = ss[si];
        assert(suit_index(suit) == si as int);
        let mut ri: usize = 0;
        while ri < 13
            invariant
                0 <= si < 4,
                0 <= ri <= 13,
                suit_index(suit) == si as int,
                forall|i: int| 0 <= i < 13 ==> rank_value(#[trigger] rs@[i]) == i + 2,
                cards@.len() == 13 * si + ri,
                cards@.no_duplicates(),
                forall|k: int|
                    0 <= k < cards@.len() ==> suit_index(#[trigger] cards@[k].suit) < si || (
                    suit_index(cards@[k].suit) == si && rank_value(cards@[k].rank) < ri + 2),
                forall|c: Card|
                    suit_index(c.suit) < si || (suit_index(c.suit) == si && rank_value(c.rank) < ri
                        + 2) ==> cards@.contains(c),
            decreases 13 - ri,
        {
            let c = Card { suit, rank: rs[ri] };
            assert(rank_value(c.rank) == ri + 2);
            assert(!cards@.contains(c)) by {
                if cards@.contains(c) {
                    let k = choose|k: int| 0 <= k < cards@.len() && cards@[k] == c;
                    assert(suit_index(cards@[k].suit) < si || (suit_index(cards@[k].suit) == si
                        && rank_value(cards@[k].rank) < ri + 2));
                }
            }
            let ghost before = cards@;
            cards.push(c);
            proof {
                assert forall|d: Card|
                    suit_index(d.suit) < si || (suit_index(d.suit) == si && rank_value(d.rank) < ri
                        + 3) implies cards@.contains(d) by {
                    if suit_index(d.suit) == si && rank_value(d.rank) == ri + 2 {
                        lemma_suit_index_injective(d.suit, suit);
                        lemma_rank_value_injective(d.rank, c.rank);
                        assert(cards@[cards@.len() - 1] == d);
                    } else {
                        assert(before.contains(d));
                        let k = choose|k: int| 0 <= k < before.len() && before[k] == d;
                        assert(cards@[k] == d);
                    }
                }
            }
            ri = ri + 1;
        }
        proof {
            assert forall|c: Card| suit_index(c.suit) < si + 1 implies cards@.contains(c) by {
                lemma_rank_value_injective(c.rank, c.rank);
            }
        }
        si = si + 1;
    }
    proof {
        assert forall|c: Card| cards@.contains(c) by {
            lemma_suit_index_injective(c.suit, c.suit);
        }
    }
    cards
}

#[derive(Debug, Clone, PartialEq, Eq)]
pub enum ParseCardError {
    ParseSuitError(String),
    ParseRankError(String),
    ParseFormatError(String),
}

/// The rank written by a character of "23456789TJQKA", in either case.
pub open spec fn rank_of_char(c: char) -> Option<Rank> {
    if c == '2' {
        Some(Rank::Two)
    } else if c == '3' {
        Some(Rank::Three)
    } else if c == '4' {
        Some(Rank::Four)
    } else if c == '5' {
        Some(Rank::Five)
    } else if c == '6' {
        Some(Rank::Six)
    } else if c == '7' {
        Some(Rank::Seven)
    } else if c == '8' {
        Some(Rank::Eight)
    } else if c == '9' {
        Some(Rank::Nine)
    } else if c == 'T' || c == 't' {
        Some(Rank::Ten)
    } else if c == 'J' || c == 'j' {
        Some(Rank::Jack)
    } else if c == 'Q' || c == 'q' {
        Some(Rank::Queen)
    } else if c == 'K' || c == 'k' {
        Some(Rank::King)
    } else if c == 'A' || c == 'a' {
        Some(Rank::Ace)
    } else {
        None
    }
}

/// The suit written by one of S, H, C, D, in either case.
pub open spec fn suit_of_char(c: char) -> Option<Suit> {
    if c == 'S' || c == 's' {
        Some(Suit::Spades)
    } else if c == 'H' || c == 'h' {
        Some(Suit::Hearts)
    } else if c == 'C' || c == 'c' {
        Some(Suit::Clubs)
    } else if c == 'D' || c == 'd' {
        Some(Suit::Diamonds)
    } else {
        None
    }
}

fn parse_rank_char(c: char) -> (r: Option<Rank>)
    ensures
        r == rank_of_char(c),
{
    match c {
        '2' => Some(Rank::Two),
        '3' => Some(Rank::Three),
        '4' => Some(Rank::Four),
        '5' => Some(Rank::Five),
        '6' => Some(Rank::Six),
        '7' => Some(Rank::Seven),
        '8' => Some(Rank::Eight),
        '9' => Some(Rank::Nine),
        'T' | 't' => Some(Rank::Ten),
        'J' | 'j' => Some(Rank::Jack),
        'Q' | 'q' => Some(Rank::Queen),
        'K' | 'k' => Some(Rank::King),
        'A' | 'a' => Some(Rank::Ace),
        _ => None,
    }
}

fn parse_suit_char(c: char) -> (r: Option<Suit>)
    ensures
        r == suit_of_char(c),
{
    match c {
        'S' | 's' => Some(Suit::Spades),
        'H' | 'h' => Some(Suit::Hearts),
        'C' | 'c' => Some(Suit::Clubs),
        'D' | 'd' => Some(Suit::Diamonds),
        _ => None,
    }
}

/// Relies on std's `format!`: the text of a parse error message.
#[verifier::external_body]
fn describe(what: &str, shown: &str) -> String {
    format!("{}: \"{}\"", what, shown)
}

/// Relies on `char::to_string`: the one-character text of `c`.
#[verifier::external_body]
fn char_text(c: char) -> (r: String)
    ensures
        r@ == seq![c],
{
    c.to_string()
}

impl Card {
    /// Reads a card written as a rank character followed by a suit character ("Ac", "Td").
    pub fn parse(s: &str) -> (r: Result<Card, ParseCardError>)
        ensures
            s@.len() != 2 ==> r is Err && r->Err_0 is ParseFormatError,
            s@.len() == 2 ==> match r {
                Ok(c) => rank_of_char(s@[0]) == Some(c.rank) && suit_of_char(s@[1]) == Some(
                    c.suit,
                ),
                Err(ParseCardError::ParseRankError(_)) => rank_of_char(s@[0]) is None,
                Err(ParseCardError::ParseSuitError(_)) => rank_of_char(s@[0]) is Some
                    && suit_of_char(s@[1]) is None,
                Err(ParseCardError::ParseFormatError(_)) => false,
            },
    {
        if s.unicode_len() != 2 {
            return Err(ParseCardError::ParseFormatError(describe("Card string must be length 2", s)));
        }
        let rank_char = s.get_char(0);
        let suit_char = s.get_char(1);
        let rank = match parse_rank_char(rank_char) {
            Some(r) => r,
            None => {
                return Err(
                    ParseCardError::ParseRankError(
                        describe("Unrecognized rank", char_text(rank_char).as_str()),
                    ),
                );
            },
        };
        let suit = match parse_suit_char(suit_char) {
            Some(su) => su,
            None => {
                return Err(
                    ParseCardError::ParseSuitError(
                        describe("Unrecognized suit", char_text(suit_char).as_str()),
                    ),
                );
            },
        };
        Ok(Card { suit, rank })
    }
}

impl std::str::FromStr for Card {
    type Err = ParseCardError;

    fn from_str(s: &str) -> Result<Card, ParseCardError> {
        Card::parse(s)
    }
}

} // verus!
