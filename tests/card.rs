use rusty_poker::card::{all_cards, all_suits, ranks, suits, Card, ParseCardError, Rank, Suit};
use rusty_poker::util::card_vec_to_card_array;
use std::str::FromStr;

#[test]
fn parse_card() {
    assert_eq!(Card::from_str("Ac"), Ok(Card { suit: Suit::Clubs, rank: Rank::Ace }));
    assert_eq!(Card::from_str("Ks"), Ok(Card { suit: Suit::Spades, rank: Rank::King }));
    assert_eq!(Card::from_str("2d"), Ok(Card { suit: Suit::Diamonds, rank: Rank::Two }));
    assert_eq!(Card::from_str("6h"), Ok(Card { suit: Suit::Hearts, rank: Rank::Six }));
}

#[test]
fn parse_card_is_case_insensitive() {
    assert_eq!("tD".parse::<Card>(), Ok(Card::new(Rank::Ten, Suit::Diamonds)));
    assert_eq!("QH".parse::<Card>(), Ok(Card::new(Rank::Queen, Suit::Hearts)));
}

#[test]
fn parse_card_errors() {
    assert!(matches!(Card::parse("Acd"), Err(ParseCardError::ParseFormatError(_))));
    assert!(matches!(Card::parse(""), Err(ParseCardError::ParseFormatError(_))));
    match Card::parse("Xs") {
        Err(ParseCardError::ParseRankError(msg)) => assert!(msg.contains('X')),
        other => panic!("unexpected {:?}", other),
    }
    match Card::parse("Az") {
        Err(ParseCardError::ParseSuitError(msg)) => assert!(msg.contains('z')),
        other => panic!("unexpected {:?}", other),
    }
    assert!(matches!(Card::parse("1s"), Err(ParseCardError::ParseRankError(_))));
}

#[test]
fn ranks_and_suits() {
    assert_eq!(Rank::from_u32(2), Rank::Two);
    assert_eq!(Rank::from_u32(11), Rank::Jack);
    assert_eq!(Rank::from_u32(14), Rank::Ace);
    assert_eq!(Rank::Queen.value(), 12);
    assert!(Rank::Four.preceeds(&Rank::Five));
    assert!(!Rank::Five.preceeds(&Rank::Four));
    assert!(!Rank::Ace.preceeds(&Rank::Two));
    let rs = ranks();
    for (i, r) in rs.iter().enumerate() {
        assert_eq!(r.value() as usize, i + 2);
    }
    assert_eq!(all_suits(), [Suit::Spades, Suit::Clubs, Suit::Hearts, Suit::Diamonds]);
    assert_eq!(suits(), all_suits());
    assert!(Rank::Two < Rank::Ace);
}

#[test]
fn deck_has_52_distinct_cards() {
    let deck = all_cards();
    assert_eq!(deck.len(), 52);
    for i in 0..deck.len() {
        for j in (i + 1)..deck.len() {
            assert_ne!(deck[i], deck[j]);
        }
    }
    assert_eq!(deck[0], Card::new(Rank::Two, Suit::Spades));
    assert_eq!(deck[51], Card::new(Rank::Ace, Suit::Diamonds));
}

#[test]
fn first_five_as_array() {
    let deck = all_cards();
    let five = card_vec_to_card_array(&deck).unwrap();
    assert_eq!(five[4], Card::new(Rank::Six, Suit::Spades));
    assert_eq!(card_vec_to_card_array(&deck[..4].to_vec()), None);
}
