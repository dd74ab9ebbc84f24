use rusty_poker::card::{Card, HoleCards, Rank, Suit};
use rusty_poker::equity::{
    count_outcomes, dead_card_list, play_out, remaining_deck, tally_boards, InvalidInputError, Tally,
};
use std::cmp::Ordering;

fn c(text: &str) -> Card {
    text.parse().unwrap()
}

#[test]
fn invalid_inputs_are_rejected() {
    let h1: HoleCards = [c("As"), c("Ah")];
    let h2: HoleCards = [c("2s"), c("2h")];
    assert_eq!(count_outcomes(&h1, &[c("As"), c("Kd")], &vec![], 10), Err(InvalidInputError::DuplicateCard));
    assert_eq!(count_outcomes(&h1, &h2, &vec![c("2s"), c("3d"), c("4d")], 10), Err(InvalidInputError::DuplicateCard));
    assert_eq!(count_outcomes(&[c("Kd"), c("Kd")], &h2, &vec![], 10), Err(InvalidInputError::DuplicateCard));
    let six = vec![c("3d"), c("4d"), c("5d"), c("6d"), c("7d"), c("8d")];
    assert_eq!(count_outcomes(&h1, &h2, &six, 10), Err(InvalidInputError::BoardTooLong));
    assert_eq!(count_outcomes(&h1, &h2, &vec![], 0), Err(InvalidInputError::NoTrials));
}

#[test]
fn full_board_is_decided_every_trial() {
    let h1: HoleCards = [c("As"), c("Ah")];
    let h2: HoleCards = [c("Ks"), c("Kh")];
    let board = vec![c("2c"), c("7d"), c("9s"), c("Jc"), c("3h")];
    let t = count_outcomes(&h1, &h2, &board, 25).unwrap();
    assert_eq!(t, Tally { p1_wins: 25, p2_wins: 0, ties: 0 });
    let chopped = vec![c("Tc"), c("Jd"), c("Qs"), c("Kc"), c("Ad")];
    let t = count_outcomes(&h1, &h2, &chopped, 7).unwrap();
    assert_eq!(t, Tally { p1_wins: 0, p2_wins: 0, ties: 7 });
}

#[test]
fn counts_add_up_to_trials() {
    let h1: HoleCards = [c("Qs"), c("Jh")];
    let h2: HoleCards = [c("9c"), c("9d")];
    let t = count_outcomes(&h1, &h2, &vec![c("2d"), c("8h"), c("Ts")], 300).unwrap();
    assert_eq!(t.p1_wins + t.p2_wins + t.ties, 300);
}

#[test]
fn draws_vary_between_trials() {
    // a close matchup: with fresh random boards both players win some trials
    let h1: HoleCards = [c("As"), c("Kh")];
    let h2: HoleCards = [c("Qc"), c("Qd")];
    let t = count_outcomes(&h1, &h2, &vec![], 600).unwrap();
    assert!(t.p1_wins > 0 && t.p2_wins > 0);
}

#[test]
fn pocket_aces_dominate_pocket_twos() {
    let h1: HoleCards = [c("As"), c("Ah")];
    let h2: HoleCards = [c("2s"), c("2h")];
    let t = count_outcomes(&h1, &h2, &vec![], 3000).unwrap();
    let p1 = t.p1_wins as f64 / 3000.0;
    assert!(p1 > 0.70 && p1 < 0.92, "p1 = {}", p1);
}

#[test]
fn swapping_players_swaps_wins() {
    let h1: HoleCards = [c("As"), c("Kc")];
    let h2: HoleCards = [c("Qc"), c("Qd")];
    let board = vec![];
    let draws = vec![
        vec![c("Ac"), c("3s"), c("9d"), c("2d"), c("7h")],
        vec![c("Qs"), c("3s"), c("9d"), c("2d"), c("7h")],
        vec![c("Tc"), c("Jd"), c("4c"), c("2d"), c("7h")],
        vec![c("5h"), c("6h"), c("7h"), c("8h"), c("9h")],
    ];
    let forward = tally_boards(&h1, &h2, &board, &draws);
    let backward = tally_boards(&h2, &h1, &board, &draws);
    assert_eq!(forward, Tally { p1_wins: 1, p2_wins: 2, ties: 1 });
    assert_eq!(backward, Tally { p1_wins: forward.p2_wins, p2_wins: forward.p1_wins, ties: forward.ties });
}

#[test]
fn one_trial_outcome() {
    let h1: HoleCards = [c("As"), c("Kh")];
    let h2: HoleCards = [c("Qc"), c("Qd")];
    let board = vec![c("2d"), c("7h"), c("Ac")];
    assert_eq!(play_out(&h1, &h2, &board, &vec![c("3s"), c("9d")]), Ordering::Greater);
    assert_eq!(play_out(&h2, &h1, &board, &vec![c("3s"), c("9d")]), Ordering::Less);
}

#[test]
fn remaining_deck_excludes_dead_cards() {
    let h1: HoleCards = [c("As"), c("Ah")];
    let h2: HoleCards = [c("2s"), c("2h")];
    let board = vec![c("Kd"), c("Qd"), c("Jd")];
    let dead = dead_card_list(&h1, &h2, &board);
    assert_eq!(dead.len(), 7);
    let deck = remaining_deck(&h1, &h2, &board);
    assert_eq!(deck.len(), 45);
    for card in &deck {
        assert!(!dead.contains(card));
    }
    assert!(deck.contains(&Card::new(Rank::Ace, Suit::Clubs)));
}
