use hearts::cards::{Card, Deck, Rank, Suit};
use hearts::game::{Game, Turn};
use hearts::round::{Round, RoundError};

fn card(rank: Rank, suit: Suit) -> Card {
    Card { rank, suit }
}

// The fixed deal of the planned round:
// 0: A♣ 5♣ 2♦ 3♥ 8♣  /  1: 2♣ 3♣ A♥ 5♥ 7♠
// 2: 4♣ A♠ 5♦ 4♥ 6♥  /  3: A♦ Q♠ K♦ 2♥ 6♦
fn fixed_round() -> Round {
    Round::with_hands(vec![
        vec![
            card(Rank::Ace, Suit::Clubs),
            card(Rank::Five, Suit::Clubs),
            card(Rank::Two, Suit::Diamonds),
            card(Rank::Three, Suit::Hearts),
            card(Rank::Eight, Suit::Clubs),
        ],
        vec![
            card(Rank::Two, Suit::Clubs),
            card(Rank::Three, Suit::Clubs),
            card(Rank::Ace, Suit::Hearts),
            card(Rank::Five, Suit::Hearts),
            card(Rank::Seven, Suit::Spades),
        ],
        vec![
            card(Rank::Four, Suit::Clubs),
            card(Rank::Ace, Suit::Spades),
            card(Rank::Five, Suit::Diamonds),
            card(Rank::Four, Suit::Hearts),
            card(Rank::Six, Suit::Hearts),
        ],
        vec![
            card(Rank::Ace, Suit::Diamonds),
            card(Rank::Queen, Suit::Spades),
            card(Rank::King, Suit::Diamonds),
            card(Rank::Two, Suit::Hearts),
            card(Rank::Six, Suit::Diamonds),
        ],
    ])
}

#[test]
fn scenario_fixed_deal() {
    let mut round = fixed_round();

    // the holder of the Two of Clubs leads the first trick
    assert_eq!(round.get_turn(), Some(1));

    // acting out of turn is rejected before anything else
    let err = round.play(0, card(Rank::Three, Suit::Clubs));
    assert_eq!(err.unwrap_err(), RoundError::OutOfTurn(0));

    // the opening lead is the Two of Clubs
    round.play(1, card(Rank::Two, Suit::Clubs)).unwrap();

    // a player holding Clubs must follow Clubs
    let err = round.play(2, card(Rank::Ace, Suit::Spades));
    assert_eq!(
        err.unwrap_err(),
        RoundError::IllegalCard(2, card(Rank::Ace, Suit::Spades))
    );
    round.play(2, card(Rank::Four, Suit::Clubs)).unwrap();

    // a player void in Clubs may discard, but no point card on trick one
    round.play(3, card(Rank::Ace, Suit::Diamonds)).unwrap();
    round.play(0, card(Rank::Ace, Suit::Clubs)).unwrap();

    // the highest Club played wins the trick and leads the next one
    assert_eq!(round.get_turn(), Some(0));

    // hearts cannot be led before they are broken
    let err = round.play(0, card(Rank::Three, Suit::Hearts));
    assert_eq!(
        err.unwrap_err(),
        RoundError::IllegalCard(0, card(Rank::Three, Suit::Hearts))
    );
}

#[test]
fn two_clubs_is_the_only_opening_lead() {
    let round = fixed_round();
    assert_eq!(round.get_valid_plays(1), vec![card(Rank::Two, Suit::Clubs)]);
}

#[test]
fn first_trick_excludes_point_cards_for_followers() {
    let mut round = fixed_round();
    round.play(1, card(Rank::Two, Suit::Clubs)).unwrap();

    // player 2 holds Clubs: only the Club survives both restrictions
    assert_eq!(round.get_valid_plays(2), vec![card(Rank::Four, Suit::Clubs)]);
}

#[test]
fn void_follower_keeps_whole_hand_minus_point_cards() {
    let mut round = fixed_round();
    round.play(1, card(Rank::Two, Suit::Clubs)).unwrap();
    round.play(2, card(Rank::Four, Suit::Clubs)).unwrap();

    // player 3 holds no Clubs: everything but the point cards is legal
    assert_eq!(
        round.get_valid_plays(3),
        vec![
            card(Rank::Ace, Suit::Diamonds),
            card(Rank::King, Suit::Diamonds),
            card(Rank::Six, Suit::Diamonds),
        ]
    );
}

#[test]
fn all_point_cards_hand_is_fully_legal_on_first_trick() {
    let mut round = Round::with_hands(vec![
        vec![card(Rank::Two, Suit::Clubs), card(Rank::Three, Suit::Spades)],
        vec![card(Rank::Ace, Suit::Hearts), card(Rank::Queen, Suit::Spades)],
        vec![card(Rank::Four, Suit::Hearts), card(Rank::Five, Suit::Hearts)],
        vec![card(Rank::Two, Suit::Hearts), card(Rank::Three, Suit::Hearts)],
    ]);
    round.play(0, card(Rank::Two, Suit::Clubs)).unwrap();

    // player 1 holds nothing but point cards: the whole hand is legal
    assert_eq!(
        round.get_valid_plays(1),
        vec![card(Rank::Ace, Suit::Hearts), card(Rank::Queen, Suit::Spades)]
    );
}

#[test]
fn off_suit_high_cards_do_not_win_tricks() {
    // 2♣ leads; an off-suit Ace must not beat the highest Club
    let mut round = Round::with_hands(vec![
        vec![card(Rank::Two, Suit::Clubs), card(Rank::Two, Suit::Spades)],
        vec![card(Rank::Five, Suit::Clubs), card(Rank::Three, Suit::Spades)],
        vec![card(Rank::Ace, Suit::Diamonds), card(Rank::Four, Suit::Spades)],
        vec![card(Rank::Three, Suit::Clubs), card(Rank::Five, Suit::Spades)],
    ]);
    round.play(0, card(Rank::Two, Suit::Clubs)).unwrap();
    round.play(1, card(Rank::Five, Suit::Clubs)).unwrap();
    round.play(2, card(Rank::Ace, Suit::Diamonds)).unwrap();
    round.play(3, card(Rank::Three, Suit::Clubs)).unwrap();

    // the Five of Clubs wins, not the off-suit Ace
    assert_eq!(round.get_turn(), Some(1));
}

#[test]
fn forced_heart_lead_breaks_hearts_and_scores() {
    let mut round = Round::with_hands(vec![
        vec![card(Rank::Two, Suit::Clubs), card(Rank::Ace, Suit::Hearts)],
        vec![card(Rank::Three, Suit::Clubs), card(Rank::Two, Suit::Hearts)],
        vec![card(Rank::Four, Suit::Clubs), card(Rank::Queen, Suit::Spades)],
        vec![card(Rank::Five, Suit::Clubs), card(Rank::Three, Suit::Hearts)],
    ]);
    round.play(0, card(Rank::Two, Suit::Clubs)).unwrap();
    round.play(1, card(Rank::Three, Suit::Clubs)).unwrap();
    round.play(2, card(Rank::Four, Suit::Clubs)).unwrap();
    round.play(3, card(Rank::Five, Suit::Clubs)).unwrap();

    // player 3 won and holds only a Heart: the forced lead is legal
    assert_eq!(round.get_turn(), Some(3));
    assert_eq!(round.get_valid_plays(3), vec![card(Rank::Three, Suit::Hearts)]);
    round.play(3, card(Rank::Three, Suit::Hearts)).unwrap();
    round.play(0, card(Rank::Ace, Suit::Hearts)).unwrap();
    round.play(1, card(Rank::Two, Suit::Hearts)).unwrap();
    round.play(2, card(Rank::Queen, Suit::Spades)).unwrap();

    // the Ace of Hearts wins three Hearts and the Queen of Spades
    assert_eq!(round.get_turn(), None);
    assert_eq!(round.score(), [16, 0, 0, 0]);
}

#[test]
fn shooting_the_moon_scores_minus_twenty_six() {
    let mut round = Round::with_hands(vec![
        vec![
            card(Rank::Two, Suit::Clubs),
            card(Rank::Five, Suit::Hearts),
            card(Rank::Four, Suit::Hearts),
            card(Rank::Three, Suit::Hearts),
        ],
        vec![
            card(Rank::Nine, Suit::Hearts),
            card(Rank::Eight, Suit::Hearts),
            card(Rank::Seven, Suit::Hearts),
            card(Rank::Six, Suit::Hearts),
        ],
        vec![
            card(Rank::Queen, Suit::Hearts),
            card(Rank::Jack, Suit::Hearts),
            card(Rank::Ten, Suit::Hearts),
            card(Rank::Two, Suit::Hearts),
        ],
        vec![
            card(Rank::Ace, Suit::Clubs),
            card(Rank::Queen, Suit::Spades),
            card(Rank::Ace, Suit::Hearts),
            card(Rank::King, Suit::Hearts),
        ],
    ]);
    round.play(0, card(Rank::Two, Suit::Clubs)).unwrap();
    round.play(1, card(Rank::Six, Suit::Hearts)).unwrap();
    round.play(2, card(Rank::Two, Suit::Hearts)).unwrap();
    round.play(3, card(Rank::Ace, Suit::Clubs)).unwrap();

    round.play(3, card(Rank::Queen, Suit::Spades)).unwrap();
    round.play(0, card(Rank::Three, Suit::Hearts)).unwrap();
    round.play(1, card(Rank::Seven, Suit::Hearts)).unwrap();
    round.play(2, card(Rank::Ten, Suit::Hearts)).unwrap();

    round.play(3, card(Rank::Ace, Suit::Hearts)).unwrap();
    round.play(0, card(Rank::Four, Suit::Hearts)).unwrap();
    round.play(1, card(Rank::Eight, Suit::Hearts)).unwrap();
    round.play(2, card(Rank::Jack, Suit::Hearts)).unwrap();

    round.play(3, card(Rank::King, Suit::Hearts)).unwrap();
    round.play(0, card(Rank::Five, Suit::Hearts)).unwrap();
    round.play(1, card(Rank::Nine, Suit::Hearts)).unwrap();
    round.play(2, card(Rank::Queen, Suit::Hearts)).unwrap();

    assert_eq!(round.get_turn(), None);
    assert_eq!(round.score(), [0, 0, 0, -26]);
}

#[test]
fn deal_covers_all_cards_without_overlap() {
    let mut deck = Deck::new();
    let hands = deck.deal(4, 13);

    assert_eq!(hands.len(), 4);
    for hand in &hands {
        assert_eq!(hand.len(), 13);
    }
    let mut all: Vec<Card> = Vec::new();
    for hand in &hands {
        for c in hand {
            all.push(c.clone());
        }
    }
    assert_eq!(all.len(), 52);
    for i in 0..all.len() {
        for j in 0..i {
            assert!(all[i] != all[j]);
        }
    }

    // the deck is drained: a second deal hands out nothing
    let leftovers = deck.deal(4, 13);
    for hand in &leftovers {
        assert_eq!(hand.len(), 0);
    }
}

#[test]
fn fresh_game_starts_with_the_two_of_clubs() {
    let (game, turn) = Game::new();
    let hands = game.get_hands();
    assert_eq!(hands.len(), 4);
    for hand in &hands {
        assert_eq!(hand.len(), 13);
    }
    match turn {
        Turn::PlayCard(player_id, choices) => {
            assert_eq!(choices, vec![card(Rank::Two, Suit::Clubs)]);
            assert!(hands[player_id].contains(&card(Rank::Two, Suit::Clubs)));
        }
        other => panic!("unexpected turn: {:?}", other),
    }
}

#[test]
fn game_plays_a_round_to_its_end() {
    let (mut game, mut turn) = Game::new();
    let mut plays = 0;
    loop {
        match turn {
            Turn::PlayCard(player_id, choices) => {
                plays += 1;
                assert!(plays <= 52);
                turn = game.play(player_id, choices[0].clone()).unwrap();
            }
            Turn::RoundEnd(scores) => {
                assert_eq!(plays, 52);
                let total: i32 = scores.iter().map(|s| *s as i32).sum();
                assert!(total == 26 || total == -26);
                break;
            }
            other => panic!("unexpected turn: {:?}", other),
        }
    }
}
