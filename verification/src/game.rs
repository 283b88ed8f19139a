//! A thin game layer over the round engine: it surfaces whose turn it is
//! with their legal plays, and folds a finished round's points into a
//! running score.

use vstd::prelude::*;
use crate::cards::Card;
use crate::round::{PlayerId, Round, RoundError};

verus! {

/// One game of Hearts; it currently runs a single round.
#[derive(Debug)]
pub struct Game {
    score: [i8; 4],
    round: usize,
    current_round: Round,
}

/// What a player can submit on their turn.
#[derive(Debug)]
pub enum Move {
    Play(Card),
}

/// What the game expects next.
#[derive(Debug)]
pub enum Turn {
    /// The player must pick one of these cards.
    PlayCard(PlayerId, Vec<Card>),
    /// The player must pass a card (no round implements this yet).
    PassCard(PlayerId, Direction),
    /// The round is over, with these per-player scores.
    RoundEnd([i8; 4]),
    /// The game is over, with these totals.
    GameEnd([i8; 4]),
}

/// Where a passed card would go.
#[derive(Debug)]
pub enum Direction {
    Clockwise,
    Counterclockwise,
    Across,
}

impl Game {
    /// The round currently being played.
    pub closed spec fn spec_round(&self) -> Round {
        self.current_round
    }

    /// The running per-player score.
    pub closed spec fn spec_scores(&self) -> Seq<i8> {
        self.score@
    }

    /// The game's invariant: the round is well formed, and no points are
    /// banked while it is still being played.
    pub open spec fn wf(&self) -> bool {
        &&& self.spec_round().wf()
        &&& (!self.spec_round().spec_complete() ==> forall|q: int|
            0 <= q < 4 ==> #[trigger] self.spec_scores()[q] as int == 0)
    }

    /// A fresh game over a newly dealt round, together with the first
    /// turn: the holder of the Two of Clubs must play it.
    pub fn new() -> (result: (Game, Turn))
        ensures
            result.0.wf(),
            !result.0.spec_round().spec_complete(),
            match result.1 {
                Turn::PlayCard(pid, choices) => pid as int
                    == result.0.spec_round().spec_turn_player()
                    && choices@ == result.0.spec_round().spec_valid_plays(pid as int),
                _ => false,
            },
    {
        let round: usize = 1;
        let mut game = Game {
            score: [0, 0, 0, 0],
            round,
            current_round: Round::new(),
        };
        let turn = game.next_turn();
        proof {
            assert(!game.spec_round().spec_complete());
        }
        (game, turn)
    }

    /// Submit a card for `player_id`; a rejected play leaves everything
    /// unchanged, an accepted one advances the round and reports the next
    /// turn, or the scores once the round is done.
    pub fn play(&mut self, player_id: PlayerId, card: Card) -> (result: Result<Turn, RoundError>)
        requires
            old(self).wf(),
        ensures
            final(self).wf(),
            final(self).spec_round().conserved() == old(self).spec_round().conserved(),
            ({
                let r0 = old(self).spec_round();
                let rn = final(self).spec_round();
                let pid = player_id as int;
                let turn_ok = !r0.spec_complete() && r0.spec_turn_player() == pid;
                let legal = r0.spec_valid_plays(pid).contains(card);
                let pc = (crate::round::PlayedCard { card: card, player_id: player_id });
                let t = r0.spec_in_play().push(pc);
                &&& (!turn_ok ==> result
                    == Result::<Turn, RoundError>::Err(RoundError::OutOfTurn(player_id))
                    && rn.spec_same_state(r0))
                &&& (turn_ok && !legal ==> result
                    == Result::<Turn, RoundError>::Err(
                        RoundError::IllegalCard(player_id, card))
                    && rn.spec_same_state(r0))
                &&& (turn_ok && legal && r0.spec_in_play().len() < 3 ==> rn.spec_appends(r0, pc))
                &&& (turn_ok && legal && r0.spec_in_play().len() == 3 ==> rn.spec_resolves(r0, t))
                &&& (turn_ok && legal ==> match result {
                    Result::Ok(turn) => match turn {
                        Turn::PlayCard(next, choices) => !rn.spec_complete()
                            && next as int == rn.spec_turn_player()
                            && choices@ == rn.spec_valid_plays(next as int),
                        Turn::RoundEnd(points) => rn.spec_complete()
                            && (forall|q: int|
                                0 <= q < 4 ==> #[trigger] points@[q] as int == rn.spec_score(q)),
                        _ => false,
                    },
                    Result::Err(_) => false,
                })
            }),
    {
        let outcome = self.current_round.play(player_id, card);
        match outcome {
            Ok(()) => {
                proof {
                    assert(!old(self).spec_round().spec_complete());
                    assert(self.spec_scores() == old(self).spec_scores());
                    assert forall|q: int| 0 <= q < 4
                        implies #[trigger] self.spec_scores()[q] as int == 0 by {
                        assert(old(self).spec_scores()[q] as int == 0);
                    }
                    assert(self.wf());
                }
                Ok(self.next_turn())
            },
            Err(e) => {
                proof {
                    assert(self.spec_scores() == old(self).spec_scores());
                    assert forall|q: int| 0 <= q < 4
                        implies #[trigger] self.spec_round().spec_hand(q)
                            == old(self).spec_round().spec_hand(q) by {}
                    assert(self.spec_round().spec_complete()
                        == old(self).spec_round().spec_complete());
                    assert(self.wf());
                }
                Err(e)
            },
        }
    }

    /// Read-only views of all four hands.
    pub fn get_hands(&self) -> (hands: Vec<&Vec<Card>>)
        requires
            self.wf(),
        ensures
            hands@.len() == 4,
            forall|q: int|
                0 <= q < 4 ==> (#[trigger] hands@[q])@ == self.spec_round().spec_hand(q),
    {
        let mut hands: Vec<&Vec<Card>> = Vec::new();
        hands.push(self.current_round.get_player_cards(0));
        hands.push(self.current_round.get_player_cards(1));
        hands.push(self.current_round.get_player_cards(2));
        hands.push(self.current_round.get_player_cards(3));
        hands
    }

    /// What happens next: the player to act with their legal plays, or the
    /// round's scores once every card has been played.
    fn next_turn(&mut self) -> (turn: Turn)
        requires
            old(self).wf(),
            old(self).spec_round().spec_complete() ==> forall|q: int|
                0 <= q < 4 ==> #[trigger] old(self).spec_scores()[q] as int == 0,
        ensures
            final(self).wf(),
            final(self).spec_round() == old(self).spec_round(),
            match turn {
                Turn::PlayCard(pid, choices) => !old(self).spec_round().spec_complete()
                    && pid as int == old(self).spec_round().spec_turn_player()
                    && choices@ == old(self).spec_round().spec_valid_plays(pid as int)
                    && final(self).spec_scores() == old(self).spec_scores(),
                Turn::RoundEnd(points) => old(self).spec_round().spec_complete()
                    && (forall|q: int|
                        0 <= q < 4 ==> #[trigger] points@[q] as int
                            == old(self).spec_round().spec_score(q)),
                _ => false,
            },
    {
        match self.current_round.get_turn() {
            None => {
                let points = self.current_round.score();
                proof {
                    self.current_round.lemma_player_points_bounded(0);
                    self.current_round.lemma_player_points_bounded(1);
                    self.current_round.lemma_player_points_bounded(2);
                    self.current_round.lemma_player_points_bounded(3);
                    assert forall|q: int| 0 <= q < 4
                        implies -26 <= #[trigger] points@[q] as int <= 26 by {
                        assert(points@[q] as int == self.spec_round().spec_score(q));
                    }
                    assert(self.spec_scores()[0] as int == 0
                        && self.spec_scores()[1] as int == 0
                        && self.spec_scores()[2] as int == 0
                        && self.spec_scores()[3] as int == 0);
                    assert(points@[0] == points[0] && points@[1] == points[1]
                        && points@[2] == points[2] && points@[3] == points[3]);
                }
                self.score = [
                    self.score[0] + points[0],
                    self.score[1] + points[1],
                    self.score[2] + points[2],
                    self.score[3] + points[3],
                ];
                Turn::RoundEnd(points)
            },
            Some(player_id) => Turn::PlayCard(
                player_id,
                self.current_round.get_valid_plays(player_id),
            ),
        }
    }
}

} // verus!
