//! The round engine: the state machine for one hand of play. It tracks the
//! four hands, enforces per-turn legality, resolves tricks and tallies the
//! score.

use vstd::prelude::*;
use vstd::multiset::Multiset;
use crate::cards::{Card, Rank, Suit, Deck, rank_strength, rank_strength_of, full_deck,
    hands_mset, dealt_count, lemma_dealt_count_value, lemma_full_deck_counts,
    lemma_hands_mset_contains};

verus! {

broadcast use vstd::seq_lib::group_seq_properties, vstd::seq_lib::group_to_multiset_ensures, vstd::seq_lib::group_filter_ensures, vstd::seq::Seq::lemma_filter_contains_rev;

/// Index of one of the four players, always in `0..4` inside a well-formed
/// round.
pub type PlayerId = usize;

/// A card lying face-up in the current trick, together with who played it.
#[derive(Clone, Copy, Debug, PartialEq, Eq, Structural)]
pub struct PlayedCard {
    pub card: Card,
    pub player_id: PlayerId,
}

/// A completed trick: who led it and the four cards played, in play order.
#[derive(Debug)]
pub struct Trick {
    pub lead: PlayerId,
    pub played: Vec<PlayedCard>,
}

#[derive(Debug)]
struct Player {
    player_id: PlayerId,
    hand: Vec<Card>,
    tricks: Vec<Trick>,
}

/// The live state of one hand of play.
#[derive(Debug)]
pub struct Round {
    first_trick: bool,
    hearts_broken: bool,
    lead: PlayerId,
    in_play: Vec<PlayedCard>,
    players: Vec<Player>,
}

/// A rejected play. The round's state is unchanged whenever one of these
/// is returned.
#[derive(Clone, Copy, Debug, PartialEq, Eq, Structural)]
pub enum RoundError {
    /// The acting player is not the player whose turn it is.
    OutOfTurn(PlayerId),
    /// The submitted card is not among the player's legal plays right now.
    IllegalCard(PlayerId, Card),
}

/// The Two of Clubs, whose holder leads the first trick and must open
/// with it.
pub open spec fn two_clubs() -> Card {
    Card { rank: Rank::Two, suit: Suit::Clubs }
}

/// The Queen of Spades, worth thirteen points.
pub open spec fn queen_spades() -> Card {
    Card { rank: Rank::Queen, suit: Suit::Spades }
}

/// Executable value of `two_clubs`.
fn the_two_of_clubs() -> (c: Card)
    ensures
        c == two_clubs(),
{
    Card { rank: Rank::Two, suit: Suit::Clubs }
}

/// Executable value of `queen_spades`.
fn the_queen_of_spades() -> (c: Card)
    ensures
        c == queen_spades(),
{
    Card { rank: Rank::Queen, suit: Suit::Spades }
}

/// One legality step: keep the cards the rule allows, unless none
/// survives, in which case the whole hand stays legal (a card must always
/// exist to play).
pub open spec fn spec_limit(hand: Seq<Card>, p: spec_fn(Card) -> bool) -> Seq<Card> {
    if hand.filter(p).len() > 0 {
        hand.filter(p)
    } else {
        hand
    }
}

/// What the first-trick rule allows: no point card may be played on the
/// first trick.
pub open spec fn spec_point_allows(first_trick: bool, c: Card) -> bool {
    !(first_trick && is_point_card(c))
}

/// What the follow-suit rule asks for: a card of the led suit.
pub open spec fn spec_follows(led: Suit, c: Card) -> bool {
    c.suit == led
}

/// What may be led: anything but a Heart until hearts are broken.
pub open spec fn spec_lead_allows(hearts_broken: bool, c: Card) -> bool {
    c.suit != Suit::Hearts || hearts_broken
}

/// The first-trick point-card rule, as a predicate on cards.
pub open spec fn point_rule(first_trick: bool) -> spec_fn(Card) -> bool {
    |c: Card| spec_point_allows(first_trick, c)
}

/// The follow-suit rule, as a predicate on cards.
pub open spec fn follow_rule(led: Suit) -> spec_fn(Card) -> bool {
    |c: Card| spec_follows(led, c)
}

/// The hearts-unbroken lead rule, as a predicate on cards.
pub open spec fn lead_rule(hearts_broken: bool) -> spec_fn(Card) -> bool {
    |c: Card| spec_lead_allows(hearts_broken, c)
}

/// Among the first `n` plays of a trick, the index of the play that is
/// winning so far: the strongest card of the led suit, the earliest on the
/// (impossible) event of a tie.
pub open spec fn spec_winner_upto(t: Seq<PlayedCard>, n: int) -> int
    decreases n,
{
    if n <= 1 {
        0
    } else {
        let w = spec_winner_upto(t, n - 1);
        if t[n - 1].card.suit == t[0].card.suit && (t[w].card.suit != t[0].card.suit
            || rank_strength(t[n - 1].card.rank) > rank_strength(t[w].card.rank)) {
            n - 1
        } else {
            w
        }
    }
}

/// The index of the winning play of a completed trick.
pub open spec fn spec_winner_index(t: Seq<PlayedCard>) -> int {
    spec_winner_upto(t, t.len() as int)
}

/// The player who wins a completed trick.
pub open spec fn spec_trick_winner(t: Seq<PlayedCard>) -> int {
    t[spec_winner_index(t)].player_id as int
}

/// Whether any play of the trick was a Heart.
pub open spec fn trick_has_heart(t: Seq<PlayedCard>) -> bool {
    exists|i: int| 0 <= i < t.len() && (#[trigger] t[i]).card.suit == Suit::Hearts
}

/// The position within a trick at which player `q` plays, when `lead`
/// leads it.
pub open spec fn spec_trick_slot(q: int, lead: int) -> int {
    (q + 4 - lead) % 4
}

proof fn lemma_winner_upto(t: Seq<PlayedCard>, n: int)
    requires
        1 <= n <= t.len(),
    ensures
        ({
            let w = spec_winner_upto(t, n);
            &&& 0 <= w < n
            &&& t[w].card.suit == t[0].card.suit
            &&& forall|j: int|
                0 <= j < n && (#[trigger] t[j]).card.suit == t[0].card.suit
                    ==> rank_strength(t[j].card.rank) <= rank_strength(t[w].card.rank)
        }),
    decreases n,
{
    if n > 1 {
        lemma_winner_upto(t, n - 1);
    }
}

/// The winner of a trick always holds the strongest card among those that
/// followed the led suit, whatever the off-suit cards were.
pub proof fn lemma_trick_winner_is_highest(t: Seq<PlayedCard>)
    requires
        t.len() >= 1,
    ensures
        ({
            let w = spec_winner_index(t);
            &&& 0 <= w < t.len()
            &&& t[w].card.suit == t[0].card.suit
            &&& forall|j: int|
                0 <= j < t.len() && (#[trigger] t[j]).card.suit == t[0].card.suit
                    ==> rank_strength(t[j].card.rank) <= rank_strength(t[w].card.rank)
        }),
{
    lemma_winner_upto(t, t.len() as int);
}

/// Bounds and value of a remainder by four on a small dividend.
proof fn lemma_mod4_bounds(x: int)
    requires
        0 <= x < 8,
    ensures
        0 <= x % 4 < 4,
        x % 4 == if x < 4 { x } else { x - 4 },
{
    if x < 4 {
        vstd::arithmetic::div_mod::lemma_small_mod(x as nat, 4nat);
    } else {
        vstd::arithmetic::div_mod::lemma_mod_multiples_vanish(1, x - 4, 4);
        vstd::arithmetic::div_mod::lemma_small_mod((x - 4) as nat, 4nat);
    }
}

/// `spec_trick_slot(q, lead)` is the one position of the trick at which
/// player `q` plays.
proof fn lemma_slot_inverse(lead: int, q: int)
    requires
        0 <= lead < 4,
        0 <= q < 4,
    ensures
        0 <= spec_trick_slot(q, lead) < 4,
        (lead + spec_trick_slot(q, lead)) % 4 == q,
        forall|i: int| 0 <= i < 4 && #[trigger] ((lead + i) % 4) == q ==> i == spec_trick_slot(q, lead),
{
    lemma_mod4_bounds(q + 4 - lead);
    lemma_mod4_bounds(lead + spec_trick_slot(q, lead));
    assert forall|i: int| 0 <= i < 4 && #[trigger] ((lead + i) % 4) == q
        implies i == spec_trick_slot(q, lead) by {
        lemma_mod4_bounds(lead + i);
    }
}

/// A point card: any Heart, or the Queen of Spades.
pub open spec fn is_point_card(c: Card) -> bool {
    c.suit == Suit::Hearts || c == queen_spades()
}

/// The point value of a card: one per Heart, thirteen for the Queen of
/// Spades, nothing otherwise.
pub open spec fn spec_point_value(c: Card) -> int {
    if c.suit == Suit::Hearts {
        1
    } else if c == queen_spades() {
        13
    } else {
        0
    }
}

/// Just the cards of a sequence of plays, in the same order.
pub open spec fn cards_of(s: Seq<PlayedCard>) -> Seq<Card> {
    s.map_values(|pc: PlayedCard| pc.card)
}

/// All cards contained in a sequence of completed tricks, as a multiset.
pub open spec fn tricks_mset(ts: Seq<Trick>) -> Multiset<Card>
    decreases ts.len(),
{
    if ts.len() == 0 {
        Multiset::empty()
    } else {
        tricks_mset(ts.drop_last()).add(cards_of(ts.last().played@).to_multiset())
    }
}

/// Total point value of a sequence of cards.
pub open spec fn points_of(s: Seq<Card>) -> int
    decreases s.len(),
{
    if s.len() == 0 {
        0
    } else {
        points_of(s.drop_last()) + spec_point_value(s.last())
    }
}

/// Total point value of the cards in a sequence of completed tricks.
pub open spec fn points_of_tricks(ts: Seq<Trick>) -> int
    decreases ts.len(),
{
    if ts.len() == 0 {
        0
    } else {
        points_of_tricks(ts.drop_last()) + points_of(cards_of(ts.last().played@))
    }
}

/// The Heart of the given rank.
pub open spec fn heart(r: Rank) -> Card {
    Card { rank: r, suit: Suit::Hearts }
}

/// The points a multiset of cards is worth, counted card by card: one per
/// Heart it holds, thirteen per Queen of Spades.
pub open spec fn point_count(m: Multiset<Card>) -> int {
    m.count(heart(Rank::Two)) as int + m.count(heart(Rank::Three)) as int
        + m.count(heart(Rank::Four)) as int + m.count(heart(Rank::Five)) as int
        + m.count(heart(Rank::Six)) as int + m.count(heart(Rank::Seven)) as int
        + m.count(heart(Rank::Eight)) as int + m.count(heart(Rank::Nine)) as int
        + m.count(heart(Rank::Ten)) as int + m.count(heart(Rank::Jack)) as int
        + m.count(heart(Rank::Queen)) as int + m.count(heart(Rank::King)) as int
        + m.count(heart(Rank::Ace)) as int + 13 * m.count(queen_spades()) as int
}

/// Summing point values over a sequence is counting its point cards.
proof fn lemma_points_of_counts(s: Seq<Card>)
    ensures
        points_of(s) == point_count(s.to_multiset()),
    decreases s.len(),
{
    if s.len() == 0 {
        assert forall|c: Card| s.to_multiset().count(c) == 0 by {
            assert(!s.contains(c));
        }
    } else {
        let t = s.drop_last();
        let c = s.last();
        lemma_points_of_counts(t);
        assert(s =~= t.push(c));
        assert(s.to_multiset() == t.push(c).to_multiset());
        if c.suit == Suit::Hearts {
            assert(c == heart(c.rank));
        }
    }
}

/// `point_count` adds up over multiset union.
proof fn lemma_point_count_add(a: Multiset<Card>, b: Multiset<Card>)
    ensures
        point_count(a.add(b)) == point_count(a) + point_count(b),
{
}

/// Summing point values over completed tricks is counting their point
/// cards.
proof fn lemma_points_of_tricks_counts(ts: Seq<Trick>)
    ensures
        points_of_tricks(ts) == point_count(tricks_mset(ts)),
    decreases ts.len(),
{
    if ts.len() == 0 {
        assert forall|c: Card| tricks_mset(ts).count(c) == 0 by {}
    } else {
        lemma_points_of_tricks_counts(ts.drop_last());
        lemma_points_of_counts(cards_of(ts.last().played@));
        lemma_point_count_add(
            tricks_mset(ts.drop_last()),
            cards_of(ts.last().played@).to_multiset(),
        );
    }
}

/// A collection without duplicate cards is worth at most the 26 points of
/// the thirteen Hearts and the Queen of Spades.
proof fn lemma_point_count_bounds(m: Multiset<Card>)
    requires
        forall|c: Card| #[trigger] m.count(c) <= 1,
    ensures
        0 <= point_count(m) <= 26,
{
}

/// Every point value is nonnegative, so any card sequence is too.
proof fn lemma_points_of_nonneg(s: Seq<Card>)
    ensures
        0 <= points_of(s),
    decreases s.len(),
{
    if s.len() > 0 {
        lemma_points_of_nonneg(s.drop_last());
    }
}

/// A prefix of a card sequence is worth no more than the whole.
proof fn lemma_points_of_prefix(s: Seq<Card>, k: int)
    requires
        0 <= k <= s.len(),
    ensures
        points_of(s.take(k)) <= points_of(s),
    decreases s.len(),
{
    if k == s.len() {
        assert(s.take(k) =~= s);
    } else {
        assert(s.drop_last().take(k) =~= s.take(k));
        lemma_points_of_prefix(s.drop_last(), k);
    }
}

/// Nonnegativity, lifted to sequences of tricks.
proof fn lemma_points_of_tricks_nonneg(ts: Seq<Trick>)
    ensures
        0 <= points_of_tricks(ts),
    decreases ts.len(),
{
    if ts.len() > 0 {
        lemma_points_of_tricks_nonneg(ts.drop_last());
        lemma_points_of_nonneg(cards_of(ts.last().played@));
    }
}

/// A prefix of the tricks is worth no more than all of them.
proof fn lemma_points_of_tricks_prefix(ts: Seq<Trick>, k: int)
    requires
        0 <= k <= ts.len(),
    ensures
        points_of_tricks(ts.take(k)) <= points_of_tricks(ts),
    decreases ts.len(),
{
    if k == ts.len() {
        assert(ts.take(k) =~= ts);
    } else {
        assert(ts.drop_last().take(k) =~= ts.take(k));
        lemma_points_of_tricks_prefix(ts.drop_last(), k);
        lemma_points_of_nonneg(cards_of(ts.last().played@));
    }
}

impl Round {
    /// True while the round is still on its very first trick.
    pub closed spec fn spec_first_trick(&self) -> bool {
        self.first_trick
    }

    /// Whether any Hearts card has been played so far.
    pub closed spec fn spec_hearts_broken(&self) -> bool {
        self.hearts_broken
    }

    /// The player who leads (or led) the current trick.
    pub closed spec fn spec_lead(&self) -> int {
        self.lead as int
    }

    /// The cards currently face-up in the unfinished trick, in play order.
    pub closed spec fn spec_in_play(&self) -> Seq<PlayedCard> {
        self.in_play@
    }

    /// The hand still held by player `q`.
    pub closed spec fn spec_hand(&self, q: int) -> Seq<Card> {
        self.players@[q].hand@
    }

    /// The tricks player `q` has won so far, in the order they were won.
    pub closed spec fn spec_tricks(&self, q: int) -> Seq<Trick> {
        self.players@[q].tricks@
    }

    /// Every card still in the round: the four hands plus every completed
    /// trick. Cards of the unfinished trick still sit in their owners'
    /// hands, so they are already counted.
    pub open spec fn conserved(&self) -> Multiset<Card> {
        self.spec_hand(0).to_multiset()
            .add(self.spec_hand(1).to_multiset())
            .add(self.spec_hand(2).to_multiset())
            .add(self.spec_hand(3).to_multiset())
            .add(tricks_mset(self.spec_tricks(0)))
            .add(tricks_mset(self.spec_tricks(1)))
            .add(tricks_mset(self.spec_tricks(2)))
            .add(tricks_mset(self.spec_tricks(3)))
    }

    /// The round is over: every hand has been played out.
    pub open spec fn spec_complete(&self) -> bool {
        forall|q: int| 0 <= q < 4 ==> self.spec_hand(q).len() == 0
    }

    /// Whose turn it is, assuming the round is not complete: the leader if
    /// no card is face-up, otherwise the next player around the table.
    pub open spec fn spec_turn_player(&self) -> int {
        (self.spec_lead() + self.spec_in_play().len()) % 4
    }

    /// The internal invariant of a round. It holds from construction on and
    /// is preserved by every operation.
    pub open spec fn wf(&self) -> bool {
        &&& self.spec_players_len() == 4
        &&& forall|q: int| 0 <= q < 4 ==> self.spec_player_id(q) == q
        &&& 0 <= self.spec_lead() < 4
        &&& self.spec_in_play().len() <= 3
        &&& forall|i: int|
            0 <= i < self.spec_in_play().len()
                ==> (#[trigger] self.spec_in_play()[i]).player_id as int
                    == (self.spec_lead() + i) % 4
        &&& forall|i: int|
            0 <= i < self.spec_in_play().len()
                ==> self.spec_hand((#[trigger] self.spec_in_play()[i]).player_id as int)
                    .contains(self.spec_in_play()[i].card)
        &&& forall|q1: int, q2: int|
            0 <= q1 < 4 && 0 <= q2 < 4
                ==> #[trigger] self.spec_hand(q1).len() == #[trigger] self.spec_hand(q2).len()
        &&& forall|c: Card| #[trigger] self.conserved().count(c) <= 1
        &&& (self.spec_first_trick() && self.spec_in_play().len() == 0 && !self.spec_complete()
            ==> self.spec_hand(self.spec_lead()).contains(two_clubs()))
        &&& (self.spec_first_trick() && self.spec_in_play().len() > 0
            ==> self.spec_in_play()[0].card == two_clubs())
    }

    /// How many player slots the round has (always four when well formed).
    pub closed spec fn spec_players_len(&self) -> int {
        self.players@.len() as int
    }

    /// The identifier stored in player slot `q`.
    pub closed spec fn spec_player_id(&self, q: int) -> int {
        self.players@[q].player_id as int
    }

    /// `None` exactly when the round is complete; otherwise the player who
    /// must act next.
    pub fn get_turn(&self) -> (turn: Option<PlayerId>)
        requires
            self.wf(),
        ensures
            turn == (if self.spec_complete() {
                Option::<PlayerId>::None
            } else {
                Option::<PlayerId>::Some(self.spec_turn_player() as PlayerId)
            }),
            0 <= self.spec_turn_player() < 4,
    {
        proof {
            lemma_mod4_bounds(self.spec_lead() + self.spec_in_play().len());
        }
        if self.in_play.len() == 0 {
            if self.players[0].hand.len() == 0 {
                proof {
                    assert forall|q: int| 0 <= q < 4 implies self.spec_hand(q).len() == 0 by {
                        assert(self.spec_hand(q).len() == self.spec_hand(0).len());
                    }
                }
                return None;
            }
            proof {
                assert(self.spec_hand(0).len() != 0);
                assert(!self.spec_complete());
                assert(self.spec_turn_player() == self.spec_lead()) by {
                    assert(self.spec_lead() % 4 == self.spec_lead()) by {
                        vstd::arithmetic::div_mod::lemma_small_mod(
                            self.spec_lead() as nat, 4nat);
                    }
                }
            }
            return Some(self.lead);
        }
        proof {
            let i0 = self.spec_in_play()[0];
            assert(self.spec_hand(i0.player_id as int).contains(i0.card));
            assert(self.spec_hand(i0.player_id as int).len() > 0);
            assert(!self.spec_complete());
        }
        Some((self.lead + self.in_play.len()) % 4)
    }

    /// The subset of `player_id`'s hand that may legally be played right
    /// now. When leading: the Two of Clubs alone if held, otherwise any
    /// non-Heart unless hearts are broken or nothing else remains. When
    /// following: first the first-trick point-card restriction, then the
    /// follow-suit restriction, each falling back to the previous set when
    /// it would leave nothing.
    pub open spec fn spec_valid_plays(&self, p: int) -> Seq<Card> {
        let hand = self.spec_hand(p);
        if self.spec_in_play().len() > 0 {
            let ft = self.spec_first_trick();
            let led = self.spec_in_play()[0].card.suit;
            let narrowed = spec_limit(hand, point_rule(ft));
            spec_limit(narrowed, follow_rule(led))
        } else if hand.contains(two_clubs()) {
            seq![two_clubs()]
        } else {
            spec_limit(hand, lead_rule(self.spec_hearts_broken()))
        }
    }

    /// Executable form of `spec_valid_plays`.
    pub fn get_valid_plays(&self, player_id: PlayerId) -> (plays: Vec<Card>)
        requires
            self.wf(),
            player_id < 4,
        ensures
            plays@ == self.spec_valid_plays(player_id as int),
            self.spec_in_play().len() == 0
                && self.spec_hand(player_id as int).contains(two_clubs())
                ==> plays@ == seq![two_clubs()],
    {
        let hand = &self.players[player_id].hand;
        if self.in_play.len() > 0 {
            let ft = self.first_trick;
            let qs = the_queen_of_spades();
            let narrowed = limit_hand(
                hand,
                (move |c: Card| -> (b: bool)
                    ensures
                        b == spec_point_allows(ft, c),
                    {
                        !(ft && (c.is_suit(&Suit::Hearts) || c == qs))
                    }),
                Ghost(point_rule(ft)),
            );
            let led = self.in_play[0].card.suit;
            let plays = limit_hand(
                &narrowed,
                (move |c: Card| -> (b: bool)
                    ensures
                        b == spec_follows(led, c),
                    {
                        c.is_suit(&led)
                    }),
                Ghost(follow_rule(led)),
            );
            return plays;
        }
        if contains_card(hand, &the_two_of_clubs()) {
            let mut only: Vec<Card> = Vec::new();
            only.push(the_two_of_clubs());
            proof {
                assert(only@ =~= seq![two_clubs()]);
            }
            return only;
        }
        let hb = self.hearts_broken;
        limit_hand(
            hand,
            (move |c: Card| -> (b: bool)
                ensures
                    b == spec_lead_allows(hb, c),
                {
                    !c.is_suit(&Suit::Hearts) || hb
                }),
            Ghost(lead_rule(hb)),
        )
    }

    /// Which player's hand holds the given card, scanning players in
    /// order.
    fn find_in_hand(&self, card: &Card) -> (res: Option<PlayerId>)
        requires
            self.spec_players_len() == 4,
            forall|q: int| 0 <= q < 4 ==> self.spec_player_id(q) == q,
        ensures
            match res {
                Option::Some(p) => p < 4 && self.spec_hand(p as int).contains(*card)
                    && forall|q: int| 0 <= q < p ==> !self.spec_hand(q).contains(*card),
                Option::None => forall|q: int| 0 <= q < 4 ==> !self.spec_hand(q).contains(*card),
            },
    {
        let mut q: usize = 0;
        while q < 4
            invariant
                self.spec_players_len() == 4,
                forall|j: int| 0 <= j < 4 ==> self.spec_player_id(j) == j,
                q <= 4,
                forall|j: int| 0 <= j < q ==> !self.spec_hand(j).contains(*card),
            decreases 4 - q,
        {
            if contains_card(&self.players[q].hand, card) {
                proof {
                    assert(self.spec_player_id(q as int) == q as int);
                }
                return Some(self.players[q].player_id);
            }
            q = q + 1;
        }
        None
    }

    /// A fresh round over the given four hands. The holder of the Two of
    /// Clubs (unique, since no card is duplicated) leads the first trick.
    pub fn with_hands(hands: Vec<Vec<Card>>) -> (round: Round)
        requires
            hands@.len() == 4,
            forall|j: int, k: int|
                0 <= j < 4 && 0 <= k < 4
                    ==> #[trigger] hands@[j]@.len() == #[trigger] hands@[k]@.len(),
            exists|j: int| 0 <= j < 4 && (#[trigger] hands@[j])@.contains(two_clubs()),
            forall|c: Card| #[trigger] hands_mset(hands@).count(c) <= 1,
        ensures
            round.wf(),
            round.spec_first_trick(),
            !round.spec_hearts_broken(),
            round.spec_in_play().len() == 0,
            forall|q: int| 0 <= q < 4 ==> #[trigger] round.spec_hand(q) == hands@[q]@,
            forall|q: int| 0 <= q < 4 ==> (#[trigger] round.spec_tricks(q)).len() == 0,
            round.conserved() == hands_mset(hands@),
            round.spec_hand(round.spec_lead()).contains(two_clubs()),
            forall|q: int|
                0 <= q < 4 && #[trigger] round.spec_hand(q).contains(two_clubs())
                    ==> q == round.spec_lead(),
            !round.spec_complete(),
    {
        let ghost hands0 = hands@;
        let mut hands = hands;
        let h3 = hands.pop().unwrap();
        let h2 = hands.pop().unwrap();
        let h1 = hands.pop().unwrap();
        let h0 = hands.pop().unwrap();
        let mut players: Vec<Player> = Vec::new();
        players.push(Player { player_id: 0, hand: h0, tricks: Vec::new() });
        players.push(Player { player_id: 1, hand: h1, tricks: Vec::new() });
        players.push(Player { player_id: 2, hand: h2, tricks: Vec::new() });
        players.push(Player { player_id: 3, hand: h3, tricks: Vec::new() });
        let mut round = Round {
            first_trick: true,
            hearts_broken: false,
            lead: 0,
            in_play: Vec::new(),
            players,
        };
        proof {
            assert(forall|q: int| 0 <= q < 4 ==> #[trigger] round.spec_hand(q) == hands0[q]@);
            lemma_conserved_of_fresh(round, hands0);
        }
        let lead = match round.find_in_hand(&the_two_of_clubs()) {
            Some(l) => l,
            None => {
                proof {
                    let j = choose|j: int| 0 <= j < 4 && (#[trigger] hands0[j])@.contains(
                        two_clubs());
                    assert(round.spec_hand(j).contains(two_clubs()));
                    assert(false);
                }
                0
            },
        };
        round.lead = lead;
        proof {
            assert forall|q: int|
                0 <= q < 4 && #[trigger] round.spec_hand(q).contains(two_clubs())
                    implies q == round.spec_lead() by {
                if q != round.spec_lead() {
                    lemma_two_hands_two_counts(round, q, round.spec_lead(), two_clubs());
                }
            }
            assert(!round.spec_complete()) by {
                assert(round.spec_hand(round.spec_lead()).len() > 0);
            }
        }
        round
    }

    /// A fresh round over a newly shuffled and dealt deck.
    pub fn new() -> (round: Round)
        ensures
            round.wf(),
            round.spec_first_trick(),
            !round.spec_hearts_broken(),
            round.spec_in_play().len() == 0,
            forall|q: int| 0 <= q < 4 ==> #[trigger] round.spec_hand(q).len() == 13,
            forall|q: int| 0 <= q < 4 ==> (#[trigger] round.spec_tricks(q)).len() == 0,
            round.conserved() == full_deck().to_multiset(),
            round.spec_hand(round.spec_lead()).contains(two_clubs()),
            forall|q: int|
                0 <= q < 4 && #[trigger] round.spec_hand(q).contains(two_clubs())
                    ==> q == round.spec_lead(),
            !round.spec_complete(),
    {
        let mut deck = Deck::new();
        let ghost deck0 = deck@;
        let hands = deck.deal(4, 13);
        proof {
            lemma_full_deck_counts();
            assert forall|j: int| 0 <= j < 4 implies #[trigger] hands@[j]@.len() == 13 by {
                lemma_dealt_count_value(52, 4, j);
            }
            assert forall|c: Card| #[trigger] hands_mset(hands@).count(c)
                == full_deck().to_multiset().count(c) by {
                assert(deck@.len() == 0);
                assert(!deck@.contains(c));
                assert(deck@.to_multiset().count(c) == 0);
            }
            assert(hands_mset(hands@) =~= full_deck().to_multiset());
            assert(hands_mset(hands@).count(two_clubs()) > 0);
            lemma_hands_mset_contains(hands@, two_clubs());
        }
        Round::with_hands(hands)
    }

    /// The round did not change: every observable component is the same.
    pub open spec fn spec_same_state(&self, r: Round) -> bool {
        &&& self.spec_first_trick() == r.spec_first_trick()
        &&& self.spec_hearts_broken() == r.spec_hearts_broken()
        &&& self.spec_lead() == r.spec_lead()
        &&& self.spec_in_play() == r.spec_in_play()
        &&& self.spec_players_len() == r.spec_players_len()
        &&& forall|q: int| 0 <= q < 4 ==> #[trigger] self.spec_hand(q) == r.spec_hand(q)
        &&& forall|q: int| 0 <= q < 4 ==> #[trigger] self.spec_tricks(q) == r.spec_tricks(q)
    }

    /// An accepted play that does not yet complete the trick: the card is
    /// placed face-up and nothing else moves.
    pub open spec fn spec_appends(&self, r: Round, pc: PlayedCard) -> bool {
        &&& self.spec_first_trick() == r.spec_first_trick()
        &&& self.spec_hearts_broken() == r.spec_hearts_broken()
        &&& self.spec_lead() == r.spec_lead()
        &&& self.spec_in_play() == r.spec_in_play().push(pc)
        &&& self.spec_players_len() == r.spec_players_len()
        &&& forall|q: int| 0 <= q < 4 ==> #[trigger] self.spec_hand(q) == r.spec_hand(q)
        &&& forall|q: int| 0 <= q < 4 ==> #[trigger] self.spec_tricks(q) == r.spec_tricks(q)
    }

    /// A fourth accepted play resolved the trick `t`: the winner takes the
    /// lead and the trick, every played card leaves its owner's hand, a
    /// played Heart breaks hearts, and the table is cleared.
    pub open spec fn spec_resolves(&self, r: Round, t: Seq<PlayedCard>) -> bool {
        let w = spec_trick_winner(t);
        &&& self.spec_lead() == w
        &&& !self.spec_first_trick()
        &&& self.spec_hearts_broken() == (r.spec_hearts_broken() || trick_has_heart(t))
        &&& self.spec_in_play().len() == 0
        &&& self.spec_players_len() == r.spec_players_len()
        &&& forall|q: int|
            0 <= q < 4 ==> #[trigger] self.spec_hand(q)
                == r.spec_hand(q).remove_value(t[spec_trick_slot(q, r.spec_lead())].card)
        &&& self.spec_tricks(w).len() == r.spec_tricks(w).len() + 1
        &&& self.spec_tricks(w).drop_last() == r.spec_tricks(w)
        &&& self.spec_tricks(w).last().lead as int == r.spec_lead()
        &&& self.spec_tricks(w).last().played@ == t
        &&& forall|q: int|
            0 <= q < 4 && q != w ==> #[trigger] self.spec_tricks(q) == r.spec_tricks(q)
    }

    /// Submit a card for `player_id`. Rejected (with the state unchanged)
    /// when it is not that player's turn or the card is not among their
    /// legal plays; otherwise the card is placed face-up, and the fourth
    /// card of a trick resolves it.
    #[verifier::rlimit(100)]
    #[verifier::spinoff_prover]
    pub fn play(&mut self, player_id: PlayerId, card: Card) -> (result: Result<(), RoundError>)
        requires
            old(self).wf(),
        ensures
            final(self).wf(),
            old(self).spec_hearts_broken() ==> final(self).spec_hearts_broken(),
            final(self).conserved() == old(self).conserved(),
            ({
                let r = *old(self);
                let pid = player_id as int;
                let turn_ok = !r.spec_complete() && r.spec_turn_player() == pid;
                let legal = r.spec_valid_plays(pid).contains(card);
                let pc = (PlayedCard { card: card, player_id: player_id });
                let t = r.spec_in_play().push(pc);
                &&& (!turn_ok ==> result
                    == Result::<(), RoundError>::Err(RoundError::OutOfTurn(player_id))
                    && final(self).spec_same_state(r))
                &&& (turn_ok && !legal ==> result
                    == Result::<(), RoundError>::Err(RoundError::IllegalCard(player_id, card))
                    && final(self).spec_same_state(r))
                &&& (turn_ok && legal && r.spec_in_play().len() < 3 ==> result
                    == Result::<(), RoundError>::Ok(()) && final(self).spec_appends(r, pc))
                &&& (turn_ok && legal && r.spec_in_play().len() == 3 ==> result
                    == Result::<(), RoundError>::Ok(()) && final(self).spec_resolves(r, t))
            }),
    {
        let turn_matches = match self.get_turn() {
            None => false,
            Some(t) => t == player_id,
        };
        if !turn_matches {
            return Err(RoundError::OutOfTurn(player_id));
        }
        proof {
            lemma_mod4_bounds(old(self).spec_lead() + old(self).spec_in_play().len());
            assert(player_id as int == old(self).spec_turn_player());
        }
        let choices = self.get_valid_plays(player_id);
        if !contains_card(&choices, &card) {
            return Err(RoundError::IllegalCard(player_id, card));
        }
        proof {
            lemma_valid_plays_subset(*self, player_id as int, card);
        }
        let pc = PlayedCard { card: card, player_id: player_id };
        self.in_play.push(pc);
        let ghost r0 = *old(self);
        let ghost t = self.in_play@;
        if self.in_play.len() < 4 {
            proof {
                assert forall|i: int| 0 <= i < self.spec_in_play().len()
                    implies (#[trigger] self.spec_in_play()[i]).player_id as int
                        == (self.spec_lead() + i) % 4 by {
                    if i < r0.spec_in_play().len() {
                        assert(self.spec_in_play()[i] == r0.spec_in_play()[i]);
                    }
                }
                assert(self.spec_players_len() == r0.spec_players_len());
                assert forall|q: int| 0 <= q < 4
                    implies #[trigger] self.spec_hand(q) == r0.spec_hand(q)
                        && self.spec_tricks(q) == r0.spec_tricks(q)
                        && self.spec_player_id(q) == r0.spec_player_id(q) by {}
                assert(self.conserved() == r0.conserved());
                assert(self.wf());
            }
            return Ok(());
        }

        // the fourth card completes the trick
        proof {
            assert(t.len() == 4);
            assert forall|i: int| 0 <= i < 4
                implies (#[trigger] t[i]).player_id as int == (r0.spec_lead() + i) % 4 by {
                if i < 3 {
                    assert(t[i] == r0.spec_in_play()[i]);
                }
            }
            lemma_trick_winner_is_highest(t);
            lemma_mod4_bounds(r0.spec_lead() + spec_winner_index(t));
            assert(0 <= spec_trick_winner(t) < 4);
            lemma_slot_inverse(r0.spec_lead(), 0);
            lemma_slot_inverse(r0.spec_lead(), 1);
            lemma_slot_inverse(r0.spec_lead(), 2);
            lemma_slot_inverse(r0.spec_lead(), 3);
            // each player's card of the trick is in that player's hand
            assert forall|q: int| 0 <= q < 4
                implies self.spec_hand(q).contains(
                    t[#[trigger] spec_trick_slot(q, r0.spec_lead())].card) by {
                let i = spec_trick_slot(q, r0.spec_lead());
                assert(t[i].player_id as int == q);
                if i < 3 {
                    assert(t[i] == r0.spec_in_play()[i]);
                }
            }
        }
        proof {
            assert forall|q: int| 0 <= q < 4 implies self.spec_player_id(q) == q by {
                assert(r0.spec_player_id(q) == q);
            }
        }
        self.resolve_trick();
        proof {
            assert forall|q: int| 0 <= q < 4 implies self.spec_player_id(q) == q by {
                assert(r0.spec_player_id(q) == q);
            }
            assert(self.spec_resolves(r0, t));
            lemma_resolved_wf(*self, r0, t);
        }
        Ok(())
    }

    /// Resolve the trick lying on the table: the winner takes the lead and
    /// the trick, every played card leaves its owner's hand, a played
    /// Heart breaks hearts, and the table is cleared.
    #[verifier::rlimit(100)]
    #[verifier::spinoff_prover]
    fn resolve_trick(&mut self)
        requires
            old(self).spec_players_len() == 4,
            forall|q: int| 0 <= q < 4 ==> old(self).spec_player_id(q) == q,
            0 <= old(self).spec_lead() < 4,
            old(self).spec_in_play().len() == 4,
            0 <= spec_trick_winner(old(self).spec_in_play()) < 4,
            forall|q: int|
                0 <= q < 4 ==> old(self).spec_hand(q).contains(
                    old(self).spec_in_play()[
                        #[trigger] spec_trick_slot(q, old(self).spec_lead())].card),
        ensures
            ({
                let t = old(self).spec_in_play();
                let w = spec_trick_winner(t);
                &&& final(self).spec_players_len() == 4
                &&& forall|q: int| 0 <= q < 4 ==> final(self).spec_player_id(q)
                    == old(self).spec_player_id(q)
                &&& final(self).spec_lead() == w
                &&& !final(self).spec_first_trick()
                &&& final(self).spec_hearts_broken()
                    == (old(self).spec_hearts_broken() || trick_has_heart(t))
                &&& final(self).spec_in_play().len() == 0
                &&& forall|q: int|
                    0 <= q < 4 ==> #[trigger] final(self).spec_hand(q)
                        == old(self).spec_hand(q).remove_value(
                            t[spec_trick_slot(q, old(self).spec_lead())].card)
                &&& final(self).spec_tricks(w).len() == old(self).spec_tricks(w).len() + 1
                &&& final(self).spec_tricks(w).drop_last() == old(self).spec_tricks(w)
                &&& final(self).spec_tricks(w).last().lead as int == old(self).spec_lead()
                &&& final(self).spec_tricks(w).last().played@ == t
                &&& forall|q: int|
                    0 <= q < 4 && q != w ==> #[trigger] final(self).spec_tricks(q)
                        == old(self).spec_tricks(q)
            }),
    {
        let ghost t = self.in_play@;
        let winner = trick_winner(&self.in_play);
        let trick_leader = self.lead;
        self.lead = winner;
        self.first_trick = false;
        if self.in_play[0].card.is_suit(&Suit::Hearts)
            || self.in_play[1].card.is_suit(&Suit::Hearts)
            || self.in_play[2].card.is_suit(&Suit::Hearts)
            || self.in_play[3].card.is_suit(&Suit::Hearts) {
            self.hearts_broken = true;
        }
        let mut p3 = self.players.pop().unwrap();
        let mut p2 = self.players.pop().unwrap();
        let mut p1 = self.players.pop().unwrap();
        let mut p0 = self.players.pop().unwrap();

        let s0 = (0 + 4 - trick_leader) % 4;
        let c0 = self.in_play[s0].card;
        remove_first_card(&mut p0.hand, &c0);
        let s1 = (1 + 4 - trick_leader) % 4;
        let c1 = self.in_play[s1].card;
        remove_first_card(&mut p1.hand, &c1);
        let s2 = (2 + 4 - trick_leader) % 4;
        let c2 = self.in_play[s2].card;
        remove_first_card(&mut p2.hand, &c2);
        let s3 = (3 + 4 - trick_leader) % 4;
        let c3 = self.in_play[s3].card;
        remove_first_card(&mut p3.hand, &c3);

        let taken = Trick { lead: trick_leader, played: copy_played(&self.in_play) };
        if winner == 0 {
            p0.tricks.push(taken);
        } else if winner == 1 {
            p1.tricks.push(taken);
        } else if winner == 2 {
            p2.tricks.push(taken);
        } else {
            p3.tricks.push(taken);
        }
        self.in_play.clear();
        self.players.push(p0);
        self.players.push(p1);
        self.players.push(p2);
        self.players.push(p3);
        proof {
            assert(winner as int == spec_trick_winner(t));
            assert(self.spec_tricks(spec_trick_winner(t)).drop_last()
                =~= old(self).spec_tricks(spec_trick_winner(t)));
        }
    }

    /// The points player `q` has taken so far.
    pub open spec fn spec_player_points(&self, q: int) -> int {
        points_of_tricks(self.spec_tricks(q))
    }

    /// The score of player `q` once the round is over: the points taken,
    /// negated to -26 when the player shot the moon.
    pub open spec fn spec_score(&self, q: int) -> int {
        if self.spec_player_points(q) == 26 {
            -26
        } else {
            self.spec_player_points(q)
        }
    }

    /// In a well-formed round nobody can hold more than all 26 points.
    pub proof fn lemma_player_points_bounded(&self, q: int)
        requires
            self.wf(),
            0 <= q < 4,
        ensures
            0 <= self.spec_player_points(q) <= 26,
    {
        lemma_points_of_tricks_counts(self.spec_tricks(q));
        let m = tricks_mset(self.spec_tricks(q));
        assert forall|c: Card| #[trigger] m.count(c) <= 1 by {
            assert(self.conserved().count(c) <= 1);
        }
        lemma_point_count_bounds(m);
    }

    /// Per-player scores of the round: the point values of all cards in
    /// each player's tricks, a total of 26 turning into -26.
    pub fn score(&self) -> (scores: [i8; 4])
        requires
            self.wf(),
        ensures
            forall|q: int| 0 <= q < 4 ==> #[trigger] scores@[q] as int == self.spec_score(q),
    {
        proof {
            self.lemma_player_points_bounded(0);
            self.lemma_player_points_bounded(1);
            self.lemma_player_points_bounded(2);
            self.lemma_player_points_bounded(3);
        }
        let s0 = score_hand(&self.players[0].tricks);
        let s1 = score_hand(&self.players[1].tricks);
        let s2 = score_hand(&self.players[2].tricks);
        let s3 = score_hand(&self.players[3].tricks);
        let scores = [s0, s1, s2, s3];
        proof {
            assert(scores@[0] == s0 && scores@[1] == s1 && scores@[2] == s2
                && scores@[3] == s3);
        }
        scores
    }

    /// Read-only view of a player's remaining hand.
    pub fn get_player_cards<'a>(self: &'a Self, player: PlayerId) -> (hand: &'a Vec<Card>)
        requires
            self.wf(),
            player < 4,
        ensures
            hand@ == self.spec_hand(player as int),
    {
        &self.players[player].hand
    }
}

/// The point value of one card.
fn point_value(card: &Card) -> (v: i8)
    ensures
        v as int == spec_point_value(*card),
{
    if card.is_suit(&Suit::Hearts) {
        1
    } else if card.is_suit(&Suit::Spades) && card.has_rank(&Rank::Queen) {
        13
    } else {
        0
    }
}

/// The score one player's tricks are worth: the sum of the point values,
/// negated to -26 when it is the full 26.
fn score_hand(tricks: &Vec<Trick>) -> (score: i8)
    requires
        0 <= points_of_tricks(tricks@) <= 26,
    ensures
        score as int == (if points_of_tricks(tricks@) == 26 {
            -26int
        } else {
            points_of_tricks(tricks@)
        }),
{
    let mut score: i8 = 0;
    let mut j: usize = 0;
    while j < tricks.len()
        invariant
            0 <= points_of_tricks(tricks@) <= 26,
            j <= tricks@.len(),
            score as int == points_of_tricks(tricks@.take(j as int)),
            0 <= score as int <= 26,
        decreases tricks@.len() - j,
    {
        let played = &tricks[j].played;
        let ghost cards = cards_of(played@);
        let mut i: usize = 0;
        proof {
            lemma_points_of_tricks_prefix(tricks@, j + 1);
            assert(tricks@.take(j + 1).drop_last() =~= tricks@.take(j as int));
            assert(tricks@.take(j + 1).last() == tricks@[j as int]);
            lemma_points_of_nonneg(cards);
        }
        while i < played.len()
            invariant
                i <= played@.len(),
                cards == cards_of(played@),
                cards.len() == played@.len(),
                score as int == points_of_tricks(tricks@.take(j as int))
                    + points_of(cards.take(i as int)),
                points_of_tricks(tricks@.take(j as int)) + points_of(cards) <= 26,
                0 <= points_of_tricks(tricks@.take(j as int)),
                0 <= score as int <= 26,
            decreases played@.len() - i,
        {
            let v = point_value(&played[i].card);
            proof {
                assert(cards.take(i + 1).drop_last() =~= cards.take(i as int));
                assert(cards.take(i + 1).last() == cards[i as int]);
                assert(cards[i as int] == played@[i as int].card);
                lemma_points_of_nonneg(cards.take(i as int));
                lemma_points_of_prefix(cards, i + 1);
                lemma_points_of_nonneg(cards.take(i + 1));
            }
            score = score + v;
            i = i + 1;
        }
        proof {
            assert(cards.take(cards.len() as int) =~= cards);
            assert(points_of_tricks(tricks@.take(j + 1))
                == points_of_tricks(tricks@.take(j as int)) + points_of(cards));
        }
        j = j + 1;
    }
    proof {
        assert(tricks@.take(tricks@.len() as int) =~= tricks@);
        lemma_points_of_tricks_nonneg(tricks@);
    }
    if score == 26 {
        return -26;
    }
    score
}

/// On the first trick a follower who still holds some card that is not a
/// point card may play no point card; a follower holding nothing but
/// point cards may play their whole hand.
pub proof fn lemma_first_trick_point_restriction(r: Round, p: int)
    requires
        r.wf(),
        0 <= p < 4,
        r.spec_first_trick(),
        r.spec_in_play().len() > 0,
    ensures
        (exists|i: int|
            0 <= i < r.spec_hand(p).len() && !is_point_card(#[trigger] r.spec_hand(p)[i]))
            ==> forall|j: int|
                0 <= j < r.spec_valid_plays(p).len()
                    ==> !is_point_card(#[trigger] r.spec_valid_plays(p)[j]),
        (forall|i: int|
            0 <= i < r.spec_hand(p).len() ==> is_point_card(#[trigger] r.spec_hand(p)[i]))
            ==> r.spec_valid_plays(p) == r.spec_hand(p),
{
    let hand = r.spec_hand(p);
    let ft = r.spec_first_trick();
    let led = r.spec_in_play()[0].card.suit;
    let narrowed = spec_limit(hand, point_rule(ft));
    let valid = r.spec_valid_plays(p);
    assert(r.spec_in_play()[0].card == two_clubs());
    assert(led == Suit::Clubs);
    if exists|i: int|
        0 <= i < hand.len() && !is_point_card(#[trigger] hand[i]) {
        let i = choose|i: int| 0 <= i < hand.len() && !is_point_card(#[trigger] hand[i]);
        assert(point_rule(ft)(hand[i]));
        assert(hand.filter(point_rule(ft)).contains(hand[i]));
        assert(narrowed == hand.filter(point_rule(ft)));
        assert forall|j: int| 0 <= j < valid.len()
            implies !is_point_card(#[trigger] valid[j]) by {
            let c = valid[j];
            assert(valid.contains(c));
            if narrowed.filter(follow_rule(led)).len() > 0 {
                assert(narrowed.filter(follow_rule(led)).contains(c));
            }
            assert(narrowed.contains(c));
            let k = choose|k: int| 0 <= k < narrowed.len() && narrowed[k] == c;
            assert(point_rule(ft)(narrowed[k]));
        }
    }
    if forall|i: int| 0 <= i < hand.len() ==> is_point_card(#[trigger] hand[i]) {
        assert forall|i: int| 0 <= i < hand.len() implies !point_rule(ft)(#[trigger] hand[i]) by {
            assert(is_point_card(hand[i]));
        }
        hand.lemma_all_neg_filter_empty(point_rule(ft));
        assert(narrowed == hand);
        assert forall|i: int| 0 <= i < hand.len()
            implies !follow_rule(led)(#[trigger] hand[i]) by {
            assert(is_point_card(hand[i]));
            assert(hand[i].suit != Suit::Clubs);
        }
        hand.lemma_all_neg_filter_empty(follow_rule(led));
        assert(valid == hand);
    }
}

/// A follower void in the led suit may play their whole hand as the
/// point-card rule leaves it, not just cards matching the suit.
pub proof fn lemma_void_follows_whole_hand(r: Round, p: int)
    requires
        0 <= p < 4,
        r.spec_in_play().len() > 0,
        forall|i: int|
            0 <= i < spec_limit(r.spec_hand(p), point_rule(r.spec_first_trick())).len()
                ==> (#[trigger] spec_limit(r.spec_hand(p),
                    point_rule(r.spec_first_trick()))[i]).suit
                    != r.spec_in_play()[0].card.suit,
    ensures
        r.spec_valid_plays(p) == spec_limit(r.spec_hand(p), point_rule(r.spec_first_trick())),
{
    let led = r.spec_in_play()[0].card.suit;
    let narrowed = spec_limit(r.spec_hand(p), point_rule(r.spec_first_trick()));
    assert forall|i: int| 0 <= i < narrowed.len()
        implies !follow_rule(led)(#[trigger] narrowed[i]) by {
        assert(narrowed[i].suit != led);
    }
    narrowed.lemma_all_neg_filter_empty(follow_rule(led));
}

/// Winning every one of the 26 points scores -26 for that player and
/// leaves nothing for anyone else.
pub proof fn lemma_shooting_the_moon(r: Round, p: int)
    requires
        r.wf(),
        0 <= p < 4,
        r.spec_player_points(p) == 26,
    ensures
        r.spec_score(p) == -26,
        forall|q: int| 0 <= q < 4 && q != p ==> r.spec_score(q) == 0,
{
    lemma_points_of_tricks_counts(r.spec_tricks(p));
    let mp = tricks_mset(r.spec_tricks(p));
    assert forall|q: int| 0 <= q < 4 && q != p implies r.spec_score(q) == 0 by {
        lemma_points_of_tricks_counts(r.spec_tricks(q));
        let mq = tricks_mset(r.spec_tricks(q));
        assert forall|x: Card| #[trigger] mq.count(x) + mp.count(x) <= 1 by {
            assert(r.conserved().count(x) <= 1);
        }
        assert(point_count(mq) == 0);
    }
}

/// Whether a hand holds the given card.
fn contains_card(hand: &Vec<Card>, card: &Card) -> (found: bool)
    ensures
        found == hand@.contains(*card),
{
    let mut i: usize = 0;
    while i < hand.len()
        invariant
            i <= hand@.len(),
            forall|k: int| 0 <= k < i ==> hand@[k] != *card,
        decreases hand@.len() - i,
    {
        if hand[i].is_suit(&card.suit) && hand[i].has_rank(&card.rank) {
            proof {
                assert(hand@[i as int] == *card);
            }
            return true;
        }
        i = i + 1;
    }
    false
}

/// Copy of a hand, preserving order.
fn clone_cards(hand: &Vec<Card>) -> (res: Vec<Card>)
    ensures
        res@ == hand@,
{
    let mut res: Vec<Card> = Vec::new();
    let mut i: usize = 0;
    while i < hand.len()
        invariant
            i <= hand@.len(),
            res@ == hand@.take(i as int),
        decreases hand@.len() - i,
    {
        res.push(hand[i]);
        proof {
            assert(res@ =~= hand@.take(i + 1));
        }
        i = i + 1;
    }
    proof {
        assert(res@ =~= hand@);
    }
    res
}

/// Keep the cards of `hand` that `f` accepts, in order; hand the whole
/// hand back if none survives. `p` is what `f` decides.
fn limit_hand<F: Fn(Card) -> bool>(
    hand: &Vec<Card>,
    f: F,
    Ghost(p): Ghost<spec_fn(Card) -> bool>,
) -> (res: Vec<Card>)
    requires
        forall|c: Card| #[trigger] f.requires((c,)),
        forall|c: Card, b: bool| #[trigger] f.ensures((c,), b) ==> b == p(c),
    ensures
        res@ == spec_limit(hand@, p),
{
    let mut kept: Vec<Card> = Vec::new();
    let mut i: usize = 0;
    while i < hand.len()
        invariant
            i <= hand@.len(),
            kept@ == hand@.take(i as int).filter(p),
            forall|c: Card| #[trigger] f.requires((c,)),
            forall|c: Card, b: bool| #[trigger] f.ensures((c,), b) ==> b == p(c),
        decreases hand@.len() - i,
    {
        let c = hand[i];
        let keep = f(c);
        if keep {
            kept.push(c);
        }
        proof {
            reveal(Seq::filter);
            assert(hand@.take(i + 1).drop_last() =~= hand@.take(i as int));
            assert(hand@.take(i + 1).last() == hand@[i as int]);
            assert(kept@ == hand@.take(i + 1).filter(p));
        }
        i = i + 1;
    }
    proof {
        assert(hand@.take(hand@.len() as int) =~= hand@);
    }
    if kept.len() > 0 {
        kept
    } else {
        clone_cards(hand)
    }
}

/// The cards of a completed trick, as a multiset, are the four cards the
/// players contributed, whoever led.
#[verifier::spinoff_prover]
proof fn lemma_trick_cards_mset(t: Seq<PlayedCard>, lead: int)
    requires
        t.len() == 4,
        0 <= lead < 4,
    ensures
        cards_of(t).to_multiset() == Multiset::<Card>::empty()
            .insert(t[spec_trick_slot(0, lead)].card)
            .insert(t[spec_trick_slot(1, lead)].card)
            .insert(t[spec_trick_slot(2, lead)].card)
            .insert(t[spec_trick_slot(3, lead)].card),
{
    lemma_mod4_bounds(0 + 4 - lead);
    lemma_mod4_bounds(1 + 4 - lead);
    lemma_mod4_bounds(2 + 4 - lead);
    lemma_mod4_bounds(3 + 4 - lead);
    assert(cards_of(t) =~= Seq::<Card>::empty().push(t[0].card).push(t[1].card)
        .push(t[2].card).push(t[3].card));
    assert forall|x: Card| !Seq::<Card>::empty().contains(x)
        implies Seq::<Card>::empty().to_multiset().count(x) == 0 by {}
    assert(cards_of(t).to_multiset() =~= Multiset::<Card>::empty()
        .insert(t[spec_trick_slot(0, lead)].card)
        .insert(t[spec_trick_slot(1, lead)].card)
        .insert(t[spec_trick_slot(2, lead)].card)
        .insert(t[spec_trick_slot(3, lead)].card));
}

/// Resolving a trick conserves the round's multiset of cards: each hand
/// loses exactly the card it contributed and the winner's tricks gain all
/// four.
#[verifier::rlimit(100)]
#[verifier::spinoff_prover]
proof fn lemma_resolution_conserved(new: Round, r0: Round, t: Seq<PlayedCard>)
    requires
        r0.spec_players_len() == 4,
        new.spec_players_len() == 4,
        0 <= r0.spec_lead() < 4,
        t.len() == 4,
        0 <= spec_trick_winner(t) < 4,
        forall|q: int|
            0 <= q < 4 ==> r0.spec_hand(q).contains(
                t[#[trigger] spec_trick_slot(q, r0.spec_lead())].card),
        new.spec_resolves(r0, t),
    ensures
        new.conserved() == r0.conserved(),
        forall|q: int|
            0 <= q < 4 ==> #[trigger] new.spec_hand(q).len() == r0.spec_hand(q).len() - 1,
{
    let lead0 = r0.spec_lead();
    let w = spec_trick_winner(t);
    let c0 = t[spec_trick_slot(0, lead0)].card;
    let c1 = t[spec_trick_slot(1, lead0)].card;
    let c2 = t[spec_trick_slot(2, lead0)].card;
    let c3 = t[spec_trick_slot(3, lead0)].card;
    assert forall|q: int| 0 <= q < 4
        implies (#[trigger] new.spec_hand(q)).to_multiset()
            == r0.spec_hand(q).to_multiset().remove(t[spec_trick_slot(q, lead0)].card)
            && new.spec_hand(q).len() == r0.spec_hand(q).len() - 1
            && r0.spec_hand(q).to_multiset().count(t[spec_trick_slot(q, lead0)].card) >= 1 by {
        lemma_remove_value_held(r0.spec_hand(q), t[spec_trick_slot(q, lead0)].card);
    }
    assert(tricks_mset(new.spec_tricks(w))
        == tricks_mset(r0.spec_tricks(w)).add(cards_of(t).to_multiset()));
    lemma_trick_cards_mset(t, lead0);
    assert forall|x: Card| #[trigger] new.conserved().count(x) == r0.conserved().count(x) by {
        assert(new.spec_hand(0).to_multiset().count(x)
            == r0.spec_hand(0).to_multiset().count(x) - (if x == c0 { 1int } else { 0int }));
        assert(new.spec_hand(1).to_multiset().count(x)
            == r0.spec_hand(1).to_multiset().count(x) - (if x == c1 { 1int } else { 0int }));
        assert(new.spec_hand(2).to_multiset().count(x)
            == r0.spec_hand(2).to_multiset().count(x) - (if x == c2 { 1int } else { 0int }));
        assert(new.spec_hand(3).to_multiset().count(x)
            == r0.spec_hand(3).to_multiset().count(x) - (if x == c3 { 1int } else { 0int }));
        assert(cards_of(t).to_multiset().count(x)
            == (if x == c0 { 1int } else { 0int }) + (if x == c1 { 1int } else { 0int })
                + (if x == c2 { 1int } else { 0int }) + (if x == c3 { 1int } else { 0int }));
    }
    assert(new.conserved() =~= r0.conserved());
}

/// After a resolution the round is well formed again, with the same cards
/// in circulation.
#[verifier::rlimit(100)]
#[verifier::spinoff_prover]
proof fn lemma_resolved_wf(new: Round, r0: Round, t: Seq<PlayedCard>)
    requires
        r0.wf(),
        t.len() == 4,
        forall|i: int|
            0 <= i < 4 ==> (#[trigger] t[i]).player_id as int == (r0.spec_lead() + i) % 4,
        0 <= spec_trick_winner(t) < 4,
        forall|q: int|
            0 <= q < 4 ==> r0.spec_hand(q).contains(
                t[#[trigger] spec_trick_slot(q, r0.spec_lead())].card),
        new.spec_players_len() == 4,
        forall|q: int| 0 <= q < 4 ==> new.spec_player_id(q) == q,
        !new.spec_first_trick(),
        new.spec_resolves(r0, t),
    ensures
        new.wf(),
        new.conserved() == r0.conserved(),
{
    lemma_resolution_conserved(new, r0, t);
    assert forall|q1: int, q2: int| 0 <= q1 < 4 && 0 <= q2 < 4
        implies #[trigger] new.spec_hand(q1).len() == #[trigger] new.spec_hand(q2).len() by {
        assert(new.spec_hand(q1).len() == r0.spec_hand(q1).len() - 1);
        assert(new.spec_hand(q2).len() == r0.spec_hand(q2).len() - 1);
        assert(r0.spec_hand(q1).len() == r0.spec_hand(q2).len());
    }
    assert(new.spec_in_play().len() == 0);
    assert(0 <= new.spec_lead() < 4);
}

/// Every legal play is a card of the acting player's hand.
pub proof fn lemma_valid_plays_subset(r: Round, p: int, c: Card)
    requires
        r.spec_valid_plays(p).contains(c),
    ensures
        r.spec_hand(p).contains(c),
{
    let hand = r.spec_hand(p);
    if r.spec_in_play().len() > 0 {
        let ft = r.spec_first_trick();
        let led = r.spec_in_play()[0].card.suit;
        let pp = point_rule(ft);
        let ps = follow_rule(led);
        let narrowed = spec_limit(hand, pp);
        if narrowed.filter(ps).len() > 0 {
            assert(narrowed.filter(ps).contains(c));
        }
        assert(narrowed.contains(c));
        if hand.filter(pp).len() > 0 {
            assert(hand.filter(pp).contains(c));
        }
        assert(hand.contains(c));
    } else if hand.contains(two_clubs()) {
        assert(r.spec_valid_plays(p)[0] == two_clubs());
    } else {
        let pl = lead_rule(r.spec_hearts_broken());
        if hand.filter(pl).len() > 0 {
            assert(hand.filter(pl).contains(c));
        }
        assert(hand.contains(c));
    }
}

/// Removing a held card shortens the hand by one and removes one copy
/// from its multiset.
proof fn lemma_remove_value_held(s: Seq<Card>, c: Card)
    requires
        s.contains(c),
    ensures
        s.remove_value(c).len() == s.len() - 1,
        s.remove_value(c).to_multiset() == s.to_multiset().remove(c),
{
    s.index_of_first_ensures(c);
}

/// Exact copy of the plays of a trick, in order.
fn copy_played(plays: &Vec<PlayedCard>) -> (res: Vec<PlayedCard>)
    ensures
        res@ == plays@,
{
    let mut res: Vec<PlayedCard> = Vec::new();
    let mut i: usize = 0;
    while i < plays.len()
        invariant
            i <= plays@.len(),
            res@ == plays@.take(i as int),
        decreases plays@.len() - i,
    {
        res.push(plays[i]);
        proof {
            assert(res@ =~= plays@.take(i + 1));
        }
        i = i + 1;
    }
    proof {
        assert(res@ =~= plays@);
    }
    res
}

/// Remove the first occurrence of `card` from `hand`, if it is there.
fn remove_first_card(hand: &mut Vec<Card>, card: &Card)
    ensures
        final(hand)@ == old(hand)@.remove_value(*card),
{
    let mut i: usize = 0;
    while i < hand.len()
        invariant
            i <= hand@.len(),
            hand@ == old(hand)@,
            forall|k: int| 0 <= k < i ==> hand@[k] != *card,
        decreases hand@.len() - i,
    {
        if hand[i].is_suit(&card.suit) && hand[i].has_rank(&card.rank) {
            proof {
                assert(hand@[i as int] == *card);
                hand@.index_of_first_ensures(*card);
                assert(hand@.index_of_first(*card) == Some(i as int));
            }
            hand.remove(i);
            return;
        }
        i = i + 1;
    }
    proof {
        assert(!old(hand)@.contains(*card));
        old(hand)@.index_of_first_ensures(*card);
    }
}

/// The winning play of a completed (or partial) trick: the strongest card
/// among those following the led suit.
fn trick_winner(played: &Vec<PlayedCard>) -> (w: PlayerId)
    requires
        played@.len() >= 1,
    ensures
        w as int == spec_trick_winner(played@),
{
    let mut best: usize = 0;
    let mut i: usize = 1;
    while i < played.len()
        invariant
            1 <= i <= played@.len(),
            best < i,
            best as int == spec_winner_upto(played@, i as int),
        decreases played@.len() - i,
    {
        let follows = played[i].card.is_suit(&played[0].card.suit);
        let best_follows = played[best].card.is_suit(&played[0].card.suit);
        if follows && (!best_follows
            || rank_strength_of(&played[i].card.rank) > rank_strength_of(&played[best].card.rank))
        {
            best = i;
        }
        i = i + 1;
    }
    played[best].player_id
}

/// Two different hands holding the same card put two copies of it into
/// the round's conserved multiset.
proof fn lemma_two_hands_two_counts(r: Round, q1: int, q2: int, c: Card)
    requires
        r.spec_players_len() == 4,
        0 <= q1 < 4,
        0 <= q2 < 4,
        q1 != q2,
        r.spec_hand(q1).contains(c),
        r.spec_hand(q2).contains(c),
    ensures
        r.conserved().count(c) >= 2,
{
    assert(r.spec_hand(q1).to_multiset().count(c) > 0);
    assert(r.spec_hand(q2).to_multiset().count(c) > 0);
}

/// The conserved multiset of a freshly built round with no tricks is just
/// the union of its four hands.
proof fn lemma_conserved_of_fresh(r: Round, hands0: Seq<Vec<Card>>)
    requires
        hands0.len() == 4,
        r.spec_players_len() == 4,
        forall|q: int| 0 <= q < 4 ==> #[trigger] r.spec_hand(q) == hands0[q]@,
        forall|q: int| 0 <= q < 4 ==> (#[trigger] r.spec_tricks(q)).len() == 0,
    ensures
        r.conserved() == hands_mset(hands0),
{
    reveal_with_fuel(hands_mset, 5);
    assert(hands0.drop_last().drop_last().drop_last().drop_last() =~= Seq::<Vec<Card>>::empty());
    assert(hands0.drop_last().drop_last().drop_last().last() == hands0[0]);
    assert(hands0.drop_last().drop_last().last() == hands0[1]);
    assert(hands0.drop_last().last() == hands0[2]);
    assert(hands0.last() == hands0[3]);
    assert(r.conserved() =~= hands_mset(hands0));
}

/// The short name of a rank, as printed on the card.
fn rank_label(r: &Rank) -> (s: &'static str) {
    match r {
        Rank::Ace => "A",
        Rank::Two => "2",
        Rank::Three => "3",
        Rank::Four => "4",
        Rank::Five => "5",
        Rank::Six => "6",
        Rank::Seven => "7",
        Rank::Eight => "8",
        Rank::Nine => "9",
        Rank::Ten => "10",
        Rank::Jack => "J",
        Rank::Queen => "Q",
        Rank::King => "K",
    }
}

/// The symbol of a suit.
fn suit_label(s: &Suit) -> (label: &'static str) {
    match s {
        Suit::Clubs => "\u{2663}",
        Suit::Spades => "\u{2660}",
        Suit::Hearts => "\u{2665}",
        Suit::Diamonds => "\u{2666}",
    }
}

/// Relies on std's `format!`: renders the out-of-turn message text.
#[verifier::external_body]
fn format_out_of_turn(player: PlayerId) -> (msg: String) {
    format!("Player {} played out of turn.", player)
}

/// Relies on std's `format!`: renders the rule-violation message text.
#[verifier::external_body]
fn format_illegal_card(player: PlayerId, rank: &str, suit: &str) -> (msg: String) {
    format!("Player {} violated rules by playing {}{}.", player, rank, suit)
}

impl RoundError {
    /// The message a caller can show for this rejected play.
    pub fn message(&self) -> String {
        match self {
            RoundError::OutOfTurn(p) => format_out_of_turn(*p),
            RoundError::IllegalCard(p, c) => format_illegal_card(
                *p,
                rank_label(&c.rank),
                suit_label(&c.suit),
            ),
        }
    }
}

} // verus!
