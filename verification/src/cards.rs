//! The card and deck model: ranks, suits, cards, and a deck of the 52
//! distinct rank-suit combinations that can be shuffled and dealt out.

use vstd::prelude::*;
use vstd::multiset::Multiset;
use rand::RngExt;

verus! {

broadcast use vstd::seq_lib::group_seq_properties, vstd::seq_lib::group_to_multiset_ensures;

/// The thirteen ranks. For trick comparison the Ace is the strongest and
/// the Two the weakest; see `rank_strength`.
#[derive(Clone, Copy, Debug, PartialEq, Eq, Structural)]
pub enum Rank {
    Ace,
    King,
    Queen,
    Jack,
    Ten,
    Nine,
    Eight,
    Seven,
    Six,
    Five,
    Four,
    Three,
    Two,
}

/// The four suits. Suits are never ordered against each other.
#[derive(Clone, Copy, Debug, PartialEq, Eq, Structural)]
pub enum Suit {
    Clubs,
    Spades,
    Hearts,
    Diamonds,
}

/// A playing card, a plain value identified by its rank and suit alone.
#[derive(Clone, Copy, Debug, PartialEq, Eq, Structural)]
pub struct Card {
    pub rank: Rank,
    pub suit: Suit,
}

/// The strength of a rank when cards of the led suit compete for a trick:
/// Two is weakest (0) and Ace strongest (12).
pub open spec fn rank_strength(r: Rank) -> int {
    match r {
        Rank::Two => 0,
        Rank::Three => 1,
        Rank::Four => 2,
        Rank::Five => 3,
        Rank::Six => 4,
        Rank::Seven => 5,
        Rank::Eight => 6,
        Rank::Nine => 7,
        Rank::Ten => 8,
        Rank::Jack => 9,
        Rank::Queen => 10,
        Rank::King => 11,
        Rank::Ace => 12,
    }
}

impl Card {
    /// Whether this card belongs to the given suit.
    pub fn is_suit(&self, suit: &Suit) -> (r: bool)
        ensures
            r <==> self.suit == *suit,
    {
        self.suit == *suit
    }

    /// Whether this card has the given rank.
    pub fn has_rank(&self, rank: &Rank) -> (r: bool)
        ensures
            r <==> self.rank == *rank,
    {
        self.rank == *rank
    }
}

/// Executable counterpart of `rank_strength`.
pub(crate) fn rank_strength_of(r: &Rank) -> (s: u8)
    ensures
        s as int == rank_strength(*r),
{
    match r {
        Rank::Two => 0,
        Rank::Three => 1,
        Rank::Four => 2,
        Rank::Five => 3,
        Rank::Six => 4,
        Rank::Seven => 5,
        Rank::Eight => 6,
        Rank::Nine => 7,
        Rank::Ten => 8,
        Rank::Jack => 9,
        Rank::Queen => 10,
        Rank::King => 11,
        Rank::Ace => 12,
    }
}

/// The rank at position `j` of the canonical deck order (Ace first, then
/// Two up to King, as the deck is built suit by suit).
pub open spec fn spec_rank_at(j: int) -> Rank {
    if j == 0 {
        Rank::Ace
    } else if j == 1 {
        Rank::Two
    } else if j == 2 {
        Rank::Three
    } else if j == 3 {
        Rank::Four
    } else if j == 4 {
        Rank::Five
    } else if j == 5 {
        Rank::Six
    } else if j == 6 {
        Rank::Seven
    } else if j == 7 {
        Rank::Eight
    } else if j == 8 {
        Rank::Nine
    } else if j == 9 {
        Rank::Ten
    } else if j == 10 {
        Rank::Jack
    } else if j == 11 {
        Rank::Queen
    } else {
        Rank::King
    }
}

/// The suit at position `k` of the canonical deck order.
pub open spec fn spec_suit_at(k: int) -> Suit {
    if k == 0 {
        Suit::Clubs
    } else if k == 1 {
        Suit::Spades
    } else if k == 2 {
        Suit::Hearts
    } else {
        Suit::Diamonds
    }
}

/// The card at position `i` of the canonical (unshuffled) deck order.
pub open spec fn spec_card_at(i: int) -> Card {
    Card { rank: spec_rank_at(i % 13), suit: spec_suit_at(i / 13) }
}

/// The full 52-card deck in its canonical order: each rank-suit
/// combination exactly once.
pub open spec fn full_deck() -> Seq<Card> {
    Seq::new(52, |i: int| spec_card_at(i))
}

/// The canonical deck order never repeats a card.
pub proof fn lemma_full_deck_no_duplicates()
    ensures
        full_deck().no_duplicates(),
{
    assert forall|i: int, j: int| 0 <= i < 52 && 0 <= j < 52 && i != j
        implies full_deck()[i] != full_deck()[j] by {
        if spec_card_at(i) == spec_card_at(j) {
            assert(spec_rank_at(i % 13) == spec_rank_at(j % 13));
            assert(spec_suit_at(i / 13) == spec_suit_at(j / 13));
            assert(i % 13 == j % 13);
            assert(i / 13 == j / 13);
            assert(i == 13 * (i / 13) + i % 13);
            assert(j == 13 * (j / 13) + j % 13);
        }
    }
}

/// Every card value occurs exactly once in the full deck.
pub proof fn lemma_full_deck_counts()
    ensures
        forall|c: Card| #[trigger] full_deck().to_multiset().count(c) == 1,
{
    lemma_full_deck_no_duplicates();
    full_deck().lemma_multiset_has_no_duplicates();
    assert forall|c: Card| #[trigger] full_deck().to_multiset().count(c) == 1 by {
        let i = 13 * (spec_suit_index(c.suit)) + spec_rank_index(c.rank);
        assert(0 <= i < 52);
        assert(i % 13 == spec_rank_index(c.rank) && i / 13 == spec_suit_index(c.suit)) by {
            vstd::arithmetic::div_mod::lemma_fundamental_div_mod_converse(
                i, 13, spec_suit_index(c.suit), spec_rank_index(c.rank));
        }
        assert(full_deck()[i] == c);
        assert(full_deck().contains(c));
        assert(full_deck().to_multiset().contains(c));
    }
}

/// Position of a rank within one suit's block of the canonical order.
pub open spec fn spec_rank_index(r: Rank) -> int {
    match r {
        Rank::Ace => 0,
        Rank::Two => 1,
        Rank::Three => 2,
        Rank::Four => 3,
        Rank::Five => 4,
        Rank::Six => 5,
        Rank::Seven => 6,
        Rank::Eight => 7,
        Rank::Nine => 8,
        Rank::Ten => 9,
        Rank::Jack => 10,
        Rank::Queen => 11,
        Rank::King => 12,
    }
}

/// Which suit block of the canonical order a suit occupies.
pub open spec fn spec_suit_index(s: Suit) -> int {
    match s {
        Suit::Clubs => 0,
        Suit::Spades => 1,
        Suit::Hearts => 2,
        Suit::Diamonds => 3,
    }
}

/// Executable counterpart of `spec_rank_at`.
fn rank_at(j: usize) -> (r: Rank)
    requires
        j < 13,
    ensures
        r == spec_rank_at(j as int),
{
    if j == 0 {
        Rank::Ace
    } else if j == 1 {
        Rank::Two
    } else if j == 2 {
        Rank::Three
    } else if j == 3 {
        Rank::Four
    } else if j == 4 {
        Rank::Five
    } else if j == 5 {
        Rank::Six
    } else if j == 6 {
        Rank::Seven
    } else if j == 7 {
        Rank::Eight
    } else if j == 8 {
        Rank::Nine
    } else if j == 9 {
        Rank::Ten
    } else if j == 10 {
        Rank::Jack
    } else if j == 11 {
        Rank::Queen
    } else {
        Rank::King
    }
}

/// Executable counterpart of `spec_suit_at`.
fn suit_at(k: usize) -> (s: Suit)
    requires
        k < 4,
    ensures
        s == spec_suit_at(k as int),
{
    if k == 0 {
        Suit::Clubs
    } else if k == 1 {
        Suit::Spades
    } else if k == 2 {
        Suit::Hearts
    } else {
        Suit::Diamonds
    }
}

/// Relies on `rand::rng` and `rand::RngExt::random_range`: the result is
/// drawn from `[lo, hi)`; `random_range` panics only on an empty range,
/// which the precondition rules out. Nothing more can be promised of a
/// random value.
#[verifier::external_body]
fn random_index(lo: usize, hi: usize) -> (r: usize)
    requires
        lo < hi,
    ensures
        lo <= r < hi,
{
    rand::rng().random_range(lo..hi)
}

/// A uniform shuffle: walk the positions from the left and swap each with
/// a uniformly chosen position at or after it.
fn shuffle(cards: &mut Vec<Card>)
    ensures
        final(cards)@.len() == old(cards)@.len(),
        final(cards)@.to_multiset() == old(cards)@.to_multiset(),
{
    broadcast use vstd::seq_lib::to_multiset_update;

    if cards.len() < 2 {
        return;
    }
    let ghost m0 = cards@.to_multiset();
    let mut i: usize = 0;
    while i < cards.len() - 1
        invariant
            cards@.len() >= 2,
            i <= cards@.len() - 1,
            cards@.len() == old(cards)@.len(),
            cards@.to_multiset() == m0,
        decreases cards@.len() - i,
    {
        let j = random_index(i, cards.len());
        let ci = cards[i];
        let cj = cards[j];
        let ghost before = cards@;
        cards[i] = cj;
        cards[j] = ci;
        proof {
            let mid = before.update(i as int, cj);
            assert(mid.to_multiset() == before.to_multiset().insert(cj).remove(before[i as int]));
            assert(mid[j as int] == (if i == j { cj } else { before[j as int] }));
            assert(cards@ == mid.update(j as int, ci));
            assert(cards@.to_multiset() =~= before.to_multiset());
        }
        i = i + 1;
    }
}

/// A deck of cards, viewed as the sequence still waiting to be dealt.
pub struct Deck {
    cards: Vec<Card>,
}

impl View for Deck {
    type V = Seq<Card>;

    closed spec fn view(&self) -> Seq<Card> {
        self.cards@
    }
}

/// How many of the first `i` round-robin deals land in hand `j` when there
/// are `hands` hands: the number of `m < i` with `m % hands == j`.
pub open spec fn dealt_count(i: int, hands: int, j: int) -> int
    decreases i,
{
    if i <= 0 {
        0
    } else {
        dealt_count(i - 1, hands, j) + if (i - 1) % hands == j { 1int } else { 0int }
    }
}

/// Closed form for `dealt_count`.
pub proof fn lemma_dealt_count_value(i: int, hands: int, j: int)
    requires
        0 <= i,
        1 <= hands,
        0 <= j < hands,
    ensures
        dealt_count(i, hands, j) == i / hands + if j < i % hands { 1int } else { 0int },
    decreases i,
{
    if i == 0 {
        assert(0int / hands == 0 && 0int % hands == 0) by {
            vstd::arithmetic::div_mod::lemma_fundamental_div_mod_converse(0, hands, 0, 0);
        }
    } else {
        lemma_dealt_count_value(i - 1, hands, j);
        let q = (i - 1) / hands;
        let r = (i - 1) % hands;
        vstd::arithmetic::div_mod::lemma_fundamental_div_mod(i - 1, hands);
        if r == hands - 1 {
            assert(i == (q + 1) * hands + 0) by (nonlinear_arith)
                requires
                    i - 1 == hands * q + r,
                    r == hands - 1,
            ;
            vstd::arithmetic::div_mod::lemma_fundamental_div_mod_converse(i, hands, q + 1, 0);
        } else {
            assert(i == q * hands + (r + 1)) by (nonlinear_arith)
                requires
                    i - 1 == hands * q + r,
            ;
            vstd::arithmetic::div_mod::lemma_fundamental_div_mod_converse(i, hands, q, r + 1);
        }
    }
}

/// The cards held across a sequence of hands, as one multiset.
pub open spec fn hands_mset(hs: Seq<Vec<Card>>) -> Multiset<Card>
    decreases hs.len(),
{
    if hs.len() == 0 {
        Multiset::empty()
    } else {
        hands_mset(hs.drop_last()).add(hs.last()@.to_multiset())
    }
}

/// Replacing one hand by the same hand with one more card inserts that
/// card into the combined multiset.
proof fn lemma_hands_mset_update(hs: Seq<Vec<Card>>, j: int, v2: Vec<Card>, c: Card)
    requires
        0 <= j < hs.len(),
        v2@.to_multiset() == hs[j]@.to_multiset().insert(c),
    ensures
        hands_mset(hs.update(j, v2)) == hands_mset(hs).insert(c),
    decreases hs.len(),
{
    let upd = hs.update(j, v2);
    if j == hs.len() - 1 {
        assert(upd.drop_last() =~= hs.drop_last());
        assert(hands_mset(upd) =~= hands_mset(hs).insert(c));
    } else {
        assert(upd.drop_last() =~= hs.drop_last().update(j, v2));
        lemma_hands_mset_update(hs.drop_last(), j, v2, c);
        assert(upd.last() == hs.last());
        assert(hands_mset(upd) =~= hands_mset(hs).insert(c));
    }
}

/// A card counted by the combined multiset is held by one of the hands.
pub proof fn lemma_hands_mset_contains(hs: Seq<Vec<Card>>, c: Card)
    requires
        hands_mset(hs).count(c) > 0,
    ensures
        exists|j: int| 0 <= j < hs.len() && #[trigger] hs[j]@.contains(c),
    decreases hs.len(),
{
    if hs.len() > 0 {
        if hs.last()@.to_multiset().count(c) > 0 {
            assert(hs.last()@.contains(c));
            assert(hs[hs.len() - 1]@.contains(c));
        } else {
            lemma_hands_mset_contains(hs.drop_last(), c);
            let j = choose|j: int|
                0 <= j < hs.drop_last().len() && #[trigger] hs.drop_last()[j]@.contains(c);
            assert(hs[j]@.contains(c));
        }
    }
}

impl Deck {
    /// A full 52-card deck in a uniformly random order.
    pub fn new() -> (deck: Deck)
        ensures
            deck@.len() == 52,
            deck@.to_multiset() == full_deck().to_multiset(),
    {
        let mut cards: Vec<Card> = Vec::new();
        let mut i: usize = 0;
        while i < 52
            invariant
                i <= 52,
                cards@ =~= full_deck().take(i as int),
            decreases 52 - i,
        {
            let card = Card { rank: rank_at(i % 13), suit: suit_at(i / 13) };
            cards.push(card);
            i = i + 1;
        }
        assert(cards@ =~= full_deck());
        shuffle(&mut cards);
        Deck { cards }
    }

    /// Deal the top `hand_count * n_cards` cards (or as many as remain)
    /// into `hand_count` hands, round-robin from the back of the deck.
    pub fn deal(&mut self, hand_count: usize, n_cards: usize) -> (hands: Vec<Vec<Card>>)
        requires
            hand_count >= 1,
            n_cards >= 1,
            hand_count * n_cards <= usize::MAX,
        ensures
            hands@.len() == hand_count as int,
            ({
                let total = if hand_count * n_cards <= old(self)@.len() {
                    hand_count * n_cards
                } else {
                    old(self)@.len() as int
                };
                &&& final(self)@ == old(self)@.take(old(self)@.len() - total)
                &&& forall|j: int|
                    0 <= j < hand_count ==> (#[trigger] hands@[j])@.len()
                        == dealt_count(total, hand_count as int, j)
                &&& forall|j: int, m: int|
                    0 <= j < hand_count && 0 <= m < hands@[j]@.len()
                        ==> #[trigger] hands@[j]@[m]
                            == old(self)@[old(self)@.len() - 1 - (m * hand_count + j)]
                &&& hands_mset(hands@).add(final(self)@.to_multiset()) == old(self)@.to_multiset()
            }),
    {
        let ghost deck0 = self.cards@;
        let ghost len0 = self.cards@.len() as int;
        let mut hands: Vec<Vec<Card>> = Vec::new();
        let mut h: usize = 0;
        while h < hand_count
            invariant
                h <= hand_count,
                hands@.len() == h as int,
                forall|j: int| 0 <= j < h ==> (#[trigger] hands@[j])@.len() == 0,
                hands_mset(hands@) == Multiset::<Card>::empty(),
            decreases hand_count - h,
        {
            let empty_hand: Vec<Card> = Vec::new();
            let ghost before = hands@;
            hands.push(empty_hand);
            proof {
                assert(hands@.drop_last() =~= before);
                assert(hands_mset(hands@) =~= Multiset::<Card>::empty());
            }
            h = h + 1;
        }

        let goal = hand_count * n_cards;
        let total = if goal <= self.cards.len() { goal } else { self.cards.len() };

        let mut i: usize = 0;
        while i < total
            invariant
                i <= total,
                total <= len0,
                hand_count >= 1,
                total <= hand_count * n_cards,
                hands@.len() == hand_count as int,
                self.cards@ == deck0.take(len0 - i),
                deck0.len() == len0,
                forall|j: int|
                    0 <= j < hand_count ==> (#[trigger] hands@[j])@.len()
                        == dealt_count(i as int, hand_count as int, j),
                forall|j: int, m: int|
                    0 <= j < hand_count && 0 <= m < hands@[j]@.len()
                        ==> #[trigger] hands@[j]@[m] == deck0[len0 - 1 - (m * hand_count + j)],
                hands_mset(hands@).add(self.cards@.to_multiset()) == deck0.to_multiset(),
            decreases total - i,
        {
            let card = match self.cards.pop() {
                Some(card) => card,
                None => {
                    proof {
                        assert(false);
                    }
                    Card { rank: Rank::Ace, suit: Suit::Clubs }
                },
            };
            let j0 = i % hand_count;
            let ghost hs_before = hands@;
            let ghost hand_before = hands@[j0 as int];
            let hand = &mut hands[j0];
            let ghost m0 = hand@.len() as int;
            hand.push(card);
            proof {
                let hc = hand_count as int;
                let ii = i as int;
                assert(card == deck0[len0 - 1 - ii]);
                assert(self.cards@ =~= deck0.take(len0 - (ii + 1)));
                // the new card lands at the position the contract names
                lemma_dealt_count_value(ii, hc, j0 as int);
                vstd::arithmetic::div_mod::lemma_fundamental_div_mod(ii, hc);
                assert(m0 == ii / hc);
                assert(m0 * hc == hc * m0) by (nonlinear_arith);
                assert(m0 * hc + j0 as int == ii);
                assert(hands@ == hs_before.update(j0 as int, *hand));
                assert forall|j: int|
                    0 <= j < hand_count implies (#[trigger] hands@[j])@.len()
                        == dealt_count(ii + 1, hc, j) by {
                    assert(dealt_count(ii + 1, hc, j)
                        == dealt_count(ii, hc, j) + if ii % hc == j { 1int } else { 0int });
                }
                lemma_hands_mset_update(hs_before, j0 as int, *hand, card);
                assert(deck0.take(len0 - ii)
                    =~= deck0.take(len0 - (ii + 1)).push(deck0[len0 - 1 - ii]));
                assert(deck0.take(len0 - ii).to_multiset()
                    == self.cards@.to_multiset().insert(card));
                assert(hands_mset(hands@).add(self.cards@.to_multiset())
                    =~= deck0.to_multiset());
            }
            i = i + 1;
        }
        proof {
            assert(self.cards@ == deck0.take(len0 - total as int));
        }
        hands
    }
}

} // verus!
