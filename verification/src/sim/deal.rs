//! The opening hand: shuffling, hand smoothing and London mulligans.
use vstd::prelude::*;

use super::compile::{lands_among, lemma_spread_in, spread, CompiledDeck, DeckView, SimCardView};
use super::rng::{
    arranged,
    is_order,
    law_arranged_keeps,
    law_shuffles_are_orders,
    order_given,
    SimRng,
};
use super::SimParams;

verus! {

/// Seven drawn cards are kept with two to five lands, and always once the hand
/// is down to four.
pub open spec fn keeps(lands: nat, size: nat) -> bool {
    size <= 4 || 2 <= lands <= 5
}

/// Whether to keep seven drawn cards.
pub fn keep_decision(lands_in_drawn7: u32, hand_size: u8) -> (r: bool)
    ensures
        r == keeps(lands_in_drawn7 as nat, hand_size as nat),
{
    hand_size <= 4 || (2 <= lands_in_drawn7 && lands_in_drawn7 <= 5)
}

/// Every entry of the list is a position below `n`.
pub open spec fn below(list: Seq<u16>, n: nat) -> bool {
    forall|i: int| 0 <= i < list.len() ==> (#[trigger] list[i]) < n
}

/// The card at this position is a land.
pub open spec fn land_at(cards: Seq<SimCardView>, ci: u16) -> bool {
    cards[ci as int].kind is Land
}

/// How many of the listed cards are lands.
pub open spec fn lands_in(cards: Seq<SimCardView>, list: Seq<u16>) -> nat
    decreases list.len(),
{
    if list.len() == 0 {
        0
    } else {
        lands_in(cards, list.drop_last()) + if land_at(cards, list.last()) {
            1nat
        } else {
            0nat
        }
    }
}

proof fn lemma_lands_bound(cards: Seq<SimCardView>, list: Seq<u16>)
    ensures
        lands_in(cards, list) <= list.len(),
    decreases list.len(),
{
    if list.len() > 0 {
        lemma_lands_bound(cards, list.drop_last());
    }
}

/// Where one of the listed cards is a land, there is a land among them.
proof fn lemma_no_lands(cards: Seq<SimCardView>, list: Seq<u16>, i: int)
    requires
        0 <= i < list.len(),
        land_at(cards, list[i]),
    ensures
        lands_in(cards, list) > 0,
    decreases list.len(),
{
    if i < list.len() - 1 {
        lemma_no_lands(cards, list.drop_last(), i);
    }
}

/// Whether the card at this position is a land.
pub fn is_land(deck: &CompiledDeck, ci: u16) -> (r: bool)
    requires
        ci < deck@.cards.len(),
    ensures
        r == land_at(deck@.cards, ci),
{
    deck.cards[ci as usize].is_land()
}

/// How many of the listed cards are lands.
pub fn count_lands(deck: &CompiledDeck, list: &Vec<u16>) -> (n: usize)
    requires
        below(list@, deck@.cards.len()),
    ensures
        n == lands_in(deck@.cards, list@),
        n <= list@.len(),
{
    let mut n: usize = 0;
    let mut i: usize = 0;
    assert(list@.take(0) =~= Seq::<u16>::empty());
    while i < list.len()
        invariant
            i <= list@.len(),
            below(list@, deck@.cards.len()),
            n == lands_in(deck@.cards, list@.take(i as int)),
            n <= i,
        decreases list@.len() - i,
    {
        assert(list@.take(i + 1).drop_last() =~= list@.take(i as int));
        assert(list@[i as int] < deck@.cards.len());
        if is_land(deck, list[i]) {
            n += 1;
        }
        i += 1;
    }
    assert(list@.take(i as int) =~= list@);
    n
}

// ---------------------------------------------------------------------------
// Drawing
// ---------------------------------------------------------------------------

/// The top `n` cards of a library, in the order in which they are drawn: the
/// top is the end of the list.
pub open spec fn top(library: Seq<u16>, n: int) -> Seq<u16> {
    Seq::new(n as nat, |i: int| library[library.len() - 1 - i])
}

/// How many cards the first draw takes.
pub open spec fn first_draw(library: Seq<u16>) -> int {
    if library.len() < 7 {
        library.len() as int
    } else {
        7
    }
}

/// Draws cards from the top.
fn draw(library: &mut Vec<u16>, n: usize) -> (drawn: Vec<u16>)
    requires
        n <= old(library)@.len(),
    ensures
        drawn@ == top(old(library)@, n as int),
        final(library)@ == old(library)@.take(old(library)@.len() - n),
{
    let ghost all = library@;
    let mut drawn: Vec<u16> = Vec::new();
    let mut k: usize = 0;
    assert(all.take(all.len() as int) =~= all);
    assert(drawn@ =~= top(all, 0));
    while k < n
        invariant
            k <= n <= all.len(),
            drawn@ == top(all, k as int),
            library@ == all.take(all.len() - k),
        decreases n - k,
    {
        let ghost now = library@;
        if let Some(ci) = library.pop() {
            drawn.push(ci);
        }
        k += 1;
        assert(drawn@ =~= top(all, k as int));
        assert(library@ =~= all.take(all.len() - k));
    }
    drawn
}

// ---------------------------------------------------------------------------
// Hand smoothing
// ---------------------------------------------------------------------------

/// How far the lands among the first cards drawn are from the deck's share of
/// lands, times the size of the deck: `|lands * size - 7 * land_count|`.
pub open spec fn imbalance(deck: DeckView, library: Seq<u16>) -> int {
    let size = if deck.library.len() == 0 {
        1
    } else {
        deck.library.len()
    };
    let d = lands_in(deck.cards, top(library, first_draw(library))) * size - 7 * deck.land_count;
    if d < 0 {
        -d
    } else {
        d
    }
}

/// The better of two shuffled libraries: the second only where the lands
/// among its first cards come closer to the deck's share.
pub open spec fn smoother(deck: DeckView, first: Seq<u16>, second: Seq<u16>) -> Seq<u16> {
    if imbalance(deck, second) < imbalance(deck, first) {
        second
    } else {
        first
    }
}

fn imbalance_of(deck: &CompiledDeck, library: &Vec<u16>) -> (d: u128)
    requires
        below(library@, deck@.cards.len()),
    ensures
        d == imbalance(deck@, library@),
{
    let n: usize = if library.len() < 7 {
        library.len()
    } else {
        7
    };
    let mut lands: u128 = 0;
    let mut i: usize = 0;
    let ghost drawn = top(library@, first_draw(library@));
    assert(drawn.take(0) =~= Seq::<u16>::empty());
    while i < n
        invariant
            i <= n <= 7,
            n <= library@.len(),
            drawn == top(library@, n as int),
            below(library@, deck@.cards.len()),
            lands == lands_in(deck@.cards, drawn.take(i as int)),
            lands <= i,
        decreases n - i,
    {
        assert(drawn.take(i + 1).drop_last() =~= drawn.take(i as int));
        assert(drawn.take(i + 1).last() == library@[library@.len() - 1 - i]);
        if is_land(deck, library[library.len() - 1 - i]) {
            lands += 1;
        }
        i += 1;
    }
    assert(drawn.take(i as int) =~= drawn);
    let size: u128 = if deck.library.len() == 0 {
        1
    } else {
        deck.library.len() as u128
    };
    assert(lands * size <= 7 * size) by (nonlinear_arith)
        requires
            lands <= 7,
    ;
    let a: u128 = lands * size;
    let b: u128 = 7 * deck.land_count as u128;
    if a < b {
        b - a
    } else {
        a - b
    }
}

/// The better of two shuffled libraries.
pub fn pick_smoother(deck: &CompiledDeck, first: Vec<u16>, second: Vec<u16>) -> (r: Vec<u16>)
    requires
        below(first@, deck@.cards.len()),
        below(second@, deck@.cards.len()),
    ensures
        r@ == smoother(deck@, first@, second@),
{
    if imbalance_of(deck, &second) < imbalance_of(deck, &first) {
        second
    } else {
        first
    }
}

// ---------------------------------------------------------------------------
// Mulligans
// ---------------------------------------------------------------------------

/// How gladly a card is put back: lands last, spells by their mana value.
pub open spec fn weight(card: SimCardView) -> int {
    if card.kind is Land {
        0
    } else {
        1 + card.value()
    }
}

/// The position of the last land.
pub open spec fn last_land(cards: Seq<SimCardView>, hand: Seq<u16>) -> int
    decreases hand.len(),
{
    if hand.len() == 0 {
        0
    } else if land_at(cards, hand.last()) {
        hand.len() - 1
    } else {
        last_land(cards, hand.drop_last())
    }
}

/// The position of the last card of the greatest weight.
pub open spec fn heaviest(cards: Seq<SimCardView>, hand: Seq<u16>) -> int
    decreases hand.len(),
{
    if hand.len() <= 1 {
        0
    } else {
        let p = heaviest(cards, hand.drop_last());
        if weight(cards[hand[p] as int]) <= weight(cards[hand.last() as int]) {
            hand.len() - 1
        } else {
            p
        }
    }
}

/// The next card to go to the bottom: a land while there are more than three,
/// then the spell of the highest mana value.
pub open spec fn next_to_bottom(cards: Seq<SimCardView>, hand: Seq<u16>) -> int {
    if lands_in(cards, hand) > 3 {
        last_land(cards, hand)
    } else {
        heaviest(cards, hand)
    }
}

/// The hand after `n` cards went to the bottom, and those cards in the order
/// in which they went.
pub open spec fn bottomed(cards: Seq<SimCardView>, hand: Seq<u16>, n: nat) -> (Seq<u16>, Seq<u16>)
    decreases n,
{
    if n == 0 || hand.len() == 0 {
        (hand, seq![])
    } else {
        let p = next_to_bottom(cards, hand);
        let (kept, bottom) = bottomed(cards, hand.remove(p), (n - 1) as nat);
        (kept, seq![hand[p]] + bottom)
    }
}

/// The library and the hand that a shuffled library gives at a hand size;
/// nothing where the drawn cards are not kept. Cards that go to the bottom
/// come before everything else in the list.
pub open spec fn dealt(
    cards: Seq<SimCardView>,
    library: Seq<u16>,
    size: nat,
) -> Option<(Seq<u16>, Seq<u16>)> {
    let n = first_draw(library);
    let drawn = top(library, n);
    if keeps(lands_in(cards, drawn), size) {
        let (hand, bottom) = bottomed(cards, drawn, (7 - size) as nat);
        Some((bottom.reverse() + library.take(library.len() - n), hand))
    } else {
        None
    }
}

proof fn lemma_last_land(cards: Seq<SimCardView>, hand: Seq<u16>)
    requires
        lands_in(cards, hand) > 0,
    ensures
        0 <= last_land(cards, hand) < hand.len(),
        land_at(cards, hand[last_land(cards, hand)]),
        forall|j: int| last_land(cards, hand) < j < hand.len() ==> !land_at(cards, #[trigger] hand[j]),
    decreases hand.len(),
{
    if !land_at(cards, hand.last()) {
        lemma_last_land(cards, hand.drop_last());
        let p = last_land(cards, hand);
        assert forall|j: int| p < j < hand.len() implies !land_at(cards, #[trigger] hand[j]) by {
            if j < hand.len() - 1 {
                assert(hand.drop_last()[j] == hand[j]);
            }
        }
    }
}

proof fn lemma_heaviest(cards: Seq<SimCardView>, hand: Seq<u16>)
    requires
        hand.len() > 0,
    ensures
        0 <= heaviest(cards, hand) < hand.len(),
        forall|j: int|
            0 <= j < hand.len() ==> weight(cards[(#[trigger] hand[j]) as int]) <= weight(
                cards[hand[heaviest(cards, hand)] as int],
            ),
    decreases hand.len(),
{
    if hand.len() > 1 {
        let t = hand.drop_last();
        lemma_heaviest(cards, t);
        assert forall|j: int| 0 <= j < hand.len() implies weight(cards[(#[trigger] hand[j]) as int])
            <= weight(cards[hand[heaviest(cards, hand)] as int]) by {
            if j < t.len() {
                assert(t[j] == hand[j]);
            }
        }
    }
}

fn pick_bottom(deck: &CompiledDeck, hand: &Vec<u16>) -> (p: usize)
    requires
        hand@.len() > 0,
        below(hand@, deck@.cards.len()),
    ensures
        p == next_to_bottom(deck@.cards, hand@),
        p < hand@.len(),
{
    let ghost cards = deck@.cards;
    if count_lands(deck, hand) > 3 {
        proof {
            lemma_last_land(cards, hand@);
        }
        let mut p: usize = hand.len() - 1;
        while !is_land(deck, hand[p])
            invariant
                last_land(cards, hand@) <= p < hand@.len(),
                0 <= last_land(cards, hand@),
                land_at(cards, hand@[last_land(cards, hand@)]),
                below(hand@, deck@.cards.len()),
                cards == deck@.cards,
                forall|j: int| p < j < hand@.len() ==> !land_at(cards, #[trigger] hand@[j]),
            decreases p,
        {
            assert(p != last_land(cards, hand@));
            p -= 1;
        }
        proof {
            lemma_last_land(cards, hand@);
            assert(land_at(cards, hand@[p as int]));
        }
        return p;
    }
    let mut p: usize = 0;
    let mut i: usize = 1;
    assert(hand@.take(1).len() == 1);
    while i < hand.len()
        invariant
            1 <= i <= hand@.len(),
            p < i,
            p == heaviest(cards, hand@.take(i as int)),
            below(hand@, deck@.cards.len()),
            cards == deck@.cards,
        decreases hand@.len() - i,
    {
        assert(hand@.take(i + 1).drop_last() =~= hand@.take(i as int));
        assert(hand@[p as int] < cards.len() && hand@[i as int] < cards.len());
        let a = &deck.cards[hand[p] as usize];
        let b = &deck.cards[hand[i] as usize];
        let wa: u16 = if a.is_land() {
            0
        } else {
            1 + a.mana_value() as u16
        };
        let wb: u16 = if b.is_land() {
            0
        } else {
            1 + b.mana_value() as u16
        };
        assert(wa == weight(cards[hand@[p as int] as int]));
        assert(wb == weight(cards[hand@[i as int] as int]));
        if wa <= wb {
            p = i;
        }
        i += 1;
    }
    assert(hand@.take(i as int) =~= hand@);
    p
}

/// Draws from a shuffled library and, where the cards are kept, puts as many
/// of them to the bottom as the hand size asks for.
pub fn deal(deck: &CompiledDeck, library: Vec<u16>, hand_size: u8) -> (r: Option<
    (Vec<u16>, Vec<u16>),
>)
    requires
        below(library@, deck@.cards.len()),
        hand_size <= 7,
        keeps(lands_in(deck@.cards, top(library@, first_draw(library@))), hand_size as nat) ==> 7
            - hand_size <= library@.len(),
    ensures
        match r {
            Some((lib, hand)) => {
                &&& dealt(deck@.cards, library@, hand_size as nat) == Some((lib@, hand@))
                &&& below(lib@, deck@.cards.len())
                &&& below(hand@, deck@.cards.len())
            },
            None => dealt(deck@.cards, library@, hand_size as nat) is None,
        },
{
    let ghost cards = deck@.cards;
    let ghost all = library@;
    let mut lib = library;
    let n: usize = if lib.len() < 7 {
        lib.len()
    } else {
        7
    };
    let mut hand = draw(&mut lib, n);
    let ghost drawn = hand@;
    assert(below(hand@, cards.len())) by {
        assert forall|i: int| 0 <= i < hand@.len() implies (#[trigger] hand@[i]) < cards.len() by {
            assert(all[all.len() - 1 - i] < cards.len());
        }
    }
    let lands = count_lands(deck, &hand);
    if !keep_decision(lands as u32, hand_size) {
        return None;
    }
    let mut left: usize = (7 - hand_size) as usize;
    let mut bottom: Vec<u16> = Vec::new();
    assert(bottom@ + bottomed(cards, drawn, left as nat).1 =~= bottomed(cards, drawn, left as nat).1);
    while left > 0
        invariant
            left <= hand@.len(),
            cards == deck@.cards,
            below(hand@, cards.len()),
            below(bottom@, cards.len()),
            hand_size <= 7,
            bottomed(cards, drawn, (7 - hand_size) as nat).0 == bottomed(
                cards,
                hand@,
                left as nat,
            ).0,
            bottomed(cards, drawn, (7 - hand_size) as nat).1 == bottom@ + bottomed(
                cards,
                hand@,
                left as nat,
            ).1,
        decreases left,
    {
        let p = pick_bottom(deck, &hand);
        let ghost before = hand@;
        let ghost under = bottom@;
        let ci = hand.remove(p);
        bottom.push(ci);
        left -= 1;
        proof {
            assert(hand@ =~= before.remove(p as int));
            let rest = bottomed(cards, hand@, left as nat).1;
            assert(under + (seq![ci] + rest) =~= bottom@ + rest);
            assert(below(hand@, cards.len())) by {
                assert forall|i: int| 0 <= i < hand@.len() implies (#[trigger] hand@[i])
                    < cards.len() by {
                    assert(before[if i < p {
                        i
                    } else {
                        i + 1
                    }] < cards.len());
                }
            }
            assert(before[p as int] < cards.len());
        }
    }
    assert(bottomed(cards, hand@, 0).1 =~= Seq::<u16>::empty());
    assert(bottom@ + Seq::<u16>::empty() =~= bottom@);
    let ghost rest = lib@;
    let mut i: usize = 0;
    assert(bottom@.take(0).reverse() + rest =~= rest);
    assert(below(lib@, cards.len())) by {
        assert forall|j: int| 0 <= j < lib@.len() implies (#[trigger] lib@[j]) < cards.len() by {
            assert(all[j] < cards.len());
        }
    }
    while i < bottom.len()
        invariant
            i <= bottom@.len(),
            below(bottom@, cards.len()),
            below(lib@, cards.len()),
            lib@ == bottom@.take(i as int).reverse() + rest,
        decreases bottom@.len() - i,
    {
        let ghost before = lib@;
        assert(bottom@[i as int] < cards.len());
        lib.insert(0, bottom[i]);
        i += 1;
        assert(lib@ =~= bottom@.take(i as int).reverse() + rest);
        assert(below(lib@, cards.len())) by {
            assert forall|j: int| 0 <= j < lib@.len() implies (#[trigger] lib@[j]) < cards.len() by {
                if j > 0 {
                    assert(before[j - 1] < cards.len());
                }
            }
        }
    }
    assert(bottom@.take(i as int) =~= bottom@);
    Some((lib, hand))
}

// ---------------------------------------------------------------------------
// The opening hand
// ---------------------------------------------------------------------------

/// A hand that was kept, the library under it, the hand size, and the lengths
/// of all shuffles up to then.
pub ghost struct Opening {
    pub library: Seq<u16>,
    pub hand: Seq<u16>,
    pub size: nat,
    pub earlier: Seq<nat>,
}

/// The opening from a hand size on: the library is shuffled, twice where the
/// hand is smoothed, which only the first hand of seven is, and the cards are
/// dealt; where they are not kept, the next hand is one smaller.
pub open spec fn opening(
    deck: DeckView,
    smoothing: bool,
    seed: u64,
    earlier: Seq<nat>,
    size: nat,
) -> Opening
    decreases size,
{
    let n = deck.library.len();
    let smooth = smoothing && size == 7;
    let first = arranged(deck.library, order_given(seed, earlier, n));
    let second = arranged(deck.library, order_given(seed, earlier.push(n), n));
    let library = if smooth {
        smoother(deck, first, second)
    } else {
        first
    };
    let later = if smooth {
        earlier.push(n).push(n)
    } else {
        earlier.push(n)
    };
    match dealt(deck.cards, library, size) {
        Some((rest, hand)) => Opening { library: rest, hand, size, earlier: later },
        None => if size == 0 {
            Opening { library, hand: seq![], size, earlier: later }
        } else {
            opening(deck, smoothing, seed, later, (size - 1) as nat)
        },
    }
}

/// The deck has enough cards for an opening hand: three cards to put back at
/// a hand size of four, or two lands, which are kept at once.
pub open spec fn playable(deck: DeckView) -> bool {
    ||| deck.library.len() >= 3
    ||| deck.library.len() == 2 && forall|i: int|
        0 <= i < 2 ==> land_at(deck.cards, #[trigger] deck.library[i])
}

/// Whether the deck has enough cards for an opening hand.
pub fn is_playable(deck: &CompiledDeck) -> (r: bool)
    requires
        deck@.wf(),
    ensures
        r == playable(deck@),
{
    if deck.library.len() >= 3 {
        return true;
    }
    if deck.library.len() != 2 {
        return false;
    }
    assert(deck@.library[0] < deck@.cards.len() && deck@.library[1] < deck@.cards.len());
    is_land(deck, deck.library[0]) && is_land(deck, deck.library[1])
}

proof fn lemma_arranged_below(list: Seq<u16>, order: Seq<int>, n: nat)
    requires
        below(list, n),
        is_order(order, list.len()),
    ensures
        below(arranged(list, order), n),
{
    assert forall|i: int| 0 <= i < order.len() implies (#[trigger] arranged(list, order)[i]) < n by {
        assert(list[order[i]] < n);
    }
}

/// Two lands are kept whatever their order.
proof fn lemma_two_lands(deck: DeckView, order: Seq<int>)
    requires
        deck.library.len() == 2,
        playable(deck),
        is_order(order, 2),
    ensures
        lands_in(
            deck.cards,
            top(arranged(deck.library, order), first_draw(arranged(deck.library, order))),
        ) == 2,
{
    let library = arranged(deck.library, order);
    let drawn = top(library, 2);
    assert(0 <= order[0] < 2 && 0 <= order[1] < 2);
    assert(land_at(deck.cards, deck.library[order[0]]));
    assert(land_at(deck.cards, deck.library[order[1]]));
    assert(drawn.drop_last().drop_last() =~= Seq::<u16>::empty());
    reveal_with_fuel(lands_in, 3);
}

/// Shuffles and deals until a hand is kept.
pub fn opening_hand(deck: &CompiledDeck, params: &SimParams, rng: &mut SimRng) -> (r: (
    Vec<u16>,
    Vec<u16>,
    u8,
))
    requires
        deck@.wf(),
        playable(deck@),
    ensures
        ({
            let o = opening(
                deck@,
                params.bo1_smoothing,
                old(rng).seed(),
                old(rng).earlier(),
                7,
            );
            &&& r.0@ == o.library
            &&& r.1@ == o.hand
            &&& r.2 == o.size
            &&& final(rng).earlier() == o.earlier
        }),
        final(rng).seed() == old(rng).seed(),
        below(r.0@, deck@.cards.len()),
        below(r.1@, deck@.cards.len()),
        4 <= r.2 <= 7,
        (r.0@ + r.1@).to_multiset() == deck@.library.to_multiset(),
{
    let ghost seed = rng.seed();
    let ghost n = deck@.library.len();
    let mut hand_size: u8 = 7;
    loop
        invariant
            4 <= hand_size <= 7,
            n >= 3 || hand_size == 7,
            n == deck@.library.len(),
            deck@.wf(),
            playable(deck@),
            seed == old(rng).seed(),
            rng.seed() == seed,
            opening(deck@, params.bo1_smoothing, seed, old(rng).earlier(), 7) == opening(
                deck@,
                params.bo1_smoothing,
                seed,
                rng.earlier(),
                hand_size as nat,
            ),
        decreases hand_size,
    {
        let ghost earlier = rng.earlier();
        let ghost first_order = order_given(seed, earlier, n);
        let mut library = copy_of(&deck.library);
        rng.shuffle(&mut library);
        let ghost first = library@;
        let ghost second_order = order_given(seed, earlier.push(n), n);
        proof {
            lemma_arranged_below(deck@.library, first_order, deck@.cards.len());
            if n == 2 {
                lemma_two_lands(deck@, first_order);
            }
        }
        if hand_size == 7 && params.bo1_smoothing {
            let mut second = copy_of(&deck.library);
            rng.shuffle(&mut second);
            proof {
                lemma_arranged_below(deck@.library, second_order, deck@.cards.len());
                if n == 2 {
                    lemma_two_lands(deck@, second_order);
                }
            }
            library = pick_smoother(deck, library, second);
            proof {
                law_arranged_keeps(deck@.library, second_order);
            }
        }
        proof {
            law_arranged_keeps(deck@.library, first_order);
            if dealt(deck@.cards, library@, hand_size as nat) is Some {
                law_deal_keeps(deck@.cards, library@, hand_size as nat);
            }
        }
        if let Some((rest, hand)) = deal(deck, library, hand_size) {
            return (rest, hand, hand_size);
        }
        hand_size -= 1;
    }
}

fn copy_of(list: &Vec<u16>) -> (r: Vec<u16>)
    ensures
        r@ == list@,
{
    let r = list.clone();
    assert(r@ =~= list@);
    r
}

/// A mulligan ends at four cards at the latest.
pub proof fn law_hand_sizes(
    deck: DeckView,
    smoothing: bool,
    seed: u64,
    earlier: Seq<nat>,
    size: nat,
)
    requires
        4 <= size,
    ensures
        4 <= opening(deck, smoothing, seed, earlier, size).size <= size,
    decreases size,
{
    let n = deck.library.len();
    let later = if smoothing && size == 7 {
        earlier.push(n).push(n)
    } else {
        earlier.push(n)
    };
    if size > 4 {
        law_hand_sizes(deck, smoothing, seed, later, (size - 1) as nat);
    }
}

/// A hand that is kept has two to five lands among the seven cards drawn for
/// it, or it is down to four.
pub proof fn law_kept_hands(cards: Seq<SimCardView>, library: Seq<u16>, size: nat)
    ensures
        dealt(cards, library, size) is Some <==> size <= 4 || 2 <= lands_in(
            cards,
            top(library, first_draw(library)),
        ) <= 5,
{
}

/// Putting cards to the bottom keeps all of them, and takes as many from the
/// hand as asked.
pub proof fn law_bottomed(cards: Seq<SimCardView>, hand: Seq<u16>, n: nat)
    requires
        n <= hand.len(),
    ensures
        bottomed(cards, hand, n).1.len() == n,
        bottomed(cards, hand, n).0.len() == hand.len() - n,
        (bottomed(cards, hand, n).0 + bottomed(cards, hand, n).1).to_multiset()
            == hand.to_multiset(),
    decreases n,
{
    broadcast use vstd::seq_lib::group_to_multiset_ensures;

    if n == 0 {
        assert(hand + Seq::<u16>::empty() =~= hand);
    } else {
        let p = next_to_bottom(cards, hand);
        if lands_in(cards, hand) > 3 {
            lemma_last_land(cards, hand);
        } else {
            lemma_heaviest(cards, hand);
        }
        let rest = hand.remove(p);
        law_bottomed(cards, rest, (n - 1) as nat);
        let (kept, bottom) = bottomed(cards, rest, (n - 1) as nat);
        assert(kept + (seq![hand[p]] + bottom) =~= (kept + bottom).insert(
            kept.len() as int,
            hand[p],
        ));
        vstd::seq_lib::to_multiset_insert(kept + bottom, kept.len() as int, hand[p]);
        assert(hand =~= rest.insert(p, hand[p]));
        vstd::seq_lib::to_multiset_insert(rest, p, hand[p]);
    }
}

/// Dealing keeps every card: hand and library together are the shuffled
/// library, and the hand has as many cards as the hand size says where the
/// library had seven.
pub proof fn law_deal_keeps(cards: Seq<SimCardView>, library: Seq<u16>, size: nat)
    requires
        size <= 7,
        7 - size <= library.len(),
        dealt(cards, library, size) is Some,
    ensures
        ({
            let (rest, hand) = dealt(cards, library, size).unwrap();
            &&& (rest + hand).to_multiset() == library.to_multiset()
            &&& library.len() >= 7 ==> hand.len() == size
        }),
{
    broadcast use vstd::seq_lib::group_to_multiset_ensures;

    let n = first_draw(library);
    let drawn = top(library, n);
    law_bottomed(cards, drawn, (7 - size) as nat);
    let (hand, bottom) = bottomed(cards, drawn, (7 - size) as nat);
    let under = library.take(library.len() - n);
    let rest = bottom.reverse() + under;
    vstd::seq_lib::lemma_multiset_commutative(bottom.reverse(), under);
    vstd::seq_lib::lemma_multiset_commutative(rest, hand);
    vstd::seq_lib::lemma_multiset_commutative(hand, bottom);
    bottom.lemma_reverse_to_multiset();
    assert(drawn.reverse() =~= library.skip(library.len() - n));
    drawn.lemma_reverse_to_multiset();
    assert(library =~= under + library.skip(library.len() - n));
    vstd::seq_lib::lemma_multiset_commutative(under, library.skip(library.len() - n));
    assert((rest + hand).to_multiset() =~= library.to_multiset());
}

/// The opening keeps every card: hand and library together are the deck.
pub proof fn law_opening_keeps(
    deck: DeckView,
    smoothing: bool,
    seed: u64,
    earlier: Seq<nat>,
    size: nat,
)
    requires
        playable(deck),
        4 <= size <= 7,
        deck.library.len() >= 3 || size == 7,
    ensures
        ({
            let o = opening(deck, smoothing, seed, earlier, size);
            (o.library + o.hand).to_multiset() == deck.library.to_multiset()
        }),
    decreases size,
{
    let n = deck.library.len();
    let first_order = order_given(seed, earlier, n);
    let second_order = order_given(seed, earlier.push(n), n);
    let first = arranged(deck.library, first_order);
    let second = arranged(deck.library, second_order);
    let smooth = smoothing && size == 7;
    let library = if smooth {
        smoother(deck, first, second)
    } else {
        first
    };
    law_shuffles_are_orders(seed, earlier, n);
    law_shuffles_are_orders(seed, earlier.push(n), n);
    law_arranged_keeps(deck.library, first_order);
    law_arranged_keeps(deck.library, second_order);
    if n == 2 {
        lemma_two_lands(deck, first_order);
        lemma_two_lands(deck, second_order);
    }
    if dealt(deck.cards, library, size) is Some {
        law_deal_keeps(deck.cards, library, size);
    } else {
        let later = if smooth {
            earlier.push(n).push(n)
        } else {
            earlier.push(n)
        };
        law_opening_keeps(deck, smoothing, seed, later, (size - 1) as nat);
    }
}

/// The cards of the opening are cards of the deck.
pub proof fn lemma_opening_below(
    deck: DeckView,
    smoothing: bool,
    seed: u64,
    earlier: Seq<nat>,
)
    requires
        deck.wf(),
        playable(deck),
    ensures
        below(opening(deck, smoothing, seed, earlier, 7).library, deck.cards.len()),
        below(opening(deck, smoothing, seed, earlier, 7).hand, deck.cards.len()),
{
    let o = opening(deck, smoothing, seed, earlier, 7);
    let both = o.library + o.hand;
    law_opening_keeps(deck, smoothing, seed, earlier, 7);
    both.to_multiset_ensures();
    deck.library.to_multiset_ensures();
    assert forall|i: int| 0 <= i < both.len() implies #[trigger] both[i] < deck.cards.len() by {
        assert(both.contains(both[i]));
        assert(deck.library.to_multiset().count(both[i]) > 0);
        let k = choose|k: int| 0 <= k < deck.library.len() && deck.library[k] == both[i];
        assert(deck.library[k] < deck.cards.len());
    }
    assert forall|i: int| 0 <= i < o.library.len() implies #[trigger] o.library[i]
        < deck.cards.len() by {
        assert(both[i] == o.library[i]);
    }
    assert forall|i: int| 0 <= i < o.hand.len() implies #[trigger] o.hand[i] < deck.cards.len() by {
        assert(both[o.library.len() + i] == o.hand[i]);
    }
}

proof fn lemma_lands_agree(a: Seq<SimCardView>, b: Seq<SimCardView>, list: Seq<u16>)
    requires
        forall|i: int| 0 <= i < list.len() ==> a[(#[trigger] list[i]) as int] == b[list[i] as int],
    ensures
        lands_in(a, list) == lands_in(b, list),
    decreases list.len(),
{
    if list.len() > 0 {
        let rest = list.drop_last();
        assert forall|i: int| 0 <= i < rest.len() implies a[(#[trigger] rest[i]) as int]
            == b[rest[i] as int] by {
            assert(rest[i] == list[i]);
        }
        lemma_lands_agree(a, b, rest);
        assert(list[list.len() - 1] == list.last());
    }
}

proof fn lemma_lands_more(cards: Seq<SimCardView>, list: Seq<u16>, ci: u16, n: nat)
    ensures
        lands_in(cards, list + Seq::new(n, |k: int| ci)) == lands_in(cards, list) + if land_at(
            cards,
            ci,
        ) {
            n
        } else {
            0
        },
    decreases n,
{
    let all = list + Seq::new(n, |k: int| ci);
    if n == 0 {
        assert(all =~= list);
    } else {
        lemma_lands_more(cards, list, ci, (n - 1) as nat);
        assert(all.drop_last() =~= list + Seq::new((n - 1) as nat, |k: int| ci));
    }
}

/// The library of a compiled deck holds as many lands as the deck counts. The
/// positions of more cards than 16 bits tell apart would not all fit in it.
pub proof fn law_lands_counted(cards: Seq<SimCardView>)
    requires
        cards.len() <= 0x1_0000,
    ensures
        lands_in(cards, spread(cards)) == lands_among(cards),
    decreases cards.len(),
{
    if cards.len() > 0 {
        let rest = cards.drop_last();
        law_lands_counted(rest);
        lemma_spread_in(rest);
        assert forall|i: int| 0 <= i < spread(rest).len() implies cards[(#[trigger] spread(
            rest,
        )[i]) as int] == rest[spread(rest)[i] as int] by {}
        lemma_lands_agree(cards, rest, spread(rest));
        let ci = ((cards.len() - 1) % 0x1_0000) as u16;
        lemma_lands_more(cards, spread(rest), ci, cards.last().quantity as nat);
        assert(spread(cards) =~= spread(rest) + Seq::new(
            cards.last().quantity as nat,
            |k: int| ci,
        ));
    }
}

/// How many of the first seven cards on top of a library are lands.
pub open spec fn lands_on_top(deck: DeckView, library: Seq<u16>) -> nat {
    lands_in(deck.cards, library.skip(library.len() - 7))
}

/// How far a number is from another.
pub open spec fn apart(a: int, b: int) -> int {
    if a < b {
        b - a
    } else {
        a - b
    }
}

/// Of two shuffles of a deck of seven cards or more the one is kept whose top
/// seven cards have the share of lands that is closer to the deck's own; the
/// first where both are as close.
pub proof fn law_smoother(deck: DeckView, first: Seq<u16>, second: Seq<u16>)
    requires
        deck.library.len() >= 7,
        first.len() == deck.library.len(),
        second.len() == deck.library.len(),
    ensures
        ({
            let size = deck.library.len();
            let a = apart((lands_on_top(deck, first) * size) as int, 7 * deck.land_count);
            let b = apart((lands_on_top(deck, second) * size) as int, 7 * deck.land_count);
            &&& b < a ==> smoother(deck, first, second) == second
            &&& a <= b ==> smoother(deck, first, second) == first
        }),
{
    lemma_lands_on_top(deck.cards, first, 7);
    lemma_lands_on_top(deck.cards, second, 7);
}

/// The same cards are on top whichever way they are counted.
proof fn lemma_lands_on_top(cards: Seq<SimCardView>, library: Seq<u16>, n: int)
    requires
        0 <= n <= library.len(),
    ensures
        lands_in(cards, top(library, n)) == lands_in(cards, library.skip(library.len() - n)),
    decreases n,
{
    let up = library.skip(library.len() - n);
    if n == 0 {
        assert(top(library, n) =~= up);
    } else {
        lemma_lands_on_top(cards, library, n - 1);
        assert(top(library, n).drop_last() =~= top(library, n - 1));
        assert(top(library, n).last() == library[library.len() - n]);
        assert(up =~= seq![library[library.len() - n]] + library.skip(library.len() - n + 1));
        lemma_lands_behind(cards, library[library.len() - n], library.skip(library.len() - n + 1));
    }
}

proof fn lemma_lands_behind(cards: Seq<SimCardView>, ci: u16, list: Seq<u16>)
    ensures
        lands_in(cards, seq![ci] + list) == lands_in(cards, list) + if land_at(cards, ci) {
            1nat
        } else {
            0nat
        },
    decreases list.len(),
{
    let all = seq![ci] + list;
    if list.len() == 0 {
        assert(all.drop_last() =~= list);
        assert(all.last() == ci);
    } else {
        lemma_lands_behind(cards, ci, list.drop_last());
        assert(all.drop_last() =~= seq![ci] + list.drop_last());
        assert(all.last() == list.last());
    }
}

/// Which card goes to the bottom next: a land while the hand has more than
/// three; else a card that is no land, and of those one of the highest mana
/// value; and a land again where there is nothing else.
pub proof fn law_next_to_bottom(cards: Seq<SimCardView>, hand: Seq<u16>)
    requires
        hand.len() > 0,
    ensures
        ({
            let p = next_to_bottom(cards, hand);
            let gone = cards[hand[p] as int];
            &&& 0 <= p < hand.len()
            &&& lands_in(cards, hand) > 3 ==> gone.kind is Land
            &&& lands_in(cards, hand) <= 3 ==> forall|i: int|
                0 <= i < hand.len() && !(cards[(#[trigger] hand[i]) as int].kind is Land)
                    ==> !(gone.kind is Land) && cards[hand[i] as int].value() <= gone.value()
        }),
{
    if lands_in(cards, hand) > 3 {
        lemma_last_is_land(cards, hand);
    } else {
        lemma_heaviest_is(cards, hand);
    }
}

proof fn lemma_last_is_land(cards: Seq<SimCardView>, hand: Seq<u16>)
    requires
        lands_in(cards, hand) > 0,
    ensures
        0 <= last_land(cards, hand) < hand.len(),
        land_at(cards, hand[last_land(cards, hand)]),
    decreases hand.len(),
{
    if !land_at(cards, hand.last()) {
        lemma_last_is_land(cards, hand.drop_last());
    }
}

proof fn lemma_heaviest_is(cards: Seq<SimCardView>, hand: Seq<u16>)
    requires
        hand.len() > 0,
    ensures
        0 <= heaviest(cards, hand) < hand.len(),
        forall|i: int|
            0 <= i < hand.len() ==> weight(cards[(#[trigger] hand[i]) as int]) <= weight(
                cards[hand[heaviest(cards, hand)] as int],
            ),
    decreases hand.len(),
{
    if hand.len() > 1 {
        let rest = hand.drop_last();
        lemma_heaviest_is(cards, rest);
        assert forall|i: int| 0 <= i < hand.len() implies weight(
            cards[(#[trigger] hand[i]) as int],
        ) <= weight(cards[hand[heaviest(cards, hand)] as int]) by {
            if i < rest.len() {
                assert(rest[i] == hand[i]);
            }
        }
    }
}

/// Cards go to the bottom one at a time, and each next one is chosen from what
/// is left.
pub proof fn law_one_more_to_bottom(cards: Seq<SimCardView>, hand: Seq<u16>, n: nat)
    requires
        n < hand.len(),
    ensures
        ({
            let (kept, bottom) = bottomed(cards, hand, n);
            let p = next_to_bottom(cards, kept);
            &&& 0 <= p < kept.len()
            &&& bottomed(cards, hand, n + 1) == (kept.remove(p), bottom.push(kept[p]))
        }),
    decreases n,
{
    law_next_to_bottom(cards, hand);
    let p = next_to_bottom(cards, hand);
    let rest = hand.remove(p);
    if n == 0 {
        assert(bottomed(cards, rest, 0) == (rest, Seq::<u16>::empty()));
        assert(seq![hand[p]] + Seq::<u16>::empty() =~= Seq::<u16>::empty().push(hand[p]));
    } else {
        law_one_more_to_bottom(cards, rest, (n - 1) as nat);
        let (kept, bottom) = bottomed(cards, rest, (n - 1) as nat);
        let q = next_to_bottom(cards, kept);
        assert(seq![hand[p]] + bottom.push(kept[q]) =~= (seq![hand[p]] + bottom).push(kept[q]));
    }
}

/// Seven cards are drawn from the top of the library, whatever the hand size;
/// a hand of seven holds just those, and the rest of the library lies as it
/// lay.
pub proof fn law_first_hand(cards: Seq<SimCardView>, library: Seq<u16>)
    requires
        library.len() >= 7,
        dealt(cards, library, 7) is Some,
    ensures
        ({
            let (rest, hand) = dealt(cards, library, 7).unwrap();
            &&& rest == library.take(library.len() - 7)
            &&& hand == library.skip(library.len() - 7).reverse()
        }),
{
    let (rest, hand) = dealt(cards, library, 7).unwrap();
    assert(bottomed(cards, top(library, 7), 0) == (top(library, 7), Seq::<u16>::empty()));
    assert(Seq::<u16>::empty().reverse() =~= Seq::<u16>::empty());
    assert(rest =~= library.take(library.len() - 7));
    assert(hand =~= library.skip(library.len() - 7).reverse());
}

/// After a mulligan seven cards are drawn all the same; those that go to the
/// bottom lie under the rest of the library.
pub proof fn law_smaller_hands(cards: Seq<SimCardView>, library: Seq<u16>, size: nat)
    requires
        library.len() >= 7,
        size <= 7,
        dealt(cards, library, size) is Some,
    ensures
        ({
            let (rest, hand) = dealt(cards, library, size).unwrap();
            let drawn = library.skip(library.len() - 7);
            &&& hand.len() == size
            &&& rest.len() == library.len() - size
            &&& rest.skip(7 - size) == library.take(library.len() - 7)
            &&& (rest.take(7 - size) + hand).to_multiset() == drawn.to_multiset()
        }),
{
    broadcast use vstd::seq_lib::group_to_multiset_ensures;

    let n = (7 - size) as nat;
    let drawn = top(library, 7);
    let up = library.skip(library.len() - 7);
    let (rest, hand) = dealt(cards, library, size).unwrap();
    let (kept, bottom) = bottomed(cards, drawn, n);
    law_bottomed(cards, drawn, n);
    assert(rest.skip(7 - size) =~= library.take(library.len() - 7));
    assert(rest.take(7 - size) =~= bottom.reverse());
    bottom.lemma_reverse_to_multiset();
    up.lemma_reverse_to_multiset();
    assert(up.reverse() =~= drawn);
    vstd::seq_lib::lemma_multiset_commutative(bottom.reverse(), kept);
    vstd::seq_lib::lemma_multiset_commutative(kept, bottom);
}

/// How a hand comes about: the library is shuffled anew for each hand size, the
/// first hand of a smoothed game is the better of two shuffles, and a hand that
/// is not kept is dealt again with one card fewer, which is never smoothed.
pub proof fn law_opening(
    deck: DeckView,
    smoothing: bool,
    seed: u64,
    earlier: Seq<nat>,
    size: nat,
)
    requires
        0 < size <= 7,
    ensures
        ({
            let n = deck.library.len();
            let first = arranged(deck.library, order_given(seed, earlier, n));
            let second = arranged(deck.library, order_given(seed, earlier.push(n), n));
            let o = opening(deck, smoothing, seed, earlier, size);
            let twice = smoothing && size == 7;
            let used = if twice {
                smoother(deck, first, second)
            } else {
                first
            };
            let later = if twice {
                earlier + seq![n, n]
            } else {
                earlier + seq![n]
            };
            &&& dealt(deck.cards, used, size) is Some ==> o.size == size && dealt(
                deck.cards,
                used,
                size,
            ) == Some((o.library, o.hand)) && o.earlier == later
            &&& dealt(deck.cards, used, size) is None ==> o == opening(
                deck,
                false,
                seed,
                later,
                (size - 1) as nat,
            )
            &&& o.earlier.len() > earlier.len()
        }),
    decreases size,
{
    let n = deck.library.len();
    let twice = smoothing && size == 7;
    let later = if twice {
        earlier.push(n).push(n)
    } else {
        earlier.push(n)
    };
    assert(earlier.push(n).push(n) =~= earlier + seq![n, n]);
    assert(earlier.push(n) =~= earlier + seq![n]);
    lemma_smoothed_once(deck, smoothing, seed, later, (size - 1) as nat);
    lemma_shuffles_grow(deck, smoothing, seed, earlier, size);
}

proof fn lemma_smoothed_once(
    deck: DeckView,
    smoothing: bool,
    seed: u64,
    earlier: Seq<nat>,
    size: nat,
)
    requires
        size < 7,
    ensures
        opening(deck, smoothing, seed, earlier, size) == opening(deck, false, seed, earlier, size),
    decreases size,
{
    if size > 0 {
        lemma_smoothed_once(
            deck,
            smoothing,
            seed,
            earlier.push(deck.library.len()),
            (size - 1) as nat,
        );
    }
}

proof fn lemma_shuffles_grow(
    deck: DeckView,
    smoothing: bool,
    seed: u64,
    earlier: Seq<nat>,
    size: nat,
)
    ensures
        opening(deck, smoothing, seed, earlier, size).earlier.len() > earlier.len(),
    decreases size,
{
    let n = deck.library.len();
    let later = if smoothing && size == 7 {
        earlier.push(n).push(n)
    } else {
        earlier.push(n)
    };
    if size > 0 {
        lemma_shuffles_grow(deck, smoothing, seed, later, (size - 1) as nat);
    }
}

/// Of several cards that could go to the bottom the last in hand goes: the last
/// land while there are too many, and else the last of the highest mana value.
pub proof fn law_last_goes_first(cards: Seq<SimCardView>, hand: Seq<u16>, i: int)
    requires
        hand.len() > 0,
        next_to_bottom(cards, hand) < i < hand.len(),
    ensures
        ({
            let gone = cards[hand[next_to_bottom(cards, hand)] as int];
            let other = cards[hand[i] as int];
            &&& lands_in(cards, hand) > 3 ==> !(other.kind is Land)
            &&& lands_in(cards, hand) <= 3 && !(other.kind is Land) ==> !(gone.kind is Land)
                && other.value() < gone.value()
        }),
{
    law_next_to_bottom(cards, hand);
    if lands_in(cards, hand) > 3 {
        lemma_last_land_is_last(cards, hand, i);
    } else {
        lemma_heaviest_is_last(cards, hand, i);
    }
}

proof fn lemma_last_land_is_last(cards: Seq<SimCardView>, hand: Seq<u16>, i: int)
    requires
        last_land(cards, hand) < i < hand.len(),
        0 <= i,
    ensures
        !land_at(cards, hand[i]),
    decreases hand.len(),
{
    if land_at(cards, hand.last()) {
    } else if i < hand.len() - 1 {
        lemma_last_land_is_last(cards, hand.drop_last(), i);
    }
}

proof fn lemma_heaviest_is_last(cards: Seq<SimCardView>, hand: Seq<u16>, i: int)
    requires
        heaviest(cards, hand) < i < hand.len(),
    ensures
        weight(cards[hand[i] as int]) < weight(cards[hand[heaviest(cards, hand)] as int]),
    decreases hand.len(),
{
    if hand.len() > 1 {
        let rest = hand.drop_last();
        lemma_heaviest_is(cards, rest);
        let p = heaviest(cards, rest);
        if weight(cards[hand[p] as int]) <= weight(cards[hand.last() as int]) {
        } else if i < hand.len() - 1 {
            assert(heaviest(cards, hand) == p);
            lemma_heaviest_is_last(cards, rest, i);
            assert(rest[i] == hand[i]);
        }
    }
}

} // verus!
