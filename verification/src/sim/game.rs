//! One game: the turns of a pilot who plays a land where there is one, casts
//! nothing, and looks at what could be cast.
use vstd::prelude::*;

use super::compile::{CompiledDeck, DeckView, KindView, SimCardView};
use super::deal::{below, count_lands, is_land, land_at, lands_in};
use super::mana::{can_pay, ColorMask, CostView};

verus! {

/// The table in the course of a game.
pub ghost struct Table {
    /// What is left to draw; the top is the end.
    pub library: Seq<u16>,
    pub hand: Seq<u16>,
    /// For each card in hand whether it was already counted for the curve.
    pub committed: Seq<bool>,
    /// What each land in play makes.
    pub lands: Seq<ColorMask>,
    /// All colors that the lands in play make.
    pub colors: ColorMask,
    /// A land was played on every turn so far.
    pub drops: bool,
    /// The curve was met on every turn so far.
    pub curve: bool,
    /// For each card of the deck the turn on which it could first be cast.
    pub first_cast: Seq<Option<u8>>,
    /// For each card of the deck the turn on which it was first drawn.
    pub first_drawn: Seq<Option<u8>>,
}

/// Some card of the list is the card at position `c` of the deck.
pub open spec fn holds(list: Seq<u16>, c: int) -> bool {
    exists|i: int| 0 <= i < list.len() && #[trigger] list[i] == c
}

/// The table before the first turn. Cards of the opening hand count as drawn
/// on the first turn.
pub open spec fn table(cards: nat, library: Seq<u16>, hand: Seq<u16>) -> Table {
    Table {
        library,
        hand,
        committed: Seq::new(hand.len(), |i: int| false),
        lands: seq![],
        colors: ColorMask(0),
        drops: true,
        curve: true,
        first_cast: Seq::new(cards, |c: int| None),
        first_drawn: Seq::new(
            cards,
            |c: int|
                if holds(hand, c) {
                    Some(1u8)
                } else {
                    None
                },
        ),
    }
}

/// The turn, where there is none yet.
pub open spec fn noted(turn: Option<u8>, t: u8) -> Option<u8> {
    match turn {
        Some(u) => Some(u),
        None => Some(t),
    }
}

/// After a draw: nothing changes with an empty library.
pub open spec fn drew(tb: Table, t: u8) -> Table {
    if tb.library.len() == 0 {
        tb
    } else {
        let ci = tb.library.last();
        Table {
            library: tb.library.drop_last(),
            hand: tb.hand.push(ci),
            committed: tb.committed.push(false),
            first_drawn: tb.first_drawn.update(
                ci as int,
                noted(tb.first_drawn[ci as int], t),
            ),
            ..tb
        }
    }
}

/// What a land makes; nothing for every other card.
pub open spec fn makes(card: SimCardView) -> ColorMask {
    match card.kind {
        KindView::Land(m) => m,
        _ => ColorMask(0),
    }
}

/// Of two lands the second is at least as good: it makes more of the missing
/// colors, or as many of them and no fewer colors in all.
pub open spec fn as_good(a: ColorMask, b: ColorMask, missing: ColorMask) -> bool {
    let x = ColorMask(a.0 & missing.0).size();
    let y = ColorMask(b.0 & missing.0).size();
    x < y || (x == y && a.size() <= b.size())
}

/// The position of the best land in hand, the last of several equally good.
pub open spec fn land_choice(
    cards: Seq<SimCardView>,
    hand: Seq<u16>,
    missing: ColorMask,
) -> Option<int>
    decreases hand.len(),
{
    if hand.len() == 0 {
        None
    } else {
        let before = land_choice(cards, hand.drop_last(), missing);
        if !land_at(cards, hand.last()) {
            before
        } else {
            match before {
                Some(p) if !as_good(
                    makes(cards[hand[p] as int]),
                    makes(cards[hand.last() as int]),
                    missing,
                ) => Some(p),
                _ => Some(hand.len() - 1),
            }
        }
    }
}

/// All colors that the deck asks for.
pub open spec fn all_needed(list: Seq<(u8, u8)>) -> ColorMask
    decreases list.len(),
{
    if list.len() == 0 {
        ColorMask(0)
    } else {
        all_needed(list.drop_last()).with(ColorMask(list.last().0))
    }
}

/// After the land drop.
pub open spec fn landed(deck: DeckView, tb: Table) -> Table {
    let missing = ColorMask(all_needed(deck.colors_needed).0 & !tb.colors.0);
    match land_choice(deck.cards, tb.hand, missing) {
        Some(p) => {
            let m = makes(deck.cards[tb.hand[p] as int]);
            Table {
                hand: tb.hand.remove(p),
                committed: tb.committed.remove(p),
                lands: tb.lands.push(m),
                colors: tb.colors.with(m),
                ..tb
            }
        },
        None => Table { drops: false, ..tb },
    }
}

/// The card is a spell that the lands can pay for.
pub open spec fn castable(card: SimCardView, lands: Seq<ColorMask>) -> bool {
    match card.kind {
        KindView::Spell(cost) => cost.payable(lands),
        _ => false,
    }
}

/// After the look at what can be cast: each card in hand that the lands can
/// pay for gets this turn as its first, if it has none.
pub open spec fn sampled(deck: DeckView, tb: Table, t: u8) -> Table {
    Table {
        first_cast: Seq::new(
            tb.first_cast.len(),
            |c: int|
                if tb.first_cast[c] is None && holds(tb.hand, c) && castable(
                    deck.cards[c],
                    tb.lands,
                ) {
                    Some(t)
                } else {
                    tb.first_cast[c]
                },
        ),
        ..tb
    }
}

/// The card is a spell of this mana value.
pub open spec fn spell_of(card: SimCardView, value: int) -> bool {
    card.kind is Spell && card.value() == value
}

/// The deck has a spell of this mana value.
pub open spec fn has_value(cards: Seq<SimCardView>, value: int) -> bool {
    exists|c: int| 0 <= c < cards.len() && spell_of(#[trigger] cards[c], value)
}

/// The card in hand can meet the curve: it was not counted yet, and it is a
/// spell of this mana value that the lands can pay for.
pub open spec fn meets_curve(deck: DeckView, tb: Table, t: int, i: int) -> bool {
    &&& !tb.committed[i]
    &&& spell_of(deck.cards[tb.hand[i] as int], t)
    &&& castable(deck.cards[tb.hand[i] as int], tb.lands)
}

/// The first of the first `n` cards in hand that can meet the curve.
pub open spec fn curve_choice(deck: DeckView, tb: Table, t: int, n: int) -> Option<int>
    decreases n,
{
    if n <= 0 {
        None
    } else {
        match curve_choice(deck, tb, t, n - 1) {
            Some(i) => Some(i),
            None => if meets_curve(deck, tb, t, n - 1) {
                Some(n - 1)
            } else {
                None
            },
        }
    }
}

/// After the curve was looked at, on the turns one to four on which the deck
/// has a spell to play.
pub open spec fn curved(deck: DeckView, tb: Table, t: int) -> Table {
    if tb.curve && 1 <= t <= 4 && has_value(deck.cards, t) {
        match curve_choice(deck, tb, t, tb.hand.len() as int) {
            Some(i) => Table { committed: tb.committed.update(i, true), ..tb },
            None => Table { curve: false, ..tb },
        }
    } else {
        tb
    }
}

/// After turn `t`. Who is on the play does not draw on the first turn.
pub open spec fn turn(deck: DeckView, on_play: bool, tb: Table, t: int) -> Table {
    let a = if t == 1 && on_play {
        tb
    } else {
        drew(tb, t as u8)
    };
    curved(deck, sampled(deck, landed(deck, a), t as u8), t)
}

/// The table after `t` turns.
pub open spec fn after(deck: DeckView, on_play: bool, start: Table, t: nat) -> Table
    decreases t,
{
    if t == 0 {
        start
    } else {
        turn(deck, on_play, after(deck, on_play, start, (t - 1) as nat), t as int)
    }
}

/// The table fits the deck.
pub open spec fn fits(deck: DeckView, tb: Table) -> bool {
    &&& below(tb.library, deck.cards.len())
    &&& below(tb.hand, deck.cards.len())
    &&& tb.committed.len() == tb.hand.len()
    &&& tb.first_cast.len() == deck.cards.len()
    &&& tb.first_drawn.len() == deck.cards.len()
}

/// The state of a game that is being played.
struct Play {
    library: Vec<u16>,
    hand: Vec<u16>,
    committed: Vec<bool>,
    lands: Vec<ColorMask>,
    colors: ColorMask,
    drops: bool,
    curve: bool,
    first_cast: Vec<Option<u8>>,
    first_drawn: Vec<Option<u8>>,
}

impl View for Play {
    type V = Table;

    closed spec fn view(&self) -> Table {
        Table {
            library: self.library@,
            hand: self.hand@,
            committed: self.committed@,
            lands: self.lands@,
            colors: self.colors,
            drops: self.drops,
            curve: self.curve,
            first_cast: self.first_cast@,
            first_drawn: self.first_drawn@,
        }
    }
}

proof fn lemma_land_choice(cards: Seq<SimCardView>, hand: Seq<u16>, missing: ColorMask)
    ensures
        match land_choice(cards, hand, missing) {
            Some(p) => 0 <= p < hand.len() && land_at(cards, hand[p]),
            None => forall|i: int| 0 <= i < hand.len() ==> !land_at(cards, #[trigger] hand[i]),
        },
    decreases hand.len(),
{
    if hand.len() > 0 {
        lemma_land_choice(cards, hand.drop_last(), missing);
        if land_choice(cards, hand, missing) is None {
            assert forall|i: int| 0 <= i < hand.len() implies !land_at(
                cards,
                #[trigger] hand[i],
            ) by {
                if i < hand.len() - 1 {
                    assert(hand.drop_last()[i] == hand[i]);
                }
            }
        }
    }
}

/// The land that is played is the best in hand: no other makes more of the
/// missing colors, nor as many of them and more colors in all.
pub proof fn law_best_land(cards: Seq<SimCardView>, hand: Seq<u16>, missing: ColorMask, i: int)
    requires
        0 <= i < hand.len(),
        land_at(cards, hand[i]),
    ensures
        land_choice(cards, hand, missing) is Some,
        as_good(
            makes(cards[hand[i] as int]),
            makes(cards[hand[land_choice(cards, hand, missing).unwrap()] as int]),
            missing,
        ),
    decreases hand.len(),
{
    let t = hand.drop_last();
    lemma_land_choice(cards, t, missing);
    if i < t.len() {
        law_best_land(cards, t, missing, i);
    }
}

proof fn lemma_curve_choice(deck: DeckView, tb: Table, t: int, n: int)
    requires
        0 <= n <= tb.hand.len(),
    ensures
        match curve_choice(deck, tb, t, n) {
            Some(i) => 0 <= i < n && meets_curve(deck, tb, t, i) && forall|j: int|
                0 <= j < i ==> !meets_curve(deck, tb, t, j),
            None => forall|j: int| 0 <= j < n ==> !meets_curve(deck, tb, t, j),
        },
    decreases n,
{
    if n > 0 {
        lemma_curve_choice(deck, tb, t, n - 1);
    }
}

proof fn lemma_curve_found(deck: DeckView, tb: Table, t: int, n: int, m: int)
    requires
        0 <= n <= m,
        curve_choice(deck, tb, t, n) is Some,
    ensures
        curve_choice(deck, tb, t, m) == curve_choice(deck, tb, t, n),
    decreases m - n,
{
    if n < m {
        lemma_curve_found(deck, tb, t, n, m - 1);
    }
}

impl Play {
    fn draw(&mut self, deck: &CompiledDeck, t: u8)
        requires
            fits(deck@, old(self)@),
        ensures
            final(self)@ == drew(old(self)@, t),
            fits(deck@, final(self)@),
    {
        let ghost before = self@;
        if let Some(ci) = self.library.pop() {
            assert(ci == before.library[before.library.len() - 1]);
            assert(ci < deck@.cards.len());
            self.hand.push(ci);
            self.committed.push(false);
            let c: usize = ci as usize;
            if self.first_drawn[c].is_none() {
                self.first_drawn.set(c, Some(t));
            } else {
                assert(self.first_drawn@ =~= before.first_drawn.update(
                    ci as int,
                    noted(before.first_drawn[ci as int], t),
                ));
            }
        }
        assert(below(self@.library, deck@.cards.len())) by {
            assert forall|i: int| 0 <= i < self@.library.len() implies (#[trigger] self@.library[i])
                < deck@.cards.len() by {
                assert(before.library[i] < deck@.cards.len());
            }
        }
        assert(below(self@.hand, deck@.cards.len())) by {
            assert forall|i: int| 0 <= i < self@.hand.len() implies (#[trigger] self@.hand[i])
                < deck@.cards.len() by {
                if i < before.hand.len() {
                    assert(before.hand[i] < deck@.cards.len());
                }
            }
        }
    }

    fn play_land(&mut self, deck: &CompiledDeck)
        requires
            fits(deck@, old(self)@),
        ensures
            final(self)@ == landed(deck@, old(self)@),
            fits(deck@, final(self)@),
    {
        let ghost cards = deck@.cards;
        let ghost before = self@;
        let needed = needed_union(deck);
        let missing = ColorMask(needed.0 & !self.colors.0);
        let mut best: Option<usize> = None;
        let mut i: usize = 0;
        assert(self.hand@.take(0) =~= Seq::<u16>::empty());
        while i < self.hand.len()
            invariant
                i <= self.hand@.len(),
                *self == *old(self),
                cards == deck@.cards,
                fits(deck@, self@),
                match best {
                    Some(p) => land_choice(cards, self.hand@.take(i as int), missing) == Some(
                        p as int,
                    ) && p < i && land_at(cards, self.hand@[p as int]),
                    None => land_choice(cards, self.hand@.take(i as int), missing) is None,
                },
            decreases self.hand@.len() - i,
        {
            assert(self.hand@.take(i + 1).drop_last() =~= self.hand@.take(i as int));
            assert(self@.hand[i as int] < cards.len());
            if is_land(deck, self.hand[i]) {
                match best {
                    Some(p) => {
                        assert(self@.hand[p as int] < cards.len());
                        let a = made(deck, self.hand[p]);
                        let b = made(deck, self.hand[i]);
                        let x = ColorMask(a.0 & missing.0).color_count();
                        let y = ColorMask(b.0 & missing.0).color_count();
                        if x < y || (x == y && a.color_count() <= b.color_count()) {
                            best = Some(i);
                        }
                    },
                    None => {
                        best = Some(i);
                    },
                }
            }
            i += 1;
        }
        assert(self.hand@.take(i as int) =~= self.hand@);
        match best {
            Some(p) => {
                assert(self@.hand[p as int] < cards.len());
                let m = made(deck, self.hand[p]);
                let _ci = self.hand.remove(p);
                let _was = self.committed.remove(p);
                self.lands.push(m);
                self.colors = self.colors.union(m);
                proof {
                    assert(self.hand@ =~= before.hand.remove(p as int));
                    assert(self.committed@ =~= before.committed.remove(p as int));
                    assert(below(self@.hand, cards.len())) by {
                        assert forall|j: int| 0 <= j < self@.hand.len() implies (
                        #[trigger] self@.hand[j]) < cards.len() by {
                            assert(before.hand[if j < p {
                                j
                            } else {
                                j + 1
                            }] < cards.len());
                        }
                    }
                }
            },
            None => {
                self.drops = false;
            },
        }
    }

    fn sample(&mut self, deck: &CompiledDeck, t: u8)
        requires
            fits(deck@, old(self)@),
        ensures
            final(self)@ == sampled(deck@, old(self)@, t),
            fits(deck@, final(self)@),
    {
        let ghost before = self@;
        let ghost cards = deck@.cards;
        let mut i: usize = 0;
        while i < self.hand.len()
            invariant
                i <= self.hand@.len(),
                cards == deck@.cards,
                fits(deck@, self@),
                before == old(self)@,
                self@ == (Table { first_cast: self.first_cast@, ..before }),
                forall|c: int|
                    0 <= c < cards.len() ==> #[trigger] self.first_cast@[c] == (
                    if before.first_cast[c] is None && holds(before.hand.take(i as int), c)
                        && castable(cards[c], before.lands) {
                        Some(t)
                    } else {
                        before.first_cast[c]
                    }),
            decreases self.hand@.len() - i,
        {
            let ghost now = self.first_cast@;
            assert(self@.hand[i as int] < cards.len());
            let idx: usize = self.hand[i] as usize;
            let mut found = false;
            if self.first_cast[idx].is_none() {
                if let Some(cost) = deck.cards[idx].cost() {
                    found = can_pay(cost, self.lands.as_slice());
                }
            }
            assert(found == (now[idx as int] is None && castable(cards[idx as int], before.lands)));
            if found {
                self.first_cast.set(idx, Some(t));
            }
            proof {
                let a = before.hand.take(i as int);
                let b = before.hand.take(i + 1);
                assert forall|c: int| 0 <= c < cards.len() implies #[trigger] self.first_cast@[c]
                    == (if before.first_cast[c] is None && holds(b, c) && castable(
                    cards[c],
                    before.lands,
                ) {
                    Some(t)
                } else {
                    before.first_cast[c]
                }) by {
                    assert(now[c] == (if before.first_cast[c] is None && holds(a, c) && castable(
                        cards[c],
                        before.lands,
                    ) {
                        Some(t)
                    } else {
                        before.first_cast[c]
                    }));
                    if holds(a, c) {
                        let k = choose|k: int| 0 <= k < a.len() && #[trigger] a[k] == c;
                        assert(b[k] == c);
                    }
                    if c == idx {
                        assert(b[i as int] == c);
                    } else if holds(b, c) {
                        let k = choose|k: int| 0 <= k < b.len() && #[trigger] b[k] == c;
                        assert(a[k] == c);
                    }
                }
            }
            i += 1;
        }
        proof {
            assert(before.hand.take(i as int) =~= before.hand);
            assert(self.first_cast@ =~= sampled(deck@, before, t).first_cast);
        }
    }

    fn look_at_curve(&mut self, deck: &CompiledDeck, has_mv: &Vec<bool>, t: usize)
        requires
            fits(deck@, old(self)@),
            1 <= t <= 255,
            has_mv@.len() == 5,
            forall|v: int| 1 <= v <= 4 ==> #[trigger] has_mv@[v] == has_value(deck@.cards, v),
        ensures
            final(self)@ == curved(deck@, old(self)@, t as int),
            fits(deck@, final(self)@),
    {
        if !self.curve || t > 4 || !has_mv[t] {
            return;
        }
        let ghost before = self@;
        let ghost cards = deck@.cards;
        let mut i: usize = 0;
        while i < self.hand.len()
            invariant
                i <= self.hand@.len(),
                cards == deck@.cards,
                1 <= t <= 4,
                fits(deck@, self@),
                *self == *old(self),
                before == self@,
                before.curve,
                has_value(cards, t as int),
                curve_choice(deck@, before, t as int, i as int) is None,
            decreases self.hand@.len() - i,
        {
            assert(self@.hand[i as int] < cards.len());
            if !self.committed[i] {
                let card = &deck.cards[self.hand[i] as usize];
                if let Some(cost) = card.cost() {
                    if cost.mana_value as usize == t && can_pay(cost, self.lands.as_slice()) {
                        proof {
                            assert(meets_curve(deck@, before, t as int, i as int));
                            lemma_curve_found(
                                deck@,
                                before,
                                t as int,
                                i + 1,
                                before.hand.len() as int,
                            );
                        }
                        self.committed.set(i, true);
                        return;
                    }
                }
            }
            assert(!meets_curve(deck@, before, t as int, i as int));
            i += 1;
        }
        self.curve = false;
    }
}

fn made(deck: &CompiledDeck, ci: u16) -> (m: ColorMask)
    requires
        ci < deck@.cards.len(),
    ensures
        m == makes(deck@.cards[ci as int]),
{
    match &deck.cards[ci as usize].kind {
        super::compile::CardKind::Land { produces } => *produces,
        _ => ColorMask(0),
    }
}

fn needed_union(deck: &CompiledDeck) -> (m: ColorMask)
    ensures
        m == all_needed(deck@.colors_needed),
{
    let list = &deck.colors_needed;
    let mut m = ColorMask(0);
    let mut i: usize = 0;
    assert(list@.take(0) =~= Seq::<(u8, u8)>::empty());
    while i < list.len()
        invariant
            i <= list@.len(),
            m == all_needed(list@.take(i as int)),
        decreases list@.len() - i,
    {
        assert(list@.take(i + 1).drop_last() =~= list@.take(i as int));
        m = m.union(ColorMask(list[i].0));
        i += 1;
    }
    assert(list@.take(i as int) =~= list@);
    m
}

// ---------------------------------------------------------------------------
// Whole games
// ---------------------------------------------------------------------------

/// What is counted of a game.
pub ghost struct GameView {
    /// The size of the hand that was kept.
    pub size: nat,
    /// For the turns one to five whether a land was played on each turn up to
    /// it.
    pub drops: Seq<bool>,
    /// For each color that the deck asks for whether the lands in play made it
    /// on the turn on which it is first needed.
    pub on_time: Seq<bool>,
    /// Fewer than three lands were in play after turn three.
    pub screw: bool,
    /// After turn six there were at least two lands more, in play and in hand,
    /// than the most expensive spell needs, of which six count.
    pub flood: bool,
    /// The curve was met.
    pub curve: bool,
    pub first_cast: Seq<Option<u8>>,
    pub first_drawn: Seq<Option<u8>>,
}

/// There are two lands more than the most expensive spell needs.
pub open spec fn floods(deck: DeckView, tb: Table) -> bool {
    let most = if deck.max_spell_mv < 6 {
        deck.max_spell_mv as int
    } else {
        6
    };
    tb.lands.len() + lands_in(deck.cards, tb.hand) >= most + 2
}

/// What is counted of the game that begins with this library and hand and
/// lasts `turns` turns.
pub open spec fn game(
    deck: DeckView,
    on_play: bool,
    turns: nat,
    library: Seq<u16>,
    hand: Seq<u16>,
    size: nat,
) -> GameView {
    let start = table(deck.cards.len(), library, hand);
    GameView {
        size,
        drops: Seq::new(
            5,
            |i: int| i < turns && after(deck, on_play, start, (i + 1) as nat).drops,
        ),
        on_time: Seq::new(
            deck.colors_needed.len(),
            |k: int|
                {
                    let (bit, first) = deck.colors_needed[k];
                    1 <= first <= turns && after(
                        deck,
                        on_play,
                        start,
                        first as nat,
                    ).colors.meets(ColorMask(bit))
                },
        ),
        screw: turns >= 3 && after(deck, on_play, start, 3).lands.len() < 3,
        flood: turns >= 6 && floods(deck, after(deck, on_play, start, 6)),
        curve: after(deck, on_play, start, turns).curve,
        first_cast: after(deck, on_play, start, turns).first_cast,
        first_drawn: after(deck, on_play, start, turns).first_drawn,
    }
}

/// What is counted of a game.
#[derive(Debug)]
pub struct Outcome {
    pub size: u8,
    pub drops: Vec<bool>,
    pub on_time: Vec<bool>,
    pub screw: bool,
    pub flood: bool,
    pub curve: bool,
    pub first_cast: Vec<Option<u8>>,
    pub first_drawn: Vec<Option<u8>>,
}

impl View for Outcome {
    type V = GameView;

    open spec fn view(&self) -> GameView {
        GameView {
            size: self.size as nat,
            drops: self.drops@,
            on_time: self.on_time@,
            screw: self.screw,
            flood: self.flood,
            curve: self.curve,
            first_cast: self.first_cast@,
            first_drawn: self.first_drawn@,
        }
    }
}

/// For the mana values up to four whether the deck has a spell of it.
pub fn curve_values(deck: &CompiledDeck) -> (has_mv: Vec<bool>)
    ensures
        has_mv@.len() == 5,
        forall|v: int| 1 <= v <= 4 ==> #[trigger] has_mv@[v] == has_value(deck@.cards, v),
{
    let ghost cards = deck@.cards;
    let mut has_mv: Vec<bool> = vec![false, false, false, false, false];
    let mut c: usize = 0;
    while c < deck.cards.len()
        invariant
            c <= deck.cards@.len(),
            cards == deck@.cards,
            has_mv@.len() == 5,
            forall|v: int|
                1 <= v <= 4 ==> #[trigger] has_mv@[v] == has_value(cards.take(c as int), v),
        decreases deck.cards@.len() - c,
    {
        let ghost was = has_mv@;
        let card = &deck.cards[c];
        let mv: usize = card.mana_value() as usize;
        assert(card@ == cards[c as int]);
        if card.cost().is_some() && 1 <= mv && mv <= 4 {
            has_mv.set(mv, true);
        }
        proof {
            assert forall|v: int| 1 <= v <= 4 implies #[trigger] has_mv@[v] == has_value(
                cards.take(c + 1),
                v,
            ) by {
                assert(was[v] == has_value(cards.take(c as int), v));
                if has_value(cards.take(c as int), v) {
                    let k = choose|k: int|
                        0 <= k < c && spell_of(#[trigger] cards.take(c as int)[k], v);
                    assert(spell_of(cards.take(c + 1)[k], v));
                }
                if has_value(cards.take(c + 1), v) {
                    let k = choose|k: int|
                        0 <= k < c + 1 && spell_of(#[trigger] cards.take(c + 1)[k], v);
                    if k < c {
                        assert(spell_of(cards.take(c as int)[k], v));
                    }
                }
                if spell_of(cards[c as int], v) {
                    assert(spell_of(cards.take(c + 1)[c as int], v));
                }
            }
        }
        c += 1;
    }
    assert(cards.take(c as int) =~= cards);
    has_mv
}

fn begin(deck: &CompiledDeck, library: Vec<u16>, hand: Vec<u16>) -> (play: Play)
    requires
        below(library@, deck@.cards.len()),
        below(hand@, deck@.cards.len()),
    ensures
        play@ == table(deck@.cards.len(), library@, hand@),
        fits(deck@, play@),
{
    let n = deck.cards.len();
    let mut first_cast: Vec<Option<u8>> = Vec::new();
    let mut first_drawn: Vec<Option<u8>> = Vec::new();
    let mut c: usize = 0;
    while c < n
        invariant
            c <= n,
            first_cast@ == Seq::new(c as nat, |k: int| None::<u8>),
            first_drawn@ == Seq::new(c as nat, |k: int| None::<u8>),
        decreases n - c,
    {
        first_cast.push(None);
        first_drawn.push(None);
        c += 1;
        assert(first_cast@ =~= Seq::new(c as nat, |k: int| None::<u8>));
        assert(first_drawn@ =~= Seq::new(c as nat, |k: int| None::<u8>));
    }
    let mut committed: Vec<bool> = Vec::new();
    let mut i: usize = 0;
    while i < hand.len()
        invariant
            i <= hand@.len(),
            n == deck@.cards.len(),
            below(hand@, n as nat),
            committed@.len() == i,
            forall|k: int| 0 <= k < i ==> !#[trigger] committed@[k],
            first_drawn@.len() == n,
            forall|k: int|
                0 <= k < n ==> #[trigger] first_drawn@[k] == (if holds(hand@.take(i as int), k) {
                    Some(1u8)
                } else {
                    None
                }),
        decreases hand@.len() - i,
    {
        let ghost was = first_drawn@;
        assert(hand@[i as int] < n);
        let ci: usize = hand[i] as usize;
        first_drawn.set(ci, Some(1));
        committed.push(false);
        proof {
            let a = hand@.take(i as int);
            let b = hand@.take(i + 1);
            assert forall|k: int| 0 <= k < n implies #[trigger] first_drawn@[k] == (if holds(b, k) {
                Some(1u8)
            } else {
                None
            }) by {
                assert(was[k] == (if holds(a, k) {
                    Some(1u8)
                } else {
                    None
                }));
                if holds(a, k) {
                    let j = choose|j: int| 0 <= j < a.len() && #[trigger] a[j] == k;
                    assert(b[j] == k);
                }
                if k == ci {
                    assert(b[i as int] == k);
                } else if holds(b, k) {
                    let j = choose|j: int| 0 <= j < b.len() && #[trigger] b[j] == k;
                    assert(a[j] == k);
                }
            }
        }
        i += 1;
    }
    proof {
        assert(hand@.take(i as int) =~= hand@);
        let t = table(n as nat, library@, hand@);
        assert(first_cast@ =~= t.first_cast);
        assert(first_drawn@ =~= t.first_drawn);
        assert(committed@ =~= t.committed);
    }
    let play = Play {
        library,
        hand,
        committed,
        lands: Vec::new(),
        colors: ColorMask(0),
        drops: true,
        curve: true,
        first_cast,
        first_drawn,
    };
    assert(play@.lands =~= Seq::<ColorMask>::empty());
    play
}

/// Plays a game.
pub fn play_game(
    deck: &CompiledDeck,
    on_play: bool,
    turns: usize,
    has_mv: &Vec<bool>,
    library: Vec<u16>,
    hand: Vec<u16>,
    size: u8,
) -> (r: Outcome)
    requires
        below(library@, deck@.cards.len()),
        below(hand@, deck@.cards.len()),
        turns <= 255,
        has_mv@.len() == 5,
        forall|v: int| 1 <= v <= 4 ==> #[trigger] has_mv@[v] == has_value(deck@.cards, v),
    ensures
        r@ == game(deck@, on_play, turns as nat, library@, hand@, size as nat),
        r@.first_cast.len() == deck@.cards.len(),
        r@.first_drawn.len() == deck@.cards.len(),
{
    let ghost start = table(deck@.cards.len(), library@, hand@);
    let ghost goal = game(deck@, on_play, turns as nat, library@, hand@, size as nat);
    let ghost needs = deck@.colors_needed;
    let mut play = begin(deck, library, hand);
    let mut drops: Vec<bool> = vec![false, false, false, false, false];
    let mut on_time: Vec<bool> = Vec::new();
    let mut k: usize = 0;
    while k < deck.colors_needed.len()
        invariant
            k <= deck.colors_needed@.len(),
            on_time@.len() == k,
            forall|j: int| 0 <= j < k ==> !#[trigger] on_time@[j],
        decreases deck.colors_needed@.len() - k,
    {
        on_time.push(false);
        k += 1;
    }
    let mut screw = false;
    let mut flood = false;
    let mut t: usize = 0;
    while t < turns
        invariant
            t <= turns <= 255,
            needs == deck@.colors_needed,
            has_mv@.len() == 5,
            forall|v: int| 1 <= v <= 4 ==> #[trigger] has_mv@[v] == has_value(deck@.cards, v),
            fits(deck@, play@),
            play@ == after(deck@, on_play, start, t as nat),
            drops@.len() == 5,
            forall|i: int|
                0 <= i < 5 ==> #[trigger] drops@[i] == (i < t && after(
                    deck@,
                    on_play,
                    start,
                    (i + 1) as nat,
                ).drops),
            on_time@.len() == needs.len(),
            forall|j: int|
                0 <= j < needs.len() ==> #[trigger] on_time@[j] == (1 <= needs[j].1 <= t && after(
                    deck@,
                    on_play,
                    start,
                    needs[j].1 as nat,
                ).colors.meets(ColorMask(needs[j].0))),
            screw == (t >= 3 && after(deck@, on_play, start, 3).lands.len() < 3),
            flood == (t >= 6 && floods(deck@, after(deck@, on_play, start, 6))),
        decreases turns - t,
    {
        t += 1;
        let t8: u8 = t as u8;
        let ghost before = play@;
        if !(t == 1 && on_play) {
            play.draw(deck, t8);
        }
        play.play_land(deck);
        play.sample(deck, t8);
        play.look_at_curve(deck, has_mv, t);
        assert(play@ == turn(deck@, on_play, before, t as int));
        if play.drops && t <= 5 {
            drops.set(t - 1, true);
        }
        let ghost was = on_time@;
        let mut j: usize = 0;
        while j < deck.colors_needed.len()
            invariant
                j <= needs.len(),
                1 <= t,
                needs == deck@.colors_needed,
                t8 == t,
                on_time@.len() == needs.len(),
                was.len() == needs.len(),
                forall|m: int|
                    0 <= m < needs.len() ==> #[trigger] on_time@[m] == (was[m] || (m < j
                        && needs[m].1 == t && play@.colors.meets(ColorMask(needs[m].0)))),
            decreases needs.len() - j,
        {
            let (bit, first_turn) = deck.colors_needed[j];
            if t8 == first_turn && play.colors.intersects(ColorMask(bit)) {
                on_time.set(j, true);
            }
            j += 1;
        }
        if t == 3 && play.lands.len() < 3 {
            screw = true;
        }
        if t == 6 {
            let in_hand = count_lands(deck, &play.hand);
            let most: usize = if deck.max_spell_mv < 6 {
                deck.max_spell_mv as usize
            } else {
                6
            };
            let lands = play.lands.len();
            if lands >= most + 2 || in_hand >= most + 2 - lands {
                flood = true;
            }
        }
    }
    proof {
        assert(drops@ =~= goal.drops);
        assert(on_time@ =~= goal.on_time);
    }
    Outcome {
        size,
        drops,
        on_time,
        screw,
        flood,
        curve: play.curve,
        first_cast: play.first_cast,
        first_drawn: play.first_drawn,
    }
}

// ---------------------------------------------------------------------------
// Laws
// ---------------------------------------------------------------------------

/// The table fits the deck on every turn.
pub proof fn lemma_after_fits(deck: DeckView, on_play: bool, start: Table, t: nat)
    requires
        fits(deck, start),
    ensures
        fits(deck, after(deck, on_play, start, t)),
    decreases t,
{
    if t > 0 {
        let before = after(deck, on_play, start, (t - 1) as nat);
        lemma_after_fits(deck, on_play, start, (t - 1) as nat);
        let a = if t == 1 && on_play {
            before
        } else {
            drew(before, t as u8)
        };
        assert(fits(deck, a)) by {
            assert forall|i: int| 0 <= i < a.library.len() implies (#[trigger] a.library[i])
                < deck.cards.len() by {
                assert(before.library[i] < deck.cards.len());
            }
            assert forall|i: int| 0 <= i < a.hand.len() implies (#[trigger] a.hand[i])
                < deck.cards.len() by {
                if i < before.hand.len() {
                    assert(before.hand[i] < deck.cards.len());
                } else {
                    assert(before.library[before.library.len() - 1] < deck.cards.len());
                }
            }
        }
        let missing = ColorMask(all_needed(deck.colors_needed).0 & !a.colors.0);
        lemma_land_choice(deck.cards, a.hand, missing);
        let b = landed(deck, a);
        assert(fits(deck, b)) by {
            if let Some(p) = land_choice(deck.cards, a.hand, missing) {
                assert forall|i: int| 0 <= i < b.hand.len() implies (#[trigger] b.hand[i])
                    < deck.cards.len() by {
                    assert(a.hand[if i < p {
                        i
                    } else {
                        i + 1
                    }] < deck.cards.len());
                }
            }
        }
        let c = sampled(deck, b, t as u8);
        assert(fits(deck, c));
        lemma_curve_choice(deck, c, t as int, c.hand.len() as int);
        assert(fits(deck, curved(deck, c, t as int)));
        assert(after(deck, on_play, start, t) == curved(deck, c, t as int));
    }
}

/// On every turn: at most one land a turn was played; a land was played on
/// each turn exactly where there are as many lands in play as turns; and the
/// cards in the library, in hand and in play are as many as at the start.
pub proof fn law_one_land_a_turn(
    deck: DeckView,
    on_play: bool,
    library: Seq<u16>,
    hand: Seq<u16>,
    t: nat,
)
    requires
        below(library, deck.cards.len()),
        below(hand, deck.cards.len()),
    ensures
        ({
            let tb = after(deck, on_play, table(deck.cards.len(), library, hand), t);
            &&& tb.lands.len() <= t
            &&& tb.drops <==> tb.lands.len() == t
            &&& tb.library.len() + tb.hand.len() + tb.lands.len() == library.len() + hand.len()
        }),
    decreases t,
{
    let start = table(deck.cards.len(), library, hand);
    assert(fits(deck, start));
    if t > 0 {
        law_one_land_a_turn(deck, on_play, library, hand, (t - 1) as nat);
        lemma_after_fits(deck, on_play, start, (t - 1) as nat);
        let before = after(deck, on_play, start, (t - 1) as nat);
        let a = if t == 1 && on_play {
            before
        } else {
            drew(before, t as u8)
        };
        lemma_land_choice(
            deck.cards,
            a.hand,
            ColorMask(all_needed(deck.colors_needed).0 & !a.colors.0),
        );
    }
}

/// Whoever missed a land drop up to some turn missed one up to every later
/// turn.
pub proof fn law_drops_fall(
    deck: DeckView,
    on_play: bool,
    turns: nat,
    library: Seq<u16>,
    hand: Seq<u16>,
    size: nat,
    i: int,
    j: int,
)
    requires
        0 <= i <= j < 5,
        game(deck, on_play, turns, library, hand, size).drops[j],
    ensures
        game(deck, on_play, turns, library, hand, size).drops[i],
    decreases j - i,
{
    if i < j {
        let start = table(deck.cards.len(), library, hand);
        assert(after(deck, on_play, start, (j + 1) as nat).drops);
        assert(after(deck, on_play, start, j as nat).drops);
        assert(game(deck, on_play, turns, library, hand, size).drops[j - 1]);
        law_drops_fall(deck, on_play, turns, library, hand, size, i, j - 1);
    }
}

/// Every card in hand was drawn, each drawn card by now, and every card that
/// could be cast was drawn no later than that.
pub open spec fn drawn_first(tb: Table, t: nat) -> bool {
    &&& forall|i: int|
        0 <= i < tb.hand.len() ==> tb.first_drawn[(#[trigger] tb.hand[i]) as int] is Some
    &&& forall|c: int|
        0 <= c < tb.first_drawn.len() && #[trigger] tb.first_drawn[c] is Some
            ==> tb.first_drawn[c].unwrap() <= t || tb.first_drawn[c].unwrap() == 1
    &&& forall|c: int|
        0 <= c < tb.first_cast.len() && #[trigger] tb.first_cast[c] is Some ==> {
            &&& tb.first_drawn[c] is Some
            &&& tb.first_drawn[c].unwrap() <= tb.first_cast[c].unwrap()
            &&& 1 <= tb.first_cast[c].unwrap() <= t
        }
}

proof fn lemma_drew_first(deck: DeckView, tb: Table, t: nat)
    requires
        fits(deck, tb),
        1 <= t <= 255,
        drawn_first(tb, (t - 1) as nat),
    ensures
        drawn_first(drew(tb, t as u8), t),
        fits(deck, drew(tb, t as u8)),
{
    let a = drew(tb, t as u8);
    if tb.library.len() > 0 {
        let ci = tb.library[tb.library.len() - 1];
        assert(ci < deck.cards.len());
        assert forall|i: int| 0 <= i < a.hand.len() implies (#[trigger] a.hand[i])
            < deck.cards.len() && a.first_drawn[a.hand[i] as int] is Some by {
            if i < tb.hand.len() {
                assert(tb.hand[i] < deck.cards.len());
                assert(tb.first_drawn[tb.hand[i] as int] is Some);
            }
        }
        assert forall|i: int| 0 <= i < a.library.len() implies (#[trigger] a.library[i])
            < deck.cards.len() by {
            assert(tb.library[i] < deck.cards.len());
        }
        assert forall|c: int| 0 <= c < a.first_drawn.len() && #[trigger] a.first_drawn[c] is Some implies a.first_drawn[c].unwrap()
            <= t || a.first_drawn[c].unwrap() == 1 by {
            if c != ci || tb.first_drawn[c] is Some {
                assert(tb.first_drawn[c] is Some);
            }
        }
        assert forall|c: int| 0 <= c < a.first_cast.len() && #[trigger] a.first_cast[c] is Some implies {
            &&& a.first_drawn[c] is Some
            &&& a.first_drawn[c].unwrap() <= a.first_cast[c].unwrap()
            &&& 1 <= a.first_cast[c].unwrap() <= t
        } by {
            assert(tb.first_cast[c] is Some);
        }
    }
}

proof fn lemma_landed_first(deck: DeckView, tb: Table, t: nat)
    requires
        fits(deck, tb),
        drawn_first(tb, t),
    ensures
        drawn_first(landed(deck, tb), t),
        fits(deck, landed(deck, tb)),
{
    let missing = ColorMask(all_needed(deck.colors_needed).0 & !tb.colors.0);
    lemma_land_choice(deck.cards, tb.hand, missing);
    let b = landed(deck, tb);
    if let Some(p) = land_choice(deck.cards, tb.hand, missing) {
        assert forall|i: int| 0 <= i < b.hand.len() implies (#[trigger] b.hand[i])
            < deck.cards.len() && b.first_drawn[b.hand[i] as int] is Some by {
            let j = if i < p {
                i
            } else {
                i + 1
            };
            assert(tb.hand[j] == b.hand[i]);
            assert(tb.hand[j] < deck.cards.len());
        }
    }
}

proof fn lemma_sampled_first(deck: DeckView, tb: Table, t: nat)
    requires
        fits(deck, tb),
        1 <= t <= 255,
        drawn_first(tb, t),
    ensures
        drawn_first(sampled(deck, tb, t as u8), t),
        fits(deck, sampled(deck, tb, t as u8)),
{
    let b = sampled(deck, tb, t as u8);
    assert forall|c: int| 0 <= c < b.first_cast.len() && #[trigger] b.first_cast[c] is Some implies {
        &&& b.first_drawn[c] is Some
        &&& b.first_drawn[c].unwrap() <= b.first_cast[c].unwrap()
        &&& 1 <= b.first_cast[c].unwrap() <= t
    } by {
        if tb.first_cast[c] is None {
            let k = choose|k: int| 0 <= k < tb.hand.len() && #[trigger] tb.hand[k] == c;
            assert(tb.first_drawn[tb.hand[k] as int] is Some);
            assert(tb.first_drawn[c] is Some);
        }
    }
}

/// A card can be cast no earlier than on the turn on which it is drawn, and no
/// later than on the last turn.
pub proof fn law_drawn_before_cast(
    deck: DeckView,
    on_play: bool,
    library: Seq<u16>,
    hand: Seq<u16>,
    t: nat,
)
    requires
        below(library, deck.cards.len()),
        below(hand, deck.cards.len()),
        t <= 255,
    ensures
        drawn_first(after(deck, on_play, table(deck.cards.len(), library, hand), t), t),
    decreases t,
{
    let start = table(deck.cards.len(), library, hand);
    assert(fits(deck, start));
    if t == 0 {
        assert forall|i: int| 0 <= i < hand.len() implies start.first_drawn[(#[trigger] hand[i]) as int] is Some by {
            assert(hand[i] < deck.cards.len());
            assert(holds(hand, hand[i] as int));
        }
    } else {
        law_drawn_before_cast(deck, on_play, library, hand, (t - 1) as nat);
        lemma_after_fits(deck, on_play, start, (t - 1) as nat);
        let before = after(deck, on_play, start, (t - 1) as nat);
        let a = if t == 1 && on_play {
            before
        } else {
            drew(before, t as u8)
        };
        if !(t == 1 && on_play) {
            lemma_drew_first(deck, before, t);
        } else {
            assert(drawn_first(a, t));
        }
        lemma_landed_first(deck, a, t);
        let b = landed(deck, a);
        lemma_sampled_first(deck, b, t);
        let c = sampled(deck, b, t as u8);
        let d = curved(deck, c, t as int);
        assert(d.hand == c.hand && d.first_drawn == c.first_drawn && d.first_cast == c.first_cast);
        assert(drawn_first(d, t));
    }
}

/// `f` gives each pip a land of its own that makes one of its colors.
pub open spec fn each_paid(f: Seq<int>, pips: Seq<ColorMask>, lands: Seq<ColorMask>) -> bool {
    &&& f.len() == pips.len()
    &&& forall|p: int|
        0 <= p < f.len() ==> 0 <= #[trigger] f[p] < lands.len() && pips[p].0 & lands[f[p]].0 != 0
    &&& forall|p: int, q: int| 0 <= p < q < f.len() ==> f[p] != f[q]
}

/// The lands pay the cost: each pip has a land of its own that makes one of its
/// colors, and as many lands as the generic mana are left.
pub open spec fn lands_pay(cost: CostView, lands: Seq<ColorMask>) -> bool {
    cost.pips.len() + cost.generic <= lands.len() && exists|f: Seq<int>|
        each_paid(f, cost.pips, lands)
}

/// The card is in hand, and it is a spell that the lands in play pay for.
pub open spec fn in_reach(deck: DeckView, tb: Table, c: int) -> bool {
    &&& exists|i: int| 0 <= i < tb.hand.len() && #[trigger] tb.hand[i] == c
    &&& deck.cards[c].kind matches KindView::Spell(cost) && lands_pay(cost, tb.lands)
}

proof fn lemma_lands_pay(cost: CostView, lands: Seq<ColorMask>)
    ensures
        cost.payable(lands) <==> lands_pay(cost, lands),
{
    if cost.payable(lands) {
        let f = choose|f: Seq<int>| super::matching::assigns(f, cost.pips, lands);
        assert(each_paid(f, cost.pips, lands));
    }
    if lands_pay(cost, lands) {
        let f = choose|f: Seq<int>| each_paid(f, cost.pips, lands);
        assert(super::matching::assigns(f, cost.pips, lands));
    }
}

/// A card is first noted as castable on the first turn on which it is in hand and
/// the lands in play pay its cost, with a land of its own of the right color for
/// each pip; a card for which no such turn comes is never noted.
pub proof fn law_first_cast(
    deck: DeckView,
    on_play: bool,
    library: Seq<u16>,
    hand: Seq<u16>,
    t: nat,
    c: int,
)
    requires
        below(library, deck.cards.len()),
        below(hand, deck.cards.len()),
        t <= 255,
        0 <= c < deck.cards.len(),
    ensures
        ({
            let start = table(deck.cards.len(), library, hand);
            match after(deck, on_play, start, t).first_cast[c] {
                Some(u) => {
                    &&& 1 <= u <= t
                    &&& in_reach(deck, after(deck, on_play, start, u as nat), c)
                    &&& forall|v: nat|
                        1 <= v < u ==> !in_reach(
                            deck,
                            #[trigger] after(deck, on_play, start, v),
                            c,
                        )
                },
                None => forall|v: nat|
                    1 <= v <= t ==> !in_reach(
                        deck,
                        #[trigger] after(deck, on_play, start, v),
                        c,
                    ),
            }
        }),
    decreases t,
{
    let start = table(deck.cards.len(), library, hand);
    assert(fits(deck, start));
    if t > 0 {
        law_first_cast(deck, on_play, library, hand, (t - 1) as nat, c);
        lemma_after_fits(deck, on_play, start, (t - 1) as nat);
        lemma_after_fits(deck, on_play, start, t);
        let before = after(deck, on_play, start, (t - 1) as nat);
        let a = if t == 1 && on_play {
            before
        } else {
            drew(before, t as u8)
        };
        let b = landed(deck, a);
        let now = after(deck, on_play, start, t);
        assert(now.hand == b.hand && now.lands == b.lands);
        assert(b.first_cast == before.first_cast);
        if let KindView::Spell(cost) = deck.cards[c].kind {
            lemma_lands_pay(cost, b.lands);
        }
        assert(holds(b.hand, c) == exists|i: int| 0 <= i < now.hand.len() && #[trigger] now.hand[i]
            == c);
        assert(in_reach(deck, now, c) == (holds(b.hand, c) && castable(deck.cards[c], b.lands)));
        assert(now.first_cast == sampled(deck, b, t as u8).first_cast);
    }
}

proof fn lemma_card_drawn(library: Seq<u16>, hand: Seq<u16>, played: Seq<u16>)
    requires
        library.len() > 0,
    ensures
        (library.drop_last() + hand.push(library.last()) + played).to_multiset() == (library + hand
            + played).to_multiset(),
{
    let ci = library.last();
    let rest = library.drop_last() + hand + played;
    let n = library.len() - 1;
    assert(library + hand + played =~= rest.insert(n, ci));
    vstd::seq_lib::to_multiset_insert(rest, n, ci);
    let m = n + hand.len();
    assert(library.drop_last() + hand.push(ci) + played =~= rest.insert(m, ci));
    vstd::seq_lib::to_multiset_insert(rest, m, ci);
}

proof fn lemma_card_played(library: Seq<u16>, hand: Seq<u16>, played: Seq<u16>, p: int)
    requires
        0 <= p < hand.len(),
    ensures
        (library + hand.remove(p) + played.push(hand[p])).to_multiset() == (library + hand
            + played).to_multiset(),
{
    let ci = hand[p];
    let rest = library + hand.remove(p) + played;
    let n = library.len() + p;
    assert(library + hand + played =~= rest.insert(n, ci));
    vstd::seq_lib::to_multiset_insert(rest, n, ci);
    let m = rest.len() as int;
    assert(library + hand.remove(p) + played.push(ci) =~= rest.insert(m, ci));
    vstd::seq_lib::to_multiset_insert(rest, m, ci);
}

/// Every land in play is a land of the deck, and was in the opening hand or on
/// top of the library: the cards in the library, in hand and in play are those of
/// the start.
pub proof fn law_lands_in_play(
    deck: DeckView,
    on_play: bool,
    library: Seq<u16>,
    hand: Seq<u16>,
    t: nat,
) -> (played: Seq<u16>)
    requires
        below(library, deck.cards.len()),
        below(hand, deck.cards.len()),
    ensures
        ({
            let tb = after(deck, on_play, table(deck.cards.len(), library, hand), t);
            &&& played.len() == tb.lands.len()
            &&& forall|i: int|
                0 <= i < played.len() ==> (#[trigger] played[i]) < deck.cards.len()
                    && deck.cards[played[i] as int].kind == KindView::Land(tb.lands[i])
            &&& (tb.library + tb.hand + played).to_multiset() == (library + hand).to_multiset()
        }),
    decreases t,
{
    let start = table(deck.cards.len(), library, hand);
    assert(fits(deck, start));
    if t == 0 {
        assert(library + hand + Seq::<u16>::empty() =~= library + hand);
        Seq::empty()
    } else {
        let was = law_lands_in_play(deck, on_play, library, hand, (t - 1) as nat);
        lemma_after_fits(deck, on_play, start, (t - 1) as nat);
        let before = after(deck, on_play, start, (t - 1) as nat);
        let a = if t == 1 && on_play {
            before
        } else {
            drew(before, t as u8)
        };
        if !(t == 1 && on_play) {
            lemma_drew_fits(deck, before, t as u8);
            if before.library.len() > 0 {
                lemma_card_drawn(before.library, before.hand, was);
            }
        }
        let missing = ColorMask(all_needed(deck.colors_needed).0 & !a.colors.0);
        lemma_land_choice(deck.cards, a.hand, missing);
        let b = landed(deck, a);
        assert(a.lands == before.lands);
        match land_choice(deck.cards, a.hand, missing) {
            Some(p) => {
                let played = was.push(a.hand[p]);
                lemma_card_played(a.library, a.hand, was, p);
                assert(a.hand[p] < deck.cards.len());
                assert forall|i: int| 0 <= i < played.len() implies (#[trigger] played[i])
                    < deck.cards.len() && deck.cards[played[i] as int].kind == KindView::Land(
                    b.lands[i],
                ) by {
                    if i < was.len() {
                        assert(played[i] == was[i]);
                        assert(b.lands[i] == before.lands[i]);
                    }
                }
                played
            },
            None => was,
        }
    }
}

proof fn lemma_drew_fits(deck: DeckView, tb: Table, t: u8)
    requires
        fits(deck, tb),
    ensures
        fits(deck, drew(tb, t)),
{
    let a = drew(tb, t);
    if tb.library.len() > 0 {
        assert(tb.library[tb.library.len() - 1] < deck.cards.len());
        assert forall|i: int| 0 <= i < a.library.len() implies (#[trigger] a.library[i])
            < deck.cards.len() by {
            assert(tb.library[i] < deck.cards.len());
        }
        assert forall|i: int| 0 <= i < a.hand.len() implies (#[trigger] a.hand[i])
            < deck.cards.len() by {
            if i < tb.hand.len() {
                assert(tb.hand[i] < deck.cards.len());
            }
        }
    }
}

/// A spell with a pip of colors that no land of the deck makes can never be
/// cast.
pub proof fn law_wrong_colors_never_cast(
    deck: DeckView,
    on_play: bool,
    library: Seq<u16>,
    hand: Seq<u16>,
    t: nat,
    c: int,
    cost: CostView,
    p: int,
)
    requires
        below(library, deck.cards.len()),
        below(hand, deck.cards.len()),
        t <= 255,
        0 <= c < deck.cards.len(),
        deck.cards[c].kind == KindView::Spell(cost),
        0 <= p < cost.pips.len(),
        forall|l: int|
            0 <= l < deck.cards.len() ==> ((#[trigger] deck.cards[l]).kind matches KindView::Land(
                m,
            ) ==> cost.pips[p].0 & m.0 == 0),
    ensures
        after(deck, on_play, table(deck.cards.len(), library, hand), t).first_cast[c] is None,
{
    law_first_cast(deck, on_play, library, hand, t, c);
    let start = table(deck.cards.len(), library, hand);
    if let Some(u) = after(deck, on_play, start, t).first_cast[c] {
        let tb = after(deck, on_play, start, u as nat);
        let played = law_lands_in_play(deck, on_play, library, hand, u as nat);
        let f = choose|f: Seq<int>| each_paid(f, cost.pips, tb.lands);
        let i = f[p];
        assert(0 <= i < tb.lands.len() && cost.pips[p].0 & tb.lands[i].0 != 0);
        let l = played[i] as int;
        assert(deck.cards[l].kind == KindView::Land(tb.lands[i]));
    }
}

/// Each card in hand that was counted for the curve is a spell of the mana value
/// of an earlier turn.
spec fn counted_before(deck: DeckView, tb: Table, t: nat) -> bool {
    forall|i: int|
        0 <= i < tb.committed.len() && #[trigger] tb.committed[i] ==> deck.cards[tb.hand[i] as int].value()
            <= t
}

proof fn lemma_counted_before(deck: DeckView, on_play: bool, start: Table, t: nat)
    requires
        fits(deck, start),
        forall|i: int| 0 <= i < start.committed.len() ==> !(#[trigger] start.committed[i]),
    ensures
        counted_before(deck, after(deck, on_play, start, t), t),
    decreases t,
{
    if t > 0 {
        lemma_counted_before(deck, on_play, start, (t - 1) as nat);
        lemma_after_fits(deck, on_play, start, (t - 1) as nat);
        let before = after(deck, on_play, start, (t - 1) as nat);
        let a = if t == 1 && on_play {
            before
        } else {
            drew(before, t as u8)
        };
        if !(t == 1 && on_play) {
            lemma_drew_fits(deck, before, t as u8);
        }
        assert(counted_before(deck, a, t)) by {
            assert forall|i: int| 0 <= i < a.committed.len() && #[trigger] a.committed[i] implies deck.cards[a.hand[i] as int].value()
                <= t by {
                if i < before.committed.len() {
                    assert(before.committed[i]);
                    assert(a.hand[i] == before.hand[i]);
                }
            }
        }
        let missing = ColorMask(all_needed(deck.colors_needed).0 & !a.colors.0);
        lemma_land_choice(deck.cards, a.hand, missing);
        let b = landed(deck, a);
        assert(counted_before(deck, b, t)) by {
            if let Some(p) = land_choice(deck.cards, a.hand, missing) {
                assert forall|i: int| 0 <= i < b.committed.len() && #[trigger] b.committed[i] implies deck.cards[b.hand[i] as int].value()
                    <= t by {
                    let j = if i < p {
                        i
                    } else {
                        i + 1
                    };
                    assert(a.committed[j]);
                    assert(a.hand[j] == b.hand[i]);
                }
            }
        }
        let c = sampled(deck, b, t as u8);
        lemma_curve_choice(deck, c, t as int, c.hand.len() as int);
        let d = curved(deck, c, t as int);
        assert forall|i: int| 0 <= i < d.committed.len() && #[trigger] d.committed[i] implies deck.cards[d.hand[i] as int].value()
            <= t by {
            if c.committed[i] {
                assert(b.committed[i]);
            }
        }
    }
}

/// The card is a spell of this mana value.
pub open spec fn costs_in_all(card: SimCardView, u: nat) -> bool {
    card.kind matches KindView::Spell(cost) && cost.mana_value == u
}

/// Where the deck has a spell of this mana value, one of them is in reach.
pub open spec fn on_curve(deck: DeckView, tb: Table, u: nat) -> bool {
    (exists|c: int| 0 <= c < deck.cards.len() && costs_in_all(#[trigger] deck.cards[c], u)) ==> exists|
        c: int,
    |
        0 <= c < deck.cards.len() && costs_in_all(#[trigger] deck.cards[c], u) && in_reach(
            deck,
            tb,
            c,
        )
}

/// The curve is met up to a turn exactly where on each of the turns one to four
/// up to it, for which the deck has a spell of that mana value, such a spell is in
/// hand and the lands in play pay for it.
pub proof fn law_curve(
    deck: DeckView,
    on_play: bool,
    library: Seq<u16>,
    hand: Seq<u16>,
    t: nat,
)
    requires
        below(library, deck.cards.len()),
        below(hand, deck.cards.len()),
    ensures
        ({
            let start = table(deck.cards.len(), library, hand);
            after(deck, on_play, start, t).curve <==> forall|u: nat|
                1 <= u <= t && u <= 4 ==> on_curve(
                    deck,
                    #[trigger] after(deck, on_play, start, u),
                    u,
                )
        }),
    decreases t,
{
    let start = table(deck.cards.len(), library, hand);
    assert(fits(deck, start));
    if t > 0 {
        let m = (t - 1) as nat;
        law_curve(deck, on_play, library, hand, m);
        lemma_after_fits(deck, on_play, start, m);
        lemma_after_fits(deck, on_play, start, t);
        lemma_counted_before(deck, on_play, start, m);
        let before = after(deck, on_play, start, m);
        let a = if t == 1 && on_play {
            before
        } else {
            drew(before, t as u8)
        };
        if !(t == 1 && on_play) {
            lemma_drew_fits(deck, before, t as u8);
        }
        let missing = ColorMask(all_needed(deck.colors_needed).0 & !a.colors.0);
        lemma_land_choice(deck.cards, a.hand, missing);
        let b = landed(deck, a);
        let c = sampled(deck, b, t as u8);
        let now = after(deck, on_play, start, t);
        assert(now.hand == b.hand && now.lands == b.lands && c.hand == b.hand);
        assert(b.curve == before.curve && c.curve == before.curve);
        lemma_curve_choice(deck, c, t as int, c.hand.len() as int);
        // No card of this mana value was counted before.
        assert forall|i: int|
            0 <= i < c.hand.len() && (#[trigger] deck.cards[c.hand[i] as int]).value()
                == t implies !c.committed[i] by {
            let p = land_choice(deck.cards, a.hand, missing);
            let j = match p {
                Some(p) => if i < p {
                    i
                } else {
                    i + 1
                },
                None => i,
            };
            assert(a.hand[j] == c.hand[i] && a.committed[j] == c.committed[i]);
            if j < before.hand.len() {
                assert(a.hand[j] == before.hand[j] && a.committed[j] == before.committed[j]);
                if before.committed[j] {
                    assert(deck.cards[before.hand[j] as int].value() <= m);
                }
            }
        }
        let found = exists|x: int|
            0 <= x < deck.cards.len() && costs_in_all(#[trigger] deck.cards[x], t) && in_reach(
                deck,
                now,
                x,
            );
        let n = c.hand.len() as int;
        if curve_choice(deck, c, t as int, n) is Some {
            let i = curve_choice(deck, c, t as int, n).unwrap();
            let x = c.hand[i] as int;
            assert(c.hand[i] < deck.cards.len());
            assert(meets_curve(deck, c, t as int, i));
            if let KindView::Spell(cost) = deck.cards[x].kind {
                lemma_lands_pay(cost, b.lands);
            }
            assert(now.hand[i] == x);
            assert(in_reach(deck, now, x));
            assert(found);
        }
        if found {
            let x = choose|x: int|
                0 <= x < deck.cards.len() && costs_in_all(#[trigger] deck.cards[x], t) && in_reach(
                    deck,
                    now,
                    x,
                );
            let i = choose|i: int| 0 <= i < now.hand.len() && #[trigger] now.hand[i] == x;
            if let KindView::Spell(cost) = deck.cards[x].kind {
                lemma_lands_pay(cost, b.lands);
            }
            assert(deck.cards[c.hand[i] as int].value() == t);
            assert(meets_curve(deck, c, t as int, i));
        }
        assert(has_value(deck.cards, t as int) == exists|x: int|
            0 <= x < deck.cards.len() && costs_in_all(#[trigger] deck.cards[x], t)) by {
            if has_value(deck.cards, t as int) {
                let x = choose|x: int|
                    0 <= x < deck.cards.len() && spell_of(#[trigger] deck.cards[x], t as int);
                assert(costs_in_all(deck.cards[x], t));
            }
            if exists|x: int|
                0 <= x < deck.cards.len() && costs_in_all(#[trigger] deck.cards[x], t) {
                let x = choose|x: int|
                    0 <= x < deck.cards.len() && costs_in_all(#[trigger] deck.cards[x], t);
                assert(spell_of(deck.cards[x], t as int));
            }
        }
        let needs = t <= 4 && has_value(deck.cards, t as int);
        assert(now.curve == (before.curve && (needs ==> found)));
    }
}

/// How many cards are drawn up to a turn: one a turn, but none on the first for
/// who is on the play, and no more than there are.
pub open spec fn draws(on_play: bool, cards: nat, t: nat) -> nat {
    let n = if on_play && t > 0 {
        (t - 1) as nat
    } else {
        t
    };
    if n < cards {
        n
    } else {
        cards
    }
}

/// Cards are drawn from the top, one a turn. A card counts as drawn by a turn
/// exactly where it is in the opening hand or among the cards drawn up to then;
/// what the opening hand holds counts as drawn on the first turn.
pub proof fn law_draws(
    deck: DeckView,
    on_play: bool,
    library: Seq<u16>,
    hand: Seq<u16>,
    t: nat,
    c: u16,
)
    requires
        below(library, deck.cards.len()),
        below(hand, deck.cards.len()),
        t <= 255,
        c < deck.cards.len(),
    ensures
        ({
            let tb = after(deck, on_play, table(deck.cards.len(), library, hand), t);
            let n = library.len();
            &&& tb.library == library.take(n - draws(on_play, n, t))
            &&& tb.first_drawn[c as int] is Some <==> hand.contains(c) || exists|k: int|
                0 <= k < draws(on_play, n, t) && #[trigger] library[n - 1 - k] == c
            &&& hand.contains(c) ==> tb.first_drawn[c as int] == Some(1u8)
            &&& !hand.contains(c) ==> (tb.first_drawn[c as int] matches Some(u) ==> {
                &&& 1 <= u <= t
                &&& draws(on_play, n, (u - 1) as nat) < draws(on_play, n, u as nat)
                &&& library[n - draws(on_play, n, u as nat)] == c
                &&& forall|k: int|
                    0 <= k < draws(on_play, n, (u - 1) as nat) ==> #[trigger] library[n - 1 - k]
                        != c
            })
        }),
    decreases t,
{
    let start = table(deck.cards.len(), library, hand);
    let n = library.len();
    let d = draws(on_play, n, t);
    assert(fits(deck, start));
    assert(hand.contains(c) == holds(hand, c as int)) by {
        if hand.contains(c) {
            let i = choose|i: int| 0 <= i < hand.len() && hand[i] == c;
            assert(hand[i] == c);
        }
    }
    if t == 0 {
        assert(library.take(n as int) =~= library);
    } else {
        let m = (t - 1) as nat;
        law_draws(deck, on_play, library, hand, m, c);
        lemma_after_fits(deck, on_play, start, m);
        let before = after(deck, on_play, start, m);
        let a = if t == 1 && on_play {
            before
        } else {
            drew(before, t as u8)
        };
        let now = after(deck, on_play, start, t);
        assert(now.library == a.library && now.first_drawn == a.first_drawn);
        let e = draws(on_play, n, m);
        assert(before.library == library.take(n - e));
        if e < d {
            assert(d == e + 1);
            assert(before.library.len() > 0);
            let ci = before.library.last();
            assert(ci == library[n - 1 - e]);
            assert(a.library =~= library.take(n - d));
            assert(ci < deck.cards.len()) by {
                assert(library[n - 1 - e] < deck.cards.len());
            }
            if c == ci {
                assert(library[n - 1 - e] == c);
            }
            if exists|k: int| 0 <= k < d && #[trigger] library[n - 1 - k] == c {
                let k = choose|k: int| 0 <= k < d && #[trigger] library[n - 1 - k] == c;
                if k == e {
                    assert(ci == c);
                }
            }
        } else {
            assert(now.library == before.library && now.first_drawn == before.first_drawn);
        }
    }
}

/// A color is among those that the deck asks for exactly where one of its needs
/// is of that color.
pub proof fn law_all_needed(list: Seq<(u8, u8)>, bit: u8)
    ensures
        all_needed(list).0 & bit != 0 <==> exists|k: int|
            0 <= k < list.len() && (#[trigger] list[k]).0 & bit != 0,
    decreases list.len(),
{
    if list.len() == 0 {
        assert(0u8 & bit == 0) by (bit_vector);
    } else {
        let rest = list.drop_last();
        law_all_needed(rest, bit);
        let a = all_needed(rest).0;
        let b = list.last().0;
        assert((a | b) & bit != 0 <==> a & bit != 0 || b & bit != 0) by (bit_vector);
        if a & bit != 0 {
            let k = choose|k: int| 0 <= k < rest.len() && (#[trigger] rest[k]).0 & bit != 0;
            assert(list[k].0 & bit != 0);
        }
        if b & bit != 0 {
            assert(list[list.len() - 1].0 & bit != 0);
        }
        if exists|k: int| 0 <= k < list.len() && (#[trigger] list[k]).0 & bit != 0 {
            let k = choose|k: int| 0 <= k < list.len() && (#[trigger] list[k]).0 & bit != 0;
            if k < rest.len() {
                assert(rest[k].0 & bit != 0);
            }
        }
    }
}

/// The colors of the lands in play are those that some land in play makes.
pub proof fn law_colors_in_play(
    deck: DeckView,
    on_play: bool,
    library: Seq<u16>,
    hand: Seq<u16>,
    t: nat,
    bit: u8,
)
    ensures
        ({
            let tb = after(deck, on_play, table(deck.cards.len(), library, hand), t);
            tb.colors.0 & bit != 0 <==> exists|i: int|
                0 <= i < tb.lands.len() && (#[trigger] tb.lands[i]).0 & bit != 0
        }),
    decreases t,
{
    let start = table(deck.cards.len(), library, hand);
    if t == 0 {
        assert(0u8 & bit == 0) by (bit_vector);
    } else {
        law_colors_in_play(deck, on_play, library, hand, (t - 1) as nat, bit);
        let before = after(deck, on_play, start, (t - 1) as nat);
        let now = after(deck, on_play, start, t);
        if now.lands != before.lands {
            let a = before.colors.0;
            let m = now.lands.last().0;
            assert(now.lands =~= before.lands.push(now.lands.last()));
            assert(now.colors.0 == a | m);
            assert((a | m) & bit != 0 <==> a & bit != 0 || m & bit != 0) by (bit_vector);
            if a & bit != 0 {
                let i = choose|i: int|
                    0 <= i < before.lands.len() && (#[trigger] before.lands[i]).0 & bit != 0;
                assert(now.lands[i].0 & bit != 0);
            }
            if m & bit != 0 {
                assert(now.lands[now.lands.len() - 1].0 & bit != 0);
            }
            if exists|i: int| 0 <= i < now.lands.len() && (#[trigger] now.lands[i]).0 & bit != 0 {
                let i = choose|i: int|
                    0 <= i < now.lands.len() && (#[trigger] now.lands[i]).0 & bit != 0;
                if i < before.lands.len() {
                    assert(before.lands[i].0 & bit != 0);
                }
            }
        }
    }
}

/// How many of the bits of a byte are set.
pub open spec fn bits_set(m: u8) -> nat
    decreases m,
{
    if m == 0 {
        0
    } else {
        bits_set(m / 2) + (m % 2) as nat
    }
}

proof fn lemma_bits_set(m: u8)
    ensures
        bits_set(m) == ColorMask(m).size(),
{
    reveal_with_fuel(bits_set, 9);
    assert(m & 1 != 0 <==> m % 2 == 1) by (bit_vector);
    assert(m & 2 != 0 <==> (m / 2) % 2 == 1) by (bit_vector);
    assert(m & 4 != 0 <==> (m / 2 / 2) % 2 == 1) by (bit_vector);
    assert(m & 8 != 0 <==> (m / 2 / 2 / 2) % 2 == 1) by (bit_vector);
    assert(m & 16 != 0 <==> (m / 2 / 2 / 2 / 2) % 2 == 1) by (bit_vector);
    assert(m & 32 != 0 <==> (m / 2 / 2 / 2 / 2 / 2) % 2 == 1) by (bit_vector);
    assert(m & 64 != 0 <==> (m / 2 / 2 / 2 / 2 / 2 / 2) % 2 == 1) by (bit_vector);
    assert(m & 128 != 0 <==> (m / 2 / 2 / 2 / 2 / 2 / 2 / 2) % 2 == 1) by (bit_vector);
}

/// A land is played on every turn on which one is in hand: where none was
/// played, none is left. The one that was played makes at least as many of the
/// colors that the deck asks for and that were not there yet as any that is left,
/// and among those that make as many at least as many colors in all.
pub proof fn law_land_drop(
    deck: DeckView,
    on_play: bool,
    library: Seq<u16>,
    hand: Seq<u16>,
    t: nat,
    i: int,
    m: ColorMask,
)
    requires
        below(library, deck.cards.len()),
        below(hand, deck.cards.len()),
        t > 0,
        ({
            let now = after(deck, on_play, table(deck.cards.len(), library, hand), t);
            0 <= i < now.hand.len() && deck.cards[now.hand[i] as int].kind == KindView::Land(m)
        }),
    ensures
        ({
            let start = table(deck.cards.len(), library, hand);
            let before = after(deck, on_play, start, (t - 1) as nat);
            let now = after(deck, on_play, start, t);
            let wanted = all_needed(deck.colors_needed).0 & !before.colors.0;
            let played = now.lands.last();
            &&& now.lands == before.lands.push(played)
            &&& bits_set(m.0 & wanted) <= bits_set(played.0 & wanted)
            &&& bits_set(m.0 & wanted) == bits_set(played.0 & wanted) ==> bits_set(m.0) <= bits_set(
                played.0,
            )
        }),
{
    let start = table(deck.cards.len(), library, hand);
    assert(fits(deck, start));
    lemma_after_fits(deck, on_play, start, (t - 1) as nat);
    let before = after(deck, on_play, start, (t - 1) as nat);
    let a = if t == 1 && on_play {
        before
    } else {
        drew(before, t as u8)
    };
    let now = after(deck, on_play, start, t);
    let b = landed(deck, a);
    assert(now.hand == b.hand && now.lands == b.lands);
    assert(a.colors == before.colors && a.lands == before.lands);
    let missing = ColorMask(all_needed(deck.colors_needed).0 & !a.colors.0);
    lemma_land_choice(deck.cards, a.hand, missing);
    let j = match land_choice(deck.cards, a.hand, missing) {
        Some(p) => if i < p {
            i
        } else {
            i + 1
        },
        None => i,
    };
    assert(a.hand[j] == now.hand[i]);
    assert(land_at(deck.cards, a.hand[j]));
    law_best_land(deck.cards, a.hand, missing, j);
    let p = land_choice(deck.cards, a.hand, missing).unwrap();
    let played = makes(deck.cards[a.hand[p] as int]);
    assert(now.lands == before.lands.push(played));
    assert(now.lands.last() == played);
    lemma_bits_set(m.0);
    lemma_bits_set(played.0);
    lemma_bits_set(m.0 & missing.0);
    lemma_bits_set(played.0 & missing.0);
}

/// Where no land is played on a turn, no land is in hand at its end.
pub proof fn law_no_land_kept_back(
    deck: DeckView,
    on_play: bool,
    library: Seq<u16>,
    hand: Seq<u16>,
    t: nat,
    i: int,
)
    requires
        below(library, deck.cards.len()),
        below(hand, deck.cards.len()),
        t > 0,
        ({
            let start = table(deck.cards.len(), library, hand);
            let now = after(deck, on_play, start, t);
            now.lands.len() == after(deck, on_play, start, (t - 1) as nat).lands.len() && 0 <= i
                < now.hand.len()
        }),
    ensures
        ({
            let now = after(deck, on_play, table(deck.cards.len(), library, hand), t);
            !(deck.cards[now.hand[i] as int].kind is Land)
        }),
{
    let now = after(deck, on_play, table(deck.cards.len(), library, hand), t);
    if let KindView::Land(m) = deck.cards[now.hand[i] as int].kind {
        law_land_drop(deck, on_play, library, hand, t, i, m);
    }
}

/// The lands among listed cards are those whose kind is a land.
pub proof fn law_lands_in(cards: Seq<SimCardView>, list: Seq<u16>)
    ensures
        lands_in(cards, list) == list.filter(|ci: u16| cards[ci as int].kind is Land).len(),
    decreases list.len(),
{
    reveal(Seq::filter);
    if list.len() > 0 {
        law_lands_in(cards, list.drop_last());
    }
}

/// What a game reports. It is screwed, given three turns, exactly where a land
/// drop was missed up to the third turn. It is flooded, given six turns, exactly
/// where at the end of the sixth the lands in play and in hand are two more than
/// the highest mana value, of which no more than six count. A color is there on
/// time exactly where on the first turn on which it is needed a land in play
/// makes it.
pub proof fn law_game_rates(
    deck: DeckView,
    on_play: bool,
    turns: nat,
    library: Seq<u16>,
    hand: Seq<u16>,
    size: nat,
)
    requires
        below(library, deck.cards.len()),
        below(hand, deck.cards.len()),
    ensures
        ({
            let g = game(deck, on_play, turns, library, hand, size);
            let start = table(deck.cards.len(), library, hand);
            let sixth = after(deck, on_play, start, 6);
            let lands = sixth.lands.len() + sixth.hand.filter(
                |ci: u16| deck.cards[ci as int].kind is Land,
            ).len();
            &&& g.size == size
            &&& turns >= 3 ==> (g.screw <==> !g.drops[2])
            &&& turns < 3 ==> !g.screw
            &&& turns >= 6 && deck.max_spell_mv <= 6 ==> (g.flood <==> lands >= deck.max_spell_mv
                + 2)
            &&& turns >= 6 && deck.max_spell_mv >= 6 ==> (g.flood <==> lands >= 8)
            &&& turns < 6 ==> !g.flood
            &&& forall|i: int|
                0 <= i < 5 ==> (#[trigger] g.drops[i] <==> i < turns && after(
                    deck,
                    on_play,
                    start,
                    (i + 1) as nat,
                ).lands.len() == i + 1)
            &&& forall|k: int|
                0 <= k < deck.colors_needed.len() ==> (#[trigger] g.on_time[k] <==> {
                    let first = deck.colors_needed[k].1;
                    let bit = deck.colors_needed[k].0;
                    let tb = after(deck, on_play, start, first as nat);
                    1 <= first <= turns && exists|i: int|
                        0 <= i < tb.lands.len() && (#[trigger] tb.lands[i]).0 & bit != 0
                })
        }),
{
    let start = table(deck.cards.len(), library, hand);
    let g = game(deck, on_play, turns, library, hand, size);
    law_one_land_a_turn(deck, on_play, library, hand, 3);
    law_lands_in(deck.cards, after(deck, on_play, start, 6).hand);
    assert forall|i: int| 0 <= i < 5 implies (#[trigger] g.drops[i] <==> i < turns && after(
        deck,
        on_play,
        start,
        (i + 1) as nat,
    ).lands.len() == i + 1) by {
        law_one_land_a_turn(deck, on_play, library, hand, (i + 1) as nat);
    }
    assert(g.drops[2] == after(deck, on_play, start, 3).drops || turns < 3);
    assert forall|k: int| 0 <= k < deck.colors_needed.len() implies (#[trigger] g.on_time[k] <==> {
        let first = deck.colors_needed[k].1;
        let bit = deck.colors_needed[k].0;
        let tb = after(deck, on_play, start, first as nat);
        1 <= first <= turns && exists|i: int|
            0 <= i < tb.lands.len() && (#[trigger] tb.lands[i]).0 & bit != 0
    }) by {
        let first = deck.colors_needed[k].1;
        let bit = deck.colors_needed[k].0;
        law_colors_in_play(deck, on_play, library, hand, first as nat, bit);
    }
}

/// What a game reports of a card: the first turn on which it was in hand and the
/// lands in play paid for it, if there was one among the turns played.
pub proof fn law_game_casts(
    deck: DeckView,
    on_play: bool,
    turns: nat,
    library: Seq<u16>,
    hand: Seq<u16>,
    size: nat,
    c: int,
)
    requires
        below(library, deck.cards.len()),
        below(hand, deck.cards.len()),
        turns <= 255,
        0 <= c < deck.cards.len(),
    ensures
        ({
            let g = game(deck, on_play, turns, library, hand, size);
            let start = table(deck.cards.len(), library, hand);
            match g.first_cast[c] {
                Some(u) => {
                    &&& 1 <= u <= turns
                    &&& in_reach(deck, after(deck, on_play, start, u as nat), c)
                    &&& forall|v: nat|
                        1 <= v < u ==> !in_reach(
                            deck,
                            #[trigger] after(deck, on_play, start, v),
                            c,
                        )
                },
                None => forall|v: nat|
                    1 <= v <= turns ==> !in_reach(
                        deck,
                        #[trigger] after(deck, on_play, start, v),
                        c,
                    ),
            }
        }),
{
    law_first_cast(deck, on_play, library, hand, turns, c);
}

/// What a game reports of the cards that were drawn, and of the curve: a card was
/// drawn where it was in the opening hand, then on the first turn, or among the
/// cards that were drawn later; and the curve was met where on each of the first
/// four turns played a spell of that mana value was in reach, if the deck has one.
pub proof fn law_game_draws_and_curve(
    deck: DeckView,
    on_play: bool,
    turns: nat,
    library: Seq<u16>,
    hand: Seq<u16>,
    size: nat,
    c: u16,
)
    requires
        below(library, deck.cards.len()),
        below(hand, deck.cards.len()),
        turns <= 255,
        c < deck.cards.len(),
    ensures
        ({
            let g = game(deck, on_play, turns, library, hand, size);
            let start = table(deck.cards.len(), library, hand);
            let n = library.len();
            &&& g.first_drawn[c as int] is Some <==> hand.contains(c) || exists|k: int|
                0 <= k < draws(on_play, n, turns) && #[trigger] library[n - 1 - k] == c
            &&& hand.contains(c) ==> g.first_drawn[c as int] == Some(1u8)
            &&& !hand.contains(c) ==> (g.first_drawn[c as int] matches Some(u) ==> {
                &&& 1 <= u <= turns
                &&& library[n - draws(on_play, n, u as nat)] == c
                &&& forall|k: int|
                    0 <= k < draws(on_play, n, (u - 1) as nat) ==> #[trigger] library[n - 1 - k]
                        != c
            })
            &&& g.curve <==> forall|u: nat|
                1 <= u <= turns && u <= 4 ==> on_curve(
                    deck,
                    #[trigger] after(deck, on_play, start, u),
                    u,
                )
        }),
{
    law_draws(deck, on_play, library, hand, turns, c);
    law_curve(deck, on_play, library, hand, turns);
}

/// Of several lands that are equally good the last in hand is played.
pub proof fn law_last_land_played(
    cards: Seq<SimCardView>,
    hand: Seq<u16>,
    missing: ColorMask,
    p: int,
    i: int,
)
    requires
        land_choice(cards, hand, missing) == Some(p),
        p < i < hand.len(),
        cards[hand[i] as int].kind is Land,
    ensures
        ({
            let played = cards[hand[p] as int].kind->Land_0;
            let other = cards[hand[i] as int].kind->Land_0;
            ||| bits_set(other.0 & missing.0) < bits_set(played.0 & missing.0)
            ||| bits_set(other.0 & missing.0) == bits_set(played.0 & missing.0) && bits_set(other.0)
                < bits_set(played.0)
        }),
    decreases hand.len(),
{
    let rest = hand.drop_last();
    let played = makes(cards[hand[p] as int]);
    let other = makes(cards[hand[i] as int]);
    lemma_choice_is_land(cards, hand, missing);
    if i == hand.len() - 1 {
        lemma_bits_set(played.0);
        lemma_bits_set(other.0);
        lemma_bits_set(played.0 & missing.0);
        lemma_bits_set(other.0 & missing.0);
    } else {
        assert(rest[i] == hand[i] && rest[p] == hand[p]);
        law_last_land_played(cards, rest, missing, p, i);
    }
}

proof fn lemma_choice_is_land(cards: Seq<SimCardView>, hand: Seq<u16>, missing: ColorMask)
    ensures
        land_choice(cards, hand, missing) matches Some(p) ==> 0 <= p < hand.len() && land_at(
            cards,
            hand[p],
        ),
    decreases hand.len(),
{
    if hand.len() > 0 {
        lemma_choice_is_land(cards, hand.drop_last(), missing);
    }
}

} // verus!
