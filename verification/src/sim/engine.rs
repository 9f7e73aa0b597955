//! Many games, and what they give in sum.
use vstd::prelude::*;
use vstd::string::StringExecFns;

use crate::text::{self, decimal, texts};

use super::compile::{CompiledDeck, DeckView, KindView, SimCardView};
use super::deal::{law_hand_sizes, lemma_opening_below, opening, opening_hand, playable};
use super::game::{
    after,
    curve_values,
    game,
    has_value,
    law_drawn_before_cast,
    law_drops_fall,
    law_game_rates,
    law_wrong_colors_never_cast,
    lemma_after_fits,
    play_game,
    table,
    GameView,
    Outcome,
};
use super::mana::{symbol_of, ColorMask, COLOR_BITS};
use super::rng::{arranged, SimRng};
use super::sorting::{ints, key_views, law_sorted_once, sort_positions, sorts};
use super::{
    CardStats,
    ColorStats,
    DeckSummaryOut,
    MulliganDistribution,
    Rate,
    SimParams,
    SimResult,
};

verus! {

// ---------------------------------------------------------------------------
// Counting
// ---------------------------------------------------------------------------

/// Something that may happen in a game.
pub ghost enum Event {
    /// A hand of this size was kept.
    Kept(nat),
    /// A land was played on each turn up to this one, counted from zero.
    Drops(int),
    Screw,
    Flood,
    CurveOut,
    /// The color at this place of the list was there when first needed.
    OnTime(int),
    /// The card at this position could be cast by this turn.
    CastBy(int, int),
    /// The card at this position was drawn by this turn.
    DrawnBy(int, int),
}

/// The first turn is there, and no later than `t`.
pub open spec fn by_turn(first: Option<u8>, t: int) -> bool {
    first is Some && first.unwrap() <= t
}

/// The event happened in the game.
pub open spec fn happened(g: GameView, e: Event) -> bool {
    match e {
        Event::Kept(n) => g.size == n,
        Event::Drops(i) => g.drops[i],
        Event::Screw => g.screw,
        Event::Flood => g.flood,
        Event::CurveOut => g.curve,
        Event::OnTime(k) => g.on_time[k],
        Event::CastBy(c, t) => by_turn(g.first_cast[c], t),
        Event::DrawnBy(c, t) => by_turn(g.first_drawn[c], t),
    }
}

/// In how many of the games the event happened.
pub open spec fn times(games: Seq<GameView>, e: Event) -> nat
    decreases games.len(),
{
    if games.len() == 0 {
        0
    } else {
        times(games.drop_last(), e) + if happened(games.last(), e) {
            1nat
        } else {
            0nat
        }
    }
}

proof fn lemma_tally_push(games: Seq<GameView>, g: GameView, e: Event)
    ensures
        times(games.push(g), e) == times(games, e) + if happened(g, e) {
            1nat
        } else {
            0nat
        },
{
    assert(games.push(g).drop_last() =~= games);
}

proof fn lemma_tally_bound(games: Seq<GameView>, e: Event)
    ensures
        times(games, e) <= games.len(),
    decreases games.len(),
{
    if games.len() > 0 {
        lemma_tally_bound(games.drop_last(), e);
    }
}

/// What happens whenever something else happens is counted at least as often.
pub proof fn law_implied_counts(games: Seq<GameView>, a: Event, b: Event)
    requires
        forall|i: int|
            0 <= i < games.len() && happened(#[trigger] games[i], a) ==> happened(games[i], b),
    ensures
        times(games, a) <= times(games, b),
    decreases games.len(),
{
    if games.len() > 0 {
        let rest = games.drop_last();
        assert forall|i: int| 0 <= i < rest.len() && happened(#[trigger] rest[i], a) implies happened(
            rest[i],
            b,
        ) by {
            assert(rest[i] == games[i]);
        }
        law_implied_counts(rest, a, b);
        assert(games[games.len() - 1] == games.last());
    }
}

/// A card that can be cast, or was drawn, by some turn can be or was by every
/// later turn: the numbers by turn never fall.
pub proof fn law_by_turn_rises(games: Seq<GameView>, c: int, t: int, u: int)
    requires
        t <= u,
    ensures
        times(games, Event::CastBy(c, t)) <= times(games, Event::CastBy(c, u)),
        times(games, Event::DrawnBy(c, t)) <= times(games, Event::DrawnBy(c, u)),
{
    law_implied_counts(games, Event::CastBy(c, t), Event::CastBy(c, u));
    law_implied_counts(games, Event::DrawnBy(c, t), Event::DrawnBy(c, u));
}

/// The counters.
struct Tally {
    /// Hands of seven, six, five and four cards.
    kept: Vec<u32>,
    drops_through: Vec<u32>,
    screw: u32,
    flood: u32,
    curve_out: u32,
    color_on_time: Vec<u32>,
    /// For each card, for each turn: castable by then.
    first_cast_hist: Vec<Vec<u32>>,
    /// For each card, for each turn: drawn by then.
    first_drawn_hist: Vec<Vec<u32>>,
    cast_on_curve: Vec<u32>,
}

/// The turn on which a card is on curve.
pub open spec fn curve_turn(card: SimCardView) -> int {
    if card.value() < 1 {
        1
    } else {
        card.value() as int
    }
}

/// The games have the shape that the deck gives them.
pub open spec fn shaped(deck: DeckView, g: GameView) -> bool {
    &&& 4 <= g.size <= 7
    &&& g.drops.len() == 5
    &&& g.on_time.len() == deck.colors_needed.len()
    &&& g.first_cast.len() == deck.cards.len()
    &&& g.first_drawn.len() == deck.cards.len()
}

impl Tally {
    /// The counters hold the numbers of the games.
    closed spec fn counts(&self, deck: DeckView, turns: nat, games: Seq<GameView>) -> bool {
        &&& self.kept@.len() == 4
        &&& forall|j: int|
            0 <= j < 4 ==> #[trigger] self.kept@[j] == times(games, Event::Kept((7 - j) as nat))
        &&& self.drops_through@.len() == 5
        &&& forall|i: int|
            0 <= i < 5 ==> #[trigger] self.drops_through@[i] == times(games, Event::Drops(i))
        &&& self.screw == times(games, Event::Screw)
        &&& self.flood == times(games, Event::Flood)
        &&& self.curve_out == times(games, Event::CurveOut)
        &&& self.color_on_time@.len() == deck.colors_needed.len()
        &&& forall|k: int|
            0 <= k < deck.colors_needed.len() ==> #[trigger] self.color_on_time@[k] == times(
                games,
                Event::OnTime(k),
            )
        &&& rows_count(self.first_cast_hist@, deck.cards.len(), turns, games, true)
        &&& rows_count(self.first_drawn_hist@, deck.cards.len(), turns, games, false)
        &&& self.cast_on_curve@.len() == deck.cards.len()
        &&& forall|c: int|
            0 <= c < deck.cards.len() ==> #[trigger] self.cast_on_curve@[c] == times(
                games,
                Event::CastBy(c, curve_turn(deck.cards[c])),
            )
    }
}

/// Cast or drawn by a turn.
pub open spec fn seen_by(cast: bool, c: int, t: int) -> Event {
    if cast {
        Event::CastBy(c, t)
    } else {
        Event::DrawnBy(c, t)
    }
}

/// The row holds, for each turn, in how many games the card was cast or drawn
/// by then.
spec fn row_counts(
    row: Seq<u32>,
    turns: nat,
    games: Seq<GameView>,
    cast: bool,
    c: int,
) -> bool {
    &&& row.len() == turns
    &&& forall|k: int|
        0 <= k < turns ==> #[trigger] row[k] == times(games, seen_by(cast, c, k + 1))
}

spec fn rows_count(
    rows: Seq<Vec<u32>>,
    n: nat,
    turns: nat,
    games: Seq<GameView>,
    cast: bool,
) -> bool {
    &&& rows.len() == n
    &&& forall|c: int| 0 <= c < n ==> row_counts((#[trigger] rows[c])@, turns, games, cast, c)
}

fn zeros(n: usize) -> (v: Vec<u32>)
    ensures
        v@.len() == n,
        forall|i: int| 0 <= i < n ==> #[trigger] v@[i] == 0,
{
    let mut v: Vec<u32> = Vec::new();
    let mut i: usize = 0;
    while i < n
        invariant
            i <= n,
            v@.len() == i,
            forall|j: int| 0 <= j < i ==> #[trigger] v@[j] == 0,
        decreases n - i,
    {
        v.push(0);
        i += 1;
    }
    v
}

fn zero_rows(n: usize, turns: usize, Ghost(cast): Ghost<bool>) -> (rows: Vec<Vec<u32>>)
    ensures
        rows_count(rows@, n as nat, turns as nat, Seq::empty(), cast),
{
    let mut rows: Vec<Vec<u32>> = Vec::new();
    let mut i: usize = 0;
    while i < n
        invariant
            i <= n,
            rows_count(rows@, i as nat, turns as nat, Seq::empty(), cast),
        decreases n - i,
    {
        rows.push(zeros(turns));
        i += 1;
    }
    rows
}

/// Adds one to each entry of a row from the first turn on.
fn raise(
    row: &mut Vec<u32>,
    first: Option<u8>,
    Ghost(games): Ghost<Seq<GameView>>,
    Ghost(g): Ghost<GameView>,
    Ghost(cast): Ghost<bool>,
    Ghost(c): Ghost<int>,
)
    requires
        row_counts(old(row)@, old(row)@.len(), games, cast, c),
        games.len() < u32::MAX,
        old(row)@.len() <= 255,
        first == (if cast {
            g.first_cast[c]
        } else {
            g.first_drawn[c]
        }),
    ensures
        row_counts(final(row)@, old(row)@.len(), games.push(g), cast, c),
{
    let ghost was = row@;
    let n = row.len();
    let mut k: usize = 0;
    while k < n
        invariant
            k <= n <= 255,
            n == was.len(),
            row@.len() == n,
            row_counts(was, n as nat, games, cast, c),
            games.len() < u32::MAX,
            first == (if cast {
                g.first_cast[c]
            } else {
                g.first_drawn[c]
            }),
            forall|j: int| k <= j < n ==> row@[j] == was[j],
            forall|j: int|
                0 <= j < k ==> #[trigger] row@[j] == times(games.push(g), seen_by(cast, c, j + 1)),
        decreases n - k,
    {
        proof {
            lemma_tally_push(games, g, seen_by(cast, c, k + 1));
            lemma_tally_bound(games, seen_by(cast, c, k + 1));
            assert(was[k as int] == times(games, seen_by(cast, c, k + 1)));
        }
        if let Some(t) = first {
            if t as usize <= k + 1 {
                let v = row[k];
                row.set(k, v + 1);
            }
        }
        k += 1;
    }
}

fn raise_rows(
    rows: &mut Vec<Vec<u32>>,
    firsts: &Vec<Option<u8>>,
    turns: usize,
    Ghost(games): Ghost<Seq<GameView>>,
    Ghost(g): Ghost<GameView>,
    Ghost(cast): Ghost<bool>,
)
    requires
        rows_count(old(rows)@, firsts@.len(), turns as nat, games, cast),
        games.len() < u32::MAX,
        turns <= 255,
        firsts@ == (if cast {
            g.first_cast
        } else {
            g.first_drawn
        }),
    ensures
        rows_count(final(rows)@, firsts@.len(), turns as nat, games.push(g), cast),
{
    let mut c: usize = 0;
    while c < rows.len()
        invariant
            c <= rows@.len(),
            rows@.len() == firsts@.len(),
            games.len() < u32::MAX,
            turns <= 255,
            firsts@ == (if cast {
                g.first_cast
            } else {
                g.first_drawn
            }),
            forall|i: int|
                c <= i < rows@.len() ==> row_counts(
                    (#[trigger] rows@[i])@,
                    turns as nat,
                    games,
                    cast,
                    i,
                ),
            forall|i: int|
                0 <= i < c ==> row_counts(
                    (#[trigger] rows@[i])@,
                    turns as nat,
                    games.push(g),
                    cast,
                    i,
                ),
        decreases rows@.len() - c,
    {
        let ghost was = rows@;
        assert(row_counts(was[c as int]@, turns as nat, games, cast, c as int));
        raise(&mut rows[c], firsts[c], Ghost(games), Ghost(g), Ghost(cast), Ghost(c as int));
        proof {
            assert forall|i: int| 0 <= i < rows@.len() && i != c implies #[trigger] rows@[i]
                == was[i] by {}
        }
        c += 1;
    }
}

impl Tally {
    fn new(deck: &CompiledDeck, turns: usize) -> (r: Tally)
        ensures
            r.counts(deck@, turns as nat, Seq::empty()),
    {
        let n = deck.cards.len();
        Tally {
            kept: zeros(4),
            drops_through: zeros(5),
            screw: 0,
            flood: 0,
            curve_out: 0,
            color_on_time: zeros(deck.colors_needed.len()),
            first_cast_hist: zero_rows(n, turns, Ghost(true)),
            first_drawn_hist: zero_rows(n, turns, Ghost(false)),
            cast_on_curve: zeros(n),
        }
    }

    /// Counts one more game.
    fn record(
        &mut self,
        deck: &CompiledDeck,
        turns: usize,
        o: &Outcome,
        Ghost(games): Ghost<Seq<GameView>>,
    )
        requires
            old(self).counts(deck@, turns as nat, games),
            shaped(deck@, o@),
            games.len() < u32::MAX,
            turns <= 255,
        ensures
            final(self).counts(deck@, turns as nat, games.push(o@)),
    {
        let ghost g = o@;
        let ghost more = games.push(g);
        proof {
            assert forall|e: Event| #[trigger] times(more, e) == times(games, e) + if happened(g, e) {
                1nat
            } else {
                0nat
            } && times(games, e) < u32::MAX by {
                lemma_tally_push(games, g, e);
                lemma_tally_bound(games, e);
            }
            assert(times(more, Event::Screw) <= u32::MAX);
            assert(times(more, Event::Flood) <= u32::MAX);
            assert(times(more, Event::CurveOut) <= u32::MAX);
        }
        let slot: usize = (7 - o.size) as usize;
        let ghost kept = self.kept@;
        let v: u32 = self.kept[slot];
        assert(v < u32::MAX) by {
            assert(kept[slot as int] == times(games, Event::Kept((7 - slot) as nat)));
            assert(times(more, Event::Kept((7 - slot) as nat)) >= 0);
        }
        self.kept.set(slot, v + 1);
        assert forall|j: int| 0 <= j < 4 implies #[trigger] self.kept@[j] == times(
            more,
            Event::Kept((7 - j) as nat),
        ) by {
            assert(kept[j] == times(games, Event::Kept((7 - j) as nat)));
        }
        raise_where(&mut self.drops_through, &o.drops, Ghost(games), Ghost(g), Ghost(true));
        raise_where(&mut self.color_on_time, &o.on_time, Ghost(games), Ghost(g), Ghost(false));
        if o.screw {
            self.screw = self.screw + 1;
        }
        if o.flood {
            self.flood = self.flood + 1;
        }
        if o.curve {
            self.curve_out = self.curve_out + 1;
        }
        raise_rows(
            &mut self.first_cast_hist,
            &o.first_cast,
            turns,
            Ghost(games),
            Ghost(g),
            Ghost(true),
        );
        raise_rows(
            &mut self.first_drawn_hist,
            &o.first_drawn,
            turns,
            Ghost(games),
            Ghost(g),
            Ghost(false),
        );
        let ghost curve = self.cast_on_curve@;
        let ghost at_loop = *self;
        let mut c: usize = 0;
        while c < deck.cards.len()
            invariant
                c <= deck@.cards.len(),
                g == o@,
                more == games.push(g),
                shaped(deck@, g),
                curve.len() == deck@.cards.len(),
                self.cast_on_curve@.len() == deck@.cards.len(),
                games.len() < u32::MAX,
                forall|i: int|
                    0 <= i < deck@.cards.len() ==> #[trigger] curve[i] == times(
                        games,
                        Event::CastBy(i, curve_turn(deck@.cards[i])),
                    ),
                forall|i: int|
                    c <= i < deck@.cards.len() ==> #[trigger] self.cast_on_curve@[i] == curve[i],
                forall|i: int|
                    0 <= i < c ==> #[trigger] self.cast_on_curve@[i] == times(
                        more,
                        Event::CastBy(i, curve_turn(deck@.cards[i])),
                    ),
                self.kept@ == at_loop.kept@,
                self.drops_through@ == at_loop.drops_through@,
                self.screw == at_loop.screw,
                self.flood == at_loop.flood,
                self.curve_out == at_loop.curve_out,
                self.color_on_time@ == at_loop.color_on_time@,
                self.first_cast_hist@ == at_loop.first_cast_hist@,
                self.first_drawn_hist@ == at_loop.first_drawn_hist@,
            decreases deck@.cards.len() - c,
        {
            let mv = deck.cards[c].mana_value();
            assert(deck.cards@[c as int]@ == deck@.cards[c as int]);
            let by: u8 = if mv < 1 {
                1
            } else {
                mv
            };
            proof {
                let e = Event::CastBy(c as int, curve_turn(deck@.cards[c as int]));
                lemma_tally_push(games, g, e);
                lemma_tally_bound(games, e);
                assert(self.cast_on_curve@[c as int] == curve[c as int]);
            }
            if let Some(t) = o.first_cast[c] {
                if t <= by {
                    let w: u32 = self.cast_on_curve[c];
                    self.cast_on_curve.set(c, w + 1);
                }
            }
            c += 1;
        }
    }
}

/// Adds one to each entry where the flag is set.
fn raise_where(
    row: &mut Vec<u32>,
    flags: &Vec<bool>,
    Ghost(games): Ghost<Seq<GameView>>,
    Ghost(g): Ghost<GameView>,
    Ghost(drops): Ghost<bool>,
)
    requires
        old(row)@.len() == flags@.len(),
        games.len() < u32::MAX,
        flags@ == (if drops {
            g.drops
        } else {
            g.on_time
        }),
        forall|i: int|
            0 <= i < flags@.len() ==> #[trigger] old(row)@[i] == times(games, flagged(drops, i)),
    ensures
        final(row)@.len() == flags@.len(),
        forall|i: int|
            0 <= i < flags@.len() ==> #[trigger] final(row)@[i] == times(
                games.push(g),
                flagged(drops, i),
            ),
{
    let ghost was = row@;
    let mut k: usize = 0;
    while k < flags.len()
        invariant
            k <= flags@.len(),
            row@.len() == flags@.len(),
            was.len() == flags@.len(),
            games.len() < u32::MAX,
            flags@ == (if drops {
                g.drops
            } else {
                g.on_time
            }),
            forall|i: int| 0 <= i < was.len() ==> #[trigger] was[i] == times(games, flagged(drops, i)),
            forall|i: int| k <= i < was.len() ==> #[trigger] row@[i] == was[i],
            forall|i: int|
                0 <= i < k ==> #[trigger] row@[i] == times(games.push(g), flagged(drops, i)),
        decreases flags@.len() - k,
    {
        proof {
            lemma_tally_push(games, g, flagged(drops, k as int));
            lemma_tally_bound(games, flagged(drops, k as int));
            assert(row@[k as int] == was[k as int]);
        }
        if flags[k] {
            let v: u32 = row[k];
            row.set(k, v + 1);
        }
        k += 1;
    }
}

spec fn flagged(drops: bool, i: int) -> Event {
    if drops {
        Event::Drops(i)
    } else {
        Event::OnTime(i)
    }
}

// ---------------------------------------------------------------------------
// Runs
// ---------------------------------------------------------------------------

/// How many turns are played: at least one.
pub open spec fn turns_of(params: SimParams) -> nat {
    if params.turns < 1 {
        1
    } else {
        params.turns as nat
    }
}

/// The lengths of all shuffles before game `n`, counted from zero.
pub open spec fn shuffles_before(
    deck: DeckView,
    params: SimParams,
    seed: u64,
    earlier: Seq<nat>,
    n: nat,
) -> Seq<nat>
    decreases n,
{
    if n == 0 {
        earlier
    } else {
        opening(
            deck,
            params.bo1_smoothing,
            seed,
            shuffles_before(deck, params, seed, earlier, (n - 1) as nat),
            7,
        ).earlier
    }
}

/// Game `n` of a run, counted from zero.
pub open spec fn nth_game(
    deck: DeckView,
    params: SimParams,
    seed: u64,
    earlier: Seq<nat>,
    n: nat,
) -> GameView {
    let o = opening(
        deck,
        params.bo1_smoothing,
        seed,
        shuffles_before(deck, params, seed, earlier, n),
        7,
    );
    game(deck, params.on_play, turns_of(params), o.library, o.hand, o.size)
}

/// The first `n` games of a run.
pub open spec fn games(
    deck: DeckView,
    params: SimParams,
    seed: u64,
    earlier: Seq<nat>,
    n: nat,
) -> Seq<GameView> {
    Seq::new(n, |i: int| nth_game(deck, params, seed, earlier, i as nat))
}

/// Plays one game and counts it.
fn play_one_game(
    deck: &CompiledDeck,
    params: &SimParams,
    rng: &mut SimRng,
    turns: usize,
    has_mv: &Vec<bool>,
    tally: &mut Tally,
    Ghost(earlier): Ghost<Seq<nat>>,
    Ghost(n): Ghost<nat>,
)
    requires
        deck@.wf(),
        playable(deck@),
        turns == turns_of(*params),
        has_mv@.len() == 5,
        forall|v: int| 1 <= v <= 4 ==> #[trigger] has_mv@[v] == has_value(deck@.cards, v),
        old(rng).earlier() == shuffles_before(deck@, *params, old(rng).seed(), earlier, n),
        old(tally).counts(
            deck@,
            turns as nat,
            games(deck@, *params, old(rng).seed(), earlier, n),
        ),
        n < u32::MAX,
    ensures
        final(rng).seed() == old(rng).seed(),
        final(rng).earlier() == shuffles_before(
            deck@,
            *params,
            old(rng).seed(),
            earlier,
            n + 1,
        ),
        final(tally).counts(
            deck@,
            turns as nat,
            games(deck@, *params, old(rng).seed(), earlier, n + 1),
        ),
{
    let ghost seed = rng.seed();
    let ghost so_far = games(deck@, *params, seed, earlier, n);
    let (library, hand, size) = opening_hand(deck, params, rng);
    let outcome = play_game(deck, params.on_play, turns, has_mv, library, hand, size);
    tally.record(deck, turns, &outcome, Ghost(so_far));
    proof {
        assert(outcome@ == nth_game(deck@, *params, seed, earlier, n));
        assert(games(deck@, *params, seed, earlier, n + 1) =~= so_far.push(outcome@));
    }
}

// ---------------------------------------------------------------------------
// Results
// ---------------------------------------------------------------------------

/// How many games a rate is out of: at least one.
pub open spec fn out_of(params: SimParams) -> u32 {
    if params.iterations < 1 {
        1
    } else {
        params.iterations
    }
}

/// How often the event happened.
pub open spec fn rate_of(params: SimParams, games: Seq<GameView>, e: Event) -> Rate {
    Rate { hits: times(games, e) as u32, of: out_of(params) }
}

/// What is reported of a spell.
pub ghost struct CardStatsView {
    pub arena_id: u32,
    pub name: Seq<char>,
    pub quantity: u32,
    pub mana_cost: Seq<char>,
    pub mana_value: u8,
    pub p_cast_on_curve: Rate,
    pub p_cast_by: Seq<Rate>,
    pub p_drawn_by: Seq<Rate>,
}

impl View for CardStats {
    type V = CardStatsView;

    open spec fn view(&self) -> CardStatsView {
        CardStatsView {
            arena_id: self.arena_id,
            name: self.name@,
            quantity: self.quantity,
            mana_cost: self.mana_cost@,
            mana_value: self.mana_value,
            p_cast_on_curve: self.p_cast_on_curve,
            p_cast_by: self.p_cast_by@,
            p_drawn_by: self.p_drawn_by@,
        }
    }
}

/// What a list of reports on spells holds.
pub open spec fn stat_views(list: Seq<CardStats>) -> Seq<CardStatsView> {
    list.map_values(|r: CardStats| r@)
}

/// The report on the card at position `c`.
pub open spec fn card_stats(
    deck: DeckView,
    params: SimParams,
    games: Seq<GameView>,
    c: int,
) -> CardStatsView {
    let card = deck.cards[c];
    CardStatsView {
        arena_id: card.arena_id,
        name: card.name,
        quantity: card.quantity,
        mana_cost: card.mana_cost,
        mana_value: card.value(),
        p_cast_on_curve: rate_of(params, games, Event::CastBy(c, curve_turn(card))),
        p_cast_by: Seq::new(
            turns_of(params),
            |k: int| rate_of(params, games, Event::CastBy(c, k + 1)),
        ),
        p_drawn_by: Seq::new(
            turns_of(params),
            |k: int| rate_of(params, games, Event::DrawnBy(c, k + 1)),
        ),
    }
}

/// The positions of the spells.
pub open spec fn spells(cards: Seq<SimCardView>) -> Seq<int>
    decreases cards.len(),
{
    if cards.len() == 0 {
        seq![]
    } else if cards.last().kind is Spell {
        spells(cards.drop_last()).push(cards.len() - 1)
    } else {
        spells(cards.drop_last())
    }
}

/// The keys by which the spells are sorted.
pub open spec fn spell_keys(cards: Seq<SimCardView>) -> Seq<(u8, Seq<char>)> {
    spells(cards).map_values(|c: int| (cards[c].value(), cards[c].name))
}

/// The reports are those on the spells, sorted by mana value and then by name;
/// spells equal in both keep their order.
pub open spec fn reports_spells(
    reports: Seq<CardStats>,
    deck: DeckView,
    params: SimParams,
    games: Seq<GameView>,
) -> bool {
    exists|order: Seq<int>|
        #![trigger sorts(order, spell_keys(deck.cards))]
        sorts(order, spell_keys(deck.cards)) && stat_views(reports) == arranged(
            spells(deck.cards),
            order,
        ).map_values(|c: int| card_stats(deck, params, games, c))
}

/// What is reported of a color.
pub ghost struct ColorStatsView {
    pub color: Seq<char>,
    pub first_needed_turn: u8,
    pub p_on_time: Rate,
}

impl View for ColorStats {
    type V = ColorStatsView;

    open spec fn view(&self) -> ColorStatsView {
        ColorStatsView {
            color: self.color@,
            first_needed_turn: self.first_needed_turn,
            p_on_time: self.p_on_time,
        }
    }
}

/// What a list of reports on colors holds.
pub open spec fn color_views(list: Seq<ColorStats>) -> Seq<ColorStatsView> {
    list.map_values(|c: ColorStats| c@)
}

/// The reports on the colors that the deck asks for.
pub open spec fn color_stats(
    deck: DeckView,
    params: SimParams,
    games: Seq<GameView>,
) -> Seq<ColorStatsView> {
    Seq::new(
        deck.colors_needed.len(),
        |k: int|
            ColorStatsView {
                color: symbol_of(deck.colors_needed[k].0),
                first_needed_turn: deck.colors_needed[k].1,
                p_on_time: rate_of(params, games, Event::OnTime(k)),
            },
    )
}

/// What a run takes for granted.
pub open spec fn assumptions(turns: nat, smoothing: bool) -> Seq<Seq<char>> {
    let always = seq![
        "Lands are the only mana source; ramp, treasures, and mana rocks are not modeled."@,
        "All lands enter untapped and can produce any one of their colors."@,
        "Phyrexian pips are paid with life; {2/W}-style costs pay the generic branch; X = 0."@,
        "Mulligan rule: keep any 7 drawn cards with 2-5 lands (evaluated at hand sizes 7/6/5); always keep at 4. London bottoming keeps 3 lands, then bottoms the highest-cost spells."@,
        "Mana screw = fewer than 3 lands in play at end of turn 3; flood = lands in play + hand at end of turn 6 at least 2 more than needed (max spell cost, capped at 6); curve-out = a castable spell of each mana value 1-4 the deck contains, on time, over "@
            + decimal(turns) + " turns."@,
        "Modal double-faced cards with a land back face are treated as spells."@,
    ];
    if smoothing {
        always.push(
            "Bo1 smoothing modeled as best-of-2 candidate hands by land count vs. the deck's land ratio (Arena's real algorithm is unpublished)."@,
        )
    } else {
        always
    }
}

/// `n` as far as 32 bits hold it.
pub open spec fn low_word(n: nat) -> u32 {
    (n % 0x1_0000_0000) as u32
}

/// The result is what the games give.
pub open spec fn reports(
    r: SimResult,
    deck: CompiledDeck,
    params: SimParams,
    games: Seq<GameView>,
) -> bool {
    &&& r.params == params
    &&& r.deck == (DeckSummaryOut {
        total_cards: low_word(deck@.library.len()),
        lands: deck.land_count,
        distinct_spells: low_word(spells(deck@.cards).len()),
        max_spell_mv: deck.max_spell_mv,
    })
    &&& r.keep7_rate == rate_of(params, games, Event::Kept(7))
    &&& r.mulligan_distribution == (MulliganDistribution {
        kept7: rate_of(params, games, Event::Kept(7)),
        kept6: rate_of(params, games, Event::Kept(6)),
        kept5: rate_of(params, games, Event::Kept(5)),
        kept4: rate_of(params, games, Event::Kept(4)),
    })
    &&& r.land_drops_on_curve@ == Seq::new(
        5,
        |i: int| rate_of(params, games, Event::Drops(i)),
    )
    &&& r.screw_rate == rate_of(params, games, Event::Screw)
    &&& r.flood_rate == rate_of(params, games, Event::Flood)
    &&& r.curve_out_rate == rate_of(params, games, Event::CurveOut)
    &&& reports_spells(r.cards@, deck@, params, games)
    &&& color_views(r.colors@) == color_stats(deck@, params, games)
    &&& texts(r.warnings@) == texts(deck.warnings@)
    &&& texts(r.assumptions@) == assumptions(turns_of(params), params.bo1_smoothing)
}

fn rates(row: &Vec<u32>, of: u32) -> (r: Vec<Rate>)
    ensures
        r@.len() == row@.len(),
        forall|i: int| 0 <= i < row@.len() ==> #[trigger] r@[i] == (Rate { hits: row@[i], of }),
{
    let mut r: Vec<Rate> = Vec::new();
    let mut i: usize = 0;
    while i < row.len()
        invariant
            i <= row@.len(),
            r@.len() == i,
            forall|j: int| 0 <= j < i ==> #[trigger] r@[j] == (Rate { hits: row@[j], of }),
        decreases row@.len() - i,
    {
        r.push(Rate { hits: row[i], of });
        i += 1;
    }
    r
}

fn color_name(bit: u8) -> (r: String)
    ensures
        r@ == symbol_of(bit),
{
    let mut r = String::new();
    let mut k: usize = 0;
    while k < 6
        invariant
            k <= 6,
            r@ == Seq::<char>::empty(),
            forall|j: int| 0 <= j < k ==> bit != (#[trigger] COLOR_BITS@[j]).0,
        decreases 6 - k,
    {
        if COLOR_BITS[k].0 == bit {
            r.push(COLOR_BITS[k].1);
            assert(r@ =~= symbol_of(bit));
            return r;
        }
        k += 1;
    }
    assert(COLOR_BITS@[0].0 == 1 && COLOR_BITS@[1].0 == 2 && COLOR_BITS@[2].0 == 4
        && COLOR_BITS@[3].0 == 8 && COLOR_BITS@[4].0 == 16 && COLOR_BITS@[5].0 == 32);
    r
}

fn assumption_list(turns: usize, smoothing: bool) -> (r: Vec<String>)
    ensures
        texts(r@) == assumptions(turns as nat, smoothing),
{
    let mut rule = text::owned(
        "Mana screw = fewer than 3 lands in play at end of turn 3; flood = lands in play + hand at end of turn 6 at least 2 more than needed (max spell cost, capped at 6); curve-out = a castable spell of each mana value 1-4 the deck contains, on time, over ",
    );
    text::push_decimal(&mut rule, turns as u64);
    rule.append(" turns.");
    let mut r: Vec<String> = Vec::new();
    r.push(
        text::owned("Lands are the only mana source; ramp, treasures, and mana rocks are not modeled."),
    );
    r.push(text::owned("All lands enter untapped and can produce any one of their colors."));
    r.push(
        text::owned(
            "Phyrexian pips are paid with life; {2/W}-style costs pay the generic branch; X = 0.",
        ),
    );
    r.push(
        text::owned(
            "Mulligan rule: keep any 7 drawn cards with 2-5 lands (evaluated at hand sizes 7/6/5); always keep at 4. London bottoming keeps 3 lands, then bottoms the highest-cost spells.",
        ),
    );
    r.push(rule);
    r.push(text::owned("Modal double-faced cards with a land back face are treated as spells."));
    if smoothing {
        r.push(
            text::owned(
                "Bo1 smoothing modeled as best-of-2 candidate hands by land count vs. the deck's land ratio (Arena's real algorithm is unpublished).",
            ),
        );
    }
    assert(texts(r@) =~= assumptions(turns as nat, smoothing));
    r
}

fn spell_positions(deck: &CompiledDeck) -> (r: Vec<usize>)
    ensures
        ints(r@) == spells(deck@.cards),
        forall|i: int| 0 <= i < r@.len() ==> (#[trigger] r@[i]) < deck@.cards.len(),
{
    let ghost cards = deck@.cards;
    let mut r: Vec<usize> = Vec::new();
    let mut c: usize = 0;
    assert(ints(r@) =~= spells(cards.take(0)));
    while c < deck.cards.len()
        invariant
            c <= cards.len(),
            cards == deck@.cards,
            ints(r@) == spells(cards.take(c as int)),
            forall|i: int| 0 <= i < r@.len() ==> (#[trigger] r@[i]) < c,
        decreases cards.len() - c,
    {
        assert(cards.take(c + 1).drop_last() =~= cards.take(c as int));
        assert(deck.cards@[c as int]@ == cards[c as int]);
        let ghost was = r@;
        if deck.cards[c].cost().is_some() {
            r.push(c);
            assert(ints(r@) =~= ints(was).push(c as int));
        }
        c += 1;
    }
    assert(cards.take(c as int) =~= cards);
    r
}

/// Turns the counters into the result.
fn finalize(
    deck: &CompiledDeck,
    params: &SimParams,
    turns: usize,
    tally: Tally,
    Ghost(games): Ghost<Seq<GameView>>,
) -> (r: SimResult)
    requires
        turns == turns_of(*params),
        tally.counts(deck@, turns as nat, games),
    ensures
        reports(r, *deck, *params, games),
{
    let of: u32 = if params.iterations < 1 {
        1
    } else {
        params.iterations
    };
    let positions = spell_positions(deck);
    let ghost cards = deck@.cards;
    let mut keys: Vec<(u8, String)> = Vec::new();
    let mut i: usize = 0;
    while i < positions.len()
        invariant
            i <= positions@.len(),
            cards == deck@.cards,
            ints(positions@) == spells(cards),
            forall|j: int| 0 <= j < positions@.len() ==> (#[trigger] positions@[j]) < cards.len(),
            key_views(keys@) == spell_keys(cards).take(i as int),
        decreases positions@.len() - i,
    {
        assert(positions@[i as int] < cards.len());
        let card = &deck.cards[positions[i]];
        assert(card@ == cards[positions@[i as int] as int]);
        assert(ints(positions@)[i as int] == positions@[i as int]);
        let ghost was = keys@;
        keys.push((card.mana_value(), card.name.clone()));
        i += 1;
        proof {
            let all = spell_keys(cards);
            assert(all[i - 1] == (card@.value(), card@.name));
            assert(key_views(keys@) =~= key_views(was).push(all[i - 1]));
            assert(all.take(i as int) =~= all.take(i - 1).push(all[i - 1]));
        }
    }
    assert(key_views(keys@) =~= spell_keys(cards));
    let order = sort_positions(&keys);
    let ghost arranged_spells = arranged(spells(cards), ints(order@));
    let ghost wanted = arranged_spells.map_values(
        |c: int| card_stats(deck@, *params, games, c),
    );
    let mut stats: Vec<CardStats> = Vec::new();
    let mut k: usize = 0;
    while k < order.len()
        invariant
            k <= order@.len(),
            cards == deck@.cards,
            of == out_of(*params),
            turns == turns_of(*params),
            tally.counts(deck@, turns as nat, games),
            ints(positions@) == spells(cards),
            forall|j: int| 0 <= j < positions@.len() ==> (#[trigger] positions@[j]) < cards.len(),
            sorts(ints(order@), spell_keys(cards)),
            arranged_spells == arranged(spells(cards), ints(order@)),
            wanted == arranged_spells.map_values(|c: int| card_stats(deck@, *params, games, c)),
            stat_views(stats@) == wanted.take(k as int),
        decreases order@.len() - k,
    {
        assert(ints(order@)[k as int] == order@[k as int]);
        assert(0 <= ints(order@)[k as int] < spell_keys(cards).len());
        let idx: usize = positions[order[k]];
        assert(positions@[order@[k as int] as int] < cards.len());
        assert(ints(positions@)[order@[k as int] as int] == idx);
        let card = &deck.cards[idx];
        assert(card@ == cards[idx as int]);
        proof {
            assert(row_counts(tally.first_cast_hist@[idx as int]@, turns as nat, games, true, idx as int));
            assert(row_counts(tally.first_drawn_hist@[idx as int]@, turns as nat, games, false, idx as int));
        }
        let one = CardStats {
            arena_id: card.arena_id,
            name: card.name.clone(),
            quantity: card.quantity,
            mana_cost: card.mana_cost.clone(),
            mana_value: card.mana_value(),
            p_cast_on_curve: Rate { hits: tally.cast_on_curve[idx], of },
            p_cast_by: rates(&tally.first_cast_hist[idx], of),
            p_drawn_by: rates(&tally.first_drawn_hist[idx], of),
        };
        proof {
            let w = card_stats(deck@, *params, games, idx as int);
            assert(one@.p_cast_by =~= w.p_cast_by);
            assert(one@.p_drawn_by =~= w.p_drawn_by);
            assert(one@ == w);
            assert(wanted[k as int] == w);
        }
        let ghost was = stats@;
        stats.push(one);
        k += 1;
        proof {
            assert(stat_views(stats@) =~= stat_views(was).push(wanted[k - 1]));
            assert(wanted.take(k as int) =~= wanted.take(k - 1).push(wanted[k - 1]));
        }
    }
    assert(wanted.take(k as int) =~= wanted);
    let mut colors: Vec<ColorStats> = Vec::new();
    let mut m: usize = 0;
    let ghost wanted_colors = color_stats(deck@, *params, games);
    while m < deck.colors_needed.len()
        invariant
            m <= deck@.colors_needed.len(),
            of == out_of(*params),
            tally.counts(deck@, turns as nat, games),
            wanted_colors == color_stats(deck@, *params, games),
            color_views(colors@) == wanted_colors.take(m as int),
        decreases deck@.colors_needed.len() - m,
    {
        let (bit, first_turn) = deck.colors_needed[m];
        let ghost was = colors@;
        colors.push(
            ColorStats {
                color: color_name(bit),
                first_needed_turn: first_turn,
                p_on_time: Rate { hits: tally.color_on_time[m], of },
            },
        );
        m += 1;
        proof {
            let all = wanted_colors;
            assert(color_views(colors@) =~= color_views(was).push(all[m - 1]));
            assert(all.take(m as int) =~= all.take(m - 1).push(all[m - 1]));
        }
    }
    assert(wanted_colors.take(m as int) =~= wanted_colors);
    proof {
        assert(tally.kept@[0] == times(games, Event::Kept(7)));
        assert(tally.kept@[1] == times(games, Event::Kept(6)));
        assert(tally.kept@[2] == times(games, Event::Kept(5)));
        assert(tally.kept@[3] == times(games, Event::Kept(4)));
        assert(sorts(ints(order@), spell_keys(deck@.cards)));
        assert(positions@.len() == ints(positions@).len());
    }
    let kept7 = Rate { hits: tally.kept[0], of };
    let land_drops_on_curve = rates(&tally.drops_through, of);
    assert(land_drops_on_curve@ =~= Seq::new(
        5,
        |i: int| rate_of(*params, games, Event::Drops(i)),
    ));
    SimResult {
        params: SimParams {
            iterations: params.iterations,
            on_play: params.on_play,
            bo1_smoothing: params.bo1_smoothing,
            seed: params.seed,
            turns: params.turns,
        },
        deck: DeckSummaryOut {
            total_cards: (deck.library.len() as u64 % 0x1_0000_0000) as u32,
            lands: deck.land_count,
            distinct_spells: (positions.len() as u64 % 0x1_0000_0000) as u32,
            max_spell_mv: deck.max_spell_mv,
        },
        keep7_rate: kept7,
        mulligan_distribution: MulliganDistribution {
            kept7,
            kept6: Rate { hits: tally.kept[1], of },
            kept5: Rate { hits: tally.kept[2], of },
            kept4: Rate { hits: tally.kept[3], of },
        },
        land_drops_on_curve,
        screw_rate: Rate { hits: tally.screw, of },
        flood_rate: Rate { hits: tally.flood, of },
        curve_out_rate: Rate { hits: tally.curve_out, of },
        cards: stats,
        colors,
        warnings: text::copy_texts(&deck.warnings),
        assumptions: assumption_list(turns, params.bo1_smoothing),
    }
}

/// Plays the games and reports what they gave.
pub fn run(deck: &CompiledDeck, params: &SimParams, rng: &mut SimRng) -> (r: SimResult)
    requires
        deck@.wf(),
        params.iterations == 0 || playable(deck@),
    ensures
        reports(
            r,
            *deck,
            *params,
            games(deck@, *params, old(rng).seed(), old(rng).earlier(), params.iterations as nat),
        ),
        final(rng).seed() == old(rng).seed(),
        final(rng).earlier() == shuffles_before(
            deck@,
            *params,
            old(rng).seed(),
            old(rng).earlier(),
            params.iterations as nat,
        ),
{
    let turns: usize = if params.turns < 1 {
        1
    } else {
        params.turns as usize
    };
    let ghost seed = rng.seed();
    let ghost earlier = rng.earlier();
    let mut tally = Tally::new(deck, turns);
    let has_mv = curve_values(deck);
    let mut n: u32 = 0;
    assert(games(deck@, *params, seed, earlier, 0) =~= Seq::<GameView>::empty());
    while n < params.iterations
        invariant
            n <= params.iterations,
            deck@.wf(),
            params.iterations == 0 || playable(deck@),
            turns == turns_of(*params),
            has_mv@.len() == 5,
            forall|v: int| 1 <= v <= 4 ==> #[trigger] has_mv@[v] == has_value(deck@.cards, v),
            rng.seed() == seed,
            rng.earlier() == shuffles_before(deck@, *params, seed, earlier, n as nat),
            tally.counts(deck@, turns as nat, games(deck@, *params, seed, earlier, n as nat)),
        decreases params.iterations - n,
    {
        play_one_game(
            deck,
            params,
            rng,
            turns,
            &has_mv,
            &mut tally,
            Ghost(earlier),
            Ghost(n as nat),
        );
        n += 1;
    }
    finalize(
        deck,
        params,
        turns,
        tally,
        Ghost(games(deck@, *params, seed, earlier, params.iterations as nat)),
    )
}

// ---------------------------------------------------------------------------
// Laws
// ---------------------------------------------------------------------------

/// Of `n` games each kept a hand of seven, six, five or four cards: the four
/// counts add up to `n`.
pub proof fn law_hands_add_up(
    deck: DeckView,
    params: SimParams,
    seed: u64,
    earlier: Seq<nat>,
    n: nat,
)
    ensures
        ({
            let g = games(deck, params, seed, earlier, n);
            times(g, Event::Kept(7)) + times(g, Event::Kept(6)) + times(g, Event::Kept(5)) + times(
                g,
                Event::Kept(4),
            ) == n
        }),
    decreases n,
{
    let g = games(deck, params, seed, earlier, n);
    if n > 0 {
        let m = (n - 1) as nat;
        law_hands_add_up(deck, params, seed, earlier, m);
        assert(g.drop_last() =~= games(deck, params, seed, earlier, m));
        law_hand_sizes(
            deck,
            params.bo1_smoothing,
            seed,
            shuffles_before(deck, params, seed, earlier, m),
            7,
        );
        assert(g.last() == nth_game(deck, params, seed, earlier, m));
    }
}

/// The share of games with every land drop made never rises with the turn.
pub proof fn law_land_drops_fall(
    deck: DeckView,
    params: SimParams,
    seed: u64,
    earlier: Seq<nat>,
    n: nat,
    i: int,
    j: int,
)
    requires
        0 <= i <= j < 5,
    ensures
        times(games(deck, params, seed, earlier, n), Event::Drops(j)) <= times(
            games(deck, params, seed, earlier, n),
            Event::Drops(i),
        ),
{
    let g = games(deck, params, seed, earlier, n);
    assert forall|k: int| 0 <= k < g.len() && happened(#[trigger] g[k], Event::Drops(j)) implies happened(
        g[k],
        Event::Drops(i),
    ) by {
        let o = opening(
            deck,
            params.bo1_smoothing,
            seed,
            shuffles_before(deck, params, seed, earlier, k as nat),
            7,
        );
        law_drops_fall(
            deck,
            params.on_play,
            turns_of(params),
            o.library,
            o.hand,
            o.size,
            i,
            j,
        );
    }
    law_implied_counts(g, Event::Drops(j), Event::Drops(i));
}

/// A card can be cast by some turn in no more games than it was drawn by then.
pub proof fn law_cast_within_drawn(
    deck: DeckView,
    params: SimParams,
    seed: u64,
    earlier: Seq<nat>,
    n: nat,
    c: int,
    t: int,
)
    requires
        deck.wf(),
        playable(deck),
        0 <= c < deck.cards.len(),
    ensures
        times(games(deck, params, seed, earlier, n), Event::CastBy(c, t)) <= times(
            games(deck, params, seed, earlier, n),
            Event::DrawnBy(c, t),
        ),
{
    let g = games(deck, params, seed, earlier, n);
    assert forall|k: int|
        0 <= k < g.len() && happened(#[trigger] g[k], Event::CastBy(c, t)) implies happened(
        g[k],
        Event::DrawnBy(c, t),
    ) by {
        let before = shuffles_before(deck, params, seed, earlier, k as nat);
        let o = opening(deck, params.bo1_smoothing, seed, before, 7);
        lemma_opening_below(deck, params.bo1_smoothing, seed, before);
        law_drawn_before_cast(deck, params.on_play, o.library, o.hand, turns_of(params));
        let start = table(deck.cards.len(), o.library, o.hand);
        lemma_after_fits(deck, params.on_play, start, turns_of(params));
        let end = after(deck, params.on_play, start, turns_of(params));
        assert(g[k].first_cast == end.first_cast && g[k].first_drawn == end.first_drawn);
        assert(end.first_cast[c] is Some);
    }
    law_implied_counts(g, Event::CastBy(c, t), Event::DrawnBy(c, t));
}

/// In what a run reports, the share of games in which a spell can be cast by
/// some turn is never larger than the share in which it was drawn by then.
pub proof fn law_report_cast_within_drawn(
    r: SimResult,
    deck: CompiledDeck,
    params: SimParams,
    seed: u64,
    earlier: Seq<nat>,
    i: int,
    k: int,
)
    requires
        deck@.wf(),
        params.iterations == 0 || playable(deck@),
        reports(r, deck, params, games(deck@, params, seed, earlier, params.iterations as nat)),
        0 <= i < r.cards@.len(),
        0 <= k < turns_of(params),
    ensures
        r.cards@[i].p_cast_by@.len() == turns_of(params),
        r.cards@[i].p_drawn_by@.len() == turns_of(params),
        r.cards@[i].p_cast_by@[k].hits <= r.cards@[i].p_drawn_by@[k].hits,
        r.cards@[i].p_cast_by@[k].of == r.cards@[i].p_drawn_by@[k].of,
{
    let g = games(deck@, params, seed, earlier, params.iterations as nat);
    let keys = spell_keys(deck@.cards);
    let order = choose|order: Seq<int>|
        #![trigger sorts(order, keys)]
        sorts(order, keys) && stat_views(r.cards@) == arranged(
            spells(deck@.cards),
            order,
        ).map_values(|c: int| card_stats(deck@, params, g, c));
    let list = arranged(spells(deck@.cards), order);
    assert(stat_views(r.cards@).len() == r.cards@.len());
    assert(list.map_values(|c: int| card_stats(deck@, params, g, c)).len() == list.len());
    assert(i < order.len());
    assert(keys.len() == spells(deck@.cards).len());
    let c = spells(deck@.cards)[order[i]];
    assert(stat_views(r.cards@)[i] == r.cards@[i]@);
    assert(list[i] == c);
    assert(stat_views(r.cards@)[i] == card_stats(deck@, params, g, c));
    lemma_spells_within(deck@.cards, order[i]);
    lemma_tally_bound(g, Event::CastBy(c, k + 1));
    lemma_tally_bound(g, Event::DrawnBy(c, k + 1));
    if params.iterations > 0 {
        law_cast_within_drawn(
            deck@,
            params,
            seed,
            earlier,
            params.iterations as nat,
            c,
            k + 1,
        );
    }
}

proof fn lemma_spells_within(cards: Seq<SimCardView>, i: int)
    requires
        0 <= i < spells(cards).len(),
    ensures
        0 <= spells(cards)[i] < cards.len(),
    decreases cards.len(),
{
    if cards.len() > 0 && i < spells(cards.drop_last()).len() {
        lemma_spells_within(cards.drop_last(), i);
    }
}

/// Every rate is a share: something happens in no more games than are played.
pub proof fn law_rates_are_shares(
    deck: DeckView,
    params: SimParams,
    seed: u64,
    earlier: Seq<nat>,
    e: Event,
)
    ensures
        ({
            let r = rate_of(
                params,
                games(deck, params, seed, earlier, params.iterations as nat),
                e,
            );
            0 < r.of && r.hits <= r.of
        }),
{
    lemma_tally_bound(games(deck, params, seed, earlier, params.iterations as nat), e);
}

/// Runs with the same deck, parameters and seed report the same.
pub proof fn law_reproducible(
    a: SimResult,
    b: SimResult,
    deck: CompiledDeck,
    params: SimParams,
    seed: u64,
    earlier: Seq<nat>,
)
    requires
        reports(a, deck, params, games(deck@, params, seed, earlier, params.iterations as nat)),
        reports(b, deck, params, games(deck@, params, seed, earlier, params.iterations as nat)),
    ensures
        a.params == b.params,
        a.deck == b.deck,
        a.keep7_rate == b.keep7_rate,
        a.mulligan_distribution == b.mulligan_distribution,
        a.land_drops_on_curve@ == b.land_drops_on_curve@,
        a.screw_rate == b.screw_rate,
        a.flood_rate == b.flood_rate,
        a.curve_out_rate == b.curve_out_rate,
        stat_views(a.cards@) == stat_views(b.cards@),
        color_views(a.colors@) == color_views(b.colors@),
        texts(a.warnings@) == texts(b.warnings@),
        texts(a.assumptions@) == texts(b.assumptions@),
{
    let g = games(deck@, params, seed, earlier, params.iterations as nat);
    let keys = spell_keys(deck@.cards);
    let x = choose|order: Seq<int>|
        #![trigger sorts(order, keys)]
        sorts(order, keys) && stat_views(a.cards@) == arranged(
            spells(deck@.cards),
            order,
        ).map_values(|c: int| card_stats(deck@, params, g, c));
    let y = choose|order: Seq<int>|
        #![trigger sorts(order, keys)]
        sorts(order, keys) && stat_views(b.cards@) == arranged(
            spells(deck@.cards),
            order,
        ).map_values(|c: int| card_stats(deck@, params, g, c));
    law_sorted_once(keys, x, y);
}

/// What happens in no game is counted zero times, and what happens in each game
/// as often as there are games.
pub proof fn law_never_and_always(games: Seq<GameView>, e: Event)
    ensures
        (forall|i: int| 0 <= i < games.len() ==> !happened(#[trigger] games[i], e)) <==> times(
            games,
            e,
        ) == 0,
        (forall|i: int| 0 <= i < games.len() ==> happened(#[trigger] games[i], e)) <==> times(
            games,
            e,
        ) == games.len(),
    decreases games.len(),
{
    if games.len() > 0 {
        let rest = games.drop_last();
        law_never_and_always(rest, e);
        lemma_tally_bound(rest, e);
        assert(games[games.len() - 1] == games.last());
        assert(forall|i: int| 0 <= i < rest.len() ==> rest[i] == #[trigger] games[i]);
        if times(games, e) == 0 || times(games, e) == games.len() {
            assert forall|i: int| 0 <= i < games.len() implies happened(#[trigger] games[i], e) == (
            times(games, e) != 0) by {
                if i < rest.len() {
                    assert(rest[i] == games[i]);
                }
            }
        }
        if forall|i: int| 0 <= i < games.len() ==> !happened(#[trigger] games[i], e) {
            assert forall|i: int| 0 <= i < rest.len() implies !happened(#[trigger] rest[i], e) by {
                assert(rest[i] == games[i]);
            }
        }
        if forall|i: int| 0 <= i < games.len() ==> happened(#[trigger] games[i], e) {
            assert forall|i: int| 0 <= i < rest.len() implies happened(#[trigger] rest[i], e) by {
                assert(rest[i] == games[i]);
            }
        }
    }
}

/// Of two things exactly one of which happens in each game, the counts add up
/// to the games.
pub proof fn law_either_or(games: Seq<GameView>, a: Event, b: Event)
    requires
        forall|i: int|
            0 <= i < games.len() ==> happened(#[trigger] games[i], a) != happened(games[i], b),
    ensures
        times(games, a) + times(games, b) == games.len(),
    decreases games.len(),
{
    if games.len() > 0 {
        let rest = games.drop_last();
        assert forall|i: int| 0 <= i < rest.len() implies happened(#[trigger] rest[i], a)
            != happened(rest[i], b) by {
            assert(rest[i] == games[i]);
        }
        law_either_or(rest, a, b);
        assert(games[games.len() - 1] == games.last());
    }
}

/// In what a run of at least three turns reports, each game either made its land
/// drops through the third turn or was screwed; the hands kept add up to the
/// games, as many as were asked for; and the hands of seven are told twice.
pub proof fn law_report_adds_up(
    r: SimResult,
    deck: CompiledDeck,
    params: SimParams,
    seed: u64,
    earlier: Seq<nat>,
)
    requires
        deck@.wf(),
        params.iterations > 0,
        playable(deck@),
        reports(r, deck, params, games(deck@, params, seed, earlier, params.iterations as nat)),
    ensures
        params.turns >= 3 ==> r.screw_rate.hits + r.land_drops_on_curve@[2].hits
            == params.iterations,
        r.screw_rate.of == params.iterations,
        r.mulligan_distribution.kept7.hits + r.mulligan_distribution.kept6.hits
            + r.mulligan_distribution.kept5.hits + r.mulligan_distribution.kept4.hits
            == params.iterations,
        r.mulligan_distribution.kept7.of == params.iterations,
        r.keep7_rate == r.mulligan_distribution.kept7,
        r.land_drops_on_curve@.len() == 5,
        r.params == params,
{
    let n = params.iterations as nat;
    let g = games(deck@, params, seed, earlier, n);
    law_hands_add_up(deck@, params, seed, earlier, n);
    lemma_tally_bound(g, Event::Screw);
    lemma_tally_bound(g, Event::Drops(2));
    lemma_tally_bound(g, Event::Kept(7));
    lemma_tally_bound(g, Event::Kept(6));
    lemma_tally_bound(g, Event::Kept(5));
    lemma_tally_bound(g, Event::Kept(4));
    if params.turns >= 3 {
        assert forall|k: int| 0 <= k < g.len() implies happened(#[trigger] g[k], Event::Screw)
            != happened(g[k], Event::Drops(2)) by {
            let before = shuffles_before(deck@, params, seed, earlier, k as nat);
            let o = opening(deck@, params.bo1_smoothing, seed, before, 7);
            lemma_opening_below(deck@, params.bo1_smoothing, seed, before);
            law_game_rates(
                deck@,
                params.on_play,
                turns_of(params),
                o.library,
                o.hand,
                o.size,
            );
        }
        law_either_or(g, Event::Screw, Event::Drops(2));
    }
}

/// In what a run reports, a spell with a pip of colors that no land of the deck
/// makes is cast by no turn and never on curve. A spell that can be paid for is on
/// curve where it is cast by the turn of its mana value, or by the first where that
/// is zero.
pub proof fn law_report_wrong_colors(
    r: SimResult,
    deck: CompiledDeck,
    params: SimParams,
    seed: u64,
    earlier: Seq<nat>,
    i: int,
)
    requires
        deck@.wf(),
        params.iterations == 0 || playable(deck@),
        reports(r, deck, params, games(deck@, params, seed, earlier, params.iterations as nat)),
        0 <= i < r.cards@.len(),
    ensures
        exists|c: int|
            #![trigger deck@.cards[c]]
            {
                &&& 0 <= c < deck@.cards.len()
                &&& deck@.cards[c].kind is Spell
                &&& r.cards@[i].arena_id == deck@.cards[c].arena_id
                &&& r.cards@[i].name@ == deck@.cards[c].name
                &&& r.cards@[i].quantity == deck@.cards[c].quantity
                &&& deck@.cards[c].kind matches KindView::Spell(cost)
                &&& r.cards@[i].mana_value == cost.mana_value
                &&& 1 <= cost.mana_value <= r.cards@[i].p_cast_by@.len()
                    ==> r.cards@[i].p_cast_on_curve == r.cards@[i].p_cast_by@[cost.mana_value - 1]
                &&& cost.mana_value == 0 ==> r.cards@[i].p_cast_on_curve == r.cards@[i].p_cast_by@[0]
                &&& never_paid(deck@, c) ==> {
                    &&& r.cards@[i].p_cast_on_curve.hits == 0
                    &&& forall|k: int|
                        0 <= k < r.cards@[i].p_cast_by@.len() ==> (
                        #[trigger] r.cards@[i].p_cast_by@[k]).hits == 0
                }
            },
{
    let g = games(deck@, params, seed, earlier, params.iterations as nat);
    let keys = spell_keys(deck@.cards);
    let order = choose|order: Seq<int>|
        #![trigger sorts(order, keys)]
        sorts(order, keys) && stat_views(r.cards@) == arranged(
            spells(deck@.cards),
            order,
        ).map_values(|c: int| card_stats(deck@, params, g, c));
    let list = arranged(spells(deck@.cards), order);
    assert(stat_views(r.cards@).len() == r.cards@.len());
    assert(list.map_values(|c: int| card_stats(deck@, params, g, c)).len() == list.len());
    assert(i < order.len());
    assert(keys.len() == spells(deck@.cards).len());
    let c = spells(deck@.cards)[order[i]];
    assert(stat_views(r.cards@)[i] == r.cards@[i]@);
    assert(list[i] == c);
    lemma_spells_within(deck@.cards, order[i]);
    lemma_spells_are_spells(deck@.cards, order[i]);
    assert(r.cards@[i]@ == card_stats(deck@, params, g, c));
    if never_paid(deck@, c) {
        assert forall|t: int| #[trigger] times(g, Event::CastBy(c, t)) == 0 by {
            assert forall|k: int| 0 <= k < g.len() implies !happened(
                #[trigger] g[k],
                Event::CastBy(c, t),
            ) by {
                let before = shuffles_before(deck@, params, seed, earlier, k as nat);
                let o = opening(deck@, params.bo1_smoothing, seed, before, 7);
                lemma_opening_below(deck@, params.bo1_smoothing, seed, before);
                if let KindView::Spell(cost) = deck@.cards[c].kind {
                    let p = choose|p: int|
                        0 <= p < cost.pips.len() && unmade(deck@, #[trigger] cost.pips[p]);
                    law_wrong_colors_never_cast(
                        deck@,
                        params.on_play,
                        o.library,
                        o.hand,
                        turns_of(params),
                        c,
                        cost,
                        p,
                    );
                }
            }
            law_never_and_always(g, Event::CastBy(c, t));
        }
        assert forall|k: int| 0 <= k < r.cards@[i].p_cast_by@.len() implies (
        #[trigger] r.cards@[i].p_cast_by@[k]).hits == 0 by {
            assert(times(g, Event::CastBy(c, k + 1)) == 0);
        }
        assert(times(g, Event::CastBy(c, curve_turn(deck@.cards[c]))) == 0);
    }
    assert(0 <= c < deck@.cards.len());
    assert(deck@.cards[c].kind is Spell);
}

/// No land of the deck makes one of the colors.
pub open spec fn unmade(deck: DeckView, colors: ColorMask) -> bool {
    forall|l: int|
        0 <= l < deck.cards.len() ==> ((#[trigger] deck.cards[l]).kind matches KindView::Land(m)
            ==> colors.0 & m.0 == 0)
}

/// The card is a spell with a pip of colors that no land of the deck makes.
pub open spec fn never_paid(deck: DeckView, c: int) -> bool {
    deck.cards[c].kind matches KindView::Spell(cost) && exists|p: int|
        0 <= p < cost.pips.len() && unmade(deck, #[trigger] cost.pips[p])
}

/// The positions of the spells are those of the cards that are spells, each
/// once and in their order.
pub proof fn law_spells(cards: Seq<SimCardView>)
    ensures
        forall|i: int|
            0 <= i < spells(cards).len() ==> 0 <= #[trigger] spells(cards)[i] < cards.len()
                && cards[spells(cards)[i]].kind is Spell,
        forall|i: int, j: int|
            0 <= i < j < spells(cards).len() ==> spells(cards)[i] < spells(cards)[j],
        forall|c: int|
            0 <= c < cards.len() && (#[trigger] cards[c]).kind is Spell ==> spells(cards).contains(
                c,
            ),
    decreases cards.len(),
{
    if cards.len() > 0 {
        let rest = cards.drop_last();
        law_spells(rest);
        assert forall|c: int| 0 <= c < cards.len() && (#[trigger] cards[c]).kind is Spell implies spells(
            cards,
        ).contains(c) by {
            if c < rest.len() {
                assert(rest[c] == cards[c]);
                let k = choose|k: int| 0 <= k < spells(rest).len() && spells(rest)[k] == c;
                assert(spells(cards)[k] == c);
            } else {
                assert(spells(cards)[spells(cards).len() - 1] == c);
            }
        }
        assert forall|i: int| 0 <= i < spells(cards).len() implies 0 <= #[trigger] spells(cards)[i]
            < cards.len() && cards[spells(cards)[i]].kind is Spell by {
            if i < spells(rest).len() {
                assert(spells(rest)[i] == spells(cards)[i]);
                assert(rest[spells(rest)[i]] == cards[spells(cards)[i]]);
            }
        }
    }
}

proof fn lemma_spells_are_spells(cards: Seq<SimCardView>, i: int)
    requires
        0 <= i < spells(cards).len(),
    ensures
        cards[spells(cards)[i]].kind is Spell,
{
    law_spells(cards);
}

/// How many of the games are such as is asked for.
pub open spec fn how_many(games: Seq<GameView>, such: spec_fn(GameView) -> bool) -> nat
    decreases games.len(),
{
    if games.len() == 0 {
        0
    } else {
        how_many(games.skip(1), such) + if such(games[0]) {
            1nat
        } else {
            0nat
        }
    }
}

proof fn lemma_how_many(games: Seq<GameView>, such: spec_fn(GameView) -> bool, e: Event)
    requires
        forall|i: int| 0 <= i < games.len() ==> (#[trigger] such(games[i])) == happened(games[i], e),
    ensures
        how_many(games, such) == times(games, e),
    decreases games.len(),
{
    if games.len() > 0 {
        let rest = games.skip(1);
        assert forall|i: int| 0 <= i < rest.len() implies (#[trigger] such(rest[i])) == happened(
            rest[i],
            e,
        ) by {
            assert(such(games[i + 1]) == happened(games[i + 1], e));
        }
        lemma_how_many(rest, such, e);
        lemma_times_from_front(games, e);
        assert(such(games[0]) == happened(games[0], e));
    }
}

proof fn lemma_times_from_front(games: Seq<GameView>, e: Event)
    requires
        games.len() > 0,
    ensures
        times(games, e) == times(games.skip(1), e) + if happened(games[0], e) {
            1nat
        } else {
            0nat
        },
    decreases games.len(),
{
    let rest = games.drop_last();
    if games.len() == 1 {
        assert(games.skip(1) =~= Seq::<GameView>::empty());
        assert(rest =~= Seq::<GameView>::empty());
        assert(times(rest, e) == 0);
    } else {
        lemma_times_from_front(rest, e);
        assert(games.skip(1).drop_last() =~= rest.skip(1));
        assert(games.skip(1).last() == games.last());
    }
}

/// What the reported numbers count: a card was cast by a turn in as many games
/// as have it castable on that turn or an earlier one, and the same of cards
/// drawn; the others count games as they say.
pub proof fn law_what_is_counted(params: SimParams, games: Seq<GameView>, c: int, t: int)
    requires
        games.len() <= u32::MAX,
    ensures
        rate_of(params, games, Event::CastBy(c, t)).hits == how_many(
            games,
            |g: GameView| g.first_cast[c] is Some && g.first_cast[c]->Some_0 <= t,
        ),
        rate_of(params, games, Event::DrawnBy(c, t)).hits == how_many(
            games,
            |g: GameView| g.first_drawn[c] is Some && g.first_drawn[c]->Some_0 <= t,
        ),
        rate_of(params, games, Event::Drops(c)).hits == how_many(games, |g: GameView| g.drops[c]),
        rate_of(params, games, Event::OnTime(c)).hits == how_many(
            games,
            |g: GameView| g.on_time[c],
        ),
        rate_of(params, games, Event::Screw).hits == how_many(games, |g: GameView| g.screw),
        rate_of(params, games, Event::Flood).hits == how_many(games, |g: GameView| g.flood),
        rate_of(params, games, Event::CurveOut).hits == how_many(games, |g: GameView| g.curve),
        forall|n: nat|
            (#[trigger] rate_of(params, games, Event::Kept(n))).hits == how_many(
                games,
                |g: GameView| g.size == n,
            ),
{
    lemma_how_many(
        games,
        |g: GameView| g.first_cast[c] is Some && g.first_cast[c]->Some_0 <= t,
        Event::CastBy(c, t),
    );
    lemma_how_many(
        games,
        |g: GameView| g.first_drawn[c] is Some && g.first_drawn[c]->Some_0 <= t,
        Event::DrawnBy(c, t),
    );
    lemma_how_many(games, |g: GameView| g.drops[c], Event::Drops(c));
    lemma_how_many(games, |g: GameView| g.on_time[c], Event::OnTime(c));
    lemma_how_many(games, |g: GameView| g.screw, Event::Screw);
    lemma_how_many(games, |g: GameView| g.flood, Event::Flood);
    lemma_how_many(games, |g: GameView| g.curve, Event::CurveOut);
    lemma_times_at_most(games, Event::CastBy(c, t));
    lemma_times_at_most(games, Event::DrawnBy(c, t));
    lemma_times_at_most(games, Event::Drops(c));
    lemma_times_at_most(games, Event::OnTime(c));
    lemma_times_at_most(games, Event::Screw);
    lemma_times_at_most(games, Event::Flood);
    lemma_times_at_most(games, Event::CurveOut);
    assert forall|n: nat|
        (#[trigger] rate_of(params, games, Event::Kept(n))).hits == how_many(
            games,
            |g: GameView| g.size == n,
        ) by {
        lemma_how_many(games, |g: GameView| g.size == n, Event::Kept(n));
        lemma_times_at_most(games, Event::Kept(n));
    }
}

proof fn lemma_times_at_most(games: Seq<GameView>, e: Event)
    ensures
        times(games, e) <= games.len(),
    decreases games.len(),
{
    if games.len() > 0 {
        lemma_times_at_most(games.drop_last(), e);
    }
}

/// The reports on the spells are in order: those of a lower mana value first,
/// and those of the same mana value by name.
pub proof fn law_reports_sorted(
    list: Seq<CardStats>,
    deck: DeckView,
    params: SimParams,
    games: Seq<GameView>,
    i: int,
    j: int,
)
    requires
        reports_spells(list, deck, params, games),
        0 <= i < j < list.len(),
    ensures
        list[i].mana_value <= list[j].mana_value,
        list[i].mana_value == list[j].mana_value ==> list[i].name@ == list[j].name@
            || text::text_less(list[i].name@, list[j].name@),
{
    let keys = spell_keys(deck.cards);
    let order = choose|order: Seq<int>|
        #![trigger sorts(order, keys)]
        sorts(order, keys) && stat_views(list) == arranged(spells(deck.cards), order).map_values(
            |c: int| card_stats(deck, params, games, c),
        );
    assert(stat_views(list).len() == list.len());
    assert(stat_views(list)[i] == list[i]@);
    assert(stat_views(list)[j] == list[j]@);
    assert(super::sorting::comes_first(keys, order[i], order[j]));
    assert(keys[order[i]] == (list[i].mana_value, list[i].name@));
    assert(keys[order[j]] == (list[j].mana_value, list[j].name@));
}

/// Every spell of the deck is reported on, nothing else is, and no spell twice.
pub proof fn law_every_spell_reported(
    list: Seq<CardStats>,
    deck: DeckView,
    params: SimParams,
    games: Seq<GameView>,
)
    requires
        reports_spells(list, deck, params, games),
    ensures
        list.len() == spells(deck.cards).len(),
        forall|i: int|
            0 <= i < list.len() ==> is_on_a_spell(#[trigger] list[i]@, deck.cards),
        forall|c: int|
            0 <= c < deck.cards.len() && (#[trigger] deck.cards[c]).kind is Spell ==> exists|i: int|
                0 <= i < list.len() && is_report_on(#[trigger] list[i]@, deck.cards[c]),
{
    let cards = deck.cards;
    let keys = spell_keys(cards);
    let order = choose|order: Seq<int>|
        #![trigger sorts(order, keys)]
        sorts(order, keys) && stat_views(list) == arranged(spells(cards), order).map_values(
            |c: int| card_stats(deck, params, games, c),
        );
    law_spells(cards);
    assert(stat_views(list).len() == list.len());
    assert(keys.len() == spells(cards).len());
    assert forall|i: int| 0 <= i < list.len() implies is_on_a_spell(#[trigger] list[i]@, cards) by {
        assert(stat_views(list)[i] == list[i]@);
        let c = spells(cards)[order[i]];
        assert(cards[c].kind is Spell && is_report_on(list[i]@, cards[c]));
    }
    assert forall|c: int| 0 <= c < cards.len() && (#[trigger] cards[c]).kind is Spell implies exists|
        i: int,
    |
        0 <= i < list.len() && is_report_on(#[trigger] list[i]@, cards[c]) by {
        let k = choose|k: int| 0 <= k < spells(cards).len() && spells(cards)[k] == c;
        super::rng::law_order_covers(order, keys.len(), k);
        let i = choose|i: int| 0 <= i < keys.len() && #[trigger] order[i] == k;
        assert(stat_views(list)[i] == list[i]@);
        assert(is_report_on(list[i]@, cards[c]));
    }
}

/// The report is on one of the spells.
pub open spec fn is_on_a_spell(r: CardStatsView, cards: Seq<SimCardView>) -> bool {
    exists|c: int|
        0 <= c < cards.len() && (#[trigger] cards[c]).kind is Spell && is_report_on(r, cards[c])
}

/// The report names the card.
pub open spec fn is_report_on(r: CardStatsView, card: SimCardView) -> bool {
    &&& r.arena_id == card.arena_id
    &&& r.name == card.name
    &&& r.quantity == card.quantity
    &&& r.mana_cost == card.mana_cost
    &&& card.kind is Spell ==> r.mana_value == card.kind->Spell_0.mana_value
}

/// Each color that the deck needs is reported under its letter, with the turn
/// on which it is first needed, and the games in which it was there on time.
pub proof fn law_colors_reported(
    deck: DeckView,
    params: SimParams,
    games: Seq<GameView>,
    k: int,
    j: int,
)
    requires
        0 <= k < deck.colors_needed.len(),
        0 <= j < 6,
        deck.colors_needed[k].0 == seq![1u8, 2, 4, 8, 16, 32][j],
        games.len() <= u32::MAX,
    ensures
        color_stats(deck, params, games).len() == deck.colors_needed.len(),
        color_stats(deck, params, games)[k].color == seq![seq!['W', 'U', 'B', 'R', 'G', 'C'][j]],
        color_stats(deck, params, games)[k].first_needed_turn == deck.colors_needed[k].1,
        color_stats(deck, params, games)[k].p_on_time.hits == how_many(
            games,
            |g: GameView| g.on_time[k],
        ),
{
    law_what_is_counted(params, games, k, 0);
}

/// The summary counts the deck: its cards, its lands, and its different spells.
pub proof fn law_summary(
    r: SimResult,
    deck: CompiledDeck,
    params: SimParams,
    games: Seq<GameView>,
)
    requires
        reports(r, deck, params, games),
        deck@.library.len() <= u32::MAX,
        deck@.cards.len() <= u32::MAX,
    ensures
        r.deck.total_cards == deck@.library.len(),
        r.deck.lands == deck.land_count,
        r.deck.distinct_spells == r.cards@.len(),
        r.deck.max_spell_mv == deck.max_spell_mv,
        r.keep7_rate == r.mulligan_distribution.kept7,
        r.colors@.len() == deck.colors_needed@.len(),
        r.land_drops_on_curve@.len() == 5,
        r.params == params,
{
    law_every_spell_reported(r.cards@, deck@, params, games);
    lemma_spells_at_most(deck@.cards);
    assert(color_views(r.colors@).len() == r.colors@.len());
}

proof fn lemma_spells_at_most(cards: Seq<SimCardView>)
    ensures
        spells(cards).len() <= cards.len(),
    decreases cards.len(),
{
    if cards.len() > 0 {
        lemma_spells_at_most(cards.drop_last());
    }
}

/// How the games of a run are played: each from an opening of its own, which is
/// shuffled anew, on the play or not as was asked, and for the turns that were
/// asked for, at least one.
pub proof fn law_games_played(
    deck: DeckView,
    params: SimParams,
    seed: u64,
    earlier: Seq<nat>,
    n: nat,
    i: int,
)
    requires
        0 <= i < n,
    ensures
        ({
            let before = shuffles_before(deck, params, seed, earlier, i as nat);
            let next = shuffles_before(deck, params, seed, earlier, (i + 1) as nat);
            let o = opening(deck, params.bo1_smoothing, seed, before, 7);
            let turns = if params.turns == 0 {
                1nat
            } else {
                params.turns as nat
            };
            &&& games(deck, params, seed, earlier, n).len() == n
            &&& games(deck, params, seed, earlier, n)[i] == game(
                deck,
                params.on_play,
                turns,
                o.library,
                o.hand,
                o.size,
            )
            &&& next == o.earlier
            &&& next.len() > before.len()
            &&& i == 0 ==> before == earlier
        }),
{
    let before = shuffles_before(deck, params, seed, earlier, i as nat);
    super::deal::law_opening(deck, params.bo1_smoothing, seed, before, 7);
}

/// In so many of the games the card was in hand and paid for by this turn.
pub open spec fn cast_in(games: Seq<GameView>, c: int, t: int) -> nat {
    how_many(games, |g: GameView| g.first_cast[c] is Some && g.first_cast[c]->Some_0 <= t)
}

/// In so many of the games the card was drawn by this turn.
pub open spec fn drawn_in(games: Seq<GameView>, c: int, t: int) -> nat {
    how_many(games, |g: GameView| g.first_drawn[c] is Some && g.first_drawn[c]->Some_0 <= t)
}

/// The numbers of the report are those of the card at this position.
pub open spec fn tells_of(
    r: CardStats,
    deck: DeckView,
    params: SimParams,
    games: Seq<GameView>,
    c: int,
) -> bool {
    &&& is_report_on(r@, deck.cards[c])
    &&& r.p_cast_by@.len() == r.p_drawn_by@.len()
    &&& params.turns > 0 ==> r.p_cast_by@.len() == params.turns
    &&& forall|k: int|
        0 <= k < r.p_cast_by@.len() ==> (#[trigger] r.p_cast_by@[k]).hits == cast_in(
            games,
            c,
            k + 1,
        )
    &&& forall|k: int|
        0 <= k < r.p_drawn_by@.len() ==> (#[trigger] r.p_drawn_by@[k]).hits == drawn_in(
            games,
            c,
            k + 1,
        )
    &&& r.mana_value > 0 ==> r.p_cast_on_curve.hits == cast_in(games, c, r.mana_value as int)
    &&& r.mana_value == 0 ==> r.p_cast_on_curve.hits == cast_in(games, c, 1)
}

/// The rates that are reported of a spell count the games in which that spell
/// could be cast, or was drawn, by each turn; on the curve is by the turn of its
/// mana value.
pub proof fn law_spell_rates(
    list: Seq<CardStats>,
    deck: DeckView,
    params: SimParams,
    games: Seq<GameView>,
    i: int,
) -> (c: int)
    requires
        reports_spells(list, deck, params, games),
        games.len() <= u32::MAX,
        0 <= i < list.len(),
    ensures
        0 <= c < deck.cards.len(),
        deck.cards[c].kind is Spell,
        tells_of(list[i], deck, params, games, c),
{
    let cards = deck.cards;
    let keys = spell_keys(cards);
    let order = choose|order: Seq<int>|
        #![trigger sorts(order, keys)]
        sorts(order, keys) && stat_views(list) == arranged(spells(cards), order).map_values(
            |c: int| card_stats(deck, params, games, c),
        );
    law_spells(cards);
    assert(stat_views(list).len() == list.len());
    assert(keys.len() == spells(cards).len());
    assert(stat_views(list)[i] == list[i]@);
    let c = spells(cards)[order[i]];
    let r = list[i];
    assert(r@ == card_stats(deck, params, games, c));
    assert forall|k: int| 0 <= k < r.p_cast_by@.len() implies (#[trigger] r.p_cast_by@[k]).hits
        == cast_in(games, c, k + 1) by {
        law_what_is_counted(params, games, c, k + 1);
    }
    assert forall|k: int| 0 <= k < r.p_drawn_by@.len() implies (#[trigger] r.p_drawn_by@[k]).hits
        == drawn_in(games, c, k + 1) by {
        law_what_is_counted(params, games, c, k + 1);
    }
    law_what_is_counted(params, games, c, curve_turn(cards[c]));
    c
}

/// Spells of the same mana value and name are reported in the order of the deck
/// list.
pub proof fn law_reports_stable(
    list: Seq<CardStats>,
    deck: DeckView,
    params: SimParams,
    games: Seq<GameView>,
    c: int,
    d: int,
) -> (at: (int, int))
    requires
        reports_spells(list, deck, params, games),
        0 <= c < d < deck.cards.len(),
        deck.cards[c].kind is Spell,
        deck.cards[d].kind is Spell,
        deck.cards[c].name == deck.cards[d].name,
        deck.cards[c].value() == deck.cards[d].value(),
    ensures
        0 <= at.0 < at.1 < list.len(),
        is_report_on(list[at.0]@, deck.cards[c]),
        is_report_on(list[at.1]@, deck.cards[d]),
{
    let cards = deck.cards;
    let keys = spell_keys(cards);
    let order = choose|order: Seq<int>|
        #![trigger sorts(order, keys)]
        sorts(order, keys) && stat_views(list) == arranged(spells(cards), order).map_values(
            |c: int| card_stats(deck, params, games, c),
        );
    law_spells(cards);
    assert(stat_views(list).len() == list.len());
    assert(keys.len() == spells(cards).len());
    let k = choose|k: int| 0 <= k < spells(cards).len() && spells(cards)[k] == c;
    let l = choose|l: int| 0 <= l < spells(cards).len() && spells(cards)[l] == d;
    if l < k {
        assert(spells(cards)[l] < spells(cards)[k]);
    }
    super::rng::law_order_covers(order, keys.len(), k);
    super::rng::law_order_covers(order, keys.len(), l);
    let i = choose|i: int| 0 <= i < keys.len() && #[trigger] order[i] == k;
    let j = choose|j: int| 0 <= j < keys.len() && #[trigger] order[j] == l;
    assert(keys[k] == keys[l]);
    if j < i {
        assert(super::sorting::comes_first(keys, order[j], order[i]));
        text::lemma_text_less_irreflexive(keys[k].1);
    }
    assert(stat_views(list)[i] == list[i]@);
    assert(stat_views(list)[j] == list[j]@);
    (i, j)
}

} // verus!
