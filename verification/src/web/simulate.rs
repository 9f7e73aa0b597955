//! Requests for a simulation of a stored deck.
use vstd::prelude::*;
use vstd::string::StringExecFns;

use crate::cards::{Card, CardDb};
use crate::sim::compile::{
    compile_deck,
    compiled,
    compiled_cards,
    deck_warnings,
    lands_among,
    spread,
    CompiledDeck,
};
use crate::sim::engine::{games, reports, run};
use crate::sim::rng::SimRng;
use crate::sim::{SimParams, SimResult};
use crate::text::{self, decimal, texts};

use super::api::{ApiError, ErrorView};

verus! {

/// How many games are played where the request does not say.
pub const DEFAULT_ITERATIONS: u32 = 10_000;

/// How many games are played at least.
pub const MIN_ITERATIONS: u32 = 100;

/// How many games are played at most.
pub const MAX_ITERATIONS: u32 = 100_000;

/// How many turns a game has.
pub const TURNS: u8 = 10;

/// A request for a simulation.
#[derive(Debug, Clone, Copy)]
pub struct SimulateRequest {
    pub iterations: Option<u32>,
    pub on_play: Option<bool>,
    pub bo1_smoothing: Option<bool>,
    /// The seed of the shuffles, for a run that can be repeated.
    pub seed: Option<u64>,
}

/// The quantity of a row as a count; none where it is negative.
pub open spec fn row_quantity(qty: i64) -> u32 {
    if qty < 0 {
        0
    } else {
        qty as u32
    }
}

/// The deck list that stored rows give.
pub open spec fn main_entries(rows: Seq<(i64, i64)>) -> Seq<(u32, u32)> {
    rows.map_values(|r: (i64, i64)| (r.0 as u32, row_quantity(r.1)))
}

/// How many cards a deck list holds.
pub open spec fn deck_size(entries: Seq<(u32, u32)>) -> nat
    decreases entries.len(),
{
    if entries.len() == 0 {
        0
    } else {
        deck_size(entries.drop_last()) + entries.last().1 as nat
    }
}

proof fn lemma_size_grows(entries: Seq<(u32, u32)>, n: int)
    requires
        0 <= n <= entries.len(),
    ensures
        deck_size(entries.take(n)) <= deck_size(entries),
    decreases entries.len() - n,
{
    if n < entries.len() {
        lemma_size_grows(entries.drop_last(), n);
        assert(entries.drop_last().take(n) =~= entries.take(n));
    } else {
        assert(entries.take(n) =~= entries);
    }
}

/// No card is lost or added on the way from the deck list to the library that
/// is shuffled.
pub proof fn law_library_is_deck(entries: Seq<(u32, u32)>, db: Map<u32, Card>)
    ensures
        spread(compiled_cards(entries, db)).len() == deck_size(entries),
        lands_among(compiled_cards(entries, db)) <= deck_size(entries),
    decreases entries.len(),
{
    if entries.len() > 0 {
        law_library_is_deck(entries.drop_last(), db);
        let cards = compiled_cards(entries, db);
        if entries.last().1 != 0 {
            assert(cards.drop_last() =~= compiled_cards(entries.drop_last(), db));
            assert(cards.last().quantity == entries.last().1);
        }
    }
}

/// The deck list that stored rows give.
pub fn entries_of(rows: &Vec<(i64, i64)>) -> (r: Vec<(u32, u32)>)
    ensures
        r@ == main_entries(rows@),
{
    let mut r: Vec<(u32, u32)> = Vec::new();
    let mut i: usize = 0;
    while i < rows.len()
        invariant
            i <= rows@.len(),
            r@ == main_entries(rows@.take(i as int)),
        decreases rows@.len() - i,
    {
        let (id, qty) = rows[i];
        let count: u32 = if qty < 0 {
            0
        } else {
            qty as u32
        };
        r.push((id as u32, count));
        i += 1;
        assert(r@ =~= main_entries(rows@.take(i as int)));
    }
    assert(rows@.take(i as int) =~= rows@);
    r
}

/// How many cards a deck list holds; nothing where 32 bits do not hold that.
pub fn size_of_deck(entries: &Vec<(u32, u32)>) -> (r: Option<u32>)
    ensures
        match r {
            Some(n) => n == deck_size(entries@),
            None => deck_size(entries@) > u32::MAX,
        },
{
    let mut sum: u32 = 0;
    let mut i: usize = 0;
    while i < entries.len()
        invariant
            i <= entries@.len(),
            sum == deck_size(entries@.take(i as int)),
        decreases entries@.len() - i,
    {
        proof {
            assert(entries@.take(i + 1).drop_last() =~= entries@.take(i as int));
            lemma_size_grows(entries@, i + 1);
        }
        match sum.checked_add(entries[i].1) {
            Some(n) => {
                sum = n;
            },
            None => {
                return None;
            },
        }
        i += 1;
    }
    assert(entries@.take(i as int) =~= entries@);
    Some(sum)
}

/// How the games of a request are played, with this seed.
pub open spec fn effective(req: SimulateRequest, seed: u64) -> SimParams {
    let asked = match req.iterations {
        Some(n) => n,
        None => DEFAULT_ITERATIONS,
    };
    SimParams {
        iterations: if asked < MIN_ITERATIONS {
            MIN_ITERATIONS
        } else if asked > MAX_ITERATIONS {
            MAX_ITERATIONS
        } else {
            asked
        },
        on_play: match req.on_play {
            Some(b) => b,
            None => true,
        },
        bo1_smoothing: match req.bo1_smoothing {
            Some(b) => b,
            None => false,
        },
        seed: Some(seed),
        turns: TURNS,
    }
}

/// How the games of a request are played, with this seed.
pub fn params_for(req: &SimulateRequest, seed: u64) -> (r: SimParams)
    ensures
        r == effective(*req, seed),
{
    let asked: u32 = match req.iterations {
        Some(n) => n,
        None => DEFAULT_ITERATIONS,
    };
    let iterations: u32 = if asked < MIN_ITERATIONS {
        MIN_ITERATIONS
    } else if asked > MAX_ITERATIONS {
        MAX_ITERATIONS
    } else {
        asked
    };
    SimParams {
        iterations,
        on_play: match req.on_play {
            Some(b) => b,
            None => true,
        },
        bo1_smoothing: match req.bo1_smoothing {
            Some(b) => b,
            None => false,
        },
        seed: Some(seed),
        turns: TURNS,
    }
}

/// The message about a deck that is too small.
pub open spec fn too_small(size: nat) -> Seq<char> {
    "deck has only "@ + decimal(size) + " mainboard cards; too small to simulate"@
}

/// Why a deck is not simulated: it is not there, or has fewer than seven cards.
pub open spec fn simulation_refused(found: bool, size: nat) -> Option<ErrorView> {
    if !found {
        Some(ErrorView::NotFound)
    } else if size < 7 {
        Some(ErrorView::BadRequest(too_small(size)))
    } else {
        None
    }
}

/// The result is that of the games with this deck list, request and seed.
pub open spec fn simulated(
    r: SimResult,
    entries: Seq<(u32, u32)>,
    db: Map<u32, Card>,
    req: SimulateRequest,
    seed: u64,
) -> bool {
    let params = effective(req, seed);
    exists|deck: CompiledDeck| #[trigger]
        reports(
            r,
            deck,
            params,
            games(compiled(entries, db), params, seed, seq![], params.iterations as nat),
        ) && deck@ == compiled(entries, db) && texts(deck.warnings@) == deck_warnings(entries, db)
}

/// Simulates the main deck that stored rows give, with this seed; a deck that
/// is not there or has fewer than seven cards is refused.
pub fn simulate_rows(
    found: bool,
    rows: &Vec<(i64, i64)>,
    cards: &CardDb,
    req: &SimulateRequest,
    seed: u64,
) -> (r: Result<SimResult, ApiError>)
    requires
        cards.wf(),
        deck_size(main_entries(rows@)) <= u32::MAX,
    ensures
        ({
            let entries = main_entries(rows@);
            match r {
                Ok(out) => found && deck_size(entries) >= 7 && simulated(
                    out,
                    entries,
                    cards@,
                    *req,
                    seed,
                ),
                Err(e) => simulation_refused(found, deck_size(entries)) == Some(e@),
            }
        }),
{
    if !found {
        return Err(ApiError::NotFound);
    }
    let entries = entries_of(rows);
    let total: u32 = match size_of_deck(&entries) {
        Some(n) => n,
        None => 0,
    };
    if total < 7 {
        let mut msg = String::new();
        msg.append("deck has only ");
        text::push_decimal(&mut msg, total as u64);
        msg.append(" mainboard cards; too small to simulate");
        assert(msg@ =~= too_small(total as nat));
        return Err(ApiError::BadRequest(msg));
    }
    proof {
        law_library_is_deck(entries@, cards@);
    }
    let params = params_for(req, seed);
    let deck = compile_deck(entries.as_slice(), cards);
    let mut rng = SimRng::seed_from_u64(seed);
    let out = run(&deck, &params, &mut rng);
    assert(simulated(out, entries@, cards@, *req, seed)) by {
        assert(Seq::<nat>::empty() =~= seq![]);
    }
    Ok(out)
}

/// `rand::random`: any 64 bits, of which nothing is said.
#[verifier::external_body]
fn random_seed() -> u64 {
    rand::random()
}

/// Simulates the main deck that stored rows give. The seed is that of the
/// request, or else any; the result names it either way.
pub fn simulate_deck(
    found: bool,
    rows: &Vec<(i64, i64)>,
    cards: &CardDb,
    req: &SimulateRequest,
) -> (r: Result<SimResult, ApiError>)
    requires
        cards.wf(),
        deck_size(main_entries(rows@)) <= u32::MAX,
    ensures
        ({
            let entries = main_entries(rows@);
            match r {
                Ok(out) => {
                    &&& found
                    &&& deck_size(entries) >= 7
                    &&& out.params.seed is Some
                    &&& req.seed is Some ==> out.params.seed == req.seed
                    &&& simulated(out, entries, cards@, *req, out.params.seed.unwrap())
                },
                Err(e) => simulation_refused(found, deck_size(entries)) == Some(e@),
            }
        }),
{
    let seed: u64 = match req.seed {
        Some(s) => s,
        None => random_seed(),
    };
    simulate_rows(found, rows, cards, req, seed)
}

/// How many games are played: as many as were asked for, from a hundred up to
/// a hundred thousand; ten thousand where that was not said. Games are on the
/// play and without smoothing unless the request says otherwise, and have ten
/// turns.
pub proof fn law_effective(req: SimulateRequest, seed: u64, n: u32, b: bool)
    ensures
        ({
            let p = effective(req, seed);
            &&& 100 <= p.iterations <= 100_000
            &&& req.iterations == Some(n) && 100 <= n <= 100_000 ==> p.iterations == n
            &&& req.iterations == Some(n) && n < 100 ==> p.iterations == 100
            &&& req.iterations == Some(n) && n > 100_000 ==> p.iterations == 100_000
            &&& req.iterations is None ==> p.iterations == 10_000
            &&& req.on_play == Some(b) ==> p.on_play == b
            &&& req.on_play is None ==> p.on_play
            &&& req.bo1_smoothing == Some(b) ==> p.bo1_smoothing == b
            &&& req.bo1_smoothing is None ==> !p.bo1_smoothing
            &&& p.seed == Some(seed)
            &&& p.turns == 10
        }),
{
}

/// A deck is simulated exactly where it is there and has seven cards or more.
pub proof fn law_simulation_refused(found: bool, size: nat)
    ensures
        simulation_refused(found, size) is None <==> found && size >= 7,
        !found ==> simulation_refused(found, size) == Some(ErrorView::NotFound),
        found && size < 7 ==> simulation_refused(found, size) is Some && simulation_refused(
            found,
            size,
        ) != Some(ErrorView::NotFound),
{
}

/// Each stored row gives its card and its copies; a row below zero gives none.
pub proof fn law_stored_rows(rows: Seq<(i64, i64)>, i: int)
    requires
        0 <= i < rows.len(),
        0 <= rows[i].0 <= u32::MAX,
        rows[i].1 <= u32::MAX,
    ensures
        main_entries(rows).len() == rows.len(),
        main_entries(rows)[i].0 == rows[i].0,
        rows[i].1 >= 0 ==> main_entries(rows)[i].1 == rows[i].1,
        rows[i].1 < 0 ==> main_entries(rows)[i].1 == 0,
{
}

/// The size of a deck is the copies of all its entries.
pub proof fn law_deck_size(entries: Seq<(u32, u32)>, id: u32, qty: u32)
    ensures
        deck_size(entries.push((id, qty))) == deck_size(entries) + qty,
        deck_size(Seq::<(u32, u32)>::empty()) == 0,
{
    assert(entries.push((id, qty)).drop_last() =~= entries);
}

} // verus!
