//! The stream of game states: life totals, the turn, and what the opponent
//! shows.
use vstd::prelude::*;
use vstd::string::StringExecFns;

use crate::cards::{Card, CardDb, Cmc};
use crate::json::{item_views, Json, JsonNumber, JsonView};
use crate::state::{live_cards, LiveCard, LiveCardView, LiveMatch, LiveMatchView};
use crate::text::{self, decimal};

use super::match_room::{text_at, text_under};

verus! {

/// The natural number under a key; nothing where there is none.
pub open spec fn number_under(v: JsonView, key: Seq<char>) -> Option<u64> {
    match v.get(key) {
        Some(x) => x.natural(),
        None => None,
    }
}

/// The natural number under a key; zero where there is none.
pub open spec fn seat_under(v: JsonView, key: Seq<char>) -> u64 {
    match number_under(v, key) {
        Some(n) => n,
        None => 0,
    }
}

/// The life total of a player's entry.
pub open spec fn life_in(p: JsonView) -> Option<i32> {
    match p.get("lifeTotal"@) {
        Some(x) => match x.integer() {
            Some(n) => Some(n as i32),
            None => None,
        },
        None => None,
    }
}

/// The life total at a seat: what the last entry for it says, or else what it
/// was.
pub open spec fn life_after(players: Seq<JsonView>, seat: u64, before: Option<i32>) -> Option<i32>
    decreases players.len(),
{
    if players.len() == 0 {
        before
    } else {
        let p = players.last();
        if seat_under(p, "systemSeatNumber"@) == seat && life_in(p) is Some {
            life_in(p)
        } else {
            life_after(players.drop_last(), seat, before)
        }
    }
}

/// The card that an object shows: one that the opponent controls and that is
/// public.
pub open spec fn shown(obj: JsonView, db: Map<u32, Card>) -> Option<LiveCardView> {
    match number_under(obj, "grpId"@) {
        Some(n) => {
            let id = n as u32;
            if seat_under(obj, "controllerSeatId"@) == 2 && text_under(
                Some(obj),
                "visibility"@,
            ) == Some("Visibility_Public"@) {
                Some(
                    LiveCardView {
                        arena_id: id,
                        name: if db.contains_key(id) {
                            db[id].name@
                        } else {
                            "Card #"@ + decimal(id as nat)
                        },
                        remaining: 1,
                        original: 1,
                        cmc: if db.contains_key(id) && db[id].cmc is Some {
                            db[id].cmc.unwrap()
                        } else {
                            Cmc { bits: 0 }
                        },
                    },
                )
            } else {
                None
            }
        },
        None => None,
    }
}

/// The cards that the objects show, in their order.
pub open spec fn all_shown(objects: Seq<JsonView>, db: Map<u32, Card>) -> Seq<LiveCardView>
    decreases objects.len(),
{
    if objects.len() == 0 {
        seq![]
    } else {
        match shown(objects.last(), db) {
            Some(c) => all_shown(objects.drop_last(), db).push(c),
            None => all_shown(objects.drop_last(), db),
        }
    }
}

/// The items under a key.
pub open spec fn items_under(v: JsonView, key: Seq<char>) -> Option<Seq<JsonView>> {
    match v.get(key) {
        Some(x) => x.items(),
        None => None,
    }
}

/// The match after a game state: the turn where turn information comes, life
/// totals where they come, and what the opponent shows where anything is
/// shown.
pub open spec fn with_state(
    live: LiveMatchView,
    gs: JsonView,
    db: Map<u32, Card>,
) -> LiveMatchView {
    let players = items_under(gs, "players"@);
    let objects = items_under(gs, "gameObjects"@);
    LiveMatchView {
        turn: match gs.get("turnInfo"@) {
            Some(info) => match number_under(info, "turnNumber"@) {
                Some(n) => Some(n as u32),
                None => None,
            },
            None => live.turn,
        },
        player_life: match players {
            Some(list) => life_after(list, 1, live.player_life),
            None => live.player_life,
        },
        opponent_life: match players {
            Some(list) => life_after(list, 2, live.opponent_life),
            None => live.opponent_life,
        },
        opponent_revealed: match objects {
            Some(list) => if all_shown(list, db).len() > 0 {
                all_shown(list, db)
            } else {
                live.opponent_revealed
            },
            None => live.opponent_revealed,
        },
        ..live
    }
}

/// The match after a message: only game states count.
pub open spec fn with_message(
    live: LiveMatchView,
    msg: JsonView,
    db: Map<u32, Card>,
) -> LiveMatchView {
    if text_under(Some(msg), "type"@) == Some("GREMessageType_GameStateMessage"@) {
        match msg.get("gameStateMessage"@) {
            Some(gs) => with_state(live, gs, db),
            None => live,
        }
    } else {
        live
    }
}

/// The match after several messages.
pub open spec fn with_messages(
    live: LiveMatchView,
    messages: Seq<JsonView>,
    db: Map<u32, Card>,
) -> LiveMatchView
    decreases messages.len(),
{
    if messages.len() == 0 {
        live
    } else {
        with_message(with_messages(live, messages.drop_last(), db), messages.last(), db)
    }
}

/// The messages of a payload.
pub open spec fn messages_in(payload: JsonView) -> Seq<JsonView> {
    match payload.get("greToClientEvent"@) {
        Some(e) => match items_under(e, "greToClientMessages"@) {
            Some(list) => list,
            None => seq![],
        },
        None => seq![],
    }
}

fn number_at(v: &Json, key: &str) -> (r: Option<u64>)
    ensures
        r == number_under(v@, key@),
{
    match v.get(key) {
        Some(x) => x.as_u64(),
        None => None,
    }
}

fn items_at<'a>(v: &'a Json, key: &str) -> (r: Option<&'a Vec<Json>>)
    ensures
        match r {
            Some(items) => items_under(v@, key@) == Some(item_views(items@)),
            None => items_under(v@, key@) is None,
        },
{
    match v.get(key) {
        Some(x) => x.as_array(),
        None => None,
    }
}

fn show(obj: &Json, cards: &CardDb) -> (r: Option<LiveCard>)
    requires
        cards.wf(),
    ensures
        match r {
            Some(c) => shown(obj@, cards@) == Some(c@),
            None => shown(obj@, cards@) is None,
        },
{
    let id: u32 = match number_at(obj, "grpId") {
        Some(n) => n as u32,
        None => {
            return None;
        },
    };
    let controller: u64 = match number_at(obj, "controllerSeatId") {
        Some(n) => n,
        None => 0,
    };
    if controller != 2 {
        return None;
    }
    match text_at(Some(obj), "visibility") {
        Some(v) => if !text::same(v.as_str(), "Visibility_Public") {
            return None;
        },
        None => {
            return None;
        },
    }
    let card = cards.get(id);
    let name = match card {
        Some(c) => c.name.clone(),
        None => {
            let mut n = String::new();
            n.append("Card #");
            text::push_decimal(&mut n, id as u64);
            assert(n@ =~= "Card #"@ + decimal(id as nat));
            n
        },
    };
    let cmc = match card {
        Some(c) => match c.cmc {
            Some(v) => v,
            None => Cmc { bits: 0 },
        },
        None => Cmc { bits: 0 },
    };
    Some(LiveCard { arena_id: id, name, remaining: 1, original: 1, cmc })
}

fn life_of(players: &Vec<Json>, seat: u64, before: Option<i32>) -> (r: Option<i32>)
    ensures
        r == life_after(item_views(players@), seat, before),
{
    let ghost all = item_views(players@);
    let mut r = before;
    let mut i: usize = 0;
    assert(all.take(0) =~= Seq::<JsonView>::empty());
    while i < players.len()
        invariant
            i <= players@.len(),
            all == item_views(players@),
            r == life_after(all.take(i as int), seat, before),
        decreases players@.len() - i,
    {
        assert(all.take(i + 1).drop_last() =~= all.take(i as int));
        assert(all.take(i + 1).last() == players@[i as int]@);
        let p = &players[i];
        let at: u64 = match number_at(p, "systemSeatNumber") {
            Some(n) => n,
            None => 0,
        };
        if at == seat {
            if let Some(x) = p.get("lifeTotal") {
                if let Some(n) = x.as_i64() {
                    r = Some(n as i32);
                }
            }
        }
        i += 1;
    }
    assert(all.take(i as int) =~= all);
    r
}

/// Brings the match up to a message with a game state.
pub fn update_from_game_state(live: &mut LiveMatch, msg: &Json, cards: &CardDb)
    requires
        cards.wf(),
    ensures
        final(live)@ == (match msg@.get("gameStateMessage"@) {
            Some(gs) => with_state(old(live)@, gs, cards@),
            None => old(live)@,
        }),
{
    let gs = match msg.get("gameStateMessage") {
        Some(g) => g,
        None => {
            return;
        },
    };
    if let Some(info) = gs.get("turnInfo") {
        live.turn = match number_at(info, "turnNumber") {
            Some(n) => Some(n as u32),
            None => None,
        };
    }
    if let Some(players) = items_at(gs, "players") {
        live.player_life = life_of(players, 1, live.player_life);
        live.opponent_life = life_of(players, 2, live.opponent_life);
    }
    if let Some(objects) = items_at(gs, "gameObjects") {
        let ghost all = item_views(objects@);
        let mut revealed: Vec<LiveCard> = Vec::new();
        let mut i: usize = 0;
        assert(live_cards(revealed@) =~= all_shown(all.take(0), cards@));
        while i < objects.len()
            invariant
                i <= objects@.len(),
                all == item_views(objects@),
                cards.wf(),
                live_cards(revealed@) == all_shown(all.take(i as int), cards@),
            decreases objects@.len() - i,
        {
            assert(all.take(i + 1).drop_last() =~= all.take(i as int));
            assert(all.take(i + 1).last() == objects@[i as int]@);
            let ghost was = revealed@;
            if let Some(c) = show(&objects[i], cards) {
                revealed.push(c);
                assert(live_cards(revealed@) =~= live_cards(was).push(c@));
            }
            i += 1;
        }
        assert(all.take(i as int) =~= all);
        if revealed.len() > 0 {
            live.opponent_revealed = revealed;
        }
    }
}

/// Brings the match up to the messages of a payload.
pub fn apply_messages(live: &mut LiveMatch, payload: &Json, cards: &CardDb)
    requires
        cards.wf(),
    ensures
        final(live)@ == with_messages(old(live)@, messages_in(payload@), cards@),
{
    let messages = match payload.get("greToClientEvent") {
        Some(e) => match items_at(e, "greToClientMessages") {
            Some(list) => list,
            None => {
                return;
            },
        },
        None => {
            return;
        },
    };
    let ghost all = item_views(messages@);
    let mut i: usize = 0;
    assert(all.take(0) =~= Seq::<JsonView>::empty());
    while i < messages.len()
        invariant
            i <= messages@.len(),
            all == item_views(messages@),
            cards.wf(),
            live@ == with_messages(old(live)@, all.take(i as int), cards@),
        decreases messages@.len() - i,
    {
        assert(all.take(i + 1).drop_last() =~= all.take(i as int));
        assert(all.take(i + 1).last() == messages@[i as int]@);
        let msg = &messages[i];
        let is_state = match text_at(Some(msg), "type") {
            Some(t) => text::same(t.as_str(), "GREMessageType_GameStateMessage"),
            None => false,
        };
        if is_state {
            update_from_game_state(live, msg, cards);
        }
        i += 1;
    }
    assert(all.take(i as int) =~= all);
}

/// Game states change nothing but the turn, the life totals and what the
/// opponent shows.
pub proof fn law_game_states_keep(
    live: LiveMatchView,
    messages: Seq<JsonView>,
    db: Map<u32, Card>,
)
    ensures
        ({
            let after = with_messages(live, messages, db);
            &&& after.match_id == live.match_id
            &&& after.started_at == live.started_at
            &&& after.deck_id == live.deck_id
            &&& after.deck_name == live.deck_name
            &&& after.library == live.library
            &&& after.played == live.played
            &&& after.opponent_screen_name == live.opponent_screen_name
        }),
    decreases messages.len(),
{
    if messages.len() > 0 {
        law_game_states_keep(live, messages.drop_last(), db);
    }
}

/// The entry is for this seat and has a life total.
pub open spec fn tells_life(p: JsonView, seat: u64, life: i64) -> bool {
    &&& p.get("systemSeatNumber"@) == Some(JsonView::Number(JsonNumber::Pos(seat)))
    &&& match p.get("lifeTotal"@) {
        Some(JsonView::Number(JsonNumber::Pos(n))) => n == life,
        Some(JsonView::Number(JsonNumber::Neg(n))) => n == life,
        _ => false,
    }
}

/// The life total of the player or of the opponent.
pub open spec fn life_at(live: LiveMatchView, seat: u64) -> Option<i32> {
    if seat == 1 {
        live.player_life
    } else {
        live.opponent_life
    }
}

/// A game state in which no entry tells the life total of a seat leaves it as it
/// was; the same where it lists no players.
pub proof fn law_unlisted_life_stays(
    live: LiveMatchView,
    gs: JsonView,
    db: Map<u32, Card>,
    seat: u64,
)
    requires
        seat == 1 || seat == 2,
        match gs.get("players"@) {
            Some(JsonView::Array(list)) => forall|i: int, life: i64|
                0 <= i < list.len() ==> !(#[trigger] tells_life(list[i], seat, life)),
            _ => true,
        },
    ensures
        life_at(with_state(live, gs, db), seat) == life_at(live, seat),
{
    if let Some(JsonView::Array(list)) = gs.get("players"@) {
        lemma_life_stays(list, seat, life_at(live, seat));
    }
}

proof fn lemma_life_stays(list: Seq<JsonView>, seat: u64, before: Option<i32>)
    requires
        forall|i: int, life: i64|
            0 <= i < list.len() ==> !(#[trigger] tells_life(list[i], seat, life)),
        seat != 0,
    ensures
        life_after(list, seat, before) == before,
    decreases list.len(),
{
    if list.len() > 0 {
        let p = list[list.len() - 1];
        if seat_under(p, "systemSeatNumber"@) == seat && life_in(p) is Some {
            let life = p.get("lifeTotal"@).unwrap().integer().unwrap();
            assert(tells_life(p, seat, life));
            assert(tells_life(list[list.len() - 1], seat, life));
        }
        let rest = list.drop_last();
        assert forall|i: int, life: i64| 0 <= i < rest.len() implies !(#[trigger] tells_life(
            rest[i],
            seat,
            life,
        )) by {
            assert(rest[i] == list[i]);
        }
        lemma_life_stays(rest, seat, before);
    }
}

/// The last entry that tells the life total of a seat sets it.
pub proof fn law_listed_life_is_set(
    live: LiveMatchView,
    gs: JsonView,
    db: Map<u32, Card>,
    seat: u64,
    list: Seq<JsonView>,
    k: int,
    life: i64,
)
    requires
        seat == 1 || seat == 2,
        gs.get("players"@) == Some(JsonView::Array(list)),
        0 <= k < list.len(),
        tells_life(list[k], seat, life),
        i32::MIN <= life <= i32::MAX,
        forall|i: int, other: i64| k < i < list.len() ==> !(#[trigger] tells_life(list[i], seat, other)),
    ensures
        life_at(with_state(live, gs, db), seat) == Some(life as i32),
{
    lemma_life_set(list, seat, life_at(live, seat), k, life);
}

proof fn lemma_life_set(list: Seq<JsonView>, seat: u64, before: Option<i32>, k: int, life: i64)
    requires
        seat != 0,
        0 <= k < list.len(),
        tells_life(list[k], seat, life),
        forall|i: int, other: i64| k < i < list.len() ==> !(#[trigger] tells_life(list[i], seat, other)),
    ensures
        life_after(list, seat, before) == Some(life as i32),
    decreases list.len(),
{
    let p = list[list.len() - 1];
    if k < list.len() - 1 {
        if seat_under(p, "systemSeatNumber"@) == seat && life_in(p) is Some {
            let other = p.get("lifeTotal"@).unwrap().integer().unwrap();
            assert(tells_life(list[list.len() - 1], seat, other));
        }
        let rest = list.drop_last();
        assert forall|i: int, other: i64| k < i < rest.len() implies !(#[trigger] tells_life(
            rest[i],
            seat,
            other,
        )) by {
            assert(rest[i] == list[i]);
        }
        lemma_life_set(rest, seat, before, k, life);
    }
}

/// The turn is the one that a game state tells, and stays where none comes.
pub proof fn law_turn_told(live: LiveMatchView, gs: JsonView, db: Map<u32, Card>, n: u64)
    ensures
        gs.get("turnInfo"@) is None ==> with_state(live, gs, db).turn == live.turn,
        n <= u32::MAX && gs.get("turnInfo"@) is Some && gs.get("turnInfo"@).unwrap().get(
            "turnNumber"@,
        ) == Some(JsonView::Number(JsonNumber::Pos(n))) ==> with_state(live, gs, db).turn == Some(
            n as u32,
        ),
{
}

/// The object is a card that the opponent controls and that everyone sees.
pub open spec fn opponents_card(obj: JsonView, id: u32) -> bool {
    &&& obj.get("controllerSeatId"@) == Some(JsonView::Number(JsonNumber::Pos(2)))
    &&& obj.get("visibility"@) == Some(JsonView::Text("Visibility_Public"@))
    &&& obj.get("grpId"@) matches Some(JsonView::Number(JsonNumber::Pos(n))) && n as u32 == id
}

/// What the opponent shows is what the last game state with any such card lists:
/// exactly the public cards that the opponent controls, in their order. Where a
/// state lists none, what was shown before stays.
pub proof fn law_revealed(live: LiveMatchView, gs: JsonView, db: Map<u32, Card>)
    ensures
        match gs.get("gameObjects"@) {
            Some(JsonView::Array(list)) => {
                let after = with_state(live, gs, db).opponent_revealed;
                &&& (forall|i: int, id: u32|
                    0 <= i < list.len() ==> !(#[trigger] opponents_card(list[i], id))) ==> after
                    == live.opponent_revealed
                &&& (exists|i: int, id: u32|
                    0 <= i < list.len() && #[trigger] opponents_card(list[i], id)) ==> {
                    &&& forall|k: int|
                        0 <= k < after.len() ==> exists|i: int|
                            0 <= i < list.len() && opponents_card(
                                #[trigger] list[i],
                                (#[trigger] after[k]).arena_id,
                            )
                    &&& forall|i: int, id: u32|
                        0 <= i < list.len() && #[trigger] opponents_card(list[i], id) ==> exists|
                            k: int,
                        |
                            0 <= k < after.len() && (#[trigger] after[k]).arena_id == id
                    &&& forall|k: int|
                        0 <= k < after.len() && db.contains_key((#[trigger] after[k]).arena_id)
                            ==> after[k].name == db[after[k].arena_id].name@
                }
            },
            _ => with_state(live, gs, db).opponent_revealed == live.opponent_revealed,
        },
{
    if let Some(JsonView::Array(list)) = gs.get("gameObjects"@) {
        lemma_all_shown(list, db);
        let after = with_state(live, gs, db).opponent_revealed;
        let cards = all_shown(list, db);
        if exists|i: int, id: u32| 0 <= i < list.len() && #[trigger] opponents_card(list[i], id) {
            let (i, id) = choose|i: int, id: u32|
                0 <= i < list.len() && #[trigger] opponents_card(list[i], id);
            let k = choose|k: int| 0 <= k < cards.len() && (#[trigger] cards[k]).arena_id == id;
            assert(cards.len() > 0);
            assert(after == cards);
        } else {
            if cards.len() > 0 {
                let i = choose|i: int|
                    0 <= i < list.len() && opponents_card(#[trigger] list[i], cards[0].arena_id);
                assert(opponents_card(list[i], cards[0].arena_id));
            }
        }
    }
}

proof fn lemma_all_shown(list: Seq<JsonView>, db: Map<u32, Card>)
    ensures
        ({
            let cards = all_shown(list, db);
            &&& forall|k: int|
                0 <= k < cards.len() ==> exists|i: int|
                    0 <= i < list.len() && opponents_card(
                        #[trigger] list[i],
                        (#[trigger] cards[k]).arena_id,
                    )
            &&& forall|i: int, id: u32|
                0 <= i < list.len() && #[trigger] opponents_card(list[i], id) ==> exists|k: int|
                    0 <= k < cards.len() && (#[trigger] cards[k]).arena_id == id
            &&& forall|k: int|
                0 <= k < cards.len() && db.contains_key((#[trigger] cards[k]).arena_id)
                    ==> cards[k].name == db[cards[k].arena_id].name@
        }),
    decreases list.len(),
{
    if list.len() > 0 {
        let rest = list.drop_last();
        lemma_all_shown(rest, db);
        let before = all_shown(rest, db);
        let cards = all_shown(list, db);
        let p = list[list.len() - 1];
        assert forall|k: int| 0 <= k < cards.len() implies exists|i: int|
            0 <= i < list.len() && opponents_card(
                #[trigger] list[i],
                (#[trigger] cards[k]).arena_id,
            ) by {
            if k < before.len() {
                assert(cards[k] == before[k]);
                let i = choose|i: int|
                    0 <= i < rest.len() && opponents_card(#[trigger] rest[i], before[k].arena_id);
                assert(list[i] == rest[i]);
                assert(opponents_card(list[i], cards[k].arena_id));
            } else {
                assert(opponents_card(p, cards[k].arena_id));
            }
        }
        assert forall|i: int, id: u32|
            0 <= i < list.len() && #[trigger] opponents_card(list[i], id) implies exists|k: int|
            0 <= k < cards.len() && (#[trigger] cards[k]).arena_id == id by {
            if i < rest.len() {
                assert(rest[i] == list[i]);
                let k = choose|k: int|
                    0 <= k < before.len() && (#[trigger] before[k]).arena_id == id;
                assert(cards[k] == before[k]);
                assert(cards[k].arena_id == id);
            } else {
                assert(shown(p, db) is Some);
                assert(cards[before.len() as int].arena_id == id);
            }
        }
        assert forall|k: int|
            0 <= k < cards.len() && db.contains_key((#[trigger] cards[k]).arena_id) implies cards[k].name
            == db[cards[k].arena_id].name@ by {
            if k < before.len() {
                assert(cards[k] == before[k]);
            }
        }
    }
}

/// Messages that are no game states change nothing, and a game state acts as it
/// says.
pub proof fn law_messages(live: LiveMatchView, msg: JsonView, db: Map<u32, Card>)
    ensures
        msg.get("type"@) != Some(JsonView::Text("GREMessageType_GameStateMessage"@))
            ==> with_message(live, msg, db) == live,
        msg.get("type"@) == Some(JsonView::Text("GREMessageType_GameStateMessage"@)) && msg.get(
            "gameStateMessage"@,
        ) is Some ==> with_message(live, msg, db) == with_state(
            live,
            msg.get("gameStateMessage"@).unwrap(),
            db,
        ),
        with_messages(live, seq![msg], db) == with_message(live, msg, db),
{
    assert(seq![msg].drop_last() =~= Seq::<JsonView>::empty());
    reveal_with_fuel(with_messages, 2);
}

/// Messages are taken one after the other.
pub proof fn law_messages_in_order(
    live: LiveMatchView,
    a: Seq<JsonView>,
    b: Seq<JsonView>,
    db: Map<u32, Card>,
)
    ensures
        with_messages(live, a + b, db) == with_messages(with_messages(live, a, db), b, db),
    decreases b.len(),
{
    if b.len() == 0 {
        assert(a + b =~= a);
    } else {
        assert((a + b).drop_last() =~= a + b.drop_last());
        law_messages_in_order(live, a, b.drop_last(), db);
    }
}

/// The messages of a payload are the list that its event holds; without such a
/// list there are none, and the match stays as it is.
pub proof fn law_messages_found(
    payload: JsonView,
    event: JsonView,
    list: Seq<JsonView>,
    live: LiveMatchView,
    db: Map<u32, Card>,
)
    ensures
        payload.get("greToClientEvent"@) == Some(event) && event.get("greToClientMessages"@) == Some(
            JsonView::Array(list),
        ) ==> messages_in(payload) == list,
        payload.get("greToClientEvent"@) is None ==> with_messages(live, messages_in(payload), db)
            == live,
        payload.get("greToClientEvent"@) == Some(event) && event.get("greToClientMessages"@) is None
            ==> with_messages(live, messages_in(payload), db) == live,
{
}

/// A card that the opponent shows is shown once, with the mana value that is
/// known of it.
pub proof fn law_shown_cards(obj: JsonView, id: u32, db: Map<u32, Card>)
    requires
        obj.get("grpId"@) == Some(JsonView::Number(JsonNumber::Pos(id as u64))),
        obj.get("controllerSeatId"@) == Some(JsonView::Number(JsonNumber::Pos(2))),
        obj.get("visibility"@) == Some(JsonView::Text("Visibility_Public"@)),
    ensures
        shown(obj, db) matches Some(c) && {
            &&& c.arena_id == id
            &&& c.remaining == 1 && c.original == 1
            &&& db.contains_key(id) ==> c.name == db[id].name@
            &&& !db.contains_key(id) ==> c.name == "Card #"@ + decimal(id as nat)
            &&& db.contains_key(id) && db[id].cmc is Some ==> c.cmc == db[id].cmc->Some_0
            &&& !(db.contains_key(id) && db[id].cmc is Some) ==> c.cmc.bits == 0
        },
{
}

} // verus!
