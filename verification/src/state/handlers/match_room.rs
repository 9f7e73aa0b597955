//! Matches: queued, started, ended.
use vstd::prelude::*;

use crate::json::{item_views, Json, JsonNumber, JsonView};
use crate::parser::events::Timestamp;
use crate::patterns::opt_text;
use crate::state::{copy_text, new_match, opt_match, LiveMatch, LiveMatchView};
use crate::text;

verus! {

/// What a change of the match room means.
#[derive(Debug)]
pub enum RoomAction {
    /// A match began.
    Started { match_id: Option<String>, event_id: Option<String>, opponent: Option<String> },
    /// A match ended, and who won where that is known.
    Ended { match_id: Option<String>, won: Option<bool> },
    Ignored,
}

/// What a change of the match room means.
pub ghost enum RoomView {
    Started {
        match_id: Option<Seq<char>>,
        event_id: Option<Seq<char>>,
        opponent: Option<Seq<char>>,
    },
    Ended { match_id: Option<Seq<char>>, won: Option<bool> },
    Ignored,
}

impl View for RoomAction {
    type V = RoomView;

    open spec fn view(&self) -> RoomView {
        match self {
            RoomAction::Started { match_id, event_id, opponent } => RoomView::Started {
                match_id: opt_text(*match_id),
                event_id: opt_text(*event_id),
                opponent: opt_text(*opponent),
            },
            RoomAction::Ended { match_id, won } => RoomView::Ended {
                match_id: opt_text(*match_id),
                won: *won,
            },
            RoomAction::Ignored => RoomView::Ignored,
        }
    }
}

/// The part of a payload that describes the room: where it is wrapped, what is
/// inside, or else the payload itself.
pub open spec fn room_in(payload: JsonView) -> JsonView {
    match payload.get("matchGameRoomStateChangedEvent"@) {
        Some(e) => match e.get("gameRoomInfo"@) {
            Some(room) => room,
            None => payload,
        },
        None => payload,
    }
}

/// The text under a key of an optional object.
pub open spec fn text_under(v: Option<JsonView>, key: Seq<char>) -> Option<Seq<char>> {
    match v {
        Some(o) => match o.get(key) {
            Some(x) => x.text(),
            None => None,
        },
        None => None,
    }
}

/// The name of the first player that has one.
pub open spec fn first_player(players: Seq<JsonView>) -> Option<Seq<char>>
    decreases players.len(),
{
    if players.len() == 0 {
        None
    } else if text_under(Some(players[0]), "playerName"@) is Some {
        text_under(Some(players[0]), "playerName"@)
    } else {
        first_player(players.skip(1))
    }
}

/// The opponent's name.
pub open spec fn opponent_in(config: Option<JsonView>) -> Option<Seq<char>> {
    match config {
        Some(c) => match c.get("reservedPlayers"@) {
            Some(p) => match p.items() {
                Some(players) => first_player(players),
                None => None,
            },
            None => None,
        },
        None => None,
    }
}

/// The last result of the list that is about the whole match.
pub open spec fn match_result(results: Seq<JsonView>) -> Option<JsonView>
    decreases results.len(),
{
    if results.len() == 0 {
        None
    } else if text_under(Some(results.last()), "scope"@) == Some("MatchScope_Match"@) {
        Some(results.last())
    } else {
        match_result(results.drop_last())
    }
}

/// Whether the player won: the first team is the player's.
pub open spec fn won_in(room: JsonView) -> Option<bool> {
    match room.get("finalMatchResult"@) {
        Some(f) => match f.get("resultList"@) {
            Some(l) => match l.items() {
                Some(results) => match match_result(results) {
                    Some(r) => match r.get("winningTeamId"@) {
                        Some(t) => match t.natural() {
                            Some(n) => Some(n == 1),
                            None => None,
                        },
                        None => None,
                    },
                    None => None,
                },
                None => None,
            },
            None => None,
        },
        None => None,
    }
}

/// What a payload means.
pub open spec fn room_meaning(payload: JsonView) -> RoomView {
    let room = room_in(payload);
    let config = room.get("gameRoomConfig"@);
    let state = text_under(Some(room), "stateType"@);
    if state == Some("MatchGameRoomStateType_Playing"@) || state == Some(
        "MatchGameRoomStateType_MatchInProgress"@,
    ) {
        RoomView::Started {
            match_id: text_under(config, "matchId"@),
            event_id: text_under(config, "eventId"@),
            opponent: opponent_in(config),
        }
    } else if state == Some("MatchGameRoomStateType_MatchCompleted"@) {
        RoomView::Ended { match_id: text_under(config, "matchId"@), won: won_in(room) }
    } else {
        RoomView::Ignored
    }
}

/// What an optional value holds.
pub open spec fn maybe(v: Option<&Json>) -> Option<JsonView> {
    match v {
        Some(j) => Some(j@),
        None => None,
    }
}

/// The text under a key of an optional object.
pub fn text_at(v: Option<&Json>, key: &str) -> (r: Option<String>)
    ensures
        opt_text(r) == text_under(maybe(v), key@),
{
    match v {
        Some(o) => match o.get(key) {
            Some(x) => match x.as_str() {
                Some(s) => Some(s.clone()),
                None => None,
            },
            None => None,
        },
        None => None,
    }
}

fn is_text(v: &Option<String>, s: &str) -> (r: bool)
    ensures
        r == (opt_text(*v) == Some(s@)),
{
    match v {
        Some(t) => text::same(t.as_str(), s),
        None => false,
    }
}

fn opponent_of(config: Option<&Json>) -> (r: Option<String>)
    ensures
        opt_text(r) == opponent_in(maybe(config)),
{
    let players = match config {
        Some(c) => match c.get("reservedPlayers") {
            Some(p) => match p.as_array() {
                Some(players) => players,
                None => {
                    return None;
                },
            },
            None => {
                return None;
            },
        },
        None => {
            return None;
        },
    };
    let ghost all = item_views(players@);
    let mut i: usize = 0;
    assert(all.skip(0) =~= all);
    while i < players.len()
        invariant
            i <= players@.len(),
            all == item_views(players@),
            opponent_in(maybe(config)) == first_player(all.skip(i as int)),
        decreases players@.len() - i,
    {
        assert(all.skip(i as int).skip(1) =~= all.skip(i + 1));
        assert(all.skip(i as int)[0] == players@[i as int]@);
        let name = text_at(Some(&players[i]), "playerName");
        if name.is_some() {
            return name;
        }
        i += 1;
    }
    None
}

/// Whether the player won, as far as the room says.
pub fn decode_won(room: &Json) -> (r: Option<bool>)
    ensures
        r == won_in(room@),
{
    let results = room.get("finalMatchResult")?.get("resultList")?.as_array()?;
    let ghost all = item_views(results@);
    let mut i: usize = results.len();
    assert(all.take(i as int) =~= all);
    while i > 0
        invariant
            i <= results@.len(),
            all == item_views(results@),
            match_result(all) == match_result(all.take(i as int)),
            won_in(room@) == (match match_result(all) {
                Some(r) => match r.get("winningTeamId"@) {
                    Some(t) => match t.natural() {
                        Some(n) => Some(n == 1),
                        None => None,
                    },
                    None => None,
                },
                None => None,
            }),
        decreases i,
    {
        let last = &results[i - 1];
        assert(all.take(i as int).last() == last@);
        assert(all.take(i as int).drop_last() =~= all.take(i - 1));
        if is_text(&text_at(Some(last), "scope"), "MatchScope_Match") {
            let winning: u64 = last.get("winningTeamId")?.as_u64()?;
            return Some(winning == 1);
        }
        i -= 1;
    }
    None
}

/// What a payload means.
pub fn room_action(payload: &Json) -> (r: RoomAction)
    ensures
        r@ == room_meaning(payload@),
{
    let room = match payload.get("matchGameRoomStateChangedEvent") {
        Some(e) => match e.get("gameRoomInfo") {
            Some(room) => room,
            None => payload,
        },
        None => payload,
    };
    let state = text_at(Some(room), "stateType");
    let config = room.get("gameRoomConfig");
    if is_text(&state, "MatchGameRoomStateType_Playing") || is_text(
        &state,
        "MatchGameRoomStateType_MatchInProgress",
    ) {
        return RoomAction::Started {
            match_id: text_at(config, "matchId"),
            event_id: text_at(config, "eventId"),
            opponent: opponent_of(config),
        };
    }
    if is_text(&state, "MatchGameRoomStateType_MatchCompleted") {
        return RoomAction::Ended { match_id: text_at(config, "matchId"), won: decode_won(room) };
    }
    RoomAction::Ignored
}

/// The match that is being played after a change of the room: the one that
/// began, none after an end, and else the one before.
pub open spec fn live_after(
    current: Option<LiveMatchView>,
    action: RoomView,
    at: Timestamp,
) -> Option<LiveMatchView> {
    match action {
        RoomView::Started { match_id, event_id, opponent } => Some(
            new_match(match_id, opponent, at),
        ),
        RoomView::Ended { match_id, won } => None,
        RoomView::Ignored => current,
    }
}

/// The match that is being played after a change of the room at this time.
pub fn after_room(
    current: Option<LiveMatch>,
    action: &RoomAction,
    at: Timestamp,
) -> (r: Option<LiveMatch>)
    ensures
        opt_match(r) == live_after(opt_match(current), action@, at),
{
    match action {
        RoomAction::Started { match_id, event_id: _, opponent } => Some(
            LiveMatch::started(copy_text(match_id), copy_text(opponent), at),
        ),
        RoomAction::Ended { .. } => None,
        RoomAction::Ignored => current,
    }
}

/// The result is about the whole match.
pub open spec fn about_match(r: JsonView) -> bool {
    r.get("scope"@) == Some(JsonView::Text("MatchScope_Match"@))
}

/// The match is won exactly where the last result about the whole match names
/// the first team; with any other team it is lost, and where no team is named
/// nothing is known.
pub proof fn law_won(room: JsonView, end: JsonView, results: Seq<JsonView>, k: int)
    requires
        room.get("finalMatchResult"@) == Some(end),
        end.get("resultList"@) == Some(JsonView::Array(results)),
        0 <= k < results.len(),
        about_match(results[k]),
        forall|i: int| k < i < results.len() ==> !about_match(#[trigger] results[i]),
    ensures
        match results[k].get("winningTeamId"@) {
            Some(JsonView::Number(JsonNumber::Pos(n))) => {
                &&& n == 1 ==> won_in(room) == Some(true)
                &&& n != 1 ==> won_in(room) == Some(false)
            },
            _ => won_in(room) is None,
        },
{
    lemma_match_result(results, k);
}

proof fn lemma_match_result(results: Seq<JsonView>, k: int)
    requires
        0 <= k < results.len(),
        about_match(results[k]),
        forall|i: int| k < i < results.len() ==> !about_match(#[trigger] results[i]),
    ensures
        match_result(results) == Some(results[k]),
    decreases results.len(),
{
    if k < results.len() - 1 {
        let rest = results.drop_last();
        assert(!about_match(results[results.len() - 1]));
        assert(text_under(Some(results.last()), "scope"@) != Some("MatchScope_Match"@)) by {
            if let Some(v) = results.last().get("scope"@) {
                if v.text() == Some("MatchScope_Match"@) {
                    assert(v == JsonView::Text("MatchScope_Match"@));
                }
            }
        }
        assert forall|i: int| k < i < rest.len() implies !about_match(#[trigger] rest[i]) by {
            assert(rest[i] == results[i]);
        }
        lemma_match_result(rest, k);
    }
}

/// Where no result is about the whole match, nothing is known of who won.
pub proof fn law_no_match_result(room: JsonView)
    requires
        match room.get("finalMatchResult"@) {
            Some(end) => match end.get("resultList"@) {
                Some(JsonView::Array(results)) => forall|i: int|
                    0 <= i < results.len() ==> !about_match(#[trigger] results[i]),
                _ => true,
            },
            None => true,
        },
    ensures
        won_in(room) is None,
{
    if let Some(end) = room.get("finalMatchResult"@) {
        if let Some(JsonView::Array(results)) = end.get("resultList"@) {
            lemma_no_match_result(results);
        }
    }
}

proof fn lemma_no_match_result(results: Seq<JsonView>)
    requires
        forall|i: int| 0 <= i < results.len() ==> !about_match(#[trigger] results[i]),
    ensures
        match_result(results) is None,
    decreases results.len(),
{
    if results.len() > 0 {
        assert(!about_match(results[results.len() - 1]));
        let rest = results.drop_last();
        assert forall|i: int| 0 <= i < rest.len() implies !about_match(#[trigger] rest[i]) by {
            assert(rest[i] == results[i]);
        }
        lemma_no_match_result(rest);
    }
}

/// What a room that tells its state means: a match that is played began, with
/// the ids of its match and event; a match that is completed ended, with who won;
/// any other state means nothing.
pub proof fn law_room_states(room: JsonView, state: Seq<char>)
    requires
        room.get("matchGameRoomStateChangedEvent"@) is None,
        room.get("stateType"@) == Some(JsonView::Text(state)),
    ensures
        state == "MatchGameRoomStateType_Playing"@ || state
            == "MatchGameRoomStateType_MatchInProgress"@ ==> room_meaning(room) is Started,
        state == "MatchGameRoomStateType_MatchCompleted"@ ==> room_meaning(room) is Ended && room_meaning(
            room,
        )->won == won_in(room),
        state != "MatchGameRoomStateType_Playing"@ && state
            != "MatchGameRoomStateType_MatchInProgress"@ && state
            != "MatchGameRoomStateType_MatchCompleted"@ ==> room_meaning(room) is Ignored,
{
    reveal_strlit("MatchGameRoomStateType_Playing");
    reveal_strlit("MatchGameRoomStateType_MatchInProgress");
    reveal_strlit("MatchGameRoomStateType_MatchCompleted");
    assert("MatchGameRoomStateType_Playing"@.len() != "MatchGameRoomStateType_MatchCompleted"@.len());
    assert("MatchGameRoomStateType_MatchInProgress"@.len()
        != "MatchGameRoomStateType_MatchCompleted"@.len());
}

/// The match of a room is the one that its configuration names, and so are the
/// event and the opponent: the first reserved player with a name.
pub proof fn law_room_names(
    room: JsonView,
    config: JsonView,
    players: Seq<JsonView>,
    k: int,
    id: Seq<char>,
    event: Seq<char>,
    name: Seq<char>,
)
    requires
        room.get("matchGameRoomStateChangedEvent"@) is None,
        room.get("gameRoomConfig"@) == Some(config),
        config.get("matchId"@) == Some(JsonView::Text(id)),
        config.get("eventId"@) == Some(JsonView::Text(event)),
        config.get("reservedPlayers"@) == Some(JsonView::Array(players)),
        0 <= k < players.len(),
        players[k].get("playerName"@) == Some(JsonView::Text(name)),
        forall|i: int|
            0 <= i < k ==> !((#[trigger] players[i]).get("playerName"@) matches Some(
                JsonView::Text(_),
            )),
    ensures
        match room_meaning(room) {
            RoomView::Started { match_id, event_id, opponent } => match_id == Some(id) && event_id
                == Some(event) && opponent == Some(name),
            RoomView::Ended { match_id, .. } => match_id == Some(id),
            RoomView::Ignored => true,
        },
{
    lemma_first_player(players, k, name);
}

proof fn lemma_first_player(players: Seq<JsonView>, k: int, name: Seq<char>)
    requires
        0 <= k < players.len(),
        players[k].get("playerName"@) == Some(JsonView::Text(name)),
        forall|i: int|
            0 <= i < k ==> !((#[trigger] players[i]).get("playerName"@) matches Some(
                JsonView::Text(_),
            )),
    ensures
        first_player(players) == Some(name),
    decreases players.len(),
{
    if k > 0 {
        let rest = players.skip(1);
        assert(!(players[0].get("playerName"@) matches Some(JsonView::Text(_))));
        assert(rest[k - 1] == players[k]);
        assert forall|i: int| 0 <= i < k - 1 implies !((#[trigger] rest[i]).get(
            "playerName"@,
        ) matches Some(JsonView::Text(_))) by {
            assert(rest[i] == players[i + 1]);
        }
        lemma_first_player(rest, k - 1, name);
    }
}

/// A room in its wrapping means what it means alone.
pub proof fn law_wrapped_room(payload: JsonView, event: JsonView, room: JsonView)
    requires
        payload.get("matchGameRoomStateChangedEvent"@) == Some(event),
        event.get("gameRoomInfo"@) == Some(room),
        room.get("matchGameRoomStateChangedEvent"@) is None,
    ensures
        room_meaning(payload) == room_meaning(room),
{
}

/// A match that began is the one being played, with no life totals and no turn
/// yet; after one that ended none is played, and anything else changes nothing.
pub proof fn law_live_match(current: Option<LiveMatchView>, action: RoomView, at: Timestamp)
    ensures
        match action {
            RoomView::Started { match_id, event_id, opponent } => {
                &&& live_after(current, action, at) matches Some(live)
                &&& live.match_id == match_id
                &&& live.opponent_screen_name == opponent
                &&& live.started_at == Some(at)
                &&& live.player_life is None && live.opponent_life is None && live.turn is None
                &&& live.library.len() == 0 && live.played.len() == 0
                    && live.opponent_revealed.len() == 0
            },
            RoomView::Ended { .. } => live_after(current, action, at) is None,
            RoomView::Ignored => live_after(current, action, at) == current,
        },
{
}

} // verus!
