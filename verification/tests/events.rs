use std::collections::HashMap;

use mtga_sleuth::cards::{Card, CardDb, Cmc};
use mtga_sleuth::counts::{checked_tally, dedupe, is_countable, tally};
use mtga_sleuth::json::{get_first, get_first_text, Json, JsonNumber};
use mtga_sleuth::parser::events::{ParsedEvent, Timestamp};
use mtga_sleuth::parser::Direction;
use mtga_sleuth::state::handlers::collection::{collection_rows, locate_collection};
use mtga_sleuth::state::handlers::decks::{
    any_to_u32, classify_origin, deck_record, extract_deck_array, extract_format, is_recordable,
    merge_origin, merge_tile, parse_card_list, pluck_str, pluck_u32,
};
use mtga_sleuth::state::handlers::draft::{draft_record, first_array, first_u32, merge_set_code};
use mtga_sleuth::state::handlers::gre::{apply_messages, update_from_game_state};
use mtga_sleuth::state::handlers::inventory_changes::{additions, apply_delta, walk};
use mtga_sleuth::state::handlers::match_room::{after_room, decode_won, room_action, RoomAction};
use mtga_sleuth::state::handlers::starthook::{build_combined_decks, deck_payload, inventory_of};
use mtga_sleuth::state::handlers::wallet::wallet_record;
use mtga_sleuth::state::{
    direction_name, raw_event, route, updates, LiveMatch, LiveUpdate, RawEventError, Route,
};
use mtga_sleuth::web::records::stored_payload;
use serde_json::Value;

fn json(text: &str) -> Json {
    Json::read(text).unwrap()
}

fn value(text: &str) -> Value {
    serde_json::from_str(text).unwrap()
}

fn granted(text: &str) -> HashMap<u32, u32> {
    let mut out = Vec::new();
    walk(&json(text), &mut out);
    tally(&out)
}

fn named(arena_id: u32, name: &str) -> Card {
    Card {
        arena_id,
        name: name.into(),
        mana_cost: None,
        type_line: None,
        colors: None,
        rarity: None,
        set: None,
        collector_number: None,
        cmc: Some(Cmc { bits: 3.0f32.to_bits() }),
        image_small: None,
        image_normal: None,
        scryfall_uri: None,
        legalities: None,
        oracle_text: None,
        produced_mana: None,
        card_faces: None,
    }
}

fn live() -> LiveMatch {
    LiveMatch::started(Some("m1".into()), Some("Opp#1".into()), Timestamp { secs: 0, nanos: 0 })
}

// ---------------------------------------------------------------------------
// Decks
// ---------------------------------------------------------------------------

#[test]
fn extracts_precon_array() {
    let payload = json(
        r#"{"CacheVersion": 1,
            "PreconDecks": [
                {"Summary": {"DeckId": "a"}, "Deck": {"MainDeck": []}},
                {"Summary": {"DeckId": "b"}, "Deck": {"MainDeck": []}}
            ]}"#,
    );
    let decks = extract_deck_array(&payload);
    assert_eq!(decks.len(), 2);
}

#[test]
fn parses_modern_card_list() {
    let v = json(r#"[{"cardId": 69227, "quantity": 4}, {"cardId": 73363, "quantity": 2}]"#);
    let out = parse_card_list(Some(&v));
    assert_eq!(out.get(&69227), Some(&4));
    assert_eq!(out.get(&73363), Some(&2));
}

#[test]
fn extracts_format_from_attributes() {
    let summary = json(
        r#"{"DeckId": "x", "Name": "y", "Attributes": [
            {"name": "Format", "value": "Brawl"},
            {"name": "Other", "value": "ignored"}
        ]}"#,
    );
    let fmt = extract_format(&Json::Null, Some(&summary));
    assert_eq!(fmt.as_deref(), Some("Brawl"));
}

#[test]
fn classifies_deck_origin() {
    // Precon catalog event: everything is a precon regardless of name.
    assert_eq!(classify_origin("DeckGetAllPreconDecksV3", "Aerial Domination"), "precon");
    // StartHook mixes both; the loc-key name prefix identifies precons.
    assert_eq!(classify_origin("StartHook.Decks", "?=?Loc/Decks/Precon/Precon_EPP_W_Name"), "precon");
    assert_eq!(classify_origin("StartHook.Decks", "Simic Flash (Imp)"), "personal");
    // Deck edits are always the player's.
    assert_eq!(classify_origin("DeckUpsertDeckV3", "My Brew"), "personal");
}

#[test]
fn flat_id_only_list_treated_as_singletons() {
    // Used for draft pack inspection; each id appears once.
    let v = json("[69227, 73363, 72403]");
    let out = parse_card_list(Some(&v));
    assert_eq!(out.len(), 3);
    assert_eq!(out.get(&69227), Some(&1));
}

#[test]
fn flat_pairs_and_texts() {
    let out = parse_card_list(Some(&json("[69227, 4, \"73363\", 2, 69227, 1]")));
    assert_eq!(out.len(), 2);
    assert_eq!(out.get(&69227), Some(&5));
    assert_eq!(out.get(&73363), Some(&2));
    assert!(parse_card_list(None).is_empty());
    assert!(parse_card_list(Some(&json("{}"))).is_empty());
    assert!(parse_card_list(Some(&json("[1, {}]"))).is_empty());
    let out = parse_card_list(Some(&json(r#"[{"Id": "7"}, {"quantity": 2}]"#)));
    assert_eq!(out.len(), 1);
    assert_eq!(out.get(&7), Some(&1));
}

#[test]
fn deck_shapes() {
    assert_eq!(extract_deck_array(&json("[1, 2, 3]")).len(), 3);
    assert_eq!(extract_deck_array(&json(r#"{"Summary": {}, "Deck": {}}"#)).len(), 1);
    assert_eq!(extract_deck_array(&json(r#"{"id": 1, "name": "x"}"#)).len(), 1);
    assert_eq!(extract_deck_array(&json(r#"{"DeckId": 1, "MainDeck": []}"#)).len(), 1);
    assert_eq!(extract_deck_array(&json(r#"{"DeckId": 1}"#)).len(), 0);
    assert_eq!(extract_deck_array(&json("7")).len(), 0);
}

#[test]
fn summary_goes_before_the_deck_itself() {
    let root = json(r#"{"Name": "outer", "tile": 0, "DeckTileId": "12"}"#);
    let summary = json(r#"{"name": "inner", "DeckTileId": 0}"#);
    assert_eq!(pluck_str(&root, Some(&summary), &["Name", "name"]).as_deref(), Some("inner"));
    assert_eq!(pluck_str(&root, None, &["Name", "name"]).as_deref(), Some("outer"));
    assert_eq!(pluck_u32(&root, Some(&summary), &["DeckTileId"]), Some(12));
    assert_eq!(pluck_u32(&root, Some(&summary), &["nope"]), None);
    assert_eq!(any_to_u32(&json("4294967295")), Some(u32::MAX));
    assert_eq!(any_to_u32(&json("4294967296")), None);
    assert_eq!(any_to_u32(&json("\"+5\"")), Some(5));
    assert_eq!(any_to_u32(&json("-1")), None);
}

#[test]
fn deck_records() {
    let deck = json(
        r#"{"Summary": {"DeckId": "d1", "Name": "Brew", "DeckTileId": 9,
                        "Attributes": [{"name": "Format", "value": "Standard"}]},
            "Deck": {"MainDeck": [{"cardId": 1, "quantity": 3}, {"cardId": 1, "quantity": 1}],
                     "Sideboard": [{"cardId": 2, "quantity": 2}]}}"#,
    );
    assert!(is_recordable(&deck));
    let r = deck_record(&deck, "DeckUpsertDeckV3").unwrap();
    assert_eq!(r.summary.deck_id, "d1");
    assert_eq!(r.summary.name, "Brew");
    assert_eq!(r.summary.format.as_deref(), Some("Standard"));
    assert_eq!(r.summary.mainboard.get(&1), Some(&4));
    assert_eq!(r.summary.sideboard.get(&2), Some(&2));
    assert_eq!(r.origin, "personal");
    assert_eq!(r.tile_card_id, Some(9));

    let flat = json(r#"{"id": "d2", "mainDeck": [5, 4]}"#);
    let r = deck_record(&flat, "DeckGetAllPreconDecksV3").unwrap();
    assert_eq!(r.summary.name, "Unnamed");
    assert_eq!(r.summary.mainboard.get(&5), Some(&4));
    assert_eq!(r.origin, "precon");

    assert!(deck_record(&json(r#"{"Name": "no id"}"#), "Deck").is_none());
    let too_many = json(
        r#"{"id": "d3", "mainDeck": [{"id": 1, "quantity": 4294967295}, {"id": 1, "quantity": 1}]}"#,
    );
    assert!(!is_recordable(&too_many));
    // A deck without an id is passed over, whatever it holds.
    let nameless = json(
        r#"{"mainDeck": [{"id": 1, "quantity": 4294967295}, {"id": 1, "quantity": 1}]}"#,
    );
    assert!(is_recordable(&nameless));
    assert!(deck_record(&nameless, "Deck").is_none());
}

#[test]
fn origins_never_fall() {
    assert_eq!(merge_origin(Some("personal"), "precon"), "personal");
    assert_eq!(merge_origin(Some("precon"), "personal"), "personal");
    assert_eq!(merge_origin(Some("precon"), "precon"), "precon");
    assert_eq!(merge_origin(None, "precon"), "precon");
    assert_eq!(merge_tile(Some(4), None), Some(4));
    assert_eq!(merge_tile(Some(4), Some(5)), Some(5));
    assert_eq!(merge_tile(None, None), None);
}

// ---------------------------------------------------------------------------
// Cards that are handed out
// ---------------------------------------------------------------------------

#[test]
fn finds_cards_added_in_changes() {
    let out = granted(
        r#"{"Changes": [
            {"context": "Quest.Completed", "delta": {"cardsAdded": [12345, 67890, 12345]}},
            {"context": "Booster.Opened", "delta": {"cardsAdded": [99999]}}
        ]}"#,
    );
    assert_eq!(out.get(&12345), Some(&2));
    assert_eq!(out.get(&67890), Some(&1));
    assert_eq!(out.get(&99999), Some(&1));
}

#[test]
fn finds_booster_contents_with_quantity() {
    let out = granted(
        r#"{"boosterContents": [{"cardId": 100, "quantity": 4}, {"grpId": 200, "quantity": 1}]}"#,
    );
    assert_eq!(out.get(&100), Some(&4));
    assert_eq!(out.get(&200), Some(&1));
}

#[test]
fn ignores_payloads_without_card_grants() {
    let out = granted(r#"{"Gold": 850, "Gems": 20}"#);
    assert!(out.is_empty());
}

#[test]
fn additions_are_the_tally_of_the_walk() {
    let v = json(r#"[{"cards": [5, {"cardId": 5}]}, {"x": {"cardGrants": [6]}}]"#);
    let m = additions(&v).unwrap();
    assert_eq!((m.get(&5), m.get(&6), m.len()), (Some(&2), Some(&1), 2));
    let v = json(r#"{"cards": [{"cardId": 1, "quantity": 4294967295}, 1]}"#);
    assert!(additions(&v).is_none());
}

#[test]
fn deltas_never_go_below_zero() {
    assert_eq!(apply_delta(Some(3), -5), Some(0));
    assert_eq!(apply_delta(Some(3), 4), Some(7));
    assert_eq!(apply_delta(None, 4), Some(4));
    // Only a stored quantity is kept from falling below zero.
    assert_eq!(apply_delta(None, -4), Some(-4));
    assert_eq!(apply_delta(Some(i64::MAX), 1), None);
}

#[test]
fn counting_pairs() {
    let list = vec![(3, 1), (1, 2), (3, 4)];
    assert!(is_countable(&list));
    assert_eq!(dedupe(&list), vec![(1, 2), (3, 5)]);
    assert_eq!(checked_tally(&list).unwrap().get(&3), Some(&5));
    let over = vec![(3, u32::MAX), (3, 1)];
    assert!(!is_countable(&over));
    assert!(checked_tally(&over).is_none());
}

// ---------------------------------------------------------------------------
// The collection, the wallet, the launch dump
// ---------------------------------------------------------------------------

#[test]
fn collections_at_the_root_or_below_a_key() {
    assert_eq!(collection_rows(&json(r#"{"100": 4, "200": 1}"#)), vec![(100, 4), (200, 1)]);
    let nested = json(r#"{"playerCards": {"100": 4, "x": 1, "300": -1}, "n": 1}"#);
    assert_eq!(collection_rows(&nested), vec![(100, 4)]);
    assert_eq!(locate_collection(&nested).unwrap().len(), 3);
    assert!(collection_rows(&json("{}")).is_empty());
    assert!(collection_rows(&json("[1]")).is_empty());
}

#[test]
fn wallets() {
    let w = wallet_record(&value(
        r#"{"Gold": 850, "Gems": -1, "WildCardCommons": 1, "WildCardUnCommons": 2,
            "WildCardRares": 3, "WildCardMythics": 4, "TotalVaultProgress": 5,
            "wcTrackPosition": 6, "Boosters": [{"SetCode": "X", "Count": 2}]}"#,
    ));
    assert_eq!((w.gold, w.gems, w.vault_progress, w.wc_track_position), (850, -1, 5, 6));
    assert_eq!((w.wc_common, w.wc_uncommon, w.wc_rare, w.wc_mythic), (1, 2, 3, 4));
    assert_eq!(w.boosters, r#"[{"Count":2,"SetCode":"X"}]"#);
    let empty = wallet_record(&value("{}"));
    assert_eq!((empty.gold, empty.boosters.as_str()), (0, "null"));
}

#[test]
fn launch_dump_joins_summaries_and_decks() {
    let payload = json(
        r#"{"DeckSummaries": [{"DeckId": "a", "Name": "A"}, {"DeckId": ""}, {"DeckId": "b"}],
            "Decks": {"a": {"MainDeck": [1, 2]}}}"#,
    );
    let decks = build_combined_decks(&payload).unwrap();
    assert_eq!(decks.len(), 2);
    assert_eq!(decks[0].get("Summary").unwrap().get("Name").unwrap().as_str().unwrap(), "A");
    assert!(decks[0].get("Deck").unwrap().has("MainDeck"));
    assert!(matches!(decks[1].get("Deck"), Some(Json::Null)));
    let wrapped = deck_payload(decks);
    assert_eq!(extract_deck_array(&wrapped).len(), 2);

    assert!(build_combined_decks(&json(r#"{"DeckSummaries": [], "Decks": {}}"#)).is_none());
    assert!(build_combined_decks(&json(r#"{"DeckSummaries": [{"DeckId": "a"}]}"#)).is_none());
}

#[test]
fn inventories_at_the_start() {
    let dump = value(r#"{"InventoryInfo": {"Gold": 5}, "Decks": {}}"#);
    assert_eq!(inventory_of(&dump), Some(&value(r#"{"Gold": 5}"#)));
    assert_eq!(inventory_of(&value(r#"{"InventoryInfo": null}"#)), Some(&Value::Null));
    assert_eq!(inventory_of(&value(r#"{"Decks": {}}"#)), None);
    assert_eq!(inventory_of(&value("[1]")), None);
}

// ---------------------------------------------------------------------------
// Matches and drafts
// ---------------------------------------------------------------------------

#[test]
fn match_rooms() {
    let playing = json(
        r#"{"matchGameRoomStateChangedEvent": {"gameRoomInfo": {
            "gameRoomConfig": {"matchId": "m1", "eventId": "Play",
                "reservedPlayers": [{"userId": "u"}, {"playerName": "A#1"}, {"playerName": "B#2"}]},
            "stateType": "MatchGameRoomStateType_Playing"}}}"#,
    );
    match room_action(&playing) {
        RoomAction::Started { match_id, event_id, opponent } => {
            assert_eq!(match_id.as_deref(), Some("m1"));
            assert_eq!(event_id.as_deref(), Some("Play"));
            assert_eq!(opponent.as_deref(), Some("A#1"));
        }
        _ => panic!("expected a start"),
    }
    let ended = json(
        r#"{"gameRoomConfig": {"matchId": "m1"}, "stateType": "MatchGameRoomStateType_MatchCompleted",
            "finalMatchResult": {"resultList": [
                {"scope": "MatchScope_Game", "winningTeamId": 2},
                {"scope": "MatchScope_Match", "winningTeamId": 1}]}}"#,
    );
    match room_action(&ended) {
        RoomAction::Ended { match_id, won } => {
            assert_eq!(match_id.as_deref(), Some("m1"));
            assert_eq!(won, Some(true));
        }
        _ => panic!("expected an end"),
    }
    let at = Timestamp { secs: 5, nanos: 6 };
    let m = after_room(None, &room_action(&playing), at).unwrap();
    assert_eq!((m.match_id.as_deref(), m.started_at), (Some("m1"), Some(at)));
    assert_eq!(m.opponent_screen_name.as_deref(), Some("A#1"));
    let m = after_room(Some(m), &RoomAction::Ignored, at);
    assert_eq!(m.as_ref().unwrap().match_id.as_deref(), Some("m1"));
    assert!(after_room(m, &room_action(&ended), at).is_none());

    assert_eq!(decode_won(&json("{}")), None);
    assert!(matches!(room_action(&json("{}")), RoomAction::Ignored));
}

#[test]
fn game_states_update_the_live_match() {
    let cards = CardDb::from_cards(vec![named(7, "Bear")]);
    let mut m = live();
    let msg = json(
        r#"{"gameStateMessage": {
            "turnInfo": {"turnNumber": 4},
            "players": [{"systemSeatNumber": 1, "lifeTotal": 18}, {"systemSeatNumber": 2, "lifeTotal": -2}],
            "gameObjects": [
                {"visibility": "Visibility_Public", "controllerSeatId": 2, "grpId": 7},
                {"visibility": "Visibility_Public", "controllerSeatId": 1, "grpId": 7},
                {"visibility": "Visibility_Hidden", "controllerSeatId": 2, "grpId": 7},
                {"visibility": "Visibility_Public", "controllerSeatId": 2, "grpId": 8}]}}"#,
    );
    update_from_game_state(&mut m, &msg, &cards);
    assert_eq!((m.turn, m.player_life, m.opponent_life), (Some(4), Some(18), Some(-2)));
    let names: Vec<&str> = m.opponent_revealed.iter().map(|c| c.name.as_str()).collect();
    assert_eq!(names, vec!["Bear", "Card #8"]);
    assert_eq!(m.opponent_revealed[0].cmc.bits, 3.0f32.to_bits());
    assert_eq!(m.opponent_revealed[1].cmc.bits, 0.0f32.to_bits());

    // A message that says nothing of these keeps them; a turn without a number does not.
    update_from_game_state(&mut m, &json(r#"{"gameStateMessage": {"turnInfo": {}}}"#), &cards);
    assert_eq!((m.turn, m.player_life), (None, Some(18)));
    assert_eq!(m.opponent_revealed.len(), 2);

    let events = json(
        r#"{"greToClientEvent": {"greToClientMessages": [
            {"type": "GREMessageType_ConnectResp", "gameStateMessage": {"turnInfo": {"turnNumber": 9}}},
            {"type": "GREMessageType_GameStateMessage", "gameStateMessage": {"turnInfo": {"turnNumber": 5}}}]}}"#,
    );
    apply_messages(&mut m, &events, &cards);
    assert_eq!(m.turn, Some(5));
    assert_eq!(m.match_id.as_deref(), Some("m1"));
}

#[test]
fn drafts() {
    let r = draft_record(&json(
        r#"{"draftId": "d", "SetCode": "FDN", "packNumber": 1, "pickNumber": 2, "cardId": 7,
            "packCards": [7, 8, "x", 9]}"#,
    ))
    .unwrap();
    assert_eq!(r.draft_id, "d");
    assert_eq!(r.set_code.as_deref(), Some("FDN"));
    let p = r.pick.unwrap();
    assert_eq!((p.pack_number, p.pick_number, p.picked_card_id), (1, 2, 7));
    assert_eq!(p.pack_card_ids, "[7,8,9]");

    assert!(draft_record(&json(r#"{"packNumber": 1}"#)).is_none());
    assert!(draft_record(&json(r#"{"id": "d", "packNumber": 1}"#)).unwrap().pick.is_none());
    assert_eq!(first_u32(&json(r#"{"a": "x", "b": 3}"#), &["a", "b"]), Some(3));
    assert_eq!(first_u32(&json(r#"{"a": 4294967296, "b": 3}"#), &["a", "b"]), None);
    assert_eq!(first_array(&json(r#"{"a": 1, "b": [1, 2]}"#), &["a", "b"]), Some(vec![1, 2]));
    assert_eq!(merge_set_code(Some("A".into()), None).as_deref(), Some("A"));
    assert_eq!(merge_set_code(Some("A".into()), Some("B".into())).as_deref(), Some("B"));
}

// ---------------------------------------------------------------------------
// Events
// ---------------------------------------------------------------------------

#[test]
fn routes() {
    assert_eq!(route("Deck.GetDeckListsV3"), Route::Decks);
    assert_eq!(route("DeckUpsertDeckV3"), Route::Decks);
    assert_eq!(route("InventoryGetInventory"), Route::Inventory);
    assert_eq!(route("WalletX"), Route::Inventory);
    assert_eq!(route("StartHook"), Route::StartHook);
    assert_eq!(route("QuestGrantReward"), Route::Grants);
    assert_eq!(route("MatchGameRoomStateChangedEvent"), Route::MatchRoom);
    assert_eq!(route("GreToClientEvent"), Route::GameState);
    assert_eq!(route("BotDraft_DraftPick"), Route::Draft);
    assert_eq!(route("Nothing"), Route::Other);
}

#[test]
fn every_event_ticks_last() {
    let current = Some(live());
    for kind in ["DeckX", "Inventory", "StartHook", "Prize", "GreToClientEvent", "Draft", "Other"] {
        let list = updates(kind, &current);
        match list.last().unwrap() {
            LiveUpdate::EventTick { kind: k } => assert_eq!(k, kind),
            _ => panic!("expected a tick"),
        }
    }
    let list = updates("GreToClientEvent", &current);
    match &list[0] {
        LiveUpdate::Match(Some(m)) => assert_eq!(m.match_id.as_deref(), Some("m1")),
        _ => panic!("expected a match"),
    }
    let list = updates("StartHook", &None);
    assert_eq!(list.len(), 3);
    assert!(matches!(list[0], LiveUpdate::DecksUpdated));
    assert!(matches!(list[1], LiveUpdate::CollectionUpdated));
}

#[test]
fn events_as_they_are_stored() {
    let event = ParsedEvent {
        timestamp: Timestamp { secs: 1_700_000_000, nanos: 0 },
        kind: "K".into(),
        direction: Direction::Response,
        payload: value(r#"{"b": 1, "a": [true, null]}"#),
    };
    let raw = raw_event(&event).unwrap();
    assert_eq!(raw.timestamp, "2023-11-14T22:13:20+00:00");
    assert_eq!(raw.payload, r#"{"a":[true,null],"b":1}"#);
    assert_eq!((raw.kind.as_str(), raw.direction), ("K", "response"));
    assert_eq!(stored_payload(&raw.payload), Some(event.payload));
    assert_eq!(stored_payload("{"), None);
    assert_eq!(direction_name(Direction::Request), "request");
    assert_eq!(direction_name(Direction::Note), "note");

    let never = ParsedEvent {
        timestamp: Timestamp { secs: i64::MAX, nanos: 0 },
        kind: "K".into(),
        direction: Direction::Note,
        payload: Value::Null,
    };
    assert_eq!(raw_event(&never).unwrap_err(), RawEventError::Time);
}

#[test]
fn json_values() {
    let v = json(r#"{"a": 1, "b": -2, "c": 1.5, "d": "t", "e": [null, true]}"#);
    assert_eq!(v.get("a").unwrap().as_u64(), Some(1));
    assert_eq!(v.get("b").unwrap().as_u64(), None);
    assert_eq!(v.get("b").unwrap().as_i64(), Some(-2));
    assert_eq!(v.get("c").unwrap().as_i64(), None);
    assert!(v.get("c").unwrap().is_number());
    assert!(matches!(v.get("c"), Some(Json::Number(JsonNumber::Other(bits))) if *bits == 1.5f64.to_bits()));
    assert_eq!(v.get("d").unwrap().as_str().unwrap(), "t");
    assert_eq!(v.get("e").unwrap().as_array().unwrap().len(), 2);
    assert!(v.get("z").is_none());
    assert_eq!(v.copy().as_object().unwrap().len(), 5);
    assert_eq!(get_first_text(&v, &["a", "d"]).as_deref(), Some("t"));
    assert_eq!(get_first(&v, &["z", "b"]).unwrap().as_i64(), Some(-2));
    assert!(Json::read("{").is_none());
    assert_eq!(json("18446744073709551615").as_u64(), Some(u64::MAX));
    assert_eq!(json("18446744073709551615").as_i64(), None);
}
