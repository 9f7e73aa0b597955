use std::collections::HashMap;

use mtga_sleuth::cards::{Card, CardDb, Cmc};
use mtga_sleuth::localization::LocDb;
use mtga_sleuth::web::api::{
    create_deck, delete_deck, deleted, export_deck, fallback_tile, get_deck, list_decks, new_deck,
    resolve_tile_art, update_deck, ApiError, CreateDeckRequest, DeckHead, UpdateDeckRequest,
};
use mtga_sleuth::web::assets::{asset_name, asset_reply, image_reply, AssetReply};
use mtga_sleuth::web::cdn::{safe_path, upstream_url};
use mtga_sleuth::web::costs::{costs_for_all_decks, rank_of, CostRow};
use mtga_sleuth::web::import::{classify_line, import_plan, parse_arena_decklist, Line};
use mtga_sleuth::web::records::{
    card_to_entry, collection, default_limit, draft_row, get_card, get_draft, get_match,
    list_matches, stored_ids, EventsQuery, StoredMatch, StoredPick,
};
use mtga_sleuth::web::search::{search_cards, search_result, CardSearchQuery};
use mtga_sleuth::web::wildcards::{
    analyze, analyze_pasted, is_basic_land, owned_map, owned_query, pasted_rows, unique_ids,
};

fn base(arena_id: u32, name: &str) -> Card {
    Card {
        arena_id,
        name: name.into(),
        mana_cost: None,
        type_line: None,
        colors: None,
        rarity: None,
        set: None,
        collector_number: None,
        cmc: None,
        image_small: None,
        image_normal: None,
        scryfall_uri: None,
        legalities: None,
        oracle_text: None,
        produced_mana: None,
        card_faces: None,
    }
}

fn printed(arena_id: u32, name: &str, rarity: &str, number: &str) -> Card {
    let mut c = base(arena_id, name);
    c.rarity = Some(rarity.into());
    c.set = Some("m21".into());
    c.collector_number = Some(number.into());
    c.colors = Some(vec!["R".into()]);
    c.cmc = Some(Cmc { bits: 1.0f32.to_bits() });
    c.image_small =
        Some(format!("https://cards.scryfall.io/small/front/a/b/ab{arena_id}.jpg?1"));
    c
}

fn some_cards() -> CardDb {
    let mut plains = printed(70003, "Plains", "common", "3");
    plains.type_line = Some("Basic Land — Plains".into());
    plains.colors = None;
    plains.image_small = None;
    CardDb::from_cards(vec![
        printed(70001, "Lightning Bolt", "uncommon", "162"),
        printed(70002, "Goldspan Dragon", "mythic", "139"),
        plains,
        base(70004, "Nameless"),
    ])
}

fn head(deck_id: &str, name: &str, tile: Option<i64>) -> DeckHead {
    DeckHead {
        deck_id: deck_id.into(),
        name: name.into(),
        format: Some("Standard".into()),
        origin: "personal".into(),
        last_updated: "now".into(),
        tile_card_id: tile,
    }
}

fn creation(name: &str, main: Vec<(u32, u32)>, text: Option<&str>) -> CreateDeckRequest {
    CreateDeckRequest {
        name: name.into(),
        format: None,
        mainboard: main,
        sideboard: vec![],
        text: text.map(String::from),
    }
}

fn bad(e: ApiError) -> String {
    assert_eq!(e.status(), 400);
    e.message()
}

// ---------------------------------------------------------------------------
// Images and other files
// ---------------------------------------------------------------------------

#[test]
fn upstream_for_card_image() {
    assert_eq!(
        upstream_url("cards/small/0000419b-0bba-4488-8f7a-6194544ce91e.jpg").as_deref(),
        Some("https://cards.scryfall.io/small/front/0/0/0000419b-0bba-4488-8f7a-6194544ce91e.jpg"),
    );
    assert_eq!(
        upstream_url("cards/normal/cb53a29d-2de2-4874-a6f3-0fecbfa14cf2.jpg").as_deref(),
        Some("https://cards.scryfall.io/normal/front/c/b/cb53a29d-2de2-4874-a6f3-0fecbfa14cf2.jpg"),
    );
}

#[test]
fn upstream_for_symbol() {
    assert_eq!(
        upstream_url("symbols/W.svg").as_deref(),
        Some("https://svgs.scryfall.io/card-symbols/W.svg"),
    );
    assert_eq!(
        upstream_url("symbols/2W.svg").as_deref(),
        Some("https://svgs.scryfall.io/card-symbols/2W.svg"),
    );
}

#[test]
fn upstream_rejects_unknown_prefix() {
    assert_eq!(upstream_url("nope/foo.jpg"), None);
    assert_eq!(upstream_url("cards/wat/foo.jpg"), None);
}

#[test]
fn safe_path_blocks_traversal() {
    assert!(safe_path("cards/small/abc.jpg"));
    assert!(!safe_path("../etc/passwd"));
    assert!(!safe_path("cards/../../etc"));
    assert!(!safe_path("/abs"));
    assert!(!safe_path(""));
}

#[test]
fn short_and_odd_image_names() {
    assert_eq!(upstream_url("cards/small/a.jpg"), None);
    assert_eq!(
        upstream_url("cards/small/ab.jpg").as_deref(),
        Some("https://cards.scryfall.io/small/front/a/b/ab.jpg")
    );
    assert_eq!(upstream_url("cards/small/é.jpg"), None);
    assert_eq!(upstream_url("cards/small/ébc.jpg"), None);
    assert_eq!(upstream_url("cards/small/aé.jpg"), None);
    assert_eq!(
        upstream_url("symbols/é.svg").as_deref(),
        Some("https://svgs.scryfall.io/card-symbols/é.svg")
    );
    assert!(matches!(image_reply("cards/small/é.jpg", None), AssetReply::Unknown));
    assert!(!safe_path("a//b"));
    assert!(!safe_path("a/"));
    assert!(safe_path("a/...b"));
}

#[test]
fn image_replies() {
    assert!(matches!(image_reply("../x", None), AssetReply::Invalid));
    match image_reply("symbols/W.svg", Some("/cache/assets/symbols/W.svg")) {
        AssetReply::File(kind) => assert_eq!(kind, "image/svg+xml"),
        _ => panic!("expected a file"),
    }
    match image_reply("symbols/W.svg", None) {
        AssetReply::Redirect(url) => {
            assert_eq!(url, "https://svgs.scryfall.io/card-symbols/W.svg")
        }
        _ => panic!("expected a redirect"),
    }
    assert!(matches!(image_reply("nope/x", None), AssetReply::Unknown));
    assert_eq!(image_reply("../x", None).status(), 400);
    assert_eq!(image_reply("symbols/W.svg", Some("/cache/W.svg")).status(), 200);
    assert_eq!(image_reply("symbols/W.svg", None).status(), 302);
    assert_eq!(image_reply("nope/x", None).status(), 404);
}

#[test]
fn files_of_the_interface() {
    assert_eq!(asset_name("/"), "index.html");
    assert_eq!(asset_name(""), "index.html");
    assert_eq!(asset_name("//app.js"), "app.js");
    match asset_reply("index.html", true) {
        AssetReply::File(kind) => assert_eq!(kind, "text/html"),
        _ => panic!("expected a file"),
    }
    match asset_reply("unknown.zzz", true) {
        AssetReply::File(kind) => assert_eq!(kind, "application/octet-stream"),
        _ => panic!("expected a file"),
    }
    assert!(matches!(asset_reply("index.html", false), AssetReply::Unknown));
}

#[test]
fn local_images_lead_back_to_their_source() {
    let url = "https://cards.scryfall.io/normal/front/c/b/cb53a29d.jpg";
    let local = mtga_sleuth::cards::rewrite_image_url(url);
    let path = local.strip_prefix("/cdn/").unwrap();
    assert!(safe_path(path));
    assert_eq!(upstream_url(path).as_deref(), Some(url));
}

// ---------------------------------------------------------------------------
// Pasted lists
// ---------------------------------------------------------------------------

#[test]
fn id_qty_fallback_with_sideboard_header() {
    let cards = CardDb::empty();
    // Falls back to id,qty rows so the test doesn't need real Scryfall data.
    let text = "Deck\n70000 4\n70001 2\n\nSideboard\n70002 3\n";
    let parsed = parse_arena_decklist(text, &cards);
    assert_eq!(parsed.matched_lines, 3);
    assert_eq!(parsed.unmatched_lines, 0);
    assert_eq!(parsed.entries, vec![(70000, 4, false), (70001, 2, false), (70002, 3, true)]);
}

#[test]
fn ignores_blank_and_comment_lines() {
    let cards = CardDb::empty();
    let text = "// header\n\n70000 1\n# comment\n";
    let parsed = parse_arena_decklist(text, &cards);
    assert_eq!(parsed.matched_lines, 1);
    assert_eq!(parsed.entries, vec![(70000, 1, false)]);
}

#[test]
fn commander_and_companion_reset_to_mainboard() {
    let cards = CardDb::empty();
    let text = "Sideboard\n70000 1\nCommander\n70001 1\n";
    let parsed = parse_arena_decklist(text, &cards);
    assert_eq!(parsed.entries, vec![(70000, 1, true), (70001, 1, false)]);
}

#[test]
fn printed_lines_are_found_by_set_and_number() {
    let cards = some_cards();
    let text = "4 Lightning Bolt (M21) 162\n  2x goldspan dragon (m21) 139 \n1 Who (XXX) 1\nnonsense";
    let parsed = parse_arena_decklist(text, &cards);
    assert_eq!(parsed.entries, vec![(70001, 4, false), (70002, 2, false)]);
    assert_eq!(parsed.unmatched_lines, 2);
    assert_eq!(parsed.unmatched_samples, vec!["1 Who (XXX) 1", "nonsense"]);
}

#[test]
fn lines_with_a_card_id() {
    let read = |line: &str| parse_arena_decklist(line, &CardDb::empty()).entries;
    for (line, id, qty) in [
        ("123 4", 123, 4),
        ("1234567,10", 1234567, 10),
        ("  12345 , ,\t4  ", 12345, 4),
        ("12345,,004", 12345, 4),
    ] {
        assert_eq!(read(line), vec![(id, qty, false)], "{line}");
    }
    for line in [
        "12,4", "12345678,4", "12345", "12345,", "12345 4x", "12345;4", "a12345 4", "12345 4 5",
        "123\u{664} 5", "12345 0", "000 5", ",123 4", "1 Lim-D\u{fb}l",
    ] {
        assert!(read(line).is_empty(), "{line}");
    }
}

#[test]
fn lines_with_a_printing() {
    let cards = some_cards();
    let read = |line: &str| parse_arena_decklist(line, &cards).entries;
    assert_eq!(read("4 Any (name) (M21) 162"), vec![(70001, 4, false)]);
    assert_eq!(read("4 \u{fb} (m21) 162"), vec![(70001, 4, false)]);
    for line in [
        "x Bolt (M21) 162", "4 Bolt M21 162", "4 Bolt (M21)162", "4 Bolt(M21) 162",
        "4 Bolt (M) 162", "4 Bolt (M21M21) 162", "4 Bolt (M21) 1 62", "(M21) 162",
    ] {
        assert!(read(line).is_empty(), "{line}");
    }
}

#[test]
fn at_most_ten_samples() {
    let text = "bad\n".repeat(12);
    let parsed = parse_arena_decklist(&text, &CardDb::empty());
    assert_eq!((parsed.unmatched_lines, parsed.unmatched_samples.len()), (12, 10));
}

#[test]
fn meanings_of_lines() {
    let cards = some_cards();
    assert_eq!(classify_line("", &None, &None, &cards), Line::Skip);
    assert_eq!(classify_line("# x", &None, &None, &cards), Line::Skip);
    assert_eq!(classify_line("DECK", &None, &None, &cards), Line::Main);
    assert_eq!(classify_line("Maybeboard", &None, &None, &cards), Line::Side);
    assert_eq!(classify_line("x", &None, &None, &cards), Line::Unmatched);
    let ids = Some(vec![None, Some("123".to_string()), Some("4".to_string())]);
    assert_eq!(classify_line("x", &None, &ids, &cards), Line::Entry(123, 4));
    let none = Some(vec![None, Some("123".to_string()), Some("0".to_string())]);
    assert_eq!(classify_line("x", &None, &none, &cards), Line::Unmatched);
}

#[test]
fn import_plans_add_up() {
    let cards = CardDb::empty();
    let parsed = parse_arena_decklist("70000 4\n70001 2\nSideboard\n70000 1\nbad", &cards);
    let (add, summary) = import_plan(parsed).unwrap();
    assert_eq!((add.get(&70000), add.get(&70001)), (Some(&5), Some(&2)));
    assert_eq!((summary.matched_lines, summary.unmatched_lines), (3, 1));
    assert_eq!((summary.unique_cards, summary.total_cards), (2, 7));
    assert_eq!(summary.unmatched_samples, vec!["bad"]);
    let parsed = parse_arena_decklist("70000 4294967295\n70001 1", &cards);
    assert!(import_plan(parsed).is_none());
}

// ---------------------------------------------------------------------------
// Wildcards
// ---------------------------------------------------------------------------

#[test]
fn basic_lands_are_free() {
    assert!(is_basic_land(Some("Basic Land — Plains")));
    assert!(!is_basic_land(Some("Land")));
    assert!(!is_basic_land(None));
}

#[test]
fn analysis_counts_what_is_missing() {
    let cards = some_cards();
    let rows = vec![(70001, 3, 0), (70001, 1, 1), (70002, 2, 0), (70003, 20, 0), (9, 1, 0)];
    let owned = owned_map(&vec![(70001, 1), (70002, 2)]);
    let a = analyze(&cards, &rows, &owned).unwrap();
    // Three of four bolts are missing, no dragon, no land, and one unknown card.
    assert_eq!((a.cost.common, a.cost.uncommon, a.cost.rare, a.cost.mythic), (0, 3, 0, 0));
    assert_eq!(a.total_missing, 4);
    assert_eq!(a.unique_missing, 2);
    assert_eq!((a.mainboard.len(), a.sideboard.len()), (4, 1));
    let missing: u32 =
        a.mainboard.iter().chain(a.sideboard.iter()).map(|e| e.missing).sum();
    assert_eq!(missing, 4);
    assert_eq!(a.mainboard[0].image_small.as_deref(), Some("/cdn/cards/small/ab70001.jpg"));
    assert_eq!(unique_ids(&rows), vec![70001, 70002, 70003, 9]);
}

#[test]
fn missing_copies_are_handed_out_in_proportion() {
    let shown = |rows: Vec<(i64, i64, i64)>, have: i64| -> (Vec<u32>, Vec<u32>, u32, u32) {
        let a = analyze(&CardDb::empty(), &rows, &owned_map(&vec![(100, have)])).unwrap();
        for e in a.mainboard.iter().chain(a.sideboard.iter()) {
            assert_eq!(e.owned + e.missing, e.quantity);
        }
        (
            a.mainboard.iter().map(|e| e.missing).collect(),
            a.sideboard.iter().map(|e| e.missing).collect(),
            a.total_missing,
            a.unique_missing,
        )
    };
    let both = vec![(100, 4, 0), (100, 2, 1)];
    assert_eq!(shown(both.clone(), 3), (vec![2], vec![1], 3, 1));
    assert_eq!(shown(both.clone(), 0), (vec![4], vec![2], 6, 1));
    assert_eq!(shown(both.clone(), 6), (vec![0], vec![0], 0, 0));
    // What is left over of a copy goes to the earlier row.
    assert_eq!(shown(both, 5), (vec![1], vec![0], 1, 1));
    assert_eq!(shown(vec![(100, 1, 1), (100, 1, 0)], 1), (vec![1], vec![0], 1, 1));
}

#[test]
fn pasted_decks_are_analyzed() {
    let cards = some_cards();
    let parsed = parse_arena_decklist("4 Lightning Bolt (M21) 162\nSideboard\n70002 1\nbad", &cards);
    let rows = pasted_rows(&parsed.entries);
    assert_eq!(rows, vec![(70001, 4, 0), (70002, 1, 1)]);
    let r = analyze_pasted(&cards, parsed, &HashMap::new()).unwrap();
    assert_eq!((r.wildcards_needed.uncommon, r.wildcards_needed.mythic), (4, 1));
    assert_eq!((r.matched_lines, r.unmatched_lines), (2, 1));
    assert_eq!(r.total_missing, 5);
}

#[test]
fn questions_for_owned_cards() {
    assert_eq!(
        owned_query(3),
        "SELECT card_id, quantity FROM collection WHERE card_id IN (?,?,?)"
    );
}

fn cost_row(deck_id: &str, card_id: i64, required: i64, owned: i64) -> CostRow {
    CostRow { deck_id: deck_id.into(), card_id, required, owned }
}

#[test]
fn costs_of_all_decks_agree_with_the_analysis() {
    let cards = some_cards();
    let rows = vec![
        cost_row("a", 70001, 4, 1),
        cost_row("b", 70002, 2, 2),
        cost_row("a", 70003, 20, 0),
        cost_row("a", 9, 1, 0),
    ];
    let costs = costs_for_all_decks(&rows, &cards).unwrap();
    assert_eq!(costs.len(), 2);
    let a = &costs.iter().find(|c| c.0 == "a").unwrap().1;
    let analysis = analyze(
        &cards,
        &vec![(70001, 4, 0), (70003, 20, 0), (9, 1, 0)],
        &owned_map(&vec![(70001, 1)]),
    )
    .unwrap();
    assert_eq!(a.total_missing, analysis.total_missing);
    assert_eq!(a.wildcards_needed.uncommon, analysis.cost.uncommon);
    assert_eq!(a.colors, vec!["R"]);
    assert_eq!(a.tile_fallback, Some(70001));
    let b = &costs.iter().find(|c| c.0 == "b").unwrap().1;
    assert_eq!((b.total_missing, b.tile_fallback), (0, Some(70002)));
    assert!(rank_of(&Some("mythic".into())) > rank_of(&Some("rare".into())));
    assert_eq!(rank_of(&None), 0);
}

// ---------------------------------------------------------------------------
// Decks
// ---------------------------------------------------------------------------

#[test]
fn pictures_of_decks() {
    let cards = some_cards();
    let bolt = Some("/cdn/cards/art_crop/ab70001.jpg".to_string());
    assert_eq!(resolve_tile_art(&cards, Some(70001), None), bolt);
    assert_eq!(resolve_tile_art(&cards, Some(70003), Some(70001)), bolt);
    assert_eq!(resolve_tile_art(&cards, None, Some(70001)), bolt);
    assert_eq!(resolve_tile_art(&cards, Some(5), None), None);
    let entries = vec![
        card_to_entry(&cards, 70001, 1),
        card_to_entry(&cards, 70002, 1),
        card_to_entry(&cards, 70003, 1),
    ];
    assert_eq!(fallback_tile(&entries), Some(70002));
    assert_eq!(fallback_tile(&vec![]), None);
}

#[test]
fn decks_in_the_list() {
    let cards = some_cards();
    let loc = LocDb::from_rows(vec![("N".into(), "Nice".into())]);
    let costs = costs_for_all_decks(&vec![cost_row("a", 70001, 4, 1)], &cards).unwrap();
    let rows = list_decks(
        &vec![head("a", "?=?Loc/N", None), head("b", "Plain", Some(70002))],
        &costs,
        &loc,
        &cards,
    );
    assert_eq!((rows[0].name.as_str(), rows[0].total_missing), ("Nice", 3));
    assert_eq!(rows[0].tile_art.as_deref(), Some("/cdn/cards/art_crop/ab70001.jpg"));
    assert_eq!((rows[1].name.as_str(), rows[1].total_missing), ("Plain", 0));
    assert!(rows[1].colors.is_empty());
    assert_eq!(rows[1].tile_art.as_deref(), Some("/cdn/cards/art_crop/ab70002.jpg"));
}

#[test]
fn one_deck_in_full() {
    let cards = some_cards();
    let loc = LocDb::empty();
    let rows = vec![(70001, 4, 0), (70002, 1, 1)];
    let analysis = analyze(&cards, &rows, &HashMap::new()).unwrap();
    let d = get_deck(Some(head("a", "A", None)), analysis, &loc, &cards).unwrap();
    assert_eq!((d.mainboard.len(), d.sideboard.len(), d.total_missing), (1, 1, 5));
    assert_eq!(d.tile_art.as_deref(), Some("/cdn/cards/art_crop/ab70001.jpg"));
    let analysis = analyze(&cards, &rows, &HashMap::new()).unwrap();
    let e = get_deck(None, analysis, &loc, &cards).unwrap_err();
    assert_eq!((e.status(), e.message().as_str()), (404, "not found"));
}

#[test]
fn exported_decks_read_back() {
    let cards = some_cards();
    let rows = vec![(70001, 4, 0), (12345, 2, 0), (70002, 1, 1), (70003, 3, 1)];
    let text = export_deck(true, &rows, &cards).unwrap();
    assert_eq!(
        text,
        "Deck\n4 Lightning Bolt (M21) 162\n12345,2\n\nSideboard\n1 Goldspan Dragon (M21) 139\n3 Plains (M21) 3\n"
    );
    let parsed = parse_arena_decklist(&text, &cards);
    assert_eq!(
        parsed.entries,
        vec![(70001, 4, false), (12345, 2, false), (70002, 1, true), (70003, 3, true)]
    );
    assert_eq!(parsed.unmatched_lines, 0);
    // A card without a printing goes by its name alone.
    assert_eq!(export_deck(true, &vec![(70004, 1, 0)], &cards).unwrap(), "Deck\n1 Nameless\n");
    assert_eq!(export_deck(true, &vec![], &cards).unwrap(), "Deck\n");
    assert!(matches!(export_deck(false, &vec![], &cards), Err(ApiError::NotFound)));
}

#[test]
fn new_decks() {
    let cards = some_cards();
    let d = new_deck(creation(" Brew ", vec![(1, 4)], None), &cards, Some(17)).unwrap();
    assert_eq!((d.deck_id.as_str(), d.name.as_str()), ("user-17", "Brew"));
    assert_eq!(d.mainboard, vec![(1, 4)]);
    let d = new_deck(creation("B", vec![(1, 4)], None), &cards, None).unwrap();
    assert_eq!(d.deck_id, "user-0");
    // A pasted list goes before the pairs.
    let req = creation("B", vec![(1, 4)], Some("70001 2\nSideboard\n70002 1"));
    let d = new_deck(req, &cards, Some(1)).unwrap();
    assert_eq!((d.mainboard, d.sideboard), (vec![(70001, 2)], vec![(70002, 1)]));

    let e = new_deck(creation("  ", vec![(1, 4)], None), &cards, None).unwrap_err();
    assert_eq!(bad(e), "name is required");
    let e = new_deck(creation("B", vec![], None), &cards, None).unwrap_err();
    assert_eq!(bad(e), "deck must contain at least one card");
    let e = new_deck(creation("B", vec![(1, 4)], Some("bad")), &cards, None).unwrap_err();
    assert_eq!(bad(e), "deck must contain at least one card");
}

#[test]
fn decks_made_now_can_be_edited_and_deleted() {
    let cards = some_cards();
    let d = create_deck(creation("B", vec![(1, 4)], None), &cards).unwrap();
    let nanos: i64 = d.deck_id.strip_prefix("user-").unwrap().parse().unwrap();
    assert!(nanos > 1_577_836_800_000_000_000);
    assert!(delete_deck(&d.deck_id).is_ok());
    let req = UpdateDeckRequest {
        name: " C ".into(),
        format: Some("F".into()),
        mainboard: vec![(2, 1), (1, 1), (2, 3)],
        sideboard: vec![],
    };
    let c = update_deck(&d.deck_id, true, req).unwrap().unwrap();
    assert_eq!((c.name.as_str(), c.format.as_deref()), ("C", Some("F")));
    assert_eq!((c.mainboard, c.sideboard), (vec![(1, 1), (2, 4)], vec![]));
}

fn change(name: &str, main: Vec<(u32, u32)>) -> UpdateDeckRequest {
    UpdateDeckRequest { name: name.into(), format: None, mainboard: main, sideboard: vec![] }
}

#[test]
fn refused_changes() {
    let e = update_deck("abc", false, change("B", vec![(1, 1)])).unwrap().unwrap_err();
    assert_eq!(bad(e), "only user-created decks can be edited; clone the deck first");
    let e = update_deck("user-1", false, change("", vec![(1, 1)])).unwrap().unwrap_err();
    assert_eq!(bad(e), "name is required");
    let e = update_deck("user-1", false, change("B", vec![])).unwrap().unwrap_err();
    assert_eq!(bad(e), "deck must contain at least one card");
    let e = update_deck("user-1", false, change("B", vec![(1, 1)])).unwrap().unwrap_err();
    assert!(matches!(e, ApiError::NotFound));
    let over = || change("B", vec![(1, u32::MAX), (1, 1)]);
    let e = update_deck("user-1", false, over()).unwrap().unwrap_err();
    assert!(matches!(e, ApiError::NotFound));
    assert!(update_deck("user-1", true, over()).is_none());
    assert_eq!(bad(delete_deck("abc").unwrap_err()), "only user-created decks can be deleted");
    assert_eq!(deleted(0).unwrap_err().status(), 404);
    assert!(deleted(1).is_ok());
}

// ---------------------------------------------------------------------------
// Records
// ---------------------------------------------------------------------------

fn stored_match(won: Option<i64>) -> StoredMatch {
    StoredMatch {
        match_id: "m".into(),
        started_at: "s".into(),
        ended_at: None,
        opponent_screen_name: Some("o".into()),
        event_name: None,
        won,
    }
}

#[test]
fn matches_as_they_are_shown() {
    let rows =
        list_matches(vec![stored_match(None), stored_match(Some(0)), stored_match(Some(1))]);
    let won: Vec<Option<bool>> = rows.iter().map(|m| m.won).collect();
    assert_eq!(won, vec![None, Some(false), Some(true)]);
    assert_eq!(get_match(Some(stored_match(Some(1)))).unwrap().match_id, "m");
    assert_eq!(get_match(None).unwrap_err().status(), 404);
}

#[test]
fn the_collection_as_it_is_shown() {
    let cards = some_cards();
    let list = collection(&vec![(70001, 3), (5, 1)], &cards);
    assert_eq!((list[0].arena_id, list[0].quantity), (70001, 3));
    assert_eq!(list[0].name, "Lightning Bolt");
    assert_eq!(list[0].colors, Some(vec!["R".to_string()]));
    assert_eq!(list[0].image_small.as_deref(), Some("/cdn/cards/small/ab70001.jpg"));
    assert_eq!(list[1].name, "Card #5");
    assert_eq!(list[1].set, None);
}

#[test]
fn drafts_as_they_are_shown() {
    let cards = some_cards();
    let picks = get_draft(
        &vec![
            StoredPick {
                pack_number: 1,
                pick_number: 2,
                picked_card_id: 70001,
                pack_card_ids: "[70001,70002,5]".into(),
            },
            StoredPick {
                pack_number: 1,
                pick_number: 3,
                picked_card_id: 5,
                pack_card_ids: "broken".into(),
            },
        ],
        &cards,
    );
    assert_eq!((picks[0].pack_number, picks[0].pick_number), (1, 2));
    assert_eq!(picks[0].picked.name, "Lightning Bolt");
    let names: Vec<&str> = picks[0].pack.iter().map(|e| e.name.as_str()).collect();
    assert_eq!(names, vec!["Lightning Bolt", "Goldspan Dragon", "Card #5"]);
    assert!(picks[1].pack.is_empty());
    assert_eq!(draft_row("d".into(), None, "s".into(), None, 14).picks, 14);
}

#[test]
fn lists_of_ids_read_back() {
    assert_eq!(stored_ids("[1,2,4294967295]"), vec![1, 2, u32::MAX]);
    assert_eq!(stored_ids("[]"), Vec::<u32>::new());
    assert_eq!(stored_ids("[1,-2]"), Vec::<u32>::new());
    assert_eq!(stored_ids(" [ 7 ] "), vec![7]);
}

#[test]
fn one_card() {
    let cards = some_cards();
    let c = get_card(&cards, 70001).unwrap();
    assert_eq!(c.name, "Lightning Bolt");
    assert_eq!(c.image_small.as_deref(), Some("/cdn/cards/small/ab70001.jpg"));
    assert_eq!(c.collector_number.as_deref(), Some("162"));
    assert_eq!(get_card(&cards, 1).unwrap_err().status(), 404);
}

#[test]
fn how_many_events() {
    assert_eq!(default_limit(), 100);
    for (asked, got) in [(0, 1), (-5, 1), (1, 1), (500, 500), (1000, 1000), (1001, 1000)] {
        assert_eq!(EventsQuery { limit: asked, kind: None }.clamped_limit(), got);
    }
}

// ---------------------------------------------------------------------------
// Search
// ---------------------------------------------------------------------------

fn find(cards: &CardDb, q: &str, limit: Option<usize>) -> Vec<u32> {
    search_cards(cards, &CardSearchQuery { q: q.into(), limit }).iter().map(|c| c.arena_id).collect()
}

#[test]
fn cards_by_name() {
    let cards = CardDb::from_cards(vec![
        base(1, "Lightning Bolt"),
        base(9, "Lightning Bolt"),
        base(2, "Bolt Bend"),
        base(3, "Thunderbolt"),
        base(4, "Boltwave"),
        base(5, "Éclair Bolt"),
        base(6, "Other"),
    ]);
    // Names that begin with it come first, then by name; of one name the newest.
    assert_eq!(find(&cards, " BOLT ", None), vec![2, 4, 9, 3, 5]);
    assert_eq!(find(&cards, "bolt", Some(2)), vec![2, 4]);
    assert_eq!(find(&cards, "bolt", Some(0)), Vec::<u32>::new());
    assert_eq!(find(&cards, "b", None), Vec::<u32>::new());
    // One character of two bytes is enough.
    assert_eq!(find(&cards, "É", None), vec![5]);
    assert_eq!(find(&cards, "zz", None), Vec::<u32>::new());
}

#[test]
fn at_most_fifty_cards() {
    let list: Vec<Card> = (0..120u32).map(|i| base(1000 - i, &format!("card {i:03}"))).collect();
    let cards = CardDb::from_cards(list);
    assert_eq!(find(&cards, "card", None).len(), 20);
    let all = find(&cards, "card", Some(500));
    assert_eq!(all.len(), 50);
    let expected: Vec<u32> = (0..50).map(|i| 1000 - i).collect();
    assert_eq!(all, expected);
}

#[test]
fn found_cards_as_they_are_shown() {
    let cards = some_cards();
    let r = search_result(cards.get(70001).unwrap(), 3);
    assert_eq!((r.arena_id, r.owned, r.name.as_str()), (70001, 3, "Lightning Bolt"));
    assert_eq!(r.image_small.as_deref(), Some("/cdn/cards/small/ab70001.jpg"));
    assert_eq!(r.set.as_deref(), Some("m21"));
}
