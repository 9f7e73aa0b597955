use mtga_sleuth::cards::{
    arena_cards, card_source, default_cards_uri, is_stale, rewrite_image_url,
    source_after_failure, BulkEntry, Card, CardDb, CardSource, ScryfallCard, ScryfallImageUris,
};
use mtga_sleuth::config::{
    data_candidates, fallback_data_paths, fallback_log_paths, join_path, log_candidates, Config,
    Surroundings,
};
use mtga_sleuth::localization::{locate_file, FileStamp, LocDb};
use mtga_sleuth::log_watcher::{tail_step, trim_line, ReadEvent, TailAction};
use mtga_sleuth::text;

fn db(pairs: &[(&str, &str)]) -> LocDb {
    LocDb::from_rows(pairs.iter().map(|(k, v)| (k.to_string(), v.to_string())).collect())
}

fn scryfall(arena_id: Option<u32>, name: &str) -> ScryfallCard {
    ScryfallCard {
        arena_id,
        name: name.into(),
        mana_cost: None,
        type_line: None,
        colors: None,
        rarity: None,
        set: Some("fdn".into()),
        collector_number: Some("12".into()),
        cmc: None,
        image_uris: Some(ScryfallImageUris { small: Some("s".into()), normal: None }),
        scryfall_uri: None,
        legalities: None,
        oracle_text: None,
        produced_mana: None,
        card_faces: None,
    }
}

fn stamp(name: &str, secs: u64, nanos: u32) -> FileStamp {
    FileStamp { name: name.into(), secs, nanos }
}

#[test]
fn translates_sentinel_prefixed_key() {
    let d = db(&[("Decks/Precon/Precon_EPPFDN_RG", "Path of Power")]);
    assert_eq!(d.translate("?=?Loc/Decks/Precon/Precon_EPPFDN_RG"), "Path of Power");
}

#[test]
fn passes_through_human_name() {
    let d = LocDb::empty();
    assert_eq!(d.translate("Simic Flash (Imp)"), "Simic Flash (Imp)");
}

#[test]
fn passes_through_unknown_key() {
    let d = LocDb::empty();
    assert_eq!(d.translate("?=?Loc/Some/Unknown/Thing"), "?=?Loc/Some/Unknown/Thing");
}

#[test]
fn only_keys_with_the_sentinel_are_translated() {
    let d = db(&[("k", "first"), ("k", "last"), ("", "empty")]);
    assert_eq!(d.translate("?=?Loc/k"), "last");
    assert_eq!(d.translate("k"), "k");
    assert_eq!(d.translate("?=?Loc/"), "empty");
    assert_eq!(d.translate("x?=?Loc/k"), "x?=?Loc/k");
}

#[test]
fn newest_text_file() {
    let files = vec![
        stamp("Raw_ClientLocalization_a.mtga", 5, 0),
        stamp("Raw_ClientLocalization_b.mtga", 5, 7),
        stamp("Raw_CardDatabase_c.mtga", 9, 0),
        stamp("Raw_ClientLocalization_d.txt", 9, 0),
        stamp("Raw_ClientLocalization_e.mtga", 4, 9),
    ];
    assert_eq!(locate_file(&files), Some(1));
    assert_eq!(locate_file(&vec![]), None);
    assert_eq!(locate_file(&vec![stamp("x", 1, 1)]), None);
}

#[test]
fn places_below_the_home_directory() {
    assert_eq!(join_path("/home/u", "a/b"), "/home/u/a/b");
    assert_eq!(join_path("/home/u/", "a"), "/home/u/a");
    assert_eq!(join_path("", "a"), "a");
    assert_eq!(fallback_log_paths("/h").len(), 3);
    assert_eq!(fallback_data_paths("/h").len(), 4);
    assert!(fallback_log_paths("/h")[0].starts_with("/h/.steam/steam/steamapps/compatdata/2141910/"));
    assert_eq!(log_candidates("/h").len(), 4);
    assert_eq!(data_candidates("/h").len(), 5);
    assert!(log_candidates("/h")[0].starts_with("/h/snap/steam/common/"));
}

#[test]
fn configuration() {
    let around = Surroundings {
        home: "/h".into(),
        data_dir: "/d".into(),
        cache_dir: "/c".into(),
        log_exists: vec![false, false, true, true],
        data_exists: vec![false; 5],
    };
    let c = Config::resolve(None, None, None, &around);
    assert_eq!(c.log_path, log_candidates("/h")[2]);
    assert_eq!(c.mtga_data_dir, data_candidates("/h")[0]);
    assert_eq!(c.db_path, "/d/tracker.sqlite");
    assert_eq!(c.card_cache_path, "/c/scryfall-arena-v2.json");
    assert_eq!(c.assets_dir, "/c/assets");
    let c = Config::resolve(Some("l".into()), Some("b".into()), Some("m".into()), &around);
    assert_eq!((c.log_path.as_str(), c.db_path.as_str(), c.mtga_data_dir.as_str()), ("l", "b", "m"));
}

#[test]
fn following_the_log() {
    assert_eq!(trim_line("abc\r\n"), "abc");
    assert_eq!(trim_line("abc"), "abc");
    assert_eq!(trim_line("\n\r\n"), "");
    let (p, a) = tail_step(10, ReadEvent::Line { text: "x\n".into(), bytes: 2 });
    assert_eq!(p, 12);
    assert!(matches!(a, TailAction::Send(s) if s == "x"));
    assert!(matches!(tail_step(10, ReadEvent::End { len: Some(10) }), (10, TailAction::Wait)));
    assert!(matches!(tail_step(10, ReadEvent::End { len: Some(9) }), (_, TailAction::Reopen)));
    assert!(matches!(tail_step(10, ReadEvent::End { len: None }), (_, TailAction::Reopen)));
}

#[test]
fn only_whole_lines_are_sent() {
    let mut position: u64 = 0;
    let mut sent: Vec<String> = Vec::new();
    let mut gone = false;
    for event in [
        ReadEvent::Line { text: "a\r\n".into(), bytes: 3 },
        ReadEvent::Line { text: "b".into(), bytes: 1 },
        ReadEvent::End { len: None },
    ] {
        let (next, action) = tail_step(position, event);
        position = next;
        match action {
            TailAction::Send(line) => sent.push(line),
            TailAction::Hold => assert_eq!(position, 3),
            TailAction::Wait => panic!("the file is gone"),
            TailAction::Reopen => gone = true,
        }
    }
    assert_eq!(sent, vec!["a".to_string()]);
    assert!(gone);

    // The rest of the line comes: it is sent once, whole.
    let (p, a) = tail_step(3, ReadEvent::Line { text: "bc\n".into(), bytes: 3 });
    assert_eq!(p, 6);
    assert!(matches!(a, TailAction::Send(s) if s == "bc"));
    assert!(matches!(
        tail_step(7, ReadEvent::Line { text: "x\r".into(), bytes: 2 }),
        (7, TailAction::Hold)
    ));
}

#[test]
fn bulk_data() {
    let index = vec![
        BulkEntry { bulk_type: "oracle_cards".into(), download_uri: "u1".into() },
        BulkEntry { bulk_type: "default_cards".into(), download_uri: "u2".into() },
    ];
    assert_eq!(default_cards_uri(&index).as_deref(), Some("u2"));
    assert_eq!(default_cards_uri(&vec![]), None);

    let cards: Vec<Card> =
        arena_cards(vec![scryfall(None, "Paper"), scryfall(Some(5), "A"), scryfall(Some(6), "B")]);
    assert_eq!(cards.len(), 2);
    assert_eq!((cards[0].arena_id, cards[0].name.as_str()), (5, "A"));
    assert_eq!(cards[0].image_small.as_deref(), Some("s"));
    assert_eq!(cards[0].image_normal, None);

    let cards = CardDb::from_cards(cards);
    assert_eq!(cards.get(6).unwrap().name, "B");
    assert!(cards.get(7).is_none());
    assert_eq!(cards.iter().len(), 2);
    // Of two cards with one printing the one with the larger id is found.
    assert_eq!(cards.lookup_set_num("FDN", "12"), Some(6));
    assert_eq!(cards.lookup_set_num("fdn", "13"), None);
    assert!(CardDb::empty().get(1).is_none());
}

#[test]
fn later_cards_take_the_place_of_earlier_ones() {
    let cards = arena_cards(vec![scryfall(Some(5), "old"), scryfall(Some(5), "new")]);
    let mut db = CardDb::from_cards(cards);
    assert_eq!(db.iter().len(), 1);
    assert_eq!(db.get(5).unwrap().name, "new");
    for c in arena_cards(vec![scryfall(Some(9), "more")]) {
        db.insert(c);
    }
    assert_eq!(db.get(9).unwrap().name, "more");
}

#[test]
fn caches_last_a_week() {
    let week = 7 * 24 * 3600;
    assert!(!is_stale(week, 0));
    assert!(is_stale(week, 1));
    assert!(is_stale(week + 1, 0));
    assert!(!is_stale(0, 999_999_999));
    assert_eq!(card_source(Some((5, 0)), false), CardSource::Cache);
    assert_eq!(card_source(Some((week + 1, 0)), false), CardSource::Fetch);
    assert_eq!(card_source(None, true), CardSource::Empty);
    assert_eq!(source_after_failure(true), CardSource::Cache);
    assert_eq!(source_after_failure(false), CardSource::Empty);
}

#[test]
fn image_addresses_become_local() {
    assert_eq!(
        rewrite_image_url("https://cards.scryfall.io/small/front/0/0/0000419b.jpg?1562"),
        "/cdn/cards/small/0000419b.jpg"
    );
    assert_eq!(rewrite_image_url("https://example.com/a.jpg"), "https://example.com/a.jpg");
}

#[test]
fn texts_agree_with_std() {
    for s in ["", "a", " a b ", "\u{a0}x\u{3000}", "a\r\nb\n\nc", "x\n", "\r\n", "ab,c,,d"] {
        assert_eq!(text::trim(s), s.trim());
        assert_eq!(text::trim_start(s), s.trim_start());
        let lines: Vec<String> = text::lines_of(&s.chars().collect())
            .iter()
            .map(|l| l.iter().collect())
            .collect();
        let expected: Vec<String> = s.lines().map(String::from).collect();
        assert_eq!(lines, expected);
        let parts: Vec<String> = text::split_at_char(&s.chars().collect(), ',')
            .iter()
            .map(|l| l.iter().collect())
            .collect();
        let expected: Vec<String> = s.split(',').map(String::from).collect();
        assert_eq!(parts, expected);
        assert_eq!(text::replace(s, "a", "<>"), s.replace("a", "<>"));
        for t in ["", "a", "b", " ", "ab"] {
            assert_eq!(text::has(s, t), s.contains(t));
            assert_eq!(text::has_prefix(s, t), s.starts_with(t));
            assert_eq!(text::has_suffix(s, t), s.ends_with(t));
            assert_eq!(text::less(s, t), s < t);
            assert_eq!(text::same(s, t), s == t);
        }
    }
    for s in ["0", "007", "+5", "-5", "", "+", "4294967295", "4294967296", "1a"] {
        assert_eq!(text::parse_number(&s.chars().collect(), u32::MAX), s.parse::<u32>().ok());
    }
    for n in [0i64, 9, 10, -1, i64::MIN, i64::MAX] {
        let mut out = String::from("n=");
        text::push_decimal_int(&mut out, n);
        assert_eq!(out, format!("n={n}"));
    }
    for c in ['a', ' ', '\u{85}', '\u{2003}', '\u{200b}', '\t', '\u{1f}'] {
        assert_eq!(text::white(c), c.is_whitespace());
    }
    let low: String = text::to_ascii_lower("AbÇ").iter().collect();
    assert_eq!(low, "abÇ");
}

#[test]
fn splitting_and_joining_gives_the_text_back() {
    let s = "a/b//c/";
    let parts: Vec<String> = text::split_at_char(&s.chars().collect(), '/')
        .iter()
        .map(|l| l.iter().collect())
        .collect();
    assert_eq!(text::join(&parts, "/"), s);
}
