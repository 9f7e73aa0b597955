use mtga_sleuth::parser::extract::{
    header_from_arrow, header_from_flow, header_from_marker, parse_header, Accumulator,
};
use mtga_sleuth::parser::scan::scan_json;
use mtga_sleuth::parser::{Direction, ParsedEvent};

fn collect(lines: &[&str]) -> Vec<ParsedEvent> {
    let mut acc = Accumulator::new();
    let mut out = Vec::new();
    for l in lines {
        assert!(acc.accepts(l));
        out.extend(acc.feed((*l).to_string()));
    }
    out
}

#[test]
fn parses_request_with_multi_line_body() {
    let events = collect(&[
        "[UnityCrossThreadLogger]==> Deck.GetDeckListsV3(42)",
        "{",
        "  \"playerId\": \"abc\",",
        "  \"decks\": [1, 2, 3]",
        "}",
    ]);
    assert_eq!(events.len(), 1);
    assert_eq!(events[0].kind, "Deck.GetDeckListsV3");
    assert_eq!(events[0].direction, Direction::Request);
    assert_eq!(events[0].payload["playerId"], "abc");
}

#[test]
fn parses_response_with_inline_body() {
    let events = collect(&[
        "[UnityCrossThreadLogger]<== Inventory.Updated {\"gold\": 1234, \"gems\": 0}",
    ]);
    assert_eq!(events.len(), 1);
    assert_eq!(events[0].kind, "Inventory.Updated");
    assert_eq!(events[0].direction, Direction::Response);
    assert_eq!(events[0].payload["gold"], 1234);
}

#[test]
fn parses_gre_to_client_marker() {
    let events = collect(&[
        "[UnityCrossThreadLogger]GRE to Client:",
        "{",
        "  \"greToClientEvent\": {\"greToClientMessages\": []}",
        "}",
    ]);
    assert_eq!(events.len(), 1);
    assert_eq!(events[0].kind, "GreToClientEvent");
    assert_eq!(events[0].direction, Direction::Note);
}

#[test]
fn ignores_unrelated_lines() {
    let events = collect(&[
        "Mono path[0] = '...'",
        "[Accounts - Login] something",
        "[TaskLogger]Doorbell response: {}",
    ]);
    assert!(events.is_empty());
}

#[test]
fn recovers_after_aborted_event() {
    let events = collect(&[
        "[UnityCrossThreadLogger]==> Event.Foo(1)",
        "Mono path[0] = ...", // body never came
        "[UnityCrossThreadLogger]<== Event.Bar {\"ok\": true}",
    ]);
    assert_eq!(events.len(), 1);
    assert_eq!(events[0].kind, "Event.Bar");
}

#[test]
fn handles_braces_in_strings() {
    let events = collect(&[
        "[UnityCrossThreadLogger]<== T {\"s\": \"contains } and { braces\"}",
    ]);
    assert_eq!(events.len(), 1);
    assert_eq!(events[0].payload["s"], "contains } and { braces");
}

#[test]
fn parses_modern_camelcase_response_with_uuid() {
    let events = collect(&[
        "[UnityCrossThreadLogger]5/11/2026 4:56:02 PM: <== DeckUpsertDeckV3(0fa6c67a-09ba-435e-bc58-e12567c213fd)",
        "{",
        "  \"id\": \"deck-1\",",
        "  \"name\": \"Mono Red\"",
        "}",
    ]);
    assert_eq!(events.len(), 1);
    assert_eq!(events[0].kind, "DeckUpsertDeckV3");
    assert_eq!(events[0].direction, Direction::Response);
    assert_eq!(events[0].payload["name"], "Mono Red");
}

#[test]
fn parses_match_to_player_marker() {
    let events = collect(&[
        "[UnityCrossThreadLogger]5/11/2026 4:58:15 PM: Match to I53ZEAJSORASVMQYSTBPI35BUA: GreToClientEvent",
        "{",
        "  \"greToClientEvent\": {\"greToClientMessages\": []}",
        "}",
    ]);
    assert_eq!(events.len(), 1);
    assert_eq!(events[0].kind, "GreToClientEvent");
    assert_eq!(events[0].direction, Direction::Note);
}

#[test]
fn parses_player_to_match_marker() {
    let events = collect(&[
        "[UnityCrossThreadLogger]5/11/2026 4:59:00 PM: I53ZEAJSORASVMQYSTBPI35BUA to Match: ClientToGremessage",
        "{\"type\": \"action\"}",
    ]);
    assert_eq!(events.len(), 1);
    assert_eq!(events[0].kind, "ClientToGremessage");
}

#[test]
fn parses_bare_response_after_timestamp_preamble() {
    // Modern response framing: a [UCT]<timestamp> line, then a bare `<==`
    // line on its own (no [UnityCrossThreadLogger] prefix), then JSON.
    let events = collect(&[
        "[UnityCrossThreadLogger]5/11/2026 5:11:38 PM",
        "<== DeckGetAllPreconDecksV3(e09f134f-377c-42f6-a7f6-d72d31d20d0b)",
        "{\"CacheVersion\": 555, \"PreconDecks\": []}",
    ]);
    assert_eq!(events.len(), 1);
    assert_eq!(events[0].kind, "DeckGetAllPreconDecksV3");
    assert_eq!(events[0].direction, Direction::Response);
    assert_eq!(events[0].payload["CacheVersion"], 555);
}

#[test]
fn timestamp_prefix_doesnt_break_arrow_match() {
    let events = collect(&[
        "[UnityCrossThreadLogger]5/11/2026 4:56:02 PM: ==> RankGetCombinedRankInfo {\"x\":1}",
    ]);
    assert_eq!(events.len(), 1);
    assert_eq!(events[0].kind, "RankGetCombinedRankInfo");
    assert_eq!(events[0].direction, Direction::Request);
}

#[test]
fn events_carry_the_time_of_the_clock() {
    let events = collect(&["[UnityCrossThreadLogger]<== A {\"ok\": true}"]);
    // Some time after 2020, with a fraction below a second (or a leap second).
    assert!(events[0].timestamp.secs > 1_577_836_800);
    assert!(events[0].timestamp.nanos < 2_000_000_000);
}

#[test]
fn two_events_in_a_row() {
    let events = collect(&[
        "[UnityCrossThreadLogger]==> First {\"a\": [1, {\"b\": 2}]}",
        "",
        "[UnityCrossThreadLogger]<== Second(7)",
        "",
        "{\"c\": [1,",
        "",
        "2]}",
    ]);
    assert_eq!(events.len(), 2);
    assert_eq!(events[0].kind, "First");
    assert_eq!(events[0].payload["a"][1]["b"], 2);
    assert_eq!(events[1].kind, "Second");
    assert_eq!(events[1].payload["c"][1], 2);
}

#[test]
fn body_that_is_no_json_is_dropped() {
    let events = collect(&[
        "[UnityCrossThreadLogger]<== Bad {not json}",
        "[UnityCrossThreadLogger]<== Good {\"ok\": true}",
    ]);
    assert_eq!(events.len(), 1);
    assert_eq!(events[0].kind, "Good");
}

#[test]
fn headers_give_kind_direction_and_tail() {
    let h = parse_header("[UnityCrossThreadLogger]==> Rank.Get {\"x\": 1}").unwrap();
    assert_eq!(h.kind, "Rank.Get");
    assert_eq!(h.direction, Direction::Request);
    assert_eq!(h.tail.as_deref(), Some("{\"x\": 1}"));

    let h = parse_header("[UnityCrossThreadLogger]<== Rank.Get(5)").unwrap();
    assert_eq!(h.direction, Direction::Response);
    assert_eq!(h.tail, None);

    assert!(parse_header("nothing of note").is_none());
    assert!(parse_header("").is_none());
}

fn header(line: &str) -> Option<(String, Direction, Option<String>)> {
    parse_header(line).map(|h| (h.kind, h.direction, h.tail))
}

#[test]
fn prefixes_change_nothing() {
    let messages = [
        "==> Deck.GetDeckListsV3(42) {\"a\": 1}",
        "<== Inventory.Updated",
        "Match to ABC_1: GreToClientEvent {\"x\": 1}",
        "1ABC to Match: ClientToGreUIMessage",
        "GRE to Client: {\"y\": 2}",
        "nothing of note",
        "  ==> Spaced {}",
        "\u{665}/11 is no time",
        "\u{665} ==> A {}",
        "",
    ];
    for s in messages {
        let plain = header(s);
        for prefix in [
            "[UnityCrossThreadLogger]",
            "[Client GRE]",
            "[UnityCrossThreadLogger]5/11/2026 4:56:02 PM: ",
            "[Client GRE]12/31/2026 14:56:02:",
            "[UnityCrossThreadLogger] 5/1/2026 4:56:02 AM:\t ",
            "5/11/2026 4:56:02 PM: ",
            " \u{a0}",
        ] {
            assert_eq!(header(&format!("{prefix}{s}")), plain, "{prefix}{s}");
        }
    }
}

#[test]
fn what_is_no_time_stays() {
    assert!(header("5/11/2026 4:56:02 XM: ==> A {}").is_none());
    assert!(header("123/1/2026 4:56:02: ==> A {}").is_none());
    assert!(header("5/11/26 4:56:02: ==> A {}").is_none());
    assert!(header("5/11/2026 4:56:2: ==> A {}").is_none());
    assert!(header("5/11/2026  4:56:02: ==> A {}").is_none());
    assert!(header("5/11/2026 4:56:02 ==> A {}").is_none());
    assert!(header("[Client GRE][UnityCrossThreadLogger]==> A {}").is_none());
}

#[test]
fn parts_of_arrow_lines() {
    let request = |kind: &str, tail: Option<&str>| {
        Some((kind.to_string(), Direction::Request, tail.map(str::to_string)))
    };
    assert_eq!(header("==> A"), request("A", None));
    assert_eq!(header("==> A.b_9  "), request("A.b_9", None));
    assert_eq!(header("==>\u{a0}\tA{\"x\""), request("A", Some("{\"x\"")));
    assert_eq!(header("==> A(1, (2) {}"), request("A", Some("{}")));
    assert_eq!(header("==> A() {"), request("A", Some("{")));
    for line in [
        "==>A", "==> ", "==> A(", "==> A(1", "==> A)", "==> A-b", "==> A b", "==> A() x", "==> Aé",
        "==> A {\n}", "==> A (1) {}", "=> A", "x ==> A",
    ] {
        assert!(header(line).is_none(), "{line}");
    }
}

#[test]
fn parts_of_match_lines() {
    let note = |kind: &str, tail: Option<&str>| {
        Some((kind.to_string(), Direction::Note, tail.map(str::to_string)))
    };
    assert_eq!(header("Match to 1A_: Kind_1 {"), note("Kind_1", Some("{")));
    assert_eq!(header("A to Match: K"), note("K", None));
    assert_eq!(header("A to Match:  K{}"), note("K", Some("{}")));
    for line in [
        "Match to : K", "Match to a: K", " to Match: K", "A to Match K", "A to Match:K",
        "A to Match: 1K", "A to Match: _K", "A to Match: K.b", "A to  Match: K", "A to Match: K x",
        "Ab to Match: K",
    ] {
        assert!(header(line).is_none(), "{line}");
    }
    assert_eq!(header("GRE to Client to Match: K").unwrap().0, "GreToClientEvent");
}

#[test]
fn headers_from_groups() {
    let groups = vec![
        Some("==> A {".to_string()),
        Some("==>".to_string()),
        Some("A".to_string()),
        Some("{".to_string()),
    ];
    let h = header_from_arrow(&groups).unwrap();
    assert_eq!((h.kind.as_str(), h.tail.as_deref()), ("A", Some("{")));
    assert_eq!(h.direction, Direction::Request);

    let groups = vec![Some("x".to_string()), Some("GreToClientEvent".to_string()), None];
    let h = header_from_flow(&groups).unwrap();
    assert_eq!((h.kind.as_str(), h.tail), ("GreToClientEvent", None));
    assert_eq!(h.direction, Direction::Note);

    assert!(header_from_marker("something else").is_none());
}

#[test]
fn scanning_in_parts_is_scanning_at_once() {
    let text = "{\"a\": \"}\\\"\", \"b\": [1, 2]}";
    let mut whole = (0i32, false, false, String::new(), false);
    let done = scan_json(
        text,
        &mut whole.0,
        &mut whole.1,
        &mut whole.2,
        &mut whole.3,
        &mut whole.4,
    );
    assert!(done);
    assert_eq!(whole.3.trim_end(), text);

    for cut in 1..text.len() - 1 {
        let mut part = (0i32, false, false, String::new(), false);
        let first = scan_json(
            &text[..cut],
            &mut part.0,
            &mut part.1,
            &mut part.2,
            &mut part.3,
            &mut part.4,
        );
        assert!(!first);
        let second = scan_json(
            &text[cut..],
            &mut part.0,
            &mut part.1,
            &mut part.2,
            &mut part.3,
            &mut part.4,
        );
        assert!(second);
        assert_eq!(part.0, 0);
    }
}
