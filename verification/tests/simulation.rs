use mtga_sleuth::cards::{Card, CardDb, CardFace, Cmc};
use mtga_sleuth::sim::compile::{is_land_type, CardKind, CompiledDeck, SimCard};
use mtga_sleuth::sim::deal::{
    count_lands, deal, is_land, is_playable, keep_decision, opening_hand, pick_smoother,
};
use mtga_sleuth::sim::engine::run;
use mtga_sleuth::sim::game::{curve_values, play_game};
use mtga_sleuth::sim::mana::{
    add_clause_mask, basic_types_mask, can_pay, land_produces, parse_mana_cost,
    produced_list_mask, ColorMask, ParsedCost,
};
use mtga_sleuth::sim::rng::SimRng;
use mtga_sleuth::sim::sorting::sort_positions;
use mtga_sleuth::sim::{compile_deck, simulate, Rate, SimParams};
use mtga_sleuth::web::api::ApiError;
use mtga_sleuth::web::simulate::{
    entries_of, params_for, simulate_deck, simulate_rows, size_of_deck, SimulateRequest,
};
use rand::rngs::StdRng;
use rand::seq::SliceRandom;
use rand::SeedableRng;

const W: ColorMask = ColorMask(1);
const U: ColorMask = ColorMask(2);
const B: ColorMask = ColorMask(4);
const R: ColorMask = ColorMask(8);
const G: ColorMask = ColorMask(16);
const C: ColorMask = ColorMask(32);
const WU: ColorMask = ColorMask(3);

fn cmc(value: f32) -> Option<Cmc> {
    Some(Cmc { bits: value.to_bits() })
}

fn share(r: Rate) -> f64 {
    r.hits as f64 / r.of as f64
}

fn base(arena_id: u32, name: &str) -> Card {
    Card {
        arena_id,
        name: name.into(),
        mana_cost: None,
        type_line: None,
        colors: None,
        rarity: None,
        set: None,
        collector_number: None,
        cmc: None,
        image_small: None,
        image_normal: None,
        scryfall_uri: None,
        legalities: None,
        oracle_text: None,
        produced_mana: None,
        card_faces: None,
    }
}

fn spell(arena_id: u32, name: &str, mana_cost: &str, value: f32) -> Card {
    let mut c = base(arena_id, name);
    c.mana_cost = Some(mana_cost.into());
    c.type_line = Some("Instant".into());
    c.cmc = cmc(value);
    c
}

fn land(arena_id: u32, name: &str, produced: &[&str]) -> Card {
    let mut c = base(arena_id, name);
    c.type_line = Some("Land".into());
    c.produced_mana = Some(produced.iter().map(|s| s.to_string()).collect());
    c
}

fn card(type_line: Option<&str>, oracle: Option<&str>, produced: Option<&[&str]>) -> Card {
    let mut c = base(1, "t");
    c.type_line = type_line.map(String::from);
    c.oracle_text = oracle.map(String::from);
    c.produced_mana = produced.map(|p| p.iter().map(|s| s.to_string()).collect());
    c
}

fn white_deck() -> CardDb {
    let mut plains = base(1, "Plains");
    plains.type_line = Some("Basic Land — Plains".into());
    let mut savannah_lion = base(2, "Savannah Lions");
    savannah_lion.mana_cost = Some("{W}".into());
    savannah_lion.type_line = Some("Creature — Cat".into());
    savannah_lion.cmc = cmc(1.0);
    CardDb::from_cards(vec![plains, savannah_lion])
}

fn params(iterations: u32, smoothing: bool, seed: Option<u64>) -> SimParams {
    SimParams { iterations, on_play: true, bo1_smoothing: smoothing, seed, turns: 10 }
}

// Small n only: no need for logarithms.
fn binom(n: u64, k: u64) -> f64 {
    if k > n {
        return 0.0;
    }
    let mut r = 1.0f64;
    for i in 0..k {
        r *= (n - i) as f64 / (i + 1) as f64;
    }
    r
}

// ---------------------------------------------------------------------------
// Mana
// ---------------------------------------------------------------------------

#[test]
fn parses_simple_costs() {
    let (c, w) = parse_mana_cost("{1}{W}{W}", cmc(3.0));
    assert!(w.is_empty());
    assert_eq!(c.generic, 1);
    assert_eq!(c.pips, vec![W, W]);
    assert_eq!(c.mana_value, 3);
    assert_eq!(c.lands_needed(), 3);
}

#[test]
fn x_counts_as_zero_but_cmc_wins_for_mana_value() {
    let (c, _) = parse_mana_cost("{X}{R}{R}", cmc(2.0));
    assert_eq!(c.generic, 0);
    assert_eq!(c.pips, vec![R, R]);
    assert_eq!(c.mana_value, 2);
}

#[test]
fn hybrid_phyrexian_and_two_brid() {
    let (c, _) = parse_mana_cost("{W/B}", cmc(1.0));
    assert_eq!(c.pips, vec![ColorMask(1 | 4)]);

    let (c, _) = parse_mana_cost("{G/P}{G/P}", cmc(2.0));
    assert!(c.pips.is_empty()); // phyrexian = payable with life
    assert_eq!(c.generic, 0);
    assert_eq!(c.mana_value, 2); // cmc still authoritative

    let (c, _) = parse_mana_cost("{2/W}", cmc(3.0));
    assert_eq!(c.generic, 2);
    assert!(c.pips.is_empty());
    assert_eq!(c.lands_needed(), 2); // pays for 2 even though mv is 3
}

#[test]
fn empty_and_unknown_symbols() {
    let (c, w) = parse_mana_cost("", None);
    assert_eq!(c.generic, 0);
    assert!(c.pips.is_empty());
    assert_eq!(c.mana_value, 0);
    assert!(w.is_empty());

    let (_, w) = parse_mana_cost("{T}", None);
    assert_eq!(w.len(), 1);
}

#[test]
fn land_produces_prefers_produced_mana() {
    let c = card(Some("Land — Forest"), None, Some(&["B", "G"]));
    assert_eq!(land_produces(&c), B.union(G));
}

#[test]
fn land_produces_falls_back_to_basic_types_then_oracle() {
    let c = card(Some("Basic Land — Forest"), None, None);
    assert_eq!(land_produces(&c), G);

    let c = card(Some("Land"), Some("{T}: Add {W} or {U}."), None);
    assert_eq!(land_produces(&c), WU);

    let c = card(Some("Land"), Some("{T}: Add {C}."), None);
    assert_eq!(land_produces(&c), C);

    let c = card(Some("Land"), Some("Draw a card."), None);
    assert!(land_produces(&c).is_empty());
}

#[test]
fn can_pay_needs_matching_not_greedy() {
    // Greedy assigning the dual to the W pip would strand the U pip.
    let (cost, _) = parse_mana_cost("{W}{U}", cmc(2.0));
    assert!(can_pay(&cost, &[WU, W]));
    assert!(!can_pay(&cost, &[W, W]));
}

#[test]
fn can_pay_generic_and_shortfalls() {
    let (cost, _) = parse_mana_cost("{2}{W}{W}", cmc(4.0));
    assert!(can_pay(&cost, &[W, W, C, G]));
    assert!(!can_pay(&cost, &[W, C, C, G])); // only one W source
    assert!(!can_pay(&cost, &[W, W, C])); // generic shortfall
    let (free, _) = parse_mana_cost("", cmc(0.0));
    assert!(can_pay(&free, &[]));
}

#[test]
fn masks_by_symbol() {
    assert_eq!(ColorMask::from_symbol("W"), Some(W));
    assert_eq!(ColorMask::from_symbol("U"), Some(U));
    assert_eq!(ColorMask::from_symbol("C"), Some(C));
    assert_eq!(ColorMask::from_symbol("X"), None);
    assert_eq!(ColorMask::from_symbol(""), None);
    assert_eq!(W.union(U), WU);
    assert!(WU.intersects(W));
    assert!(!WU.intersects(R));
    assert_eq!(WU.color_count(), 2);
    assert!(ColorMask(0).is_empty());
    assert!(!C.is_empty());
}

#[test]
fn masks_from_card_text() {
    assert_eq!(produced_list_mask(&Some(vec!["W".into(), "U".into()])), WU);
    assert!(produced_list_mask(&None).is_empty());
    assert_eq!(basic_types_mask("Land — Plains Island"), WU);
    assert!(basic_types_mask("Creature").is_empty());
    assert_eq!(add_clause_mask("{T}: Add {R} or {G}."), R.union(G));
    assert!(add_clause_mask("{R}: Draw a card.").is_empty());
}

#[test]
fn mana_value_is_rounded_to_a_byte() {
    assert_eq!(Cmc { bits: 2.5f32.to_bits() }.rounded(), Some(3));
    assert_eq!(Cmc { bits: 2.49f32.to_bits() }.rounded(), Some(2));
    assert_eq!(Cmc { bits: 1_000_000.0f32.to_bits() }.rounded(), Some(255));
    assert_eq!(Cmc { bits: 0.0f32.to_bits() }.rounded(), Some(0));
    assert_eq!(Cmc { bits: f32::INFINITY.to_bits() }.rounded(), Some(255));
    assert_eq!(Cmc { bits: f32::NAN.to_bits() }.rounded(), None);
    assert_eq!(Cmc { bits: (-1.0f32).to_bits() }.rounded(), None);
    for n in 0..=254u32 {
        assert_eq!(Cmc { bits: (n as f32).to_bits() }.rounded(), Some(n as u8));
    }
}

#[test]
fn lands_needed_is_the_least_that_pays() {
    for text in ["{2}{W}{U}", "{W/U}{W/U}", "{4}", "", "{X}{R}", "{2/W}{B}"] {
        for value in [None, cmc(0.0), cmc(9.0)] {
            let (cost, _) = parse_mana_cost(text, value);
            let (same, _) = parse_mana_cost(text, None);
            assert_eq!(cost.lands_needed(), same.lands_needed());
            for n in 0..8usize {
                let lands = vec![ColorMask(63); n];
                assert_eq!(can_pay(&cost, &lands), n >= cost.lands_needed());
            }
        }
    }
}

#[test]
fn the_default_cost_is_free() {
    let cost = ParsedCost::default();
    assert_eq!((cost.generic, cost.pips.len(), cost.mana_value), (0, 0, 0));
    assert!(can_pay(&cost, &[]));
}

#[test]
fn mana_values_stop_at_the_largest() {
    let (cost, _) = parse_mana_cost(&"{W}".repeat(300), None);
    assert_eq!((cost.pips.len(), cost.mana_value), (300, 255));
    let (cost, _) = parse_mana_cost(&format!("{{5}}{}", "{W}".repeat(251)), None);
    assert_eq!(cost.mana_value, 255);
    let (cost, _) = parse_mana_cost(&format!("{{3}}{}", "{W}".repeat(251)), None);
    assert_eq!(cost.mana_value, 254);
}

#[test]
fn no_spell_is_cast_before_it_is_drawn() {
    let db = white_deck();
    let out = simulate_rows(true, &vec![(1, 17), (2, 23)], &db, &request(None), 11).unwrap();
    assert!(!out.cards.is_empty());
    for card in &out.cards {
        assert_eq!(card.p_cast_by.len(), card.p_drawn_by.len());
        for (cast, drawn) in card.p_cast_by.iter().zip(card.p_drawn_by.iter()) {
            assert!(cast.hits <= drawn.hits && cast.of == drawn.of);
        }
    }
}

#[test]
fn more_lands_pay_for_no_less() {
    let (cost, _) = parse_mana_cost("{1}{W}{U}", cmc(3.0));
    let mut lands = vec![W, WU, C];
    assert!(can_pay(&cost, &lands));
    lands.push(G);
    assert!(can_pay(&cost, &lands));
    lands.insert(0, R);
    assert!(can_pay(&cost, &lands));
}

#[test]
fn matching_agrees_with_trying_every_assignment() {
    let masks = [W, U, B, WU, ColorMask(6), ColorMask(7)];
    for a in masks {
        for b in masks {
            for x in masks {
                for y in masks {
                    let cost = ParsedCost {
                        generic: 0,
                        pips: vec![a, b],
                        mana_value: 2,
                    };
                    let direct = a.intersects(x) && b.intersects(y);
                    let crossed = a.intersects(y) && b.intersects(x);
                    assert_eq!(can_pay(&cost, &[x, y]), direct || crossed);
                }
            }
        }
    }
}

// ---------------------------------------------------------------------------
// Compiling
// ---------------------------------------------------------------------------

#[test]
fn compiles_lands_spells_and_unknowns() {
    let db = CardDb::from_cards(vec![
        land(1, "Plains Proxy", &["W"]),
        spell(2, "Bolt-ish", "{1}{R}", 2.0),
    ]);
    let deck = compile_deck(&[(1, 24), (2, 4), (999, 2)], &db);
    assert_eq!(deck.library.len(), 30);
    assert_eq!(deck.land_count, 24);
    assert_eq!(deck.max_spell_mv, 2);
    assert_eq!(deck.colors_needed, vec![(8, 2)]); // R needed by turn 2
    assert!(deck.warnings.iter().any(|w| w.contains("Unknown card 999")));
    assert!(matches!(deck.cards[2].kind, CardKind::UnknownSpell));
}

#[test]
fn mdfc_front_land_is_land_back_land_is_spell() {
    let mut front_land = base(10, "Land // Spell");
    front_land.type_line = Some("Land // Sorcery".into());
    front_land.produced_mana = Some(vec!["G".into()]);

    let mut back_land = base(11, "Smashing // Pass");
    back_land.type_line = Some("Sorcery // Land".into());
    back_land.cmc = cmc(2.0);
    back_land.card_faces = Some(vec![
        CardFace {
            mana_cost: Some("{X}{R}{R}".into()),
            type_line: Some("Sorcery".into()),
            produced_mana: None,
            oracle_text: None,
        },
        CardFace {
            mana_cost: Some(String::new()),
            type_line: Some("Land".into()),
            produced_mana: Some(vec!["R".into()]),
            oracle_text: None,
        },
    ]);

    let db = CardDb::from_cards(vec![front_land, back_land]);
    let deck = compile_deck(&[(10, 4), (11, 4)], &db);
    assert!(deck.cards[0].is_land());
    assert!(!deck.cards[1].is_land());
    // back-face spell picks up the front face's cost (empty top-level)
    let cost = deck.cards[1].cost().unwrap();
    assert_eq!(cost.pips.len(), 2);
    assert!(deck.warnings.iter().any(|w| w.contains("modal back-face")));
    assert_eq!(deck.land_count, 4);
}

#[test]
fn land_with_no_detectable_colors_defaults_to_colorless() {
    let mut l = base(20, "Mystery Land");
    l.type_line = Some("Land".into());
    let db = CardDb::from_cards(vec![l]);
    let deck = compile_deck(&[(20, 1)], &db);
    match deck.cards[0].kind {
        CardKind::Land { produces } => assert_eq!(produces, ColorMask(32)),
        _ => panic!("expected land"),
    }
    assert!(deck.warnings.iter().any(|w| w.contains("Mystery Land")));
}

#[test]
fn land_is_a_word_of_its_own() {
    assert!(is_land_type("Basic Land — Island"));
    assert!(is_land_type("Land"));
    assert!(is_land_type("Artifact Land"));
    assert!(!is_land_type("Creature — Islander"));
    assert!(!is_land_type("Landfall"));
    assert!(!is_land_type(""));
}

#[test]
fn cards_without_copies_are_left_out() {
    let deck = compile_deck(&[(1, 0), (2, 3)], &white_deck());
    assert_eq!(deck.cards.len(), 1);
    assert_eq!(deck.cards[0].arena_id, 2);
    assert_eq!(deck.cards[0].mana_value(), 1);
    assert_eq!(deck.cards[0].quantity, 3);
    assert_eq!(deck.library, vec![0, 0, 0]);
    assert_eq!(deck.land_count, 0);
}

// ---------------------------------------------------------------------------
// Dealing
// ---------------------------------------------------------------------------

fn two_card_deck() -> CompiledDeck {
    compile_deck(&[(1, 24), (2, 36)], &white_deck())
}

#[test]
fn keep_decision_rules() {
    for h in [7u8, 6, 5] {
        assert!(!keep_decision(0, h));
        assert!(!keep_decision(1, h));
        assert!(keep_decision(2, h));
        assert!(keep_decision(5, h));
        assert!(!keep_decision(6, h));
        assert!(!keep_decision(7, h));
    }
    assert!(keep_decision(0, 4));
    assert!(keep_decision(7, 4));
}

#[test]
fn lands_are_counted_by_card() {
    let deck = two_card_deck();
    assert!(is_land(&deck, 0));
    assert!(!is_land(&deck, 1));
    assert_eq!(count_lands(&deck, &vec![0, 1, 0, 1, 1]), 2);
    assert_eq!(count_lands(&deck, &deck.library), deck.land_count as usize);
}

#[test]
fn dealing_puts_cards_back_below() {
    let deck = two_card_deck();
    // Drawn from the end: five lands and two spells.
    let library = vec![1, 1, 1, 1, 0, 1, 0, 0, 1, 0, 0];
    let (rest, hand) = deal(&deck, library.clone(), 7).unwrap();
    assert_eq!(hand.len(), 7);
    assert_eq!(rest, vec![1, 1, 1, 1]);
    assert_eq!(count_lands(&deck, &hand), 5);

    // At six cards, one goes to the bottom; a land, for there are five.
    let (rest, hand) = deal(&deck, library.clone(), 6).unwrap();
    assert_eq!(hand.len(), 6);
    assert_eq!(count_lands(&deck, &hand), 4);
    assert_eq!(rest, vec![0, 1, 1, 1, 1]);

    // No land on top: the hand is not kept, but at four cards it is.
    let library = vec![0, 0, 1, 1, 1, 1, 1, 1, 1];
    assert!(deal(&deck, library.clone(), 7).is_none());
    assert_eq!(deal(&deck, library, 4).unwrap().1.len(), 4);
}

#[test]
fn opening_hands_hold_the_cards_of_the_deck() {
    let deck = two_card_deck();
    assert!(is_playable(&deck));
    let mut rng = SimRng::seed_from_u64(5);
    for smoothing in [false, true] {
        for _ in 0..200 {
            let (library, hand, size) = opening_hand(&deck, &params(1, smoothing, None), &mut rng);
            assert_eq!(hand.len(), size as usize);
            assert!((4..=7).contains(&size));
            assert_eq!(hand.len() + library.len(), 60);
            assert_eq!(count_lands(&deck, &hand) + count_lands(&deck, &library), 24);
        }
    }
}

#[test]
fn shuffles_change_the_order() {
    let deck = compile_deck(&[(1, 1), (2, 1), (3, 58)], &white_deck());
    let mut first = SimRng::seed_from_u64(1);
    let mut second = SimRng::seed_from_u64(2);
    let p = params(1, false, None);
    let one = opening_hand(&deck, &p, &mut first);
    let two = opening_hand(&deck, &p, &mut second);
    let again = opening_hand(&deck, &p, &mut SimRng::seed_from_u64(1));
    assert_ne!(one.0, two.0);
    assert_eq!(one.0, again.0);
    let mut plain = deck.library.clone();
    plain.truncate(one.0.len());
    assert_ne!(one.0, plain);
}

#[test]
fn smoother_hand_is_nearer_to_the_share_of_lands() {
    let deck = compile_deck(&[(1, 2), (2, 3)], &white_deck());
    // Both libraries hold the deck; the first draws two lands of the top four.
    let flood = vec![1, 1, 1, 0, 0];
    let same = vec![0, 0, 1, 1, 1];
    assert_eq!(pick_smoother(&deck, flood.clone(), same.clone()), flood);
}

#[test]
fn tiny_decks_are_not_playable() {
    assert!(!is_playable(&compile_deck(&[], &white_deck())));
    assert!(!is_playable(&compile_deck(&[(2, 2)], &white_deck())));
    assert!(is_playable(&compile_deck(&[(1, 2)], &white_deck())));
    assert!(is_playable(&compile_deck(&[(2, 3)], &white_deck())));
}

#[test]
fn opening_hand_matches_hypergeometric() {
    // 24 lands / 60 cards, no mulligans or smoothing involved: the raw
    // 7-card land count must follow the hypergeometric distribution.
    let db = white_deck();
    let deck = compile_deck(&[(1, 24), (2, 36)], &db);
    let mut rng = StdRng::seed_from_u64(7);
    let trials = 200_000usize;
    let mut counts = [0u32; 8];
    let mut lib = deck.library.clone();
    for _ in 0..trials {
        lib.shuffle(&mut rng);
        let lands = lib.iter().rev().take(7).filter(|&&ci| ci == 0).count();
        counts[lands] += 1;
    }

    let total = binom(60, 7);
    for k in 0..=7u64 {
        let expect = binom(24, k) * binom(36, 7 - k) / total;
        let got = counts[k as usize] as f64 / trials as f64;
        assert!((got - expect).abs() < 0.005, "k={k}: got {got:.4}, expected {expect:.4}");
    }
}

#[test]
fn first_hands_follow_the_generator() {
    // A hand of seven is the last seven cards of the shuffled library.
    let deck = two_card_deck();
    let mut rng = StdRng::seed_from_u64(9);
    let mut lib = deck.library.clone();
    lib.shuffle(&mut rng);
    let lands = lib.iter().rev().take(7).filter(|&&ci| ci == 0).count();
    let (rest, hand, size) =
        opening_hand(&deck, &params(1, false, None), &mut SimRng::seed_from_u64(9));
    if (2..=5).contains(&lands) {
        assert_eq!(size, 7);
        assert_eq!(rest[..], lib[..53]);
        assert_eq!(count_lands(&deck, &hand), lands);
    } else {
        assert!(size < 7);
    }
}

// ---------------------------------------------------------------------------
// Games
// ---------------------------------------------------------------------------

#[test]
fn one_game_by_hand() {
    let deck = two_card_deck();
    let has_mv = curve_values(&deck);
    assert_eq!(has_mv, vec![false, true, false, false, false]);
    // Two lands and a lion in hand, then nothing but lions on the draws.
    let hand = vec![0, 0, 1, 1, 1, 1, 1];
    let library = vec![1; 53];
    let game = play_game(&deck, true, 10, &has_mv, library, hand, 7);
    assert_eq!(game.size, 7);
    assert_eq!(game.drops[..5], [true, true, false, false, false]);
    assert!(game.screw);
    assert!(!game.flood);
    assert_eq!(game.first_cast[1], Some(1));
    assert_eq!(game.first_drawn[1], Some(1));
    assert_eq!(game.on_time, vec![true]);
}

#[test]
fn drawing_nothing_but_lands_floods() {
    let deck = two_card_deck();
    let has_mv = curve_values(&deck);
    let game = play_game(&deck, false, 10, &has_mv, vec![0; 53], vec![0; 7], 7);
    assert_eq!(game.drops, vec![true; 5]);
    assert!(game.flood);
    assert!(!game.screw);
    assert_eq!(game.first_cast[1], None);
    assert_eq!(game.first_drawn[1], None);
    assert!(!game.curve);
}

#[test]
fn deterministic_with_same_seed() {
    let db = white_deck();
    let deck = compile_deck(&[(1, 24), (2, 36)], &db);
    let p = params(2_000, true, Some(42));
    let mut rng1 = SimRng::seed_from_u64(42);
    let mut rng2 = SimRng::seed_from_u64(42);
    let r1 = run(&deck, &p, &mut rng1);
    let r2 = run(&deck, &p, &mut rng2);
    assert_eq!(format!("{r1:?}"), format!("{r2:?}"));
}

#[test]
fn smoothing_raises_keep7_rate() {
    let db = white_deck();
    let deck = compile_deck(&[(1, 24), (2, 36)], &db);
    let mut rng = SimRng::seed_from_u64(11);
    let smoothed = run(&deck, &params(20_000, true, None), &mut rng);
    let mut rng = SimRng::seed_from_u64(11);
    let random = run(&deck, &params(20_000, false, None), &mut rng);
    assert!(
        share(smoothed.keep7_rate) > share(random.keep7_rate),
        "smoothed {} vs random {}",
        share(smoothed.keep7_rate),
        share(random.keep7_rate)
    );
}

#[test]
fn mono_white_sanity() {
    let db = white_deck();
    let deck = compile_deck(&[(1, 24), (2, 36)], &db);
    let mut rng = SimRng::seed_from_u64(3);
    let r = run(&deck, &params(10_000, false, None), &mut rng);

    assert_eq!(r.deck.total_cards, 60);
    assert_eq!(r.deck.lands, 24);
    // Kept hands always have >= 2 lands (or hand size 4), so the W
    // one-drop is castable on curve almost always when drawn.
    let lion = &r.cards[0];
    assert_eq!(lion.name, "Savannah Lions");
    assert!(
        share(lion.p_cast_on_curve) > 0.5,
        "p_cast_on_curve = {}",
        share(lion.p_cast_on_curve)
    );
    // W is needed on turn 1 and nearly always there.
    assert_eq!(r.colors.len(), 1);
    assert!(share(r.colors[0].p_on_time) > 0.9);
    // Rates are probabilities and the mulligan distribution sums to 1.
    let mull_sum = share(r.mulligan_distribution.kept7)
        + share(r.mulligan_distribution.kept6)
        + share(r.mulligan_distribution.kept5)
        + share(r.mulligan_distribution.kept4);
    assert!((mull_sum - 1.0).abs() < 1e-9);
    // Land drops decrease monotonically.
    for w in r.land_drops_on_curve.windows(2) {
        assert!(share(w[0]) >= share(w[1]));
    }
}

#[test]
fn reports_are_in_order_and_within_bounds() {
    let db = CardDb::from_cards(vec![
        land(1, "Dual", &["W", "R"]),
        spell(5, "Zap", "{R}", 1.0),
        spell(4, "Aegis", "{W}", 1.0),
        spell(3, "Bear", "{1}{W}", 2.0),
    ]);
    let deck = compile_deck(&[(1, 17), (3, 8), (4, 8), (5, 7)], &db);
    let r = simulate(&deck, &params(500, true, Some(1)), &mut SimRng::seed_from_u64(1));
    let names: Vec<&str> = r.cards.iter().map(|c| c.name.as_str()).collect();
    assert_eq!(names, vec!["Aegis", "Zap", "Bear"]);
    assert_eq!(r.deck.distinct_spells, 3);
    assert_eq!(r.deck.max_spell_mv, 2);
    let m = r.mulligan_distribution;
    assert_eq!(m.kept7.hits + m.kept6.hits + m.kept5.hits + m.kept4.hits, 500);
    assert_eq!(m.kept7, r.keep7_rate);
    for c in &r.cards {
        assert_eq!(c.p_cast_by.len(), 10);
        for t in 0..10 {
            assert_eq!(c.p_cast_by[t].of, 500);
            assert!(c.p_cast_by[t].hits <= c.p_drawn_by[t].hits);
            assert!(c.p_drawn_by[t].hits <= 500);
            if t > 0 {
                assert!(c.p_cast_by[t - 1].hits <= c.p_cast_by[t].hits);
                assert!(c.p_drawn_by[t - 1].hits <= c.p_drawn_by[t].hits);
            }
        }
    }
    let colors: Vec<(&str, u8)> =
        r.colors.iter().map(|c| (c.color.as_str(), c.first_needed_turn)).collect();
    assert_eq!(colors, vec![("W", 1), ("R", 1)]);
    assert!(!r.assumptions.is_empty());
    assert_eq!(r.params.seed, Some(1));
}

#[test]
fn positions_are_sorted_by_value_and_name() {
    let keys = vec![
        (2, "b".to_string()),
        (1, "z".to_string()),
        (2, "a".to_string()),
        (1, "z".to_string()),
    ];
    assert_eq!(sort_positions(&keys), vec![1, 3, 2, 0]);
}

// ---------------------------------------------------------------------------
// Requests
// ---------------------------------------------------------------------------

fn request(seed: Option<u64>) -> SimulateRequest {
    SimulateRequest { iterations: Some(100), on_play: None, bo1_smoothing: None, seed }
}

#[test]
fn requests_are_completed_and_clamped() {
    let empty = SimulateRequest { iterations: None, on_play: None, bo1_smoothing: None, seed: None };
    let p = params_for(&empty, 8);
    assert_eq!((p.iterations, p.on_play, p.bo1_smoothing), (10_000, true, false));
    assert_eq!((p.seed, p.turns), (Some(8), 10));
    let low = SimulateRequest { iterations: Some(1), ..empty };
    assert_eq!(params_for(&low, 0).iterations, 100);
    let high = SimulateRequest { iterations: Some(u32::MAX), on_play: Some(false), ..empty };
    assert_eq!(params_for(&high, 0).iterations, 100_000);
    assert!(!params_for(&high, 0).on_play);
}

#[test]
fn stored_rows_become_a_deck_list() {
    let entries = entries_of(&vec![(5, 4), (6, -3), (7, 0)]);
    assert_eq!(entries, vec![(5, 4), (6, 0), (7, 0)]);
    assert_eq!(size_of_deck(&entries), Some(4));
    assert_eq!(size_of_deck(&vec![(1, u32::MAX), (2, 1)]), None);
}

#[test]
fn small_decks_are_refused() {
    let db = white_deck();
    match simulate_rows(true, &vec![(1, 3), (2, 3)], &db, &request(None), 1) {
        Err(ApiError::BadRequest(m)) => {
            assert_eq!(m, "deck has only 6 mainboard cards; too small to simulate")
        }
        _ => panic!("expected a refusal"),
    }
    assert!(simulate_rows(true, &vec![(1, 3), (2, 4)], &db, &request(None), 1).is_ok());
    let none = simulate_deck(false, &vec![(1, 24), (2, 36)], &db, &request(None));
    assert!(matches!(none, Err(ApiError::NotFound)));
}

#[test]
fn the_seed_is_echoed_and_repeats_the_run() {
    let db = white_deck();
    let rows = vec![(1, 24), (2, 36)];
    let chosen = simulate_deck(true, &rows, &db, &request(None)).unwrap();
    let seed = chosen.params.seed.unwrap();
    let again = simulate_deck(true, &rows, &db, &request(Some(seed))).unwrap();
    assert_eq!(format!("{chosen:?}"), format!("{again:?}"));
    let other = simulate_deck(true, &rows, &db, &request(None)).unwrap();
    assert_ne!(other.params.seed, Some(seed));
}

#[test]
fn seeds_matter() {
    let db = white_deck();
    let rows = vec![(1, 24), (2, 36)];
    let a = simulate_rows(true, &rows, &db, &request(None), 1).unwrap();
    let b = simulate_rows(true, &rows, &db, &request(None), 2).unwrap();
    assert_ne!(
        (a.screw_rate, a.flood_rate, a.land_drops_on_curve),
        (b.screw_rate, b.flood_rate, b.land_drops_on_curve)
    );
}

#[test]
fn cards_of_a_deck_keep_their_cost() {
    let c = SimCard {
        arena_id: 1,
        name: "x".into(),
        mana_cost: "{U}".into(),
        quantity: 1,
        kind: CardKind::Spell { cost: parse_mana_cost("{U}", None).0 },
    };
    assert!(!c.is_land());
    assert_eq!(c.cost().unwrap().pips, vec![U]);
    assert_eq!(c.mana_value(), 1);
}
