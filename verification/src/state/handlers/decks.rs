//! Deck lists.
//!
//! Decks come as `{Summary: {DeckId, Name, Attributes}, Deck: {MainDeck,
//! Sideboard}}`, one by one or in an array, and in older logs as flat objects
//! with `id`, `name`, `mainDeck` and `sideboard`. A list of cards holds objects
//! with an id and a quantity, or ids and quantities in turn, or ids alone.
use std::collections::HashMap;
use vstd::prelude::*;
use vstd::string::StringExecFns;

use crate::counts::{adds_up, countable, is_countable, tally};
use crate::json::{
    first_field,
    first_items,
    first_text,
    get_first,
    get_first_items,
    get_first_text,
    item_views,
    key_texts,
    law_first_of,
    law_get,
    law_none_of,
    ref_views,
    Json,
    JsonNumber,
    JsonView,
};
use crate::patterns::opt_text;
use crate::state::DeckSummary;
use crate::text::{self, begins, number, occurs};

verus! {

// ---------------------------------------------------------------------------
// Origin
// ---------------------------------------------------------------------------

/// The deck is one of the game's own: the event lists those, or the name is a
/// key of their translations.
pub open spec fn is_precon(event_kind: Seq<char>, name: Seq<char>) -> bool {
    occurs(event_kind, "Precon"@) || begins(name, "?=?Loc/Decks/Precon"@)
}

/// Whether a deck is the player's own or one of the game's.
pub fn classify_origin(event_kind: &str, name: &str) -> (r: &'static str)
    ensures
        r@ == (if is_precon(event_kind@, name@) {
            "precon"@
        } else {
            "personal"@
        }),
{
    if text::has(event_kind, "Precon") || text::has_prefix(name, "?=?Loc/Decks/Precon") {
        "precon"
    } else {
        "personal"
    }
}

/// The origin to store: once the player's own, always the player's own.
pub open spec fn kept_origin(stored: Option<Seq<char>>, new: Seq<char>) -> Seq<char> {
    if stored == Some("personal"@) {
        "personal"@
    } else {
        new
    }
}

/// The origin to store for a deck that is stored with the origin `stored`.
pub fn merge_origin(stored: Option<&str>, new: &str) -> (r: String)
    ensures
        r@ == kept_origin(
            match stored {
                Some(s) => Some(s@),
                None => None,
            },
            new@,
        ),
{
    let mut r = String::new();
    match stored {
        Some(s) => if text::same(s, "personal") {
            r.append("personal");
            assert(r@ =~= "personal"@);
            return r;
        },
        None => {},
    }
    r.append(new);
    assert(r@ =~= new@);
    r
}

/// The card of the deck's picture to store: an event without one keeps the old
/// one.
pub fn merge_tile(stored: Option<i64>, new: Option<i64>) -> (r: Option<i64>)
    ensures
        r == (if new is Some {
            new
        } else {
            stored
        }),
{
    match new {
        Some(n) => Some(n),
        None => stored,
    }
}

/// The origin stored after a series of events.
pub open spec fn origin_after(origins: Seq<Seq<char>>) -> Option<Seq<char>>
    decreases origins.len(),
{
    if origins.len() == 0 {
        None
    } else {
        Some(kept_origin(origin_after(origins.drop_last()), origins.last()))
    }
}

/// A deck is stored as the player's own exactly where one of the events said
/// so, in whatever order they came.
pub proof fn law_origin_never_falls(origins: Seq<Seq<char>>)
    ensures
        origin_after(origins) == Some("personal"@) <==> origins.contains("personal"@),
    decreases origins.len(),
{
    if origins.len() > 0 {
        let rest = origins.drop_last();
        law_origin_never_falls(rest);
        if rest.contains("personal"@) {
            let i = choose|i: int| 0 <= i < rest.len() && rest[i] == "personal"@;
            assert(origins[i] == "personal"@);
        }
        if origins.contains("personal"@) && origins.last() != "personal"@ {
            let i = choose|i: int| 0 <= i < origins.len() && origins[i] == "personal"@;
            assert(rest[i] == "personal"@);
        }
        if origins.last() == "personal"@ {
            assert(origins[origins.len() - 1] == "personal"@);
        }
    }
}

// ---------------------------------------------------------------------------
// Finding decks
// ---------------------------------------------------------------------------

pub open spec fn deck_list_keys() -> Seq<Seq<char>> {
    seq!["PreconDecks"@, "Decks"@, "decks"@, "decklists"@, "PlayerDecks"@, "playerDecks"@]
}

/// The object is itself a deck.
pub open spec fn is_deck(v: JsonView) -> bool {
    ||| v.get("Summary"@) is Some && v.get("Deck"@) is Some
    ||| v.get("id"@) is Some && v.get("name"@) is Some
    ||| v.get("DeckId"@) is Some && (v.get("Name"@) is Some || v.get("MainDeck"@) is Some)
}

/// The decks of a payload: its items, those of the first list in it, or the
/// payload itself.
pub open spec fn decks_in(payload: JsonView) -> Seq<JsonView> {
    match payload {
        JsonView::Array(items) => items,
        _ => match first_items(payload, deck_list_keys()) {
            Some(items) => items,
            None => if is_deck(payload) {
                seq![payload]
            } else {
                seq![]
            },
        },
    }
}

fn refs_of<'a>(items: &'a Vec<Json>) -> (r: Vec<&'a Json>)
    ensures
        ref_views(r@) == item_views(items@),
{
    let mut r: Vec<&'a Json> = Vec::new();
    let mut i: usize = 0;
    while i < items.len()
        invariant
            i <= items@.len(),
            r@.len() == i,
            forall|k: int| 0 <= k < i ==> (#[trigger] r@[k])@ == items@[k]@,
        decreases items@.len() - i,
    {
        r.push(&items[i]);
        i += 1;
    }
    assert(ref_views(r@) =~= item_views(items@));
    r
}

/// The decks of a payload.
pub fn extract_deck_array<'a>(payload: &'a Json) -> (r: Vec<&'a Json>)
    ensures
        ref_views(r@) == decks_in(payload@),
{
    if let Some(items) = payload.as_array() {
        return refs_of(items);
    }
    let keys = ["PreconDecks", "Decks", "decks", "decklists", "PlayerDecks", "playerDecks"];
    assert(key_texts(keys@) =~= deck_list_keys());
    if let Some(items) = get_first_items(payload, &keys) {
        return refs_of(items);
    }
    let mut r: Vec<&'a Json> = Vec::new();
    let whole = (payload.has("Summary") && payload.has("Deck")) || (payload.has("id")
        && payload.has("name")) || (payload.has("DeckId") && (payload.has("Name") || payload.has(
        "MainDeck",
    )));
    if whole {
        r.push(payload);
    }
    assert(ref_views(r@) =~= decks_in(payload@));
    r
}

// ---------------------------------------------------------------------------
// Fields of a deck
// ---------------------------------------------------------------------------

/// The text under the first of the keys, in the summary or else in the deck.
pub open spec fn plucked(
    root: JsonView,
    summary: Option<JsonView>,
    keys: Seq<Seq<char>>,
) -> Option<Seq<char>> {
    match summary {
        Some(s) if first_text(s, keys) is Some => first_text(s, keys),
        _ => first_text(root, keys),
    }
}

/// What an optional value holds.
pub open spec fn opt_view(v: Option<&Json>) -> Option<JsonView> {
    match v {
        Some(j) => Some(j@),
        None => None,
    }
}

/// The text under the first of the keys, in the summary or else in the deck.
pub fn pluck_str(root: &Json, summary: Option<&Json>, keys: &[&str]) -> (r: Option<String>)
    ensures
        opt_text(r) == plucked(root@, opt_view(summary), key_texts(keys@)),
{
    if let Some(s) = summary {
        let found = get_first_text(s, keys);
        if found.is_some() {
            return found;
        }
    }
    get_first_text(root, keys)
}

/// A number of 32 bits, or a text that denotes one.
pub open spec fn as_id(v: JsonView) -> Option<u32> {
    match v.natural() {
        Some(n) => if n <= u32::MAX {
            Some(n as u32)
        } else {
            None
        },
        None => match v.text() {
            Some(s) => match number(s, u32::MAX as nat) {
                Some(n) => Some(n as u32),
                None => None,
            },
            None => None,
        },
    }
}

/// A number of 32 bits, or a text that denotes one.
pub fn any_to_u32(v: &Json) -> (r: Option<u32>)
    ensures
        r == as_id(v@),
{
    if let Some(n) = v.as_u64() {
        return if n <= u32::MAX as u64 {
            Some(n as u32)
        } else {
            None
        };
    }
    if let Some(s) = v.as_str() {
        return text::parse_number(&text::chars_of(s.as_str()), u32::MAX);
    }
    None
}

/// The number above zero under the first of the keys that has one.
pub open spec fn first_id(v: JsonView, keys: Seq<Seq<char>>) -> Option<u32>
    decreases keys.len(),
{
    if keys.len() == 0 {
        None
    } else {
        match v.get(keys[0]) {
            Some(x) if as_id(x) is Some && as_id(x).unwrap() > 0 => as_id(x),
            _ => first_id(v, keys.skip(1)),
        }
    }
}

/// The number above zero under the first of the keys, in the summary or else
/// in the deck.
pub open spec fn plucked_id(
    root: JsonView,
    summary: Option<JsonView>,
    keys: Seq<Seq<char>>,
) -> Option<u32> {
    match summary {
        Some(s) if first_id(s, keys) is Some => first_id(s, keys),
        _ => first_id(root, keys),
    }
}

fn get_first_id(v: &Json, keys: &[&str]) -> (r: Option<u32>)
    ensures
        r == first_id(v@, key_texts(keys@)),
{
    let ghost all = key_texts(keys@);
    let mut i: usize = 0;
    assert(all.skip(0) =~= all);
    while i < keys.len()
        invariant
            i <= keys@.len(),
            all == key_texts(keys@),
            first_id(v@, all) == first_id(v@, all.skip(i as int)),
        decreases keys@.len() - i,
    {
        assert(all.skip(i as int).skip(1) =~= all.skip(i + 1));
        assert(all.skip(i as int)[0] == keys@[i as int]@);
        if let Some(x) = v.get(keys[i]) {
            if let Some(n) = any_to_u32(x) {
                if n > 0 {
                    return Some(n);
                }
            }
        }
        i += 1;
    }
    None
}

/// The number above zero under the first of the keys, in the summary or else
/// in the deck.
pub fn pluck_u32(root: &Json, summary: Option<&Json>, keys: &[&str]) -> (r: Option<u32>)
    ensures
        r == plucked_id(root@, opt_view(summary), key_texts(keys@)),
{
    if let Some(s) = summary {
        let found = get_first_id(s, keys);
        if found.is_some() {
            return found;
        }
    }
    get_first_id(root, keys)
}

/// The value of the first attribute named "Format" that has a text.
pub open spec fn format_among(attributes: Seq<JsonView>) -> Option<Seq<char>>
    decreases attributes.len(),
{
    if attributes.len() == 0 {
        None
    } else {
        let a = attributes[0];
        let named = a.get("name"@) is Some && a.get("name"@).unwrap().text() == Some("Format"@);
        let value = match a.get("value"@) {
            Some(v) => v.text(),
            None => None,
        };
        if named && value is Some {
            value
        } else {
            format_among(attributes.skip(1))
        }
    }
}

/// The format of a deck: a field of its own, or an attribute.
pub open spec fn format_of(root: JsonView, summary: Option<JsonView>) -> Option<Seq<char>> {
    let direct = plucked(root, summary, seq!["Format"@, "format"@]);
    let attributes = match summary {
        Some(s) if s.get("Attributes"@) is Some => s.get("Attributes"@),
        _ => root.get("Attributes"@),
    };
    if direct is Some {
        direct
    } else {
        match attributes {
            Some(a) => match a.items() {
                Some(items) => format_among(items),
                None => None,
            },
            None => None,
        }
    }
}

/// The format of a deck.
pub fn extract_format(root: &Json, summary: Option<&Json>) -> (r: Option<String>)
    ensures
        opt_text(r) == format_of(root@, opt_view(summary)),
{
    let keys = ["Format", "format"];
    assert(key_texts(keys@) =~= seq!["Format"@, "format"@]);
    let direct = pluck_str(root, summary, &keys);
    if direct.is_some() {
        return direct;
    }
    let own = match summary {
        Some(s) => s.get("Attributes"),
        None => None,
    };
    let attributes = match own {
        Some(a) => Some(a),
        None => root.get("Attributes"),
    };
    if let Some(a) = attributes {
        if let Some(items) = a.as_array() {
            let ghost all = item_views(items@);
            let mut i: usize = 0;
            assert(all.skip(0) =~= all);
            while i < items.len()
                invariant
                    i <= items@.len(),
                    all == item_views(items@),
                    format_among(all) == format_among(all.skip(i as int)),
                    format_among(all) == format_of(root@, opt_view(summary)),
                decreases items@.len() - i,
            {
                assert(all.skip(i as int).skip(1) =~= all.skip(i + 1));
                assert(all.skip(i as int)[0] == items@[i as int]@);
                let item = &items[i];
                let named = match item.get("name") {
                    Some(n) => match n.as_str() {
                        Some(s) => text::same(s.as_str(), "Format"),
                        None => false,
                    },
                    None => false,
                };
                if named {
                    if let Some(v) = item.get("value") {
                        if let Some(s) = v.as_str() {
                            return Some(s.clone());
                        }
                    }
                }
                i += 1;
            }
        }
    }
    None
}

// ---------------------------------------------------------------------------
// Lists of cards
// ---------------------------------------------------------------------------

/// The card and the quantity that an object gives; nothing without a card. One
/// copy where no quantity is given.
pub open spec fn card_in(v: JsonView) -> Option<(u32, u32)> {
    let id = match first_field(v, seq!["cardId"@, "CardId"@, "id"@, "Id"@]) {
        Some(x) => as_id(x),
        None => None,
    };
    let qty = match first_field(v, seq!["quantity"@, "Quantity"@]) {
        Some(x) => as_id(x),
        None => None,
    };
    match id {
        Some(id) => Some(
            (
                id,
                match qty {
                    Some(q) => q,
                    None => 1,
                },
            ),
        ),
        None => None,
    }
}

/// The cards of a list of objects.
pub open spec fn cards_in_objects(items: Seq<JsonView>) -> Seq<(u32, u32)>
    decreases items.len(),
{
    if items.len() == 0 {
        seq![]
    } else {
        match card_in(items.last()) {
            Some(e) => cards_in_objects(items.drop_last()).push(e),
            None => cards_in_objects(items.drop_last()),
        }
    }
}

/// The cards of the first `n` pairs of id and quantity.
pub open spec fn cards_in_pairs(items: Seq<JsonView>, n: nat) -> Seq<(u32, u32)>
    decreases n,
{
    if n == 0 {
        seq![]
    } else {
        let before = cards_in_pairs(items, (n - 1) as nat);
        match (as_id(items[2 * n - 2]), as_id(items[2 * n - 1])) {
            (Some(id), Some(qty)) => before.push((id, qty)),
            _ => before,
        }
    }
}

/// One copy of each card of a list of ids.
pub open spec fn cards_in_ids(items: Seq<JsonView>) -> Seq<(u32, u32)>
    decreases items.len(),
{
    if items.len() == 0 {
        seq![]
    } else {
        match as_id(items.last()) {
            Some(id) => cards_in_ids(items.drop_last()).push((id, 1)),
            None => cards_in_ids(items.drop_last()),
        }
    }
}

/// Every second item is a small number.
pub open spec fn looks_like_pairs(items: Seq<JsonView>) -> bool {
    &&& items.len() >= 2
    &&& forall|i: int|
        0 <= i < items.len() && i % 2 == 1 ==> {
            &&& (#[trigger] items[i]).natural() is Some
            &&& items[i].natural().unwrap() <= 30
        }
}

pub open spec fn all_objects(items: Seq<JsonView>) -> bool {
    forall|i: int| 0 <= i < items.len() ==> (#[trigger] items[i]) is Object
}

pub open spec fn all_plain(items: Seq<JsonView>) -> bool {
    forall|i: int|
        0 <= i < items.len() ==> (#[trigger] items[i]) is Number || items[i] is Text
}

/// The cards of a list, entry by entry.
pub open spec fn cards_in(v: Option<JsonView>) -> Seq<(u32, u32)> {
    match v {
        Some(JsonView::Array(items)) => if all_objects(items) {
            cards_in_objects(items)
        } else if all_plain(items) {
            if looks_like_pairs(items) {
                cards_in_pairs(items, items.len() / 2)
            } else {
                cards_in_ids(items)
            }
        } else {
            seq![]
        },
        _ => seq![],
    }
}

fn card_of(v: &Json) -> (r: Option<(u32, u32)>)
    ensures
        r == card_in(v@),
{
    let id_keys = ["cardId", "CardId", "id", "Id"];
    let qty_keys = ["quantity", "Quantity"];
    proof {
        assert(key_texts(id_keys@) =~= seq!["cardId"@, "CardId"@, "id"@, "Id"@]);
        assert(key_texts(qty_keys@) =~= seq!["quantity"@, "Quantity"@]);
    }
    let id = match get_first(v, &id_keys) {
        Some(x) => any_to_u32(x),
        None => None,
    };
    let qty: u32 = match get_first(v, &qty_keys) {
        Some(x) => match any_to_u32(x) {
            Some(q) => q,
            None => 1,
        },
        None => 1,
    };
    match id {
        Some(id) => Some((id, qty)),
        None => None,
    }
}

fn are_objects(items: &Vec<Json>) -> (r: bool)
    ensures
        r == all_objects(item_views(items@)),
{
    let ghost all = item_views(items@);
    let mut i: usize = 0;
    while i < items.len()
        invariant
            i <= items@.len(),
            all == item_views(items@),
            forall|k: int| 0 <= k < i ==> (#[trigger] all[k]) is Object,
        decreases items@.len() - i,
    {
        assert(all[i as int] == items@[i as int]@);
        if items[i].as_object().is_none() {
            return false;
        }
        i += 1;
    }
    true
}

fn are_plain(items: &Vec<Json>) -> (r: bool)
    ensures
        r == all_plain(item_views(items@)),
{
    let ghost all = item_views(items@);
    let mut i: usize = 0;
    while i < items.len()
        invariant
            i <= items@.len(),
            all == item_views(items@),
            forall|k: int| 0 <= k < i ==> (#[trigger] all[k]) is Number || all[k] is Text,
        decreases items@.len() - i,
    {
        assert(all[i as int] == items@[i as int]@);
        if !items[i].is_number() && items[i].as_str().is_none() {
            return false;
        }
        i += 1;
    }
    true
}

fn are_pairs(items: &Vec<Json>) -> (r: bool)
    ensures
        r == looks_like_pairs(item_views(items@)),
{
    let ghost all = item_views(items@);
    if items.len() < 2 {
        return false;
    }
    let mut i: usize = 0;
    while i < items.len()
        invariant
            i <= items@.len(),
            all == item_views(items@),
            forall|k: int|
                0 <= k < i && k % 2 == 1 ==> {
                    &&& (#[trigger] all[k]).natural() is Some
                    &&& all[k].natural().unwrap() <= 30
                },
        decreases items@.len() - i,
    {
        assert(all[i as int] == items@[i as int]@);
        if i % 2 == 1 {
            match items[i].as_u64() {
                Some(n) if n <= 30 => {},
                _ => {
                    return false;
                },
            }
        }
        i += 1;
    }
    true
}

/// The cards of a list, entry by entry.
pub fn card_entries(v: Option<&Json>) -> (out: Vec<(u32, u32)>)
    ensures
        out@ == cards_in(opt_view(v)),
{
    let mut out: Vec<(u32, u32)> = Vec::new();
    assert(out@ =~= Seq::<(u32, u32)>::empty());
    let items = match v {
        Some(j) => match j.as_array() {
            Some(items) => items,
            None => {
                return out;
            },
        },
        None => {
            return out;
        },
    };
    let ghost all = item_views(items@);
    if are_objects(items) {
        let mut i: usize = 0;
        assert(all.take(0) =~= Seq::<JsonView>::empty());
        while i < items.len()
            invariant
                i <= items@.len(),
                all == item_views(items@),
                out@ == cards_in_objects(all.take(i as int)),
            decreases items@.len() - i,
        {
            assert(all.take(i + 1).drop_last() =~= all.take(i as int));
            assert(all.take(i + 1).last() == items@[i as int]@);
            if let Some(e) = card_of(&items[i]) {
                out.push(e);
            }
            i += 1;
        }
        assert(all.take(i as int) =~= all);
    } else if are_plain(items) {
        if are_pairs(items) {
            let mut n: usize = 0;
            while n < items.len() / 2
                invariant
                    n <= items@.len() / 2,
                    all == item_views(items@),
                    out@ == cards_in_pairs(all, n as nat),
                decreases items@.len() / 2 - n,
            {
                let a: usize = 2 * n;
                assert(all[a as int] == items@[a as int]@);
                assert(all[a + 1] == items@[a + 1]@);
                if let (Some(id), Some(qty)) = (any_to_u32(&items[a]), any_to_u32(&items[a + 1])) {
                    out.push((id, qty));
                }
                n += 1;
            }
        } else {
            let mut i: usize = 0;
            assert(all.take(0) =~= Seq::<JsonView>::empty());
            while i < items.len()
                invariant
                    i <= items@.len(),
                    all == item_views(items@),
                    out@ == cards_in_ids(all.take(i as int)),
                decreases items@.len() - i,
            {
                assert(all.take(i + 1).drop_last() =~= all.take(i as int));
                assert(all.take(i + 1).last() == items@[i as int]@);
                if let Some(id) = any_to_u32(&items[i]) {
                    out.push((id, 1));
                }
                i += 1;
            }
            assert(all.take(i as int) =~= all);
        }
    }
    out
}

/// The cards of a list with the number of their copies.
pub fn parse_card_list(v: Option<&Json>) -> (m: HashMap<u32, u32>)
    requires
        countable(cards_in(opt_view(v))),
    ensures
        adds_up(m@, cards_in(opt_view(v))),
{
    tally(&card_entries(v))
}

// ---------------------------------------------------------------------------
// Whole decks
// ---------------------------------------------------------------------------

/// A deck as it is stored.
pub struct DeckRecord {
    pub summary: DeckSummary,
    pub origin: &'static str,
    pub tile_card_id: Option<u32>,
}

/// The part of a deck that holds its lists of cards.
pub open spec fn deck_body(deck: JsonView) -> JsonView {
    match deck.get("Deck"@) {
        Some(body) => body,
        None => deck,
    }
}

/// The cards of the main deck, entry by entry.
pub open spec fn main_cards(deck: JsonView) -> Seq<(u32, u32)> {
    cards_in(first_field(deck_body(deck), seq!["MainDeck"@, "mainDeck"@]))
}

/// The cards of the sideboard, entry by entry.
pub open spec fn side_cards(deck: JsonView) -> Seq<(u32, u32)> {
    cards_in(first_field(deck_body(deck), seq!["Sideboard"@, "sideboard"@]))
}

/// The id of a deck.
pub open spec fn deck_id_of(deck: JsonView) -> Option<Seq<char>> {
    plucked(deck, deck.get("Summary"@), seq!["DeckId"@, "deckId"@, "id"@])
}

/// The name of a deck.
pub open spec fn deck_name_of(deck: JsonView) -> Seq<char> {
    match plucked(deck, deck.get("Summary"@), seq!["Name"@, "name"@]) {
        Some(n) => n,
        None => "Unnamed"@,
    }
}

/// The record is that of the deck, with the event that brought it.
pub open spec fn records(r: DeckRecord, deck: JsonView, event_kind: Seq<char>) -> bool {
    let summary = deck.get("Summary"@);
    &&& deck_id_of(deck) == Some(r.summary.deck_id@)
    &&& r.summary.name@ == deck_name_of(deck)
    &&& opt_text(r.summary.format) == format_of(deck, summary)
    &&& r.origin@ == (if is_precon(event_kind, deck_name_of(deck)) {
        "precon"@
    } else {
        "personal"@
    })
    &&& r.tile_card_id == plucked_id(
        deck,
        summary,
        seq!["DeckTileId"@, "deckTileId"@, "DeckArtId"@, "deckArtId"@],
    )
    &&& adds_up(r.summary.mainboard@, main_cards(deck))
    &&& adds_up(r.summary.sideboard@, side_cards(deck))
}

fn body_list<'a>(deck: &'a Json, first: &str, second: &str) -> (r: Option<&'a Json>)
    ensures
        opt_view(r) == first_field(deck_body(deck@), seq![first@, second@]),
{
    let body = match deck.get("Deck") {
        Some(b) => b,
        None => deck,
    };
    let keys = [first, second];
    assert(key_texts(keys@) =~= seq![first@, second@]);
    get_first(body, &keys)
}

/// The deck has no id, or no card of it has more copies than 32 bits hold.
pub open spec fn recordable(deck: JsonView) -> bool {
    deck_id_of(deck) is Some ==> countable(main_cards(deck)) && countable(side_cards(deck))
}

fn id_in(deck: &Json) -> (r: Option<String>)
    ensures
        opt_text(r) == deck_id_of(deck@),
{
    let id_keys = ["DeckId", "deckId", "id"];
    assert(key_texts(id_keys@) =~= seq!["DeckId"@, "deckId"@, "id"@]);
    pluck_str(deck, deck.get("Summary"), &id_keys)
}

/// Whether the deck has no id, or no card of it has more copies than 32 bits
/// hold.
pub fn is_recordable(deck: &Json) -> (r: bool)
    ensures
        r == recordable(deck@),
{
    if id_in(deck).is_none() {
        return true;
    }
    is_countable(&card_entries(body_list(deck, "MainDeck", "mainDeck"))) && is_countable(
        &card_entries(body_list(deck, "Sideboard", "sideboard")),
    )
}

/// The record of a deck; nothing where it has no id.
pub fn deck_record(deck: &Json, event_kind: &str) -> (r: Option<DeckRecord>)
    requires
        recordable(deck@),
    ensures
        match r {
            Some(rec) => records(rec, deck@, event_kind@),
            None => deck_id_of(deck@) is None,
        },
{
    let summary = deck.get("Summary");
    let name_keys = ["Name", "name"];
    let tile_keys = ["DeckTileId", "deckTileId", "DeckArtId", "deckArtId"];
    proof {
        assert(key_texts(name_keys@) =~= seq!["Name"@, "name"@]);
        assert(key_texts(tile_keys@) =~= seq![
            "DeckTileId"@,
            "deckTileId"@,
            "DeckArtId"@,
            "deckArtId"@,
        ]);
    }
    let deck_id = match id_in(deck) {
        Some(id) => id,
        None => {
            return None;
        },
    };
    let name = match pluck_str(deck, summary, &name_keys) {
        Some(n) => n,
        None => {
            let mut n = String::new();
            n.append("Unnamed");
            assert(n@ =~= "Unnamed"@);
            n
        },
    };
    let format = extract_format(deck, summary);
    let origin = classify_origin(event_kind, name.as_str());
    let tile_card_id = pluck_u32(deck, summary, &tile_keys);
    let mainboard = parse_card_list(body_list(deck, "MainDeck", "mainDeck"));
    let sideboard = parse_card_list(body_list(deck, "Sideboard", "sideboard"));
    Some(
        DeckRecord {
            summary: DeckSummary { deck_id, name, format, mainboard, sideboard },
            origin,
            tile_card_id,
        },
    )
}

// ---------------------------------------------------------------------------
// Laws
// ---------------------------------------------------------------------------

/// A deck is one of the game's own exactly where its event speaks of such decks,
/// anywhere in its kind, or its name begins as the keys of their names do. Every
/// other deck is the player's.
pub proof fn law_precons(kind: Seq<char>, name: Seq<char>)
    ensures
        is_precon(kind, name) <==> (exists|i: int|
            0 <= i <= kind.len() - 6 && #[trigger] kind.subrange(i, i + 6) == "Precon"@) || (
        name.len() >= 19 && name.take(19) == "?=?Loc/Decks/Precon"@),
{
    reveal_strlit("Precon");
    reveal_strlit("?=?Loc/Decks/Precon");
    if occurs(kind, "Precon"@) {
        let i = choose|i: int| text::occurs_at(kind, "Precon"@, i);
        assert(text::occurs_at(kind, "Precon"@, i));
        assert(kind.subrange(i, i + 6) == "Precon"@);
    }
    if exists|i: int| 0 <= i <= kind.len() - 6 && #[trigger] kind.subrange(i, i + 6) == "Precon"@ {
        let i = choose|i: int|
            0 <= i <= kind.len() - 6 && #[trigger] kind.subrange(i, i + 6) == "Precon"@;
        assert(text::occurs_at(kind, "Precon"@, i));
    }
}

/// The decks of an event: all items of a list, all items of the list under a
/// known name, whatever they are, or the one deck that the payload is.
pub proof fn law_decks_in(payload: JsonView, items: Seq<JsonView>)
    ensures
        decks_in(JsonView::Array(items)) == items,
        payload is Object && payload.get("PreconDecks"@) == Some(JsonView::Array(items))
            ==> decks_in(payload) == items,
        payload is Object && payload.get("PreconDecks"@) is None && payload.get("Decks"@) == Some(
            JsonView::Array(items),
        ) ==> decks_in(payload) == items,
        payload is Object && payload.get("Summary"@) is Some && payload.get("Deck"@) is Some && (
        forall|k: int|
            0 <= k < 6 ==> payload.get(#[trigger] deck_list_keys()[k]) is None) ==> decks_in(payload)
            == seq![payload],
        !(payload is Object) && !(payload is Array) ==> decks_in(payload).len() == 0,
{
    let keys = deck_list_keys();
    law_first_of(payload, keys, 0);
    law_first_of(payload, keys, 1);
    law_none_of(payload, keys);
    law_get(payload, "Summary"@);
    law_get(payload, "id"@);
    law_get(payload, "DeckId"@);
    assert(keys[0] == "PreconDecks"@ && keys[1] == "Decks"@);
    if !(payload is Object) && !(payload is Array) {
        assert forall|j: int| 0 <= j < keys.len() implies !(payload.get(
            #[trigger] keys[j],
        ) matches Some(JsonView::Array(_))) by {
            law_get(payload, keys[j]);
        }
    }
    if forall|k: int| 0 <= k < 6 ==> payload.get(#[trigger] deck_list_keys()[k]) is None {
        assert forall|j: int| 0 <= j < keys.len() implies !(payload.get(
            #[trigger] keys[j],
        ) matches Some(JsonView::Array(_))) by {
            assert(payload.get(deck_list_keys()[j]) is None);
        }
    }
}

/// An object with a card id and a quantity stands for so many copies of the card,
/// and for one copy where it gives no quantity.
pub proof fn law_card_objects(v: JsonView, id: u32, qty: u32)
    requires
        v.get("cardId"@) == Some(JsonView::Number(JsonNumber::Pos(id as u64))),
    ensures
        v.get("quantity"@) == Some(JsonView::Number(JsonNumber::Pos(qty as u64))) ==> card_in(v)
            == Some((id, qty)),
        v.get("quantity"@) is None && v.get("Quantity"@) is None ==> card_in(v) == Some(
            (id, 1u32),
        ),
{
    let ids = seq!["cardId"@, "CardId"@, "id"@, "Id"@];
    let quantities = seq!["quantity"@, "Quantity"@];
    law_first_of(v, ids, 0);
    law_first_of(v, quantities, 0);
    law_none_of(v, quantities);
    assert(quantities[0] == "quantity"@ && quantities[1] == "Quantity"@);
}

/// A list of objects holds what each of them stands for, one after the other:
/// one more object adds its entry at the end.
pub proof fn law_object_lists(items: Seq<JsonView>, v: JsonView)
    requires
        forall|i: int| 0 <= i < items.len() ==> (#[trigger] items[i]) is Object,
        v is Object,
    ensures
        cards_in(Some(JsonView::Array(items.push(v)))) == (match card_in(v) {
            Some(e) => cards_in(Some(JsonView::Array(items))).push(e),
            None => cards_in(Some(JsonView::Array(items))),
        }),
{
    let more = items.push(v);
    assert(more.drop_last() =~= items);
    assert(all_objects(items));
    assert forall|i: int| 0 <= i < more.len() implies (#[trigger] more[i]) is Object by {
        if i < items.len() {
            assert(more[i] == items[i]);
        }
    }
}

/// A list of card ids, some of which no quantity could be in that place, holds
/// one copy of each.
pub proof fn law_id_lists(ids: Seq<u32>, k: int)
    requires
        0 <= k < ids.len(),
        k % 2 == 1,
        ids[k] > 30,
    ensures
        ({
            let items = ids.map_values(
                |id: u32| JsonView::Number(JsonNumber::Pos(id as u64)),
            );
            cards_in(Some(JsonView::Array(items))) == ids.map_values(|id: u32| (id, 1u32))
        }),
{
    let items = ids.map_values(|id: u32| JsonView::Number(JsonNumber::Pos(id as u64)));
    assert(!(items[k] is Object));
    assert(items[k].natural() == Some(ids[k] as u64));
    assert(all_plain(items));
    assert(!looks_like_pairs(items));
    lemma_id_list(ids);
}

proof fn lemma_id_list(ids: Seq<u32>)
    ensures
        cards_in_ids(ids.map_values(|id: u32| JsonView::Number(JsonNumber::Pos(id as u64))))
            == ids.map_values(|id: u32| (id, 1u32)),
    decreases ids.len(),
{
    let items = ids.map_values(|id: u32| JsonView::Number(JsonNumber::Pos(id as u64)));
    if ids.len() > 0 {
        lemma_id_list(ids.drop_last());
        assert(items.drop_last() =~= ids.drop_last().map_values(
            |id: u32| JsonView::Number(JsonNumber::Pos(id as u64)),
        ));
        assert(cards_in_ids(items) =~= ids.map_values(|id: u32| (id, 1u32)));
    } else {
        assert(cards_in_ids(items) =~= ids.map_values(|id: u32| (id, 1u32)));
    }
}

/// A list of ids and quantities in turn holds them pair by pair.
pub proof fn law_pair_lists(pairs: Seq<(u32, u32)>)
    requires
        pairs.len() > 0,
        forall|i: int| 0 <= i < pairs.len() ==> (#[trigger] pairs[i]).1 <= 30,
    ensures
        cards_in(Some(JsonView::Array(in_turn(pairs)))) == pairs,
{
    let items = in_turn(pairs);
    assert(items[0] == JsonView::Number(JsonNumber::Pos(pairs[0].0 as u64)));
    assert(!(items[0] is Object));
    assert(all_plain(items));
    assert(looks_like_pairs(items)) by {
        assert forall|i: int| 0 <= i < items.len() && i % 2 == 1 implies {
            &&& (#[trigger] items[i]).natural() is Some
            &&& items[i].natural().unwrap() <= 30
        } by {
            assert(pairs[i / 2].1 <= 30);
        }
    }
    lemma_pair_list(pairs, pairs.len());
    assert(items.len() / 2 == pairs.len());
    assert(pairs.take(pairs.len() as int) =~= pairs);
}

/// Ids and quantities in turn.
pub open spec fn in_turn(pairs: Seq<(u32, u32)>) -> Seq<JsonView> {
    Seq::new(
        2 * pairs.len(),
        |i: int|
            JsonView::Number(
                JsonNumber::Pos(
                    if i % 2 == 0 {
                        pairs[i / 2].0 as u64
                    } else {
                        pairs[i / 2].1 as u64
                    },
                ),
            ),
    )
}

proof fn lemma_pair_list(pairs: Seq<(u32, u32)>, n: nat)
    requires
        n <= pairs.len(),
    ensures
        cards_in_pairs(in_turn(pairs), n) == pairs.take(n as int),
    decreases n,
{
    let items = in_turn(pairs);
    if n > 0 {
        lemma_pair_list(pairs, (n - 1) as nat);
        assert(items[2 * n - 2] == JsonView::Number(JsonNumber::Pos(pairs[n - 1].0 as u64)));
        assert(items[2 * n - 1] == JsonView::Number(JsonNumber::Pos(pairs[n - 1].1 as u64)));
        assert(pairs.take(n as int) =~= pairs.take(n - 1).push(pairs[n - 1]));
    } else {
        assert(pairs.take(0) =~= Seq::<(u32, u32)>::empty());
    }
}

/// A deck in its modern form is stored with the id and the name of its summary,
/// and with the cards of its lists: every copy of a card in the main deck is
/// counted in the main deck, and every one in the sideboard there.
pub proof fn law_modern_decks(
    r: DeckRecord,
    deck: JsonView,
    summary: JsonView,
    body: JsonView,
    main: Seq<JsonView>,
    side: Seq<JsonView>,
    id: Seq<char>,
    name: Seq<char>,
    kind: Seq<char>,
)
    requires
        records(r, deck, kind),
        deck.get("Summary"@) == Some(summary),
        deck.get("Deck"@) == Some(body),
        summary.get("DeckId"@) == Some(JsonView::Text(id)),
        summary.get("Name"@) == Some(JsonView::Text(name)),
        body.get("MainDeck"@) == Some(JsonView::Array(main)),
        body.get("Sideboard"@) == Some(JsonView::Array(side)),
    ensures
        r.summary.deck_id@ == id,
        r.summary.name@ == name,
        adds_up(r.summary.mainboard@, cards_in(Some(JsonView::Array(main)))),
        adds_up(r.summary.sideboard@, cards_in(Some(JsonView::Array(side)))),
        r.origin@ == "precon"@ || r.origin@ == "personal"@,
        r.origin@ == "precon"@ <==> is_precon(kind, name),
{
    reveal_strlit("precon");
    reveal_strlit("personal");
    assert("precon"@.len() != "personal"@.len());
    let ids = seq!["DeckId"@, "deckId"@, "id"@];
    let names = seq!["Name"@, "name"@];
    let mains = seq!["MainDeck"@, "mainDeck"@];
    let sides = seq!["Sideboard"@, "sideboard"@];
    law_first_of(summary, ids, 0);
    law_first_of(summary, names, 0);
    law_first_of(body, mains, 0);
    law_first_of(body, sides, 0);
}

/// A deck in its flat form is stored with its own id, name and lists.
pub proof fn law_flat_decks(
    r: DeckRecord,
    deck: JsonView,
    main: Seq<JsonView>,
    id: Seq<char>,
    kind: Seq<char>,
)
    requires
        records(r, deck, kind),
        deck.get("Summary"@) is None,
        deck.get("Deck"@) is None,
        deck.get("DeckId"@) is None,
        deck.get("deckId"@) is None,
        deck.get("id"@) == Some(JsonView::Text(id)),
        deck.get("MainDeck"@) is None,
        deck.get("mainDeck"@) == Some(JsonView::Array(main)),
    ensures
        r.summary.deck_id@ == id,
        adds_up(r.summary.mainboard@, cards_in(Some(JsonView::Array(main)))),
        deck.get("Name"@) is None && deck.get("name"@) is None ==> r.summary.name@ == "Unnamed"@,
{
    let ids = seq!["DeckId"@, "deckId"@, "id"@];
    let names = seq!["Name"@, "name"@];
    let mains = seq!["MainDeck"@, "mainDeck"@];
    assert(ids[0] == "DeckId"@ && ids[1] == "deckId"@ && ids[2] == "id"@);
    assert(names[0] == "Name"@ && names[1] == "name"@);
    assert(mains[0] == "MainDeck"@ && mains[1] == "mainDeck"@);
    law_first_of(deck, ids, 2);
    law_first_of(deck, mains, 1);
    law_none_of(deck, names);
}

/// The format of a deck is its own field where it has one, or else the value of
/// its attribute of that name.
pub proof fn law_formats(
    deck: JsonView,
    summary: JsonView,
    attributes: Seq<JsonView>,
    k: int,
    format: Seq<char>,
)
    ensures
        summary.get("Format"@) == Some(JsonView::Text(format)) ==> format_of(deck, Some(summary))
            == Some(format),
        ({
            &&& summary.get("Format"@) is None && summary.get("format"@) is None
            &&& deck.get("Format"@) is None && deck.get("format"@) is None
            &&& summary.get("Attributes"@) == Some(JsonView::Array(attributes))
            &&& 0 <= k < attributes.len()
            &&& attributes[k].get("name"@) == Some(JsonView::Text("Format"@))
            &&& attributes[k].get("value"@) == Some(JsonView::Text(format))
            &&& forall|j: int|
                0 <= j < k ==> (#[trigger] attributes[j]).get("name"@) != Some(
                    JsonView::Text("Format"@),
                )
        }) ==> format_of(deck, Some(summary)) == Some(format),
{
    let keys = seq!["Format"@, "format"@];
    assert(keys[0] == "Format"@ && keys[1] == "format"@);
    law_first_of(summary, keys, 0);
    law_none_of(summary, keys);
    law_none_of(deck, keys);
    if {
        &&& 0 <= k < attributes.len()
        &&& attributes[k].get("name"@) == Some(JsonView::Text("Format"@))
        &&& attributes[k].get("value"@) == Some(JsonView::Text(format))
        &&& forall|j: int|
            0 <= j < k ==> (#[trigger] attributes[j]).get("name"@) != Some(
                JsonView::Text("Format"@),
            )
    } {
        lemma_format_among(attributes, k, format);
    }
}

proof fn lemma_format_among(attributes: Seq<JsonView>, k: int, format: Seq<char>)
    requires
        0 <= k < attributes.len(),
        attributes[k].get("name"@) == Some(JsonView::Text("Format"@)),
        attributes[k].get("value"@) == Some(JsonView::Text(format)),
        forall|j: int|
            0 <= j < k ==> (#[trigger] attributes[j]).get("name"@) != Some(
                JsonView::Text("Format"@),
            ),
    ensures
        format_among(attributes) == Some(format),
    decreases attributes.len(),
{
    if k > 0 {
        let rest = attributes.skip(1);
        assert(attributes[0].get("name"@) != Some(JsonView::Text("Format"@)));
        assert(rest[k - 1] == attributes[k]);
        assert forall|j: int| 0 <= j < k - 1 implies (#[trigger] rest[j]).get("name"@) != Some(
            JsonView::Text("Format"@),
        ) by {
            assert(rest[j] == attributes[j + 1]);
        }
        lemma_format_among(rest, k - 1, format);
    }
}

/// An id is a number of 32 bits, or its decimal notation.
pub proof fn law_ids(n: u64, v: JsonView)
    ensures
        n <= u32::MAX ==> as_id(JsonView::Number(JsonNumber::Pos(n))) == Some(n as u32),
        n > u32::MAX ==> as_id(JsonView::Number(JsonNumber::Pos(n))) is None,
        n <= u32::MAX ==> as_id(JsonView::Text(text::decimal(n as nat))) == Some(n as u32),
        !(v is Number) && !(v is Text) ==> as_id(v) is None,
{
    if n <= u32::MAX {
        text::law_decimal_reads_back(n as nat, u32::MAX as nat);
    }
}

/// The picture of a deck is the card that its summary names, a number above
/// zero.
pub proof fn law_tiles(r: DeckRecord, deck: JsonView, summary: JsonView, n: u64, kind: Seq<char>)
    requires
        records(r, deck, kind),
        deck.get("Summary"@) == Some(summary),
        summary.get("DeckTileId"@) == Some(JsonView::Number(JsonNumber::Pos(n))),
        0 < n <= u32::MAX,
    ensures
        r.tile_card_id == Some(n as u32),
{
}

/// The decks of a payload may stand under any of the known names; of several
/// lists the first in this order counts.
pub proof fn law_deck_lists(payload: JsonView, k: int, items: Seq<JsonView>)
    requires
        payload is Object,
        0 <= k < 6,
        ({
            let names = seq![
                "PreconDecks"@,
                "Decks"@,
                "decks"@,
                "decklists"@,
                "PlayerDecks"@,
                "playerDecks"@,
            ];
            &&& payload.get(names[k]) == Some(JsonView::Array(items))
            &&& forall|j: int| 0 <= j < k ==> payload.get(#[trigger] names[j]) is None
        }),
    ensures
        decks_in(payload) == items,
{
    let names = seq![
        "PreconDecks"@,
        "Decks"@,
        "decks"@,
        "decklists"@,
        "PlayerDecks"@,
        "playerDecks"@,
    ];
    assert(deck_list_keys() =~= names);
    law_first_of(payload, names, k);
}

/// A payload is itself a deck where it has a summary and lists, an id and a name
/// in lower case, or a deck id with a name or a list; and else it is none.
pub proof fn law_single_decks(payload: JsonView)
    requires
        payload is Object,
        forall|k: int| 0 <= k < 6 ==> payload.get(#[trigger] deck_list_keys()[k]) is None,
    ensures
        ({
            let whole = payload.get("Summary"@) is Some && payload.get("Deck"@) is Some;
            let flat = payload.get("id"@) is Some && payload.get("name"@) is Some;
            let named = payload.get("DeckId"@) is Some && (payload.get("Name"@) is Some
                || payload.get("MainDeck"@) is Some);
            &&& whole || flat || named ==> decks_in(payload) == seq![payload]
            &&& !whole && !flat && !named ==> decks_in(payload).len() == 0
        }),
{
    let keys = deck_list_keys();
    law_none_of(payload, keys);
}

/// The card and the quantity of an object may stand under any of their names.
pub proof fn law_card_names(v: JsonView, k: int, id: u32, m: int, qty: u32)
    requires
        0 <= k < 4,
        0 <= m < 2,
        ({
            let ids = seq!["cardId"@, "CardId"@, "id"@, "Id"@];
            let amounts = seq!["quantity"@, "Quantity"@];
            &&& v.get(ids[k]) == Some(JsonView::Number(JsonNumber::Pos(id as u64)))
            &&& forall|j: int| 0 <= j < k ==> v.get(#[trigger] ids[j]) is None
            &&& v.get(amounts[m]) == Some(JsonView::Number(JsonNumber::Pos(qty as u64)))
            &&& forall|j: int| 0 <= j < m ==> v.get(#[trigger] amounts[j]) is None
        }),
    ensures
        card_in(v) == Some((id, qty)),
{
    law_first_of(v, seq!["cardId"@, "CardId"@, "id"@, "Id"@], k);
    law_first_of(v, seq!["quantity"@, "Quantity"@], m);
}

/// What names a deck may stand in its summary or beside it, under any of its
/// names, and the summary goes first.
pub proof fn law_deck_names(
    r: DeckRecord,
    deck: JsonView,
    summary: JsonView,
    kind: Seq<char>,
    k: int,
    id: Seq<char>,
    m: int,
    name: Seq<char>,
)
    requires
        records(r, deck, kind),
        deck.get("Summary"@) == Some(summary),
        0 <= k < 3,
        0 <= m < 2,
        ({
            let ids = seq!["DeckId"@, "deckId"@, "id"@];
            let names = seq!["Name"@, "name"@];
            &&& summary.get(ids[k]) == Some(JsonView::Text(id))
            &&& forall|j: int| 0 <= j < k ==> summary.get(#[trigger] ids[j]) is None
            &&& summary.get(names[m]) == Some(JsonView::Text(name))
            &&& forall|j: int| 0 <= j < m ==> summary.get(#[trigger] names[j]) is None
        }),
    ensures
        r.summary.deck_id@ == id,
        r.summary.name@ == name,
{
    law_first_of(summary, seq!["DeckId"@, "deckId"@, "id"@], k);
    law_first_of(summary, seq!["Name"@, "name"@], m);
}

/// The picture of a deck may stand under any of its names; a number that is zero
/// is none, and the next name counts.
pub proof fn law_tile_names(
    r: DeckRecord,
    deck: JsonView,
    summary: JsonView,
    kind: Seq<char>,
    k: int,
    n: u64,
)
    requires
        records(r, deck, kind),
        deck.get("Summary"@) == Some(summary),
        0 <= k < 4,
        0 < n <= u32::MAX,
        ({
            let names = seq!["DeckTileId"@, "deckTileId"@, "DeckArtId"@, "deckArtId"@];
            &&& summary.get(names[k]) == Some(JsonView::Number(JsonNumber::Pos(n)))
            &&& forall|j: int|
                0 <= j < k ==> summary.get(#[trigger] names[j]) is None || summary.get(names[j])
                    == Some(JsonView::Number(JsonNumber::Pos(0)))
        }),
    ensures
        r.tile_card_id == Some(n as u32),
{
    let names = seq!["DeckTileId"@, "deckTileId"@, "DeckArtId"@, "deckArtId"@];
    lemma_first_id(summary, names, k, n);
}

proof fn lemma_first_id(v: JsonView, keys: Seq<Seq<char>>, k: int, n: u64)
    requires
        0 <= k < keys.len(),
        0 < n <= u32::MAX,
        v.get(keys[k]) == Some(JsonView::Number(JsonNumber::Pos(n))),
        forall|j: int|
            0 <= j < k ==> v.get(#[trigger] keys[j]) is None || v.get(keys[j]) == Some(
                JsonView::Number(JsonNumber::Pos(0)),
            ),
    ensures
        first_id(v, keys) == Some(n as u32),
    decreases k,
{
    if k > 0 {
        let rest = keys.skip(1);
        assert(v.get(keys[0]) is None || v.get(keys[0]) == Some(
            JsonView::Number(JsonNumber::Pos(0)),
        ));
        assert(rest[k - 1] == keys[k]);
        assert forall|j: int| 0 <= j < k - 1 implies v.get(#[trigger] rest[j]) is None || v.get(
            rest[j],
        ) == Some(JsonView::Number(JsonNumber::Pos(0))) by {
            assert(rest[j] == keys[j + 1]);
        }
        lemma_first_id(v, rest, k - 1, n);
    }
}

} // verus!
