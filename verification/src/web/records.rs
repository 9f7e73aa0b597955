//! What is stored, as it is shown: matches, the collection, drafts, cards.
use serde_json::Value;
use vstd::prelude::*;

use crate::cards::{Card, CardDb, CardFace, Cmc};
use crate::json::{number_list, parse, parse_numbers, parsed, parsed_numbers, value_view};
use crate::patterns::opt_text;
use crate::state::copy_text;

use super::api::{ApiError, ErrorView};
use super::entries::{
    copy_list,
    copy_pairs,
    entry_views,
    find_card,
    local_image,
    localize,
    name_unknown,
    opt_pairs,
    opt_texts,
    show_entry,
    shown_entry,
    unknown_name,
    DeckCardEntry,
    EntryView,
};

verus! {

// ---------------------------------------------------------------------------
// Matches
// ---------------------------------------------------------------------------

/// A match as it is stored: won is nothing, zero or another number.
#[derive(Debug)]
pub struct StoredMatch {
    pub match_id: String,
    pub started_at: String,
    pub ended_at: Option<String>,
    pub opponent_screen_name: Option<String>,
    pub event_name: Option<String>,
    pub won: Option<i64>,
}

/// A match as it is shown.
#[derive(Debug)]
pub struct MatchRow {
    pub match_id: String,
    pub started_at: String,
    pub ended_at: Option<String>,
    pub opponent_screen_name: Option<String>,
    pub event_name: Option<String>,
    pub won: Option<bool>,
}

/// The row shows a stored match.
pub open spec fn shows_match(r: MatchRow, m: StoredMatch) -> bool {
    &&& r.match_id == m.match_id
    &&& r.started_at == m.started_at
    &&& r.ended_at == m.ended_at
    &&& r.opponent_screen_name == m.opponent_screen_name
    &&& r.event_name == m.event_name
    &&& r.won == match m.won {
        Some(w) => Some(w != 0),
        None => None,
    }
}

fn match_row(m: StoredMatch) -> (r: MatchRow)
    ensures
        shows_match(r, m),
{
    MatchRow {
        match_id: m.match_id,
        started_at: m.started_at,
        ended_at: m.ended_at,
        opponent_screen_name: m.opponent_screen_name,
        event_name: m.event_name,
        won: match m.won {
            Some(w) => Some(w != 0),
            None => None,
        },
    }
}

/// The matches, one row each.
pub fn list_matches(rows: Vec<StoredMatch>) -> (r: Vec<MatchRow>)
    ensures
        r@.len() == rows@.len(),
        forall|i: int| 0 <= i < r@.len() ==> shows_match(#[trigger] r@[i], rows@[i]),
{
    let mut r: Vec<MatchRow> = Vec::new();
    let ghost all = rows@;
    for m in it: rows
        invariant
            it.seq() == all,
            r@.len() == it.index(),
            forall|i: int| 0 <= i < r@.len() ==> shows_match(#[trigger] r@[i], all[i]),
    {
        r.push(match_row(m));
    }
    r
}

/// One match, where it is stored.
pub fn get_match(row: Option<StoredMatch>) -> (r: Result<MatchRow, ApiError>)
    ensures
        match r {
            Ok(m) => row is Some && shows_match(m, row.unwrap()),
            Err(e) => row is None && e@ == ErrorView::NotFound,
        },
{
    match row {
        Some(m) => Ok(match_row(m)),
        None => Err(ApiError::NotFound),
    }
}

// ---------------------------------------------------------------------------
// The collection and the wallet
// ---------------------------------------------------------------------------

/// A card of the collection.
#[derive(Debug)]
pub struct CollectionEntry {
    pub arena_id: u32,
    pub quantity: u32,
    pub name: String,
    pub set: Option<String>,
    pub rarity: Option<String>,
    pub colors: Option<Vec<String>>,
    pub type_line: Option<String>,
    pub mana_cost: Option<String>,
    pub cmc: Option<Cmc>,
    pub image_small: Option<String>,
    pub image_normal: Option<String>,
}

/// Gold, gems and wildcards.
#[derive(Debug)]
pub struct Wallet {
    pub gold: i64,
    pub gems: i64,
    pub wc_common: i64,
    pub wc_uncommon: i64,
    pub wc_rare: i64,
    pub wc_mythic: i64,
    pub vault_progress: i64,
    pub wc_track_position: i64,
    pub updated_at: String,
}

/// The entry shows a stored card and its quantity.
pub open spec fn shows_owned(e: CollectionEntry, row: (i64, i64), db: Map<u32, Card>) -> bool {
    &&& e.arena_id == row.0 as u32
    &&& e.quantity == row.1 as u32
    &&& match find_card(db, row.0 as u32) {
        Some(c) => {
            &&& e.name@ == c.name@
            &&& opt_text(e.set) == opt_text(c.set)
            &&& opt_text(e.rarity) == opt_text(c.rarity)
            &&& opt_texts(e.colors) == opt_texts(c.colors)
            &&& opt_text(e.type_line) == opt_text(c.type_line)
            &&& opt_text(e.mana_cost) == opt_text(c.mana_cost)
            &&& e.cmc == c.cmc
            &&& opt_text(e.image_small) == local_image(c.image_small)
            &&& opt_text(e.image_normal) == local_image(c.image_normal)
        },
        None => {
            &&& e.name@ == unknown_name(row.0 as int)
            &&& e.set is None
            &&& e.rarity is None
            &&& e.colors is None
            &&& e.type_line is None
            &&& e.mana_cost is None
            &&& e.cmc is None
            &&& e.image_small is None
            &&& e.image_normal is None
        },
    }
}

fn collection_entry(row: (i64, i64), cards: &CardDb) -> (e: CollectionEntry)
    requires
        cards.wf(),
    ensures
        shows_owned(e, row, cards@),
{
    let arena_id: u32 = row.0 as u32;
    let quantity: u32 = row.1 as u32;
    match cards.get(arena_id) {
        Some(c) => CollectionEntry {
            arena_id,
            quantity,
            name: c.name.clone(),
            set: copy_text(&c.set),
            rarity: copy_text(&c.rarity),
            colors: copy_list(&c.colors),
            type_line: copy_text(&c.type_line),
            mana_cost: copy_text(&c.mana_cost),
            cmc: c.cmc,
            image_small: localize(&c.image_small),
            image_normal: localize(&c.image_normal),
        },
        None => CollectionEntry {
            arena_id,
            quantity,
            name: name_unknown(row.0),
            set: None,
            rarity: None,
            colors: None,
            type_line: None,
            mana_cost: None,
            cmc: None,
            image_small: None,
            image_normal: None,
        },
    }
}

/// The collection, one entry for each stored card.
pub fn collection(rows: &Vec<(i64, i64)>, cards: &CardDb) -> (r: Vec<CollectionEntry>)
    requires
        cards.wf(),
    ensures
        r@.len() == rows@.len(),
        forall|i: int| 0 <= i < r@.len() ==> shows_owned(#[trigger] r@[i], rows@[i], cards@),
{
    let mut r: Vec<CollectionEntry> = Vec::new();
    let mut i: usize = 0;
    while i < rows.len()
        invariant
            i <= rows@.len(),
            cards.wf(),
            r@.len() == i,
            forall|k: int| 0 <= k < i ==> shows_owned(#[trigger] r@[k], rows@[k], cards@),
        decreases rows@.len() - i,
    {
        r.push(collection_entry(rows[i], cards));
        i += 1;
    }
    r
}

// ---------------------------------------------------------------------------
// Drafts
// ---------------------------------------------------------------------------

/// A draft in the list of drafts.
#[derive(Debug)]
pub struct DraftRow {
    pub draft_id: String,
    pub set_code: Option<String>,
    pub started_at: String,
    pub completed_at: Option<String>,
    pub picks: u32,
}

/// A pick as it is stored: where it stands, the card, and the cards of the
/// pack as a JSON list of ids.
#[derive(Debug)]
pub struct StoredPick {
    pub pack_number: i64,
    pub pick_number: i64,
    pub picked_card_id: i64,
    pub pack_card_ids: String,
}

/// A pick as it is shown.
#[derive(Debug)]
pub struct DraftPick {
    pub pack_number: u32,
    pub pick_number: u32,
    pub picked: DeckCardEntry,
    pub pack: Vec<DeckCardEntry>,
}

/// A draft, with how many picks it has.
pub fn draft_row(
    draft_id: String,
    set_code: Option<String>,
    started_at: String,
    completed_at: Option<String>,
    picks: i64,
) -> (r: DraftRow)
    ensures
        r == (DraftRow { draft_id, set_code, started_at, completed_at, picks: picks as u32 }),
{
    DraftRow { draft_id, set_code, started_at, completed_at, picks: picks as u32 }
}

/// A card of a pack as it is shown: nothing is said of what is owned or
/// missing, nor of formats.
pub open spec fn pack_entry(db: Map<u32, Card>, arena_id: u32, qty: u32) -> EntryView {
    shown_entry(find_card(db, arena_id), arena_id, qty, unknown_name(arena_id as int), 0, 0, false)
}

/// A card of a pack as it is shown.
pub fn card_to_entry(cards: &CardDb, arena_id: u32, qty: u32) -> (r: DeckCardEntry)
    requires
        cards.wf(),
    ensures
        r@ == pack_entry(cards@, arena_id, qty),
{
    show_entry(cards.get(arena_id), arena_id, qty, name_unknown(arena_id as i64), 0, 0, false)
}

/// The ids that a stored list holds; none where it cannot be read.
pub open spec fn ids_in(list: Seq<char>) -> Seq<u32> {
    match parsed_numbers(list) {
        Some(l) => l,
        None => seq![],
    }
}

/// The ids that a stored list holds. A list of ids that was stored is read
/// back as it was.
pub fn stored_ids(list: &str) -> (r: Vec<u32>)
    ensures
        r@ == ids_in(list@),
        forall|ids: Seq<u32>| list@ == #[trigger] number_list(ids) ==> r@ == ids,
{
    match parse_numbers(list) {
        Ok(l) => l,
        Err(_) => Vec::new(),
    }
}

/// The pick shows a stored pick.
pub open spec fn shows_pick(p: DraftPick, row: StoredPick, db: Map<u32, Card>) -> bool {
    &&& p.pack_number == row.pack_number as u32
    &&& p.pick_number == row.pick_number as u32
    &&& p.picked@ == pack_entry(db, row.picked_card_id as u32, 1)
    &&& entry_views(p.pack@) == ids_in(row.pack_card_ids@).map_values(
        |id: u32| pack_entry(db, id, 1),
    )
}

fn draft_pick(row: &StoredPick, cards: &CardDb) -> (p: DraftPick)
    requires
        cards.wf(),
    ensures
        shows_pick(p, *row, cards@),
{
    let ids = stored_ids(row.pack_card_ids.as_str());
    let mut pack: Vec<DeckCardEntry> = Vec::new();
    let mut i: usize = 0;
    while i < ids.len()
        invariant
            i <= ids@.len(),
            cards.wf(),
            pack@.len() == i,
            forall|k: int| 0 <= k < i ==> (#[trigger] pack@[k])@ == pack_entry(cards@, ids@[k], 1),
        decreases ids@.len() - i,
    {
        pack.push(card_to_entry(cards, ids[i], 1));
        i += 1;
    }
    assert(entry_views(pack@) =~= ids@.map_values(|id: u32| pack_entry(cards@, id, 1)));
    DraftPick {
        pack_number: row.pack_number as u32,
        pick_number: row.pick_number as u32,
        picked: card_to_entry(cards, row.picked_card_id as u32, 1),
        pack,
    }
}

/// The picks of a draft.
pub fn get_draft(rows: &Vec<StoredPick>, cards: &CardDb) -> (r: Vec<DraftPick>)
    requires
        cards.wf(),
    ensures
        r@.len() == rows@.len(),
        forall|i: int| 0 <= i < r@.len() ==> shows_pick(#[trigger] r@[i], rows@[i], cards@),
{
    let mut r: Vec<DraftPick> = Vec::new();
    let mut i: usize = 0;
    while i < rows.len()
        invariant
            i <= rows@.len(),
            cards.wf(),
            r@.len() == i,
            forall|k: int| 0 <= k < i ==> shows_pick(#[trigger] r@[k], rows@[k], cards@),
        decreases rows@.len() - i,
    {
        r.push(draft_pick(&rows[i], cards));
        i += 1;
    }
    r
}

// ---------------------------------------------------------------------------
// Cards
// ---------------------------------------------------------------------------

/// The faces hold the same.
pub open spec fn same_face(a: CardFace, b: CardFace) -> bool {
    &&& opt_text(a.mana_cost) == opt_text(b.mana_cost)
    &&& opt_text(a.type_line) == opt_text(b.type_line)
    &&& opt_texts(a.produced_mana) == opt_texts(b.produced_mana)
    &&& opt_text(a.oracle_text) == opt_text(b.oracle_text)
}

/// The lists of faces hold the same.
pub open spec fn same_faces(a: Option<Vec<CardFace>>, b: Option<Vec<CardFace>>) -> bool {
    match (a, b) {
        (Some(x), Some(y)) => x@.len() == y@.len() && forall|i: int|
            0 <= i < x@.len() ==> same_face(#[trigger] x@[i], y@[i]),
        (None, None) => true,
        _ => false,
    }
}

/// The cards hold the same, but for the images, whose addresses are local in
/// the first.
pub open spec fn with_local_images(a: Card, b: Card) -> bool {
    &&& a.arena_id == b.arena_id
    &&& a.name@ == b.name@
    &&& opt_text(a.mana_cost) == opt_text(b.mana_cost)
    &&& opt_text(a.type_line) == opt_text(b.type_line)
    &&& opt_texts(a.colors) == opt_texts(b.colors)
    &&& opt_text(a.rarity) == opt_text(b.rarity)
    &&& opt_text(a.set) == opt_text(b.set)
    &&& opt_text(a.collector_number) == opt_text(b.collector_number)
    &&& a.cmc == b.cmc
    &&& opt_text(a.image_small) == local_image(b.image_small)
    &&& opt_text(a.image_normal) == local_image(b.image_normal)
    &&& opt_text(a.scryfall_uri) == opt_text(b.scryfall_uri)
    &&& opt_pairs(a.legalities) == opt_pairs(b.legalities)
    &&& opt_text(a.oracle_text) == opt_text(b.oracle_text)
    &&& opt_texts(a.produced_mana) == opt_texts(b.produced_mana)
    &&& same_faces(a.card_faces, b.card_faces)
}

fn copy_faces(faces: &Option<Vec<CardFace>>) -> (r: Option<Vec<CardFace>>)
    ensures
        same_faces(r, *faces),
{
    match faces {
        Some(list) => {
            let mut r: Vec<CardFace> = Vec::new();
            let mut i: usize = 0;
            while i < list.len()
                invariant
                    i <= list@.len(),
                    r@.len() == i,
                    forall|k: int| 0 <= k < i ==> same_face(#[trigger] r@[k], list@[k]),
                decreases list@.len() - i,
            {
                let face = &list[i];
                r.push(
                    CardFace {
                        mana_cost: copy_text(&face.mana_cost),
                        type_line: copy_text(&face.type_line),
                        produced_mana: copy_list(&face.produced_mana),
                        oracle_text: copy_text(&face.oracle_text),
                    },
                );
                i += 1;
            }
            Some(r)
        },
        None => None,
    }
}

/// The card with this id, with local addresses of its images.
pub fn get_card(cards: &CardDb, id: u32) -> (r: Result<Card, ApiError>)
    requires
        cards.wf(),
    ensures
        match r {
            Ok(c) => cards@.contains_key(id) && with_local_images(c, cards@[id]),
            Err(e) => !cards@.contains_key(id) && e@ == ErrorView::NotFound,
        },
{
    match cards.get(id) {
        Some(c) => Ok(
            Card {
                arena_id: c.arena_id,
                name: c.name.clone(),
                mana_cost: copy_text(&c.mana_cost),
                type_line: copy_text(&c.type_line),
                colors: copy_list(&c.colors),
                rarity: copy_text(&c.rarity),
                set: copy_text(&c.set),
                collector_number: copy_text(&c.collector_number),
                cmc: c.cmc,
                image_small: localize(&c.image_small),
                image_normal: localize(&c.image_normal),
                scryfall_uri: copy_text(&c.scryfall_uri),
                legalities: copy_pairs(&c.legalities),
                oracle_text: copy_text(&c.oracle_text),
                produced_mana: copy_list(&c.produced_mana),
                card_faces: copy_faces(&c.card_faces),
            },
        ),
        None => Err(ApiError::NotFound),
    }
}

// ---------------------------------------------------------------------------
// Events
// ---------------------------------------------------------------------------

/// A request for the latest events.
#[derive(Debug)]
pub struct EventsQuery {
    pub limit: i64,
    pub kind: Option<String>,
}

/// How many events are shown where the request does not say.
pub fn default_limit() -> (n: i64)
    ensures
        n == 100,
{
    100
}

/// The payload of a stored event; nothing where it cannot be read.
pub fn stored_payload(text: &str) -> (r: Option<Value>)
    ensures
        match r {
            Some(v) => parsed(text@) == Some(value_view(v)),
            None => parsed(text@) is None,
        },
{
    match parse(text) {
        Ok(v) => Some(v),
        Err(_) => None,
    }
}

impl EventsQuery {
    /// How many events are shown: at least one, at most a thousand.
    pub fn clamped_limit(&self) -> (n: i64)
        ensures
            n == (if self.limit < 1 {
                1int
            } else if self.limit > 1000 {
                1000int
            } else {
                self.limit as int
            }),
    {
        if self.limit < 1 {
            1
        } else if self.limit > 1000 {
            1000
        } else {
            self.limit
        }
    }
}

/// A match was won where a number other than zero is stored, lost where zero is,
/// and neither where nothing is.
pub proof fn law_match_shown(r: MatchRow, m: StoredMatch, n: i64)
    requires
        shows_match(r, m),
    ensures
        m.won == Some(n) && n != 0 ==> r.won == Some(true),
        m.won == Some(0i64) ==> r.won == Some(false),
        m.won is None ==> r.won is None,
{
}

/// The cards of a draft are shown without what the collection has of them.
pub proof fn law_pack_entries(db: Map<u32, Card>, id: u32, qty: u32)
    ensures
        ({
            let e = pack_entry(db, id, qty);
            &&& e.arena_id == id
            &&& e.quantity == qty
            &&& e.owned == 0 && e.missing == 0 && e.legalities is None
            &&& db.contains_key(id) ==> e.name == db[id].name@ && e.cmc == db[id].cmc
            &&& !db.contains_key(id) ==> e.name == "Card #"@ + crate::text::decimal(id as nat)
        }),
{
}

/// A pick shows the card that was picked and the cards that were there, in their
/// order.
pub proof fn law_pick_shown(p: DraftPick, row: StoredPick, ids: Seq<u32>, db: Map<u32, Card>, i: int)
    requires
        shows_pick(p, row, db),
        ids_in(row.pack_card_ids@) == ids,
        0 <= row.picked_card_id <= u32::MAX,
        0 <= row.pack_number <= u32::MAX,
        0 <= row.pick_number <= u32::MAX,
    ensures
        p.pack_number == row.pack_number,
        p.pick_number == row.pick_number,
        p.picked.arena_id == row.picked_card_id,
        p.picked.quantity == 1,
        p.pack@.len() == ids.len(),
        0 <= i < ids.len() ==> p.pack@[i].arena_id == ids[i] && p.pack@[i].quantity == 1,
{
    assert(p.picked@.arena_id == p.picked.arena_id);
    assert(entry_views(p.pack@).len() == p.pack@.len());
    if 0 <= i < ids.len() {
        assert(entry_views(p.pack@)[i] == p.pack@[i]@);
        assert(p.pack@[i]@ == pack_entry(db, ids[i], 1));
    }
}

/// A card of the collection is shown with its number of copies, and by its name
/// where it is known.
pub proof fn law_owned_shown(e: CollectionEntry, row: (i64, i64), db: Map<u32, Card>)
    requires
        shows_owned(e, row, db),
        0 <= row.0 <= u32::MAX,
        0 <= row.1 <= u32::MAX,
    ensures
        e.arena_id == row.0,
        e.quantity == row.1,
        db.contains_key(row.0 as u32) ==> e.name@ == db[row.0 as u32].name@,
        !db.contains_key(row.0 as u32) ==> e.name@ == "Card #"@ + crate::text::decimal(row.0 as nat),
{
}

/// A card of the collection is shown with all that is known of it, and its images
/// under their local addresses.
pub proof fn law_owned_card_shown(e: CollectionEntry, row: (i64, i64), db: Map<u32, Card>)
    requires
        shows_owned(e, row, db),
        db.contains_key(row.0 as u32),
    ensures
        ({
            let c = db[row.0 as u32];
            &&& opt_text(e.set) == opt_text(c.set)
            &&& opt_text(e.rarity) == opt_text(c.rarity)
            &&& opt_texts(e.colors) == opt_texts(c.colors)
            &&& opt_text(e.type_line) == opt_text(c.type_line)
            &&& opt_text(e.mana_cost) == opt_text(c.mana_cost)
            &&& e.cmc == c.cmc
            &&& c.image_small is Some ==> opt_text(e.image_small) == Some(
                crate::cards::local_url(c.image_small->Some_0@),
            )
            &&& c.image_normal is Some ==> opt_text(e.image_normal) == Some(
                crate::cards::local_url(c.image_normal->Some_0@),
            )
        }),
{
}

/// A card is shown as it is stored, but for its images, which are under their
/// local addresses.
pub proof fn law_card_shown(a: Card, b: Card, k: int)
    requires
        with_local_images(a, b),
    ensures
        a.arena_id == b.arena_id,
        a.name@ == b.name@,
        a.cmc == b.cmc,
        opt_text(a.mana_cost) == opt_text(b.mana_cost),
        opt_text(a.type_line) == opt_text(b.type_line),
        opt_texts(a.colors) == opt_texts(b.colors),
        opt_text(a.rarity) == opt_text(b.rarity),
        opt_text(a.set) == opt_text(b.set),
        opt_text(a.collector_number) == opt_text(b.collector_number),
        opt_text(a.oracle_text) == opt_text(b.oracle_text),
        opt_pairs(a.legalities) == opt_pairs(b.legalities),
        b.image_small is Some ==> opt_text(a.image_small) == Some(
            crate::cards::local_url(b.image_small->Some_0@),
        ),
        b.image_normal is Some ==> opt_text(a.image_normal) == Some(
            crate::cards::local_url(b.image_normal->Some_0@),
        ),
        b.image_small is None ==> a.image_small is None,
        b.card_faces matches Some(faces) ==> {
            &&& a.card_faces matches Some(shown)
            &&& shown@.len() == faces@.len()
            &&& 0 <= k < faces@.len() ==> opt_text(shown@[k].mana_cost) == opt_text(
                faces@[k].mana_cost,
            ) && opt_text(shown@[k].type_line) == opt_text(faces@[k].type_line) && opt_text(
                shown@[k].oracle_text,
            ) == opt_text(faces@[k].oracle_text)
        },
{
}

} // verus!
