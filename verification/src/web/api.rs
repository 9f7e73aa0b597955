//! Decks: listing, showing, exporting, creating, changing.
use vstd::prelude::*;
use vstd::string::StringExecFns;

use crate::cards::{
    is_print,
    local_url,
    print_of,
    prints_as,
    rewrite_image_url,
    Card,
    CardDb,
};
use crate::counts::{countable, dedupe, is_countable, merged};
use crate::localization::{translated, LocDb};
use crate::patterns::{arena_form, id_form, opt_text, print_char, set_char};
use crate::state::copy_text;
use crate::text::{
    self,
    ascii_lowercase,
    ascii_uppercase,
    begins,
    decimal,
    decimal_int,
    is_digit,
    law_decimal_reads_back,
    lemma_case_folds,
    lemma_decimal_len,
    lemma_lines_push,
    lines,
    replaced,
    texts,
    trimmed,
    upper,
    without_cr,
};

use super::costs::{rank, rank_of, DeckCost};
use super::entries::{entry_views, find_card, DeckCardEntry, EntryView};
use super::import::{
    law_id_lines,
    law_printed_lines,
    listed,
    listing_of,
    meaning_of,
    parse_arena_decklist,
    with_line,
    Line,
    Listing,
};
use super::wildcards::{Analysis, WildcardCost};

verus! {

// ---------------------------------------------------------------------------
// Errors
// ---------------------------------------------------------------------------

/// Why a request is turned down.
#[derive(Debug)]
pub enum ApiError {
    NotFound,
    BadRequest(String),
}

/// Why a request is turned down.
pub ghost enum ErrorView {
    NotFound,
    BadRequest(Seq<char>),
}

impl View for ApiError {
    type V = ErrorView;

    open spec fn view(&self) -> ErrorView {
        match self {
            ApiError::NotFound => ErrorView::NotFound,
            ApiError::BadRequest(s) => ErrorView::BadRequest(s@),
        }
    }
}

impl ApiError {
    /// The status code of the answer.
    pub fn status(&self) -> (code: u16)
        ensures
            code == (match self@ {
                ErrorView::NotFound => 404int,
                ErrorView::BadRequest(_) => 400int,
            }),
    {
        match self {
            ApiError::NotFound => 404,
            ApiError::BadRequest(_) => 400,
        }
    }

    /// The message of the answer.
    pub fn message(&self) -> (r: String)
        ensures
            r@ == (match self@ {
                ErrorView::NotFound => "not found"@,
                ErrorView::BadRequest(s) => s,
            }),
    {
        match self {
            ApiError::NotFound => text::owned("not found"),
            ApiError::BadRequest(s) => s.clone(),
        }
    }
}

fn refuse(s: &str) -> (e: ApiError)
    ensures
        e@ == ErrorView::BadRequest(s@),
{
    ApiError::BadRequest(text::owned(s))
}

// ---------------------------------------------------------------------------
// Pictures of decks
// ---------------------------------------------------------------------------

/// The picture of a card: the art of its small image.
pub open spec fn art_of(card: Option<Card>) -> Option<Seq<char>> {
    match card {
        Some(c) => match c.image_small {
            Some(u) => Some(replaced(local_url(u@), "/small/"@, "/art_crop/"@)),
            None => None,
        },
        None => None,
    }
}

/// The picture of a deck: that of the card the game chose, or else that of the
/// fallback.
pub open spec fn tile_art(
    db: Map<u32, Card>,
    tile_card_id: Option<i64>,
    fallback: Option<u32>,
) -> Option<Seq<char>> {
    let chosen = match tile_card_id {
        Some(id) => art_of(find_card(db, id as u32)),
        None => None,
    };
    if chosen is Some {
        chosen
    } else {
        match fallback {
            Some(id) => art_of(find_card(db, id)),
            None => None,
        }
    }
}

fn art(cards: &CardDb, id: u32) -> (r: Option<String>)
    requires
        cards.wf(),
    ensures
        opt_text(r) == art_of(find_card(cards@, id)),
{
    match cards.get(id) {
        Some(c) => match &c.image_small {
            Some(u) => {
                let local = rewrite_image_url(u.as_str());
                proof {
                    reveal_strlit("/small/");
                }
                Some(text::replace(local.as_str(), "/small/", "/art_crop/"))
            },
            None => None,
        },
        None => None,
    }
}

/// The picture of a deck.
pub fn resolve_tile_art(
    cards: &CardDb,
    tile_card_id: Option<i64>,
    fallback: Option<u32>,
) -> (r: Option<String>)
    requires
        cards.wf(),
    ensures
        opt_text(r) == tile_art(cards@, tile_card_id, fallback),
{
    if let Some(id) = tile_card_id {
        let chosen = art(cards, id as u32);
        if chosen.is_some() {
            return chosen;
        }
    }
    match fallback {
        Some(id) => art(cards, id),
        None => None,
    }
}

/// The position of the best card with an image: of the highest rank, the last
/// of equal ones.
pub open spec fn best_card(entries: Seq<EntryView>) -> Option<int>
    decreases entries.len(),
{
    if entries.len() == 0 {
        None
    } else {
        let before = best_card(entries.drop_last());
        if entries.last().image_small is None {
            before
        } else {
            match before {
                Some(i) if rank(entries.last().rarity) < rank(entries[i].rarity) => Some(i),
                _ => Some(entries.len() - 1),
            }
        }
    }
}

/// The card to show a deck by where the game chose none.
pub fn fallback_tile(entries: &Vec<DeckCardEntry>) -> (r: Option<u32>)
    ensures
        r == (match best_card(entry_views(entries@)) {
            Some(i) => Some(entry_views(entries@)[i].arena_id),
            None => None,
        }),
{
    let ghost all = entry_views(entries@);
    let mut best: Option<usize> = None;
    let mut i: usize = 0;
    assert(all.take(0) =~= Seq::<EntryView>::empty());
    while i < entries.len()
        invariant
            i <= entries@.len(),
            all == entry_views(entries@),
            match best {
                Some(k) => best_card(all.take(i as int)) == Some(k as int) && k < i,
                None => best_card(all.take(i as int)) is None,
            },
        decreases entries@.len() - i,
    {
        assert(all.take(i + 1).drop_last() =~= all.take(i as int));
        assert(all.take(i + 1).last() == entries@[i as int]@);
        if entries[i].image_small.is_some() {
            match best {
                Some(k) => {
                    assert(all.take(i as int)[k as int] == entries@[k as int]@);
                    if rank_of(&entries[i].rarity) >= rank_of(&entries[k].rarity) {
                        best = Some(i);
                    }
                },
                None => {
                    best = Some(i);
                },
            }
        }
        i += 1;
    }
    assert(all.take(i as int) =~= all);
    match best {
        Some(k) => {
            assert(all[k as int] == entries@[k as int]@);
            Some(entries[k].arena_id)
        },
        None => None,
    }
}

// ---------------------------------------------------------------------------
// Listing and showing
// ---------------------------------------------------------------------------

/// A deck as it is stored.
#[derive(Debug)]
pub struct DeckHead {
    pub deck_id: String,
    pub name: String,
    pub format: Option<String>,
    pub origin: String,
    pub last_updated: String,
    pub tile_card_id: Option<i64>,
}

/// A deck in the list of decks.
#[derive(Debug)]
pub struct DeckRow {
    pub deck_id: String,
    pub name: String,
    pub format: Option<String>,
    pub origin: String,
    pub last_updated: String,
    pub wildcards_needed: WildcardCost,
    pub total_missing: u32,
    /// The colors in the order W, U, B, R, G.
    pub colors: Vec<String>,
    /// The address of the deck's picture.
    pub tile_art: Option<String>,
}

/// A deck with its cards.
#[derive(Debug)]
pub struct DeckDetail {
    pub deck_id: String,
    pub name: String,
    pub format: Option<String>,
    pub mainboard: Vec<DeckCardEntry>,
    pub sideboard: Vec<DeckCardEntry>,
    pub wildcards_needed: WildcardCost,
    pub unique_missing: u32,
    pub total_missing: u32,
    pub tile_art: Option<String>,
}

/// The position of the first cost for a deck.
pub open spec fn cost_position(costs: Seq<(String, DeckCost)>, deck_id: Seq<char>) -> Option<int>
    decreases costs.len(),
{
    if costs.len() == 0 {
        None
    } else {
        match cost_position(costs.drop_last(), deck_id) {
            Some(i) => Some(i),
            None => if costs.last().0@ == deck_id {
                Some(costs.len() - 1)
            } else {
                None
            },
        }
    }
}

/// The row is that of a stored deck, with its cost where one is known.
pub open spec fn is_row(
    r: DeckRow,
    head: DeckHead,
    costs: Seq<(String, DeckCost)>,
    names: Map<Seq<char>, Seq<char>>,
    db: Map<u32, Card>,
) -> bool {
    &&& r.deck_id@ == head.deck_id@
    &&& r.name@ == translated(names, head.name@)
    &&& opt_text(r.format) == opt_text(head.format)
    &&& r.origin@ == head.origin@
    &&& r.last_updated@ == head.last_updated@
    &&& match cost_position(costs, head.deck_id@) {
        Some(i) => {
            &&& r.wildcards_needed == costs[i].1.wildcards_needed
            &&& r.total_missing == costs[i].1.total_missing
            &&& texts(r.colors@) == texts(costs[i].1.colors@)
            &&& opt_text(r.tile_art) == tile_art(db, head.tile_card_id, costs[i].1.tile_fallback)
        },
        None => {
            &&& r.wildcards_needed == (WildcardCost { common: 0, uncommon: 0, rare: 0, mythic: 0 })
            &&& r.total_missing == 0
            &&& r.colors@.len() == 0
            &&& opt_text(r.tile_art) == tile_art(db, head.tile_card_id, None)
        },
    }
}

fn find_cost(costs: &Vec<(String, DeckCost)>, deck_id: &str) -> (r: Option<usize>)
    ensures
        match r {
            Some(i) => cost_position(costs@, deck_id@) == Some(i as int) && i < costs@.len(),
            None => cost_position(costs@, deck_id@) is None,
        },
{
    let mut i: usize = 0;
    assert(costs@.take(0) =~= Seq::<(String, DeckCost)>::empty());
    while i < costs.len()
        invariant
            i <= costs@.len(),
            cost_position(costs@.take(i as int), deck_id@) is None,
        decreases costs@.len() - i,
    {
        assert(costs@.take(i + 1).drop_last() =~= costs@.take(i as int));
        if text::same(costs[i].0.as_str(), deck_id) {
            proof {
                lemma_cost_position(costs@, i + 1, deck_id@);
            }
            return Some(i);
        }
        i += 1;
    }
    assert(costs@.take(i as int) =~= costs@);
    None
}

proof fn lemma_cost_position(costs: Seq<(String, DeckCost)>, n: int, deck_id: Seq<char>)
    requires
        0 <= n <= costs.len(),
        cost_position(costs.take(n), deck_id) is Some,
    ensures
        cost_position(costs, deck_id) == cost_position(costs.take(n), deck_id),
    decreases costs.len() - n,
{
    if n < costs.len() {
        assert(costs.take(n + 1).drop_last() =~= costs.take(n));
        lemma_cost_position(costs, n + 1, deck_id);
    } else {
        assert(costs.take(n) =~= costs);
    }
}

/// A stored deck in the list of decks.
pub fn deck_row(
    head: &DeckHead,
    costs: &Vec<(String, DeckCost)>,
    loc: &LocDb,
    cards: &CardDb,
) -> (r: DeckRow)
    requires
        cards.wf(),
    ensures
        is_row(r, *head, costs@, loc@, cards@),
{
    let name = text::owned(loc.translate(head.name.as_str()));
    match find_cost(costs, head.deck_id.as_str()) {
        Some(i) => {
            let cost = &costs[i].1;
            DeckRow {
                deck_id: head.deck_id.clone(),
                name,
                format: copy_text(&head.format),
                origin: head.origin.clone(),
                last_updated: head.last_updated.clone(),
                wildcards_needed: cost.wildcards_needed,
                total_missing: cost.total_missing,
                colors: text::copy_texts(&cost.colors),
                tile_art: resolve_tile_art(cards, head.tile_card_id, cost.tile_fallback),
            }
        },
        None => DeckRow {
            deck_id: head.deck_id.clone(),
            name,
            format: copy_text(&head.format),
            origin: head.origin.clone(),
            last_updated: head.last_updated.clone(),
            wildcards_needed: WildcardCost { common: 0, uncommon: 0, rare: 0, mythic: 0 },
            total_missing: 0,
            colors: Vec::new(),
            tile_art: resolve_tile_art(cards, head.tile_card_id, None),
        },
    }
}

/// The list of decks.
pub fn list_decks(
    heads: &Vec<DeckHead>,
    costs: &Vec<(String, DeckCost)>,
    loc: &LocDb,
    cards: &CardDb,
) -> (r: Vec<DeckRow>)
    requires
        cards.wf(),
    ensures
        r@.len() == heads@.len(),
        forall|i: int|
            0 <= i < r@.len() ==> is_row(#[trigger] r@[i], heads@[i], costs@, loc@, cards@),
{
    let mut r: Vec<DeckRow> = Vec::new();
    let mut i: usize = 0;
    while i < heads.len()
        invariant
            i <= heads@.len(),
            cards.wf(),
            r@.len() == i,
            forall|k: int|
                0 <= k < i ==> is_row(#[trigger] r@[k], heads@[k], costs@, loc@, cards@),
        decreases heads@.len() - i,
    {
        r.push(deck_row(&heads[i], costs, loc, cards));
        i += 1;
    }
    r
}

/// A deck with its cards; no deck is found where there is no head.
pub fn get_deck(
    head: Option<DeckHead>,
    analysis: Analysis,
    loc: &LocDb,
    cards: &CardDb,
) -> (r: Result<DeckDetail, ApiError>)
    requires
        cards.wf(),
    ensures
        match r {
            Ok(d) => head is Some && ({
                let h = head.unwrap();
                &&& d.deck_id@ == h.deck_id@
                &&& d.name@ == translated(loc@, h.name@)
                &&& d.format == h.format
                &&& d.mainboard == analysis.mainboard
                &&& d.sideboard == analysis.sideboard
                &&& d.wildcards_needed == analysis.cost
                &&& d.unique_missing == analysis.unique_missing
                &&& d.total_missing == analysis.total_missing
                &&& opt_text(d.tile_art) == tile_art(
                    cards@,
                    h.tile_card_id,
                    match best_card(entry_views(analysis.mainboard@)) {
                        Some(i) => Some(entry_views(analysis.mainboard@)[i].arena_id),
                        None => None,
                    },
                )
            }),
            Err(e) => head is None && e@ == ErrorView::NotFound,
        },
{
    let h = match head {
        Some(h) => h,
        None => {
            return Err(ApiError::NotFound);
        },
    };
    let fallback = fallback_tile(&analysis.mainboard);
    let tile = resolve_tile_art(cards, h.tile_card_id, fallback);
    Ok(
        DeckDetail {
            deck_id: h.deck_id,
            name: text::owned(loc.translate(h.name.as_str())),
            format: h.format,
            mainboard: analysis.mainboard,
            sideboard: analysis.sideboard,
            wildcards_needed: analysis.cost,
            unique_missing: analysis.unique_missing,
            total_missing: analysis.total_missing,
            tile_art: tile,
        },
    )
}

// ---------------------------------------------------------------------------
// Exporting
// ---------------------------------------------------------------------------

/// The line for a card: with set and number where they are known, by name
/// alone where they are not, and by id where the card is not known.
pub open spec fn export_line(row: (i64, i64, i64), db: Map<u32, Card>) -> Seq<char> {
    match find_card(db, row.0 as u32) {
        Some(c) => match (c.set, c.collector_number) {
            (Some(set), Some(num)) => decimal_int(row.1 as int) + " "@ + c.name@ + " ("@
                + upper(set@) + ") "@ + num@,
            _ => decimal_int(row.1 as int) + " "@ + c.name@,
        },
        None => decimal_int(row.0 as int) + ","@ + decimal_int(row.1 as int),
    }
}

/// Some row is in the sideboard.
pub open spec fn has_side(rows: Seq<(i64, i64, i64)>) -> bool {
    exists|i: int| 0 <= i < rows.len() && (#[trigger] rows[i]).2 != 0
}

/// The rows as text: the first row of the sideboard comes below a header.
pub open spec fn exported_rows(rows: Seq<(i64, i64, i64)>, db: Map<u32, Card>) -> Seq<char>
    decreases rows.len(),
{
    if rows.len() == 0 {
        "Deck\n"@
    } else {
        let before = exported_rows(rows.drop_last(), db);
        let header = if rows.last().2 != 0 && !has_side(rows.drop_last()) {
            "\nSideboard\n"@
        } else {
            seq![]
        };
        before + header + export_line(rows.last(), db) + "\n"@
    }
}

fn push_line(out: &mut String, row: (i64, i64, i64), cards: &CardDb)
    requires
        cards.wf(),
    ensures
        final(out)@ == old(out)@ + export_line(row, cards@) + "\n"@,
{
    let ghost was = out@;
    match cards.get(row.0 as u32) {
        Some(c) => {
            text::push_decimal_int(out, row.1);
            out.append(" ");
            out.append(c.name.as_str());
            if let (Some(set), Some(num)) = (&c.set, &c.collector_number) {
                out.append(" (");
                out.append(text::to_upper(set.as_str()).as_str());
                out.append(") ");
                out.append(num.as_str());
            }
            out.append("\n");
            assert(out@ =~= was + export_line(row, cards@) + "\n"@);
        },
        None => {
            text::push_decimal_int(out, row.0);
            out.append(",");
            text::push_decimal_int(out, row.1);
            out.append("\n");
            assert(out@ =~= was + export_line(row, cards@) + "\n"@);
        },
    }
}

/// A deck as text; a deck that is not there is not found.
pub fn export_deck(
    found: bool,
    rows: &Vec<(i64, i64, i64)>,
    cards: &CardDb,
) -> (r: Result<String, ApiError>)
    requires
        cards.wf(),
    ensures
        match r {
            Ok(s) => found && s@ == exported_rows(rows@, cards@),
            Err(e) => !found && e@ == ErrorView::NotFound,
        },
{
    if !found {
        return Err(ApiError::NotFound);
    }
    let ghost db = cards@;
    let mut r = text::owned("Deck\n");
    let mut in_side = false;
    let mut i: usize = 0;
    assert(rows@.take(0) =~= Seq::<(i64, i64, i64)>::empty());
    while i < rows.len()
        invariant
            i <= rows@.len(),
            cards.wf(),
            db == cards@,
            in_side == has_side(rows@.take(i as int)),
            r@ == exported_rows(rows@.take(i as int), db),
        decreases rows@.len() - i,
    {
        let row = rows[i];
        let ghost a = rows@.take(i as int);
        let ghost b = rows@.take(i + 1);
        let ghost was = r@;
        let ghost was_side = in_side;
        proof {
            assert(b.drop_last() =~= a);
            assert(b.last() == row);
        }
        if row.2 != 0 && !in_side {
            r.append("\nSideboard\n");
            in_side = true;
        }
        push_line(&mut r, row, cards);
        proof {
            if has_side(a) {
                let k = choose|k: int| 0 <= k < a.len() && (#[trigger] a[k]).2 != 0;
                assert(b[k].2 != 0);
            }
            if row.2 != 0 {
                assert(b[i as int].2 != 0);
            } else if has_side(b) {
                let k = choose|k: int| 0 <= k < b.len() && (#[trigger] b[k]).2 != 0;
                assert(a[k].2 != 0);
            }
            assert(r@ =~= exported_rows(b, db));
        }
        i += 1;
    }
    assert(rows@.take(i as int) =~= rows@);
    Ok(r)
}

/// The line for a row is a single line, which reads as the row.
pub open spec fn reads_back(row: (i64, i64, i64), db: Map<u32, Card>) -> bool {
    let line = export_line(row, db);
    &&& !line.contains('\n')
    &&& meaning_of(without_cr(line), db) == Line::Entry(row.0 as u32, row.1 as u32)
}

/// The rows of the sideboard come after those of the main deck.
pub open spec fn side_last(rows: Seq<(i64, i64, i64)>) -> bool {
    forall|i: int, j: int|
        0 <= i <= j < rows.len() && (#[trigger] rows[i]).2 != 0 ==> (#[trigger] rows[j]).2 != 0
}

/// The entries that stand for rows.
pub open spec fn row_entries(rows: Seq<(i64, i64, i64)>) -> Seq<(u32, u32, bool)> {
    rows.map_values(|r: (i64, i64, i64)| (r.0 as u32, r.1 as u32, r.2 != 0))
}

/// The row has a line of its own kind that can be read: by printing where the
/// card is known, by id where it is not. The name is not empty and has no line
/// feed, the set code and the number are of the characters that such codes have,
/// and no newer card has the same printing.
pub open spec fn plain_row(row: (i64, i64, i64), db: Map<u32, Card>) -> bool {
    &&& 0 <= row.0 <= u32::MAX
    &&& 0 < row.1 <= u32::MAX
    &&& match find_card(db, row.0 as u32) {
        Some(c) => match (c.set, c.collector_number) {
            (Some(set), Some(num)) => {
                &&& c.name@.len() > 0 && !c.name@.contains('\n')
                &&& 2 <= set@.len() <= 5
                &&& forall|i: int| 0 <= i < set@.len() ==> set_char(#[trigger] set@[i])
                &&& num@.len() > 0
                &&& forall|i: int| 0 <= i < num@.len() ==> print_char(#[trigger] num@[i])
                &&& print_of(db, set@, num@) == Some(row.0 as u32)
            },
            _ => false,
        },
        None => 100 <= row.0 < 10_000_000,
    }
}

/// A deck that is exported and read again is the same deck: the text reads as
/// the rows, each on its side, and no line is left over.
pub proof fn law_export_reads_back(rows: Seq<(i64, i64, i64)>, db: Map<u32, Card>)
    requires
        side_last(rows),
        forall|i: int| 0 <= i < rows.len() ==> plain_row(#[trigger] rows[i], db),
    ensures
        ({
            let l = listing_of(exported_rows(rows, db), db);
            &&& l.entries == row_entries(rows)
            &&& l.unmatched.len() == 0
        }),
{
    assert forall|i: int| 0 <= i < rows.len() implies single_line(#[trigger] rows[i], db) by {
        lemma_plain_line(rows[i], db);
    }
    assert forall|i: int| 0 <= i < rows.len() implies reads_back(#[trigger] rows[i], db) by {
        lemma_plain_meaning(rows[i], db);
    }
    lemma_export_listing(rows, db);
}

/// The line for a row is a single line, without a carriage return at its end.
pub open spec fn single_line(row: (i64, i64, i64), db: Map<u32, Card>) -> bool {
    !export_line(row, db).contains('\n') && without_cr(export_line(row, db)) == export_line(row, db)
}

proof fn lemma_apart(a: Seq<char>, b: Seq<char>, c: char)
    requires
        !a.contains(c),
        !b.contains(c),
    ensures
        !(a + b).contains(c),
{
    if (a + b).contains(c) {
        let k = choose|k: int| 0 <= k < (a + b).len() && (a + b)[k] == c;
        if k < a.len() {
            assert(a[k] == c);
        } else {
            assert(b[k - a.len()] == c);
        }
    }
}

/// Of one printing there is one newest card, whatever the case of the set code.
proof fn lemma_print_folds(db: Map<u32, Card>, set: Seq<char>, num: Seq<char>)
    ensures
        print_of(db, ascii_uppercase(set), num) == print_of(db, set, num),
{
    lemma_case_folds(set);
    let up = ascii_uppercase(set);
    assert forall|id: u32| is_print(db, up, num, id) == is_print(db, set, num, id) by {
        assert forall|other: u32| #[trigger]
            db.contains_key(other) implies prints_as(db[other], up, num) == prints_as(
            db[other],
            set,
            num,
        ) by {}
        if is_print(db, up, num, id) {
            assert(is_print(db, set, num, id));
        }
        if is_print(db, set, num, id) {
            assert(is_print(db, up, num, id));
        }
    }
    if exists|id: u32| is_print(db, set, num, id) {
        let a = choose|id: u32| is_print(db, set, num, id);
        let b = choose|id: u32| is_print(db, up, num, id);
        assert(is_print(db, up, num, a));
        assert(is_print(db, up, num, b));
        assert(db.contains_key(a) && db.contains_key(b));
        assert(a == b);
    } else {
        assert forall|id: u32| !is_print(db, up, num, id) by {
            assert(!is_print(db, set, num, id));
        }
    }
}

/// The parts of the line for a row.
proof fn lemma_parts(row: (i64, i64, i64), db: Map<u32, Card>)
    requires
        plain_row(row, db),
    ensures
        match find_card(db, row.0 as u32) {
            Some(c) => arena_form(
                export_line(row, db),
                decimal(row.1 as nat),
                c.name@,
                ascii_uppercase(c.set.unwrap()@),
                c.collector_number.unwrap()@,
            ),
            None => id_form(
                export_line(row, db),
                decimal(row.0 as nat),
                ","@,
                decimal(row.1 as nat),
            ),
        },
{
    law_decimal_reads_back(row.0 as nat, u32::MAX as nat);
    law_decimal_reads_back(row.1 as nat, u32::MAX as nat);
    lemma_decimal_len(row.0 as nat);
    match find_card(db, row.0 as u32) {
        Some(c) => {
            let set = c.set.unwrap()@;
            let up = ascii_uppercase(set);
            assert forall|i: int| 0 <= i < set.len() implies (#[trigger] set[i] as u32) < 0x80 by {
                assert(set_char(set[i]));
            }
            assert forall|i: int| 0 <= i < up.len() implies set_char(#[trigger] up[i]) by {
                assert(set_char(set[i]));
            }
        },
        None => {
            reveal_strlit(",");
        },
    }
}

proof fn lemma_plain_line(row: (i64, i64, i64), db: Map<u32, Card>)
    requires
        plain_row(row, db),
    ensures
        single_line(row, db),
{
    lemma_parts(row, db);
    let line = export_line(row, db);
    let qty = decimal(row.1 as nat);
    assert(!qty.contains('\n')) by {
        assert forall|k: int| 0 <= k < qty.len() implies qty[k] != '\n' by {
            assert(is_digit(qty[k]));
        }
    }
    reveal_strlit(" ");
    reveal_strlit(" (");
    reveal_strlit(") ");
    reveal_strlit(",");
    match find_card(db, row.0 as u32) {
        Some(c) => {
            let up = ascii_uppercase(c.set.unwrap()@);
            let num = c.collector_number.unwrap()@;
            assert(!up.contains('\n')) by {
                assert forall|k: int| 0 <= k < up.len() implies up[k] != '\n' by {
                    assert(set_char(up[k]));
                }
            }
            assert(!num.contains('\n')) by {
                assert forall|k: int| 0 <= k < num.len() implies num[k] != '\n' by {
                    assert(print_char(num[k]));
                }
            }
            assert(!" "@.contains('\n'));
            assert(!" ("@.contains('\n'));
            assert(!") "@.contains('\n'));
            lemma_apart(qty, " "@, '\n');
            lemma_apart(qty + " "@, c.name@, '\n');
            lemma_apart(qty + " "@ + c.name@, " ("@, '\n');
            lemma_apart(qty + " "@ + c.name@ + " ("@, up, '\n');
            lemma_apart(qty + " "@ + c.name@ + " ("@ + up, ") "@, '\n');
            lemma_apart(qty + " "@ + c.name@ + " ("@ + up + ") "@, num, '\n');
            assert(line.last() == num[num.len() - 1]);
            assert(print_char(num[num.len() - 1]));
        },
        None => {
            let id = decimal(row.0 as nat);
            assert(!id.contains('\n')) by {
                assert forall|k: int| 0 <= k < id.len() implies id[k] != '\n' by {
                    assert(is_digit(id[k]));
                }
            }
            assert(!","@.contains('\n'));
            lemma_apart(id, ","@, '\n');
            lemma_apart(id + ","@, qty, '\n');
            assert(line.last() == qty[qty.len() - 1]);
            assert(is_digit(qty[qty.len() - 1]));
        },
    }
}

proof fn lemma_plain_meaning(row: (i64, i64, i64), db: Map<u32, Card>)
    requires
        plain_row(row, db),
    ensures
        meaning_of(export_line(row, db), db) == Line::Entry(row.0 as u32, row.1 as u32),
{
    lemma_parts(row, db);
    law_decimal_reads_back(row.0 as nat, u32::MAX as nat);
    law_decimal_reads_back(row.1 as nat, u32::MAX as nat);
    match find_card(db, row.0 as u32) {
        Some(c) => {
            let set = c.set.unwrap()@;
            let num = c.collector_number.unwrap()@;
            lemma_print_folds(db, set, num);
            law_printed_lines(
                export_line(row, db),
                decimal(row.1 as nat),
                c.name@,
                ascii_uppercase(set),
                num,
                db,
            );
        },
        None => {
            law_id_lines(
                export_line(row, db),
                decimal(row.0 as nat),
                ","@,
                decimal(row.1 as nat),
                db,
            );
        },
    }
}

/// What a text ending with a line feed reads as after one more line.
proof fn lemma_one_more(text: Seq<char>, line: Seq<char>, db: Map<u32, Card>)
    requires
        text.len() == 0 || text.last() == '\n',
        !line.contains('\n'),
    ensures
        ({
            let more = text + line + seq!['\n'];
            &&& more.len() > 0
            &&& more.last() == '\n'
            &&& listing_of(more, db) == with_line(
                listing_of(text, db),
                without_cr(line),
                meaning_of(without_cr(line), db),
            )
        }),
{
    lemma_lines_push(text, line);
    lemma_listed_push(lines(text), without_cr(line), db);
}

proof fn lemma_main_text(db: Map<u32, Card>)
    ensures
        ({
            let l = listing_of("Deck\n"@, db);
            &&& "Deck\n"@.len() > 0
            &&& "Deck\n"@.last() == '\n'
            &&& l.entries.len() == 0
            &&& !l.side
            &&& l.unmatched.len() == 0
        }),
{
    reveal_strlit("Deck\n");
    reveal_strlit("Deck");
    let empty = Seq::<char>::empty();
    assert("Deck\n"@ =~= empty + "Deck"@ + seq!['\n']);
    lemma_main_header();
    lemma_one_more(empty, "Deck"@, db);
    assert(lines(empty) =~= seq![]);
}

proof fn lemma_side_text(text: Seq<char>, db: Map<u32, Card>)
    requires
        text.len() > 0,
        text.last() == '\n',
    ensures
        ({
            let more = text + "\nSideboard\n"@;
            let l = listing_of(text, db);
            &&& more.last() == '\n'
            &&& listing_of(more, db) == (Listing { side: true, ..l })
        }),
{
    reveal_strlit("\nSideboard\n");
    reveal_strlit("Sideboard");
    let empty = Seq::<char>::empty();
    assert(trimmed(empty) =~= empty);
    lemma_one_more(text, empty, db);
    lemma_side_header();
    lemma_one_more(text + empty + seq!['\n'], "Sideboard"@, db);
    assert(text + "\nSideboard\n"@ =~= (text + empty + seq!['\n']) + "Sideboard"@ + seq!['\n']);
}

/// What a text reads as after the header for the sideboard, where one is due,
/// and the line for a row.
proof fn lemma_row_text(
    text: Seq<char>,
    row: (i64, i64, i64),
    due: bool,
    db: Map<u32, Card>,
)
    requires
        text.len() > 0,
        text.last() == '\n',
        reads_back(row, db),
    ensures
        ({
            let mid = if due {
                text + "\nSideboard\n"@
            } else {
                text
            };
            let more = mid + export_line(row, db) + seq!['\n'];
            let l = listing_of(text, db);
            let side = l.side || due;
            &&& more.len() > 0
            &&& more.last() == '\n'
            &&& listing_of(more, db) == (Listing {
                entries: l.entries.push((row.0 as u32, row.1 as u32, side)),
                side,
                unmatched: l.unmatched,
            })
        }),
{
    if due {
        lemma_side_text(text, db);
        lemma_one_more(text + "\nSideboard\n"@, export_line(row, db), db);
    } else {
        lemma_one_more(text, export_line(row, db), db);
    }
}

/// The text of rows is that of the rows before the last, the header for the
/// sideboard where one is due, and a line.
proof fn lemma_last_row(rows: Seq<(i64, i64, i64)>, db: Map<u32, Card>)
    requires
        rows.len() > 0,
    ensures
        ({
            let before = exported_rows(rows.drop_last(), db);
            let mid = if rows.last().2 != 0 && !has_side(rows.drop_last()) {
                before + "\nSideboard\n"@
            } else {
                before
            };
            exported_rows(rows, db) == mid + export_line(rows.last(), db) + seq!['\n']
        }),
{
    reveal_strlit("\n");
    let before = exported_rows(rows.drop_last(), db);
    assert("\n"@ =~= seq!['\n']);
    assert(before + Seq::<char>::empty() =~= before);
}

proof fn lemma_export_listing(rows: Seq<(i64, i64, i64)>, db: Map<u32, Card>)
    requires
        side_last(rows),
        forall|i: int| 0 <= i < rows.len() ==> reads_back(#[trigger] rows[i], db),
    ensures
        ({
            let text = exported_rows(rows, db);
            let l = listing_of(text, db);
            &&& text.len() > 0
            &&& text.last() == '\n'
            &&& l.entries == row_entries(rows)
            &&& l.side == has_side(rows)
            &&& l.unmatched.len() == 0
        }),
    decreases rows.len(),
{
    if rows.len() == 0 {
        lemma_main_text(db);
        assert(row_entries(rows) =~= seq![]);
    } else {
        let rest = rows.drop_last();
        let row = rows.last();
        assert forall|i: int| 0 <= i < rest.len() implies reads_back(#[trigger] rest[i], db) by {
            assert(rest[i] == rows[i]);
        }
        lemma_side_last(rows);
        lemma_export_listing(rest, db);
        lemma_last_side(rows);
        assert(rows[rows.len() - 1] == row);
        lemma_row_text(exported_rows(rest, db), row, row.2 != 0 && !has_side(rest), db);
        lemma_last_row(rows, db);
        assert(row_entries(rows) =~= row_entries(rest).push(
            (row.0 as u32, row.1 as u32, row.2 != 0),
        ));
    }
}

proof fn lemma_side_last(rows: Seq<(i64, i64, i64)>)
    requires
        side_last(rows),
        rows.len() > 0,
    ensures
        side_last(rows.drop_last()),
{
    let rest = rows.drop_last();
    assert forall|i: int, j: int|
        0 <= i <= j < rest.len() && (#[trigger] rest[i]).2 != 0 implies (#[trigger] rest[j]).2
        != 0 by {
        assert(rest[i] == rows[i] && rest[j] == rows[j]);
    }
}

proof fn lemma_last_side(rows: Seq<(i64, i64, i64)>)
    requires
        side_last(rows),
        rows.len() > 0,
    ensures
        has_side(rows.drop_last()) ==> rows.last().2 != 0,
        has_side(rows) == (rows.last().2 != 0),
{
    let rest = rows.drop_last();
    let row = rows.last();
    assert(rows[rows.len() - 1] == row);
    if has_side(rest) {
        let k = choose|k: int| 0 <= k < rest.len() && (#[trigger] rest[k]).2 != 0;
        assert(rows[k].2 != 0);
    }
    if has_side(rows) {
        let k = choose|k: int| 0 <= k < rows.len() && (#[trigger] rows[k]).2 != 0;
        assert(rows[rows.len() - 1].2 != 0);
    }
}

proof fn lemma_listed_push(rows: Seq<Seq<char>>, line: Seq<char>, db: Map<u32, Card>)
    ensures
        listed(rows.push(line), db) == with_line(listed(rows, db), line, meaning_of(line, db)),
{
    assert(rows.push(line).drop_last() =~= rows);
}

proof fn lemma_main_header()
    ensures
        without_cr("Deck"@) == "Deck"@,
        !"Deck"@.contains('\n'),
        forall|db: Map<u32, Card>| #[trigger] meaning_of("Deck"@, db) == Line::Main,
{
    reveal_strlit("Deck");
    reveal_strlit("deck");
    reveal_strlit("//");
    reveal_strlit("#");
    let s = "Deck"@;
    assert(trimmed(s) == s);
    assert(ascii_lowercase(s) =~= "deck"@);
    assert(s.take(1) !~= "#"@) by {
        assert(s.take(1)[0] == 'D');
    }
    assert(s.take(2) !~= "//"@) by {
        assert(s.take(2)[0] == 'D');
    }
}

proof fn lemma_side_header()
    ensures
        without_cr("Sideboard"@) == "Sideboard"@,
        !"Sideboard"@.contains('\n'),
        forall|db: Map<u32, Card>| #[trigger] meaning_of("Sideboard"@, db) == Line::Side,
{
    reveal_strlit("Sideboard");
    reveal_strlit("sideboard");
    reveal_strlit("deck");
    reveal_strlit("commander");
    reveal_strlit("companion");
    reveal_strlit("//");
    reveal_strlit("#");
    let s = "Sideboard"@;
    assert(trimmed(s) == s);
    assert(ascii_lowercase(s) =~= "sideboard"@);
    assert("commander"@[0] != "sideboard"@[0]);
    assert("companion"@[0] != "sideboard"@[0]);
    assert(s.take(1) !~= "#"@) by {
        assert(s.take(1)[0] == 'S');
    }
    assert(s.take(2) !~= "//"@) by {
        assert(s.take(2)[0] == 'S');
    }
}

// ---------------------------------------------------------------------------
// Creating and changing
// ---------------------------------------------------------------------------

/// A request for a new deck: pairs of card and quantity, or a pasted list,
/// which goes first.
#[derive(Debug)]
pub struct CreateDeckRequest {
    pub name: String,
    pub format: Option<String>,
    pub mainboard: Vec<(u32, u32)>,
    pub sideboard: Vec<(u32, u32)>,
    pub text: Option<String>,
}

/// The id of a new deck.
#[derive(Debug)]
pub struct CreateDeckResponse {
    pub deck_id: String,
}

/// A request to change a deck.
#[derive(Debug)]
pub struct UpdateDeckRequest {
    pub name: String,
    pub format: Option<String>,
    pub mainboard: Vec<(u32, u32)>,
    pub sideboard: Vec<(u32, u32)>,
}

/// A deck to be stored.
#[derive(Debug)]
pub struct NewDeck {
    pub deck_id: String,
    pub name: String,
    pub format: Option<String>,
    pub mainboard: Vec<(u32, u32)>,
    pub sideboard: Vec<(u32, u32)>,
}

/// The entries on one side of a pasted list.
pub open spec fn entries_on(entries: Seq<(u32, u32, bool)>, side: bool) -> Seq<(u32, u32)>
    decreases entries.len(),
{
    if entries.len() == 0 {
        seq![]
    } else if entries.last().2 == side {
        entries_on(entries.drop_last(), side).push((entries.last().0, entries.last().1))
    } else {
        entries_on(entries.drop_last(), side)
    }
}

/// The main deck and the sideboard that a request asks for.
pub open spec fn wanted_cards(
    req: CreateDeckRequest,
    db: Map<u32, Card>,
) -> (Seq<(u32, u32)>, Seq<(u32, u32)>) {
    match req.text {
        Some(t) => {
            let entries = listing_of(t@, db).entries;
            (entries_on(entries, false), entries_on(entries, true))
        },
        None => (req.mainboard@, req.sideboard@),
    }
}

/// The id of a deck that was made at this time, in nanoseconds since 1970.
pub open spec fn user_deck_id(nanos: Option<i64>) -> Seq<char> {
    "user-"@ + decimal_int(
        match nanos {
            Some(n) => n as int,
            None => 0,
        },
    )
}

/// Why a new deck is refused: it needs a name and a card.
pub open spec fn refusal(name: Seq<char>, empty: bool) -> Option<ErrorView> {
    if trimmed(name).len() == 0 {
        Some(ErrorView::BadRequest("name is required"@))
    } else if empty {
        Some(ErrorView::BadRequest("deck must contain at least one card"@))
    } else {
        None
    }
}

/// The deck is the one that the request asks for at this time.
pub open spec fn is_new_deck(
    d: NewDeck,
    req: CreateDeckRequest,
    db: Map<u32, Card>,
    nanos: Option<i64>,
) -> bool {
    &&& d.deck_id@ == user_deck_id(nanos)
    &&& d.name@ == trimmed(req.name@)
    &&& opt_text(d.format) == opt_text(req.format)
    &&& d.mainboard@ == wanted_cards(req, db).0
    &&& d.sideboard@ == wanted_cards(req, db).1
}

fn split_entries(entries: &Vec<(u32, u32, bool)>) -> (r: (Vec<(u32, u32)>, Vec<(u32, u32)>))
    ensures
        r.0@ == entries_on(entries@, false),
        r.1@ == entries_on(entries@, true),
{
    let mut main: Vec<(u32, u32)> = Vec::new();
    let mut side: Vec<(u32, u32)> = Vec::new();
    let mut i: usize = 0;
    assert(main@ =~= entries_on(entries@.take(0), false));
    assert(side@ =~= entries_on(entries@.take(0), true));
    while i < entries.len()
        invariant
            i <= entries@.len(),
            main@ == entries_on(entries@.take(i as int), false),
            side@ == entries_on(entries@.take(i as int), true),
        decreases entries@.len() - i,
    {
        assert(entries@.take(i + 1).drop_last() =~= entries@.take(i as int));
        let (id, qty, is_side) = entries[i];
        if is_side {
            side.push((id, qty));
        } else {
            main.push((id, qty));
        }
        i += 1;
    }
    assert(entries@.take(i as int) =~= entries@);
    (main, side)
}

/// The deck that a request asks for at this time, in nanoseconds since 1970.
pub fn new_deck(
    req: CreateDeckRequest,
    cards: &CardDb,
    nanos: Option<i64>,
) -> (r: Result<NewDeck, ApiError>)
    requires
        cards.wf(),
    ensures
        ({
            let (main, side) = wanted_cards(req, cards@);
            let why = refusal(req.name@, main.len() == 0 && side.len() == 0);
            match r {
                Ok(d) => why is None && is_new_deck(d, req, cards@, nanos),
                Err(e) => why == Some(e@),
            }
        }),
{
    let name = text::trim(req.name.as_str());
    if text::chars_of(name.as_str()).len() == 0 {
        return Err(refuse("name is required"));
    }
    let (mainboard, sideboard) = match req.text {
        Some(t) => {
            let parsed = parse_arena_decklist(t.as_str(), cards);
            split_entries(&parsed.entries)
        },
        None => (req.mainboard, req.sideboard),
    };
    if mainboard.len() == 0 && sideboard.len() == 0 {
        return Err(refuse("deck must contain at least one card"));
    }
    let mut deck_id = text::owned("user-");
    let stamp: i64 = match nanos {
        Some(n) => n,
        None => 0,
    };
    text::push_decimal_int(&mut deck_id, stamp);
    Ok(NewDeck { deck_id, name, format: req.format, mainboard, sideboard })
}

/// `chrono::Utc::now` and `timestamp_nanos_opt`: the time by the machine's
/// clock, of which nothing is said.
#[verifier::external_body]
fn clock_nanos() -> Option<i64> {
    chrono::Utc::now().timestamp_nanos_opt()
}

/// The deck that a request asks for now.
pub fn create_deck(req: CreateDeckRequest, cards: &CardDb) -> (r: Result<NewDeck, ApiError>)
    requires
        cards.wf(),
    ensures
        ({
            let (main, side) = wanted_cards(req, cards@);
            let why = refusal(req.name@, main.len() == 0 && side.len() == 0);
            match r {
                Ok(d) => why is None && exists|nanos: Option<i64>|
                    is_new_deck(d, req, cards@, nanos),
                Err(e) => why == Some(e@),
            }
        }),
{
    new_deck(req, cards, clock_nanos())
}

/// Why a change is refused: only decks of the player's own making can be
/// changed, and they need a name and a card.
pub open spec fn change_refusal(
    deck_id: Seq<char>,
    name: Seq<char>,
    empty: bool,
) -> Option<ErrorView> {
    if !begins(deck_id, "user-"@) {
        Some(
            ErrorView::BadRequest(
                "only user-created decks can be edited; clone the deck first"@,
            ),
        )
    } else {
        refusal(name, empty)
    }
}

/// A deck as it is to be stored after a change.
#[derive(Debug)]
pub struct DeckChange {
    pub name: String,
    pub format: Option<String>,
    /// Each card once, in the order of the ids.
    pub mainboard: Vec<(u32, u32)>,
    pub sideboard: Vec<(u32, u32)>,
}

/// A deck as it is to be stored after a change. A change that is not refused
/// needs the deck to be there; nothing comes where it is, and 32 bits do not
/// count the copies of some card.
pub fn update_deck(
    deck_id: &str,
    found: bool,
    req: UpdateDeckRequest,
) -> (r: Option<Result<DeckChange, ApiError>>)
    ensures
        ({
            let why = change_refusal(
                deck_id@,
                req.name@,
                req.mainboard@.len() == 0 && req.sideboard@.len() == 0,
            );
            let counted = countable(req.mainboard@) && countable(req.sideboard@);
            match r {
                Some(Ok(c)) => {
                    &&& why is None
                    &&& found
                    &&& counted
                    &&& c.name@ == trimmed(req.name@)
                    &&& opt_text(c.format) == opt_text(req.format)
                    &&& merged(c.mainboard@, req.mainboard@)
                    &&& merged(c.sideboard@, req.sideboard@)
                },
                Some(Err(e)) => if why is None {
                    !found && e@ == ErrorView::NotFound
                } else {
                    why == Some(e@)
                },
                None => why is None && found && !counted,
            }
        }),
{
    if !text::has_prefix(deck_id, "user-") {
        return Some(
            Err(refuse("only user-created decks can be edited; clone the deck first")),
        );
    }
    let name = text::trim(req.name.as_str());
    if text::chars_of(name.as_str()).len() == 0 {
        return Some(Err(refuse("name is required")));
    }
    if req.mainboard.len() == 0 && req.sideboard.len() == 0 {
        return Some(Err(refuse("deck must contain at least one card")));
    }
    if !found {
        return Some(Err(ApiError::NotFound));
    }
    if !is_countable(&req.mainboard) || !is_countable(&req.sideboard) {
        return None;
    }
    Some(
        Ok(
            DeckChange {
                name,
                format: copy_text(&req.format),
                mainboard: dedupe(&req.mainboard),
                sideboard: dedupe(&req.sideboard),
            },
        ),
    )
}

/// Whether a deck may be deleted: only decks of the player's own making.
pub fn delete_deck(deck_id: &str) -> (r: Result<(), ApiError>)
    ensures
        match r {
            Ok(_) => begins(deck_id@, "user-"@),
            Err(e) => !begins(deck_id@, "user-"@) && e@ == ErrorView::BadRequest(
                "only user-created decks can be deleted"@,
            ),
        },
{
    if text::has_prefix(deck_id, "user-") {
        Ok(())
    } else {
        Err(refuse("only user-created decks can be deleted"))
    }
}

/// The answer to a deletion: a deck that was not there is not found.
pub fn deleted(rows: u64) -> (r: Result<(), ApiError>)
    ensures
        match r {
            Ok(_) => rows > 0,
            Err(e) => rows == 0 && e@ == ErrorView::NotFound,
        },
{
    if rows == 0 {
        Err(ApiError::NotFound)
    } else {
        Ok(())
    }
}

/// Decks that are made here can be changed and deleted here: their ids begin
/// as those checks ask.
pub proof fn law_own_decks_editable(nanos: Option<i64>)
    ensures
        begins(user_deck_id(nanos), "user-"@),
{
    let id = user_deck_id(nanos);
    assert(id.take("user-"@.len() as int) =~= "user-"@);
}

/// The picture of a card is the art of its image, served locally.
pub proof fn law_art(card: Card, url: String, dirs: (Seq<char>, Seq<char>), file: Seq<char>)
    requires
        card.image_small == Some(url),
        url@ == crate::cards::image_address(
            seq!['s', 'm', 'a', 'l', 'l'],
            seq!['f', 'r', 'o', 'n', 't'],
            dirs,
            file,
        ),
        !dirs.0.contains('/'),
        !dirs.1.contains('/'),
        !file.contains('/'),
        !file.contains('?'),
    ensures
        art_of(Some(card)) == Some("/cdn/cards/art_crop/"@ + file),
{
    let size = seq!['s', 'm', 'a', 'l', 'l'];
    crate::cards::law_image_addresses(
        size,
        seq!['f', 'r', 'o', 'n', 't'],
        dirs,
        file,
        Seq::<char>::empty(),
    );
    reveal_strlit("/cdn/cards/");
    reveal_strlit("/");
    reveal_strlit("/small/");
    reveal_strlit("/art_crop/");
    reveal_strlit("/cdn/cards/art_crop/");
    let a = seq!['/', 'c', 'd', 'n', '/', 'c', 'a', 'r', 'd', 's'];
    let from = "/small/"@;
    let to = "/art_crop/"@;
    let s = "/cdn/cards/"@ + size + "/"@ + file;
    assert(local_url(url@) == s);
    assert(s =~= a + from + file);
    assert forall|i: int| 0 <= i < a.len() implies !text::occurs_at(a + from + file, from, i) by {
        if text::occurs_at(s, from, i) {
            assert(s.subrange(i, i + 7)[0] == s[i]);
            assert(s.subrange(i, i + 7)[1] == s[i + 1]);
        }
    }
    text::law_replaced(a, from, file, to);
    if text::occurs(file, from) {
        let i = choose|i: int| text::occurs_at(file, from, i);
        assert(file.subrange(i, i + 7)[0] == file[i]);
        assert(file.contains(file[i]));
    }
    text::law_not_replaced(file, from, to);
    assert("/cdn/cards/art_crop/"@ + file =~= a + to + file);
}

/// The card that the game chose is shown wherever it has an image; the fallback
/// only where it has none, or none was chosen.
pub proof fn law_chosen_art_first(db: Map<u32, Card>, id: i64, fallback: Option<u32>)
    ensures
        db.contains_key(id as u32) && db[id as u32].image_small is Some ==> tile_art(
            db,
            Some(id),
            fallback,
        ) == tile_art(db, Some(id), None) && tile_art(db, Some(id), fallback) is Some,
        !(db.contains_key(id as u32) && db[id as u32].image_small is Some) ==> tile_art(
            db,
            Some(id),
            fallback,
        ) == tile_art(db, None, fallback),
        tile_art(db, None, None) is None,
        fallback is Some && db.contains_key(fallback->Some_0)
            && db[fallback->Some_0].image_small is Some ==> tile_art(db, None, fallback) == art_of(
            Some(db[fallback->Some_0]),
        ),
{
}

/// How rare a card is: mythic cards are the rarest.
pub open spec fn rarity_level(rarity: Option<Seq<char>>) -> int {
    match rarity {
        Some(s) => if s == "mythic"@ {
            4
        } else if s == "rare"@ {
            3
        } else if s == "uncommon"@ {
            2
        } else if s == "common"@ {
            1
        } else {
            0
        },
        None => 0,
    }
}

/// A deck is shown by its rarest card with an image, of several the last, and by
/// none where no card has one.
pub proof fn law_best_card(entries: Seq<EntryView>)
    ensures
        match best_card(entries) {
            Some(i) => {
                &&& 0 <= i < entries.len()
                &&& entries[i].image_small is Some
                &&& forall|j: int|
                    0 <= j < entries.len() && (#[trigger] entries[j]).image_small is Some ==> {
                        ||| rarity_level(entries[j].rarity) < rarity_level(entries[i].rarity)
                        ||| rarity_level(entries[j].rarity) == rarity_level(entries[i].rarity) && j
                            <= i
                    }
            },
            None => forall|j: int|
                0 <= j < entries.len() ==> (#[trigger] entries[j]).image_small is None,
        },
    decreases entries.len(),
{
    if entries.len() > 0 {
        let rest = entries.drop_last();
        law_best_card(rest);
        assert forall|j: int| 0 <= j < rest.len() implies rest[j] == entries[j] by {}
        assert(forall|r: Option<Seq<char>>| #[trigger] rank(r) == rarity_level(r)) by {
            reveal_strlit("mythic");
            reveal_strlit("rare");
            reveal_strlit("uncommon");
            reveal_strlit("common");
        }
    }
}

/// The cost that a deck is listed with is the first that is kept for its id.
pub proof fn law_cost_position(costs: Seq<(String, DeckCost)>, deck_id: Seq<char>)
    ensures
        match cost_position(costs, deck_id) {
            Some(i) => {
                &&& 0 <= i < costs.len()
                &&& costs[i].0@ == deck_id
                &&& forall|j: int| 0 <= j < i ==> (#[trigger] costs[j]).0@ != deck_id
            },
            None => forall|j: int| 0 <= j < costs.len() ==> (#[trigger] costs[j]).0@ != deck_id,
        },
    decreases costs.len(),
{
    if costs.len() > 0 {
        let rest = costs.drop_last();
        law_cost_position(rest, deck_id);
        assert forall|j: int| 0 <= j < rest.len() implies rest[j] == costs[j] by {}
    }
}

/// Each entry of a pasted list goes to its own side, and leaves the other as it
/// was.
pub proof fn law_sides(entries: Seq<(u32, u32, bool)>, id: u32, qty: u32, side: bool)
    ensures
        entries_on(entries.push((id, qty, side)), side) == entries_on(entries, side).push((id, qty)),
        entries_on(entries.push((id, qty, side)), !side) == entries_on(entries, !side),
        entries_on(Seq::<(u32, u32, bool)>::empty(), side).len() == 0,
{
    assert(entries.push((id, qty, side)).drop_last() =~= entries);
}

/// A pasted list takes the place of the cards that a request names.
pub proof fn law_text_wins(req: CreateDeckRequest, db: Map<u32, Card>, text: String)
    ensures
        req.text is None ==> wanted_cards(req, db) == (req.mainboard@, req.sideboard@),
        req.text == Some(text) ==> wanted_cards(req, db) == (
            entries_on(listing_of(text@, db).entries, false),
            entries_on(listing_of(text@, db).entries, true),
        ),
{
}

/// A new deck is refused exactly where its name is blank or it has no card.
pub proof fn law_refusals(name: Seq<char>, empty: bool)
    ensures
        refusal(name, empty) is None <==> !text::blank(name) && !empty,
        text::blank(name) ==> refusal(name, empty) == Some(
            ErrorView::BadRequest("name is required"@),
        ),
        !text::blank(name) && empty ==> refusal(name, empty) == Some(
            ErrorView::BadRequest("deck must contain at least one card"@),
        ),
{
    text::law_trimmed_to_nothing(name);
}

/// A deck that was not made here is not changed, whatever the request; of one
/// that was, the request is held to the same as that for a new deck.
pub proof fn law_only_own_decks(deck_id: Seq<char>, name: Seq<char>, empty: bool)
    ensures
        !begins(deck_id, seq!['u', 's', 'e', 'r', '-']) ==> change_refusal(deck_id, name, empty)
            is Some,
        begins(deck_id, seq!['u', 's', 'e', 'r', '-']) ==> change_refusal(deck_id, name, empty)
            == refusal(name, empty),
{
    reveal_strlit("user-");
    assert("user-"@ =~= seq!['u', 's', 'e', 'r', '-']);
}

/// How a card is written: its number of copies and its name, with set and
/// collector number behind where both are known; a card that is not known, by
/// its id.
pub proof fn law_export_lines(row: (i64, i64, i64), db: Map<u32, Card>)
    requires
        0 <= row.0 <= u32::MAX,
        0 <= row.1,
    ensures
        ({
            let id = row.0 as u32;
            let copies = decimal(row.1 as nat);
            let line = export_line(row, db);
            &&& !db.contains_key(id) ==> line == decimal(row.0 as nat) + seq![','] + copies
            &&& db.contains_key(id) && (db[id].set is None || db[id].collector_number is None)
                ==> line == copies + seq![' '] + db[id].name@
            &&& db.contains_key(id) && db[id].set is Some && db[id].collector_number is Some ==> line
                == copies + seq![' '] + db[id].name@ + seq![' ', '('] + upper(db[id].set->Some_0@)
                + seq![')', ' '] + db[id].collector_number->Some_0@
        }),
{
    reveal_strlit(",");
    reveal_strlit(" ");
    reveal_strlit(" (");
    reveal_strlit(") ");
    assert(","@ =~= seq![',']);
    assert(" "@ =~= seq![' ']);
    assert(" ("@ =~= seq![' ', '(']);
    assert(") "@ =~= seq![')', ' ']);
}

/// One more row of a deck is one more line, below the header of the sideboard
/// where it is the first row there.
pub proof fn law_export_one_more(rows: Seq<(i64, i64, i64)>, row: (i64, i64, i64), db: Map<u32, Card>)
    ensures
        ({
            let line = export_line(row, db) + seq!['\n'];
            let first = row.2 != 0 && forall|i: int|
                0 <= i < rows.len() ==> (#[trigger] rows[i]).2 == 0;
            &&& first ==> exported_rows(rows.push(row), db) == exported_rows(rows, db)
                + "\nSideboard\n"@ + line
            &&& !first ==> exported_rows(rows.push(row), db) == exported_rows(rows, db) + line
        }),
{
    reveal_strlit("\n");
    assert("\n"@ =~= seq!['\n']);
    assert(rows.push(row).drop_last() =~= rows);
    let before = exported_rows(rows, db);
    let line = export_line(row, db);
    let header = "\nSideboard\n"@;
    assert(before + header + line + seq!['\n'] =~= before + header + (line + seq!['\n']));
    assert(before + Seq::<char>::empty() + line + seq!['\n'] =~= before + (line + seq!['\n']));
}

/// A deck is listed under its own id and name, with the cost that was found for
/// it; where none was, it costs nothing.
pub proof fn law_deck_listed(
    r: DeckRow,
    head: DeckHead,
    costs: Seq<(String, DeckCost)>,
    names: Map<Seq<char>, Seq<char>>,
    db: Map<u32, Card>,
    i: int,
)
    requires
        is_row(r, head, costs, names, db),
    ensures
        r.deck_id@ == head.deck_id@,
        r.name@ == translated(names, head.name@),
        r.origin@ == head.origin@,
        r.last_updated@ == head.last_updated@,
        (0 <= i < costs.len() && costs[i].0@ == head.deck_id@ && forall|j: int|
            0 <= j < i ==> (#[trigger] costs[j]).0@ != head.deck_id@) ==> r.wildcards_needed
            == costs[i].1.wildcards_needed && r.total_missing == costs[i].1.total_missing && texts(
            r.colors@,
        ) == texts(costs[i].1.colors@),
        (forall|j: int| 0 <= j < costs.len() ==> (#[trigger] costs[j]).0@ != head.deck_id@)
            ==> r.total_missing == 0 && r.colors@.len() == 0 && r.wildcards_needed.common == 0
            && r.wildcards_needed.uncommon == 0 && r.wildcards_needed.rare == 0
            && r.wildcards_needed.mythic == 0,
        head.tile_card_id matches Some(id) && db.contains_key(id as u32)
            && db[id as u32].image_small is Some ==> opt_text(r.tile_art) == art_of(
            Some(db[head.tile_card_id->Some_0 as u32]),
        ),
{
    law_cost_position(costs, head.deck_id@);
    if let Some(k) = cost_position(costs, head.deck_id@) {
        assert(costs[k].0@ == head.deck_id@);
    }
}

/// A new deck has the name that was asked for, without the white space around
/// it, and the cards that were asked for.
pub proof fn law_new_deck(
    d: NewDeck,
    req: CreateDeckRequest,
    db: Map<u32, Card>,
    nanos: Option<i64>,
    front: Seq<char>,
    name: Seq<char>,
    back: Seq<char>,
)
    requires
        is_new_deck(d, req, db, nanos),
        req.name@ == front + name + back,
        text::blank(front) && text::blank(back),
        name.len() > 0 && !text::is_ws(name[0]) && !text::is_ws(name.last()),
    ensures
        d.name@ == name,
        opt_text(d.format) == opt_text(req.format),
        begins(d.deck_id@, seq!['u', 's', 'e', 'r', '-']),
        req.text is None ==> d.mainboard@ == req.mainboard@ && d.sideboard@ == req.sideboard@,
{
    text::law_trimmed(front, name, back);
    law_own_decks_editable(nanos);
    reveal_strlit("user-");
    assert("user-"@ =~= seq!['u', 's', 'e', 'r', '-']);
}

} // verus!
