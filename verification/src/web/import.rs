//! Pasted deck lists and collections.
//!
//! A line reads `4 Lightning Bolt (M21) 162`, or `12345,4` with a card id. The
//! headers `Deck` and `Sideboard` say where the lines below belong; blank lines
//! and comments are passed over.
use std::collections::HashMap;
use vstd::prelude::*;

use crate::cards::{print_of, Card, CardDb};
use crate::counts::{adds_up, checked_tally};
use crate::patterns::{
    arena_form,
    arena_found,
    captures,
    compile,
    found_groups,
    group,
    group_of,
    group_views,
    id_char,
    id_form,
    id_found,
    is_arena_form,
    lemma_arena_form_once,
    lemma_run_end,
    numerals,
    separators,
    spaces,
    ARENA_PATTERN,
    ID_QTY_PATTERN,
};
use crate::text::{
    self,
    all_ascii,
    ascii_lower,
    ascii_lowercase,
    begins,
    is_digit,
    is_ws,
    lines,
    number,
    texts,
    trimmed,
};

verus! {

/// A request to take over a collection.
#[derive(Debug)]
pub struct ImportRequest {
    pub text: String,
    /// Whether the collection is replaced; else the cards are added to it.
    pub replace: bool,
}

/// What came of taking over a collection.
#[derive(Debug)]
pub struct ImportSummary {
    pub matched_lines: usize,
    pub unmatched_lines: usize,
    pub unique_cards: usize,
    pub total_cards: u32,
    pub unmatched_samples: Vec<String>,
}

/// What a pasted list holds: card, quantity, and whether it is in the
/// sideboard.
#[derive(Debug)]
pub struct ParsedDecklist {
    pub entries: Vec<(u32, u32, bool)>,
    pub matched_lines: usize,
    pub unmatched_lines: usize,
    pub unmatched_samples: Vec<String>,
}

/// What a line means.
#[derive(Debug, Clone, Copy, PartialEq, Eq, Structural)]
pub enum Line {
    /// A blank line or a comment.
    Skip,
    /// What follows is in the main deck.
    Main,
    /// What follows is in the sideboard.
    Side,
    /// A card and its quantity.
    Entry(u32, u32),
    /// Nothing that is known.
    Unmatched,
}

/// The number that a group denotes; zero where it denotes none that 32 bits
/// hold.
pub open spec fn amount(g: Option<Seq<char>>) -> nat {
    match g {
        Some(s) => match number(s, u32::MAX as nat) {
            Some(n) => n,
            None => 0,
        },
        None => 0,
    }
}

/// The card and the quantity of a line with set and collector number, where
/// the card is known.
pub open spec fn printed_entry(
    arena: Option<Seq<Option<Seq<char>>>>,
    db: Map<u32, Card>,
) -> Option<(u32, u32)> {
    match arena {
        Some(g) => match (group(g, 3), group(g, 4)) {
            (Some(set), Some(num)) => match print_of(db, set, num) {
                Some(id) => Some((id, amount(group(g, 1)) as u32)),
                None => None,
            },
            _ => None,
        },
        None => None,
    }
}

/// The card and the quantity of a line with a card id, where neither is zero.
pub open spec fn id_entry(id_qty: Option<Seq<Option<Seq<char>>>>) -> Option<(u32, u32)> {
    match id_qty {
        Some(g) => if amount(group(g, 1)) > 0 && amount(group(g, 2)) > 0 {
            Some((amount(group(g, 1)) as u32, amount(group(g, 2)) as u32))
        } else {
            None
        },
        None => None,
    }
}

/// What a line without white space at its ends means, from what the patterns
/// find in it.
pub open spec fn line_meaning(
    line: Seq<char>,
    arena: Option<Seq<Option<Seq<char>>>>,
    id_qty: Option<Seq<Option<Seq<char>>>>,
    db: Map<u32, Card>,
) -> Line {
    let low = ascii_lowercase(line);
    if line.len() == 0 || begins(line, "//"@) || begins(line, "#"@) {
        Line::Skip
    } else if low == "deck"@ || low == "commander"@ || low == "companion"@ {
        Line::Main
    } else if low == "sideboard"@ || low == "maybeboard"@ {
        Line::Side
    } else if let Some(e) = printed_entry(arena, db) {
        Line::Entry(e.0, e.1)
    } else if let Some(e) = id_entry(id_qty) {
        Line::Entry(e.0, e.1)
    } else {
        Line::Unmatched
    }
}

/// What a line of a list means.
pub open spec fn meaning_of(raw: Seq<char>, db: Map<u32, Card>) -> Line {
    let line = trimmed(raw);
    line_meaning(
        line,
        arena_found(line),
        id_found(line),
        db,
    )
}

/// A line that begins with a digit and does not end with white space is no
/// header, and nothing is trimmed off it.
proof fn lemma_no_header(line: Seq<char>)
    requires
        line.len() > 0,
        is_digit(line[0]),
        !is_ws(line.last()),
    ensures
        trimmed(line) == line,
        !begins(line, "//"@),
        !begins(line, "#"@),
        ascii_lowercase(line) != "deck"@,
        ascii_lowercase(line) != "commander"@,
        ascii_lowercase(line) != "companion"@,
        ascii_lowercase(line) != "sideboard"@,
        ascii_lowercase(line) != "maybeboard"@,
{
    reveal_strlit("//");
    reveal_strlit("#");
    reveal_strlit("deck");
    reveal_strlit("commander");
    reveal_strlit("companion");
    reveal_strlit("sideboard");
    reveal_strlit("maybeboard");
    if begins(line, "//"@) {
        assert(line.take(2)[0] == line[0]);
    }
    if begins(line, "#"@) {
        assert(line.take(1)[0] == line[0]);
    }
    assert(ascii_lowercase(line)[0] == ascii_lower(line[0]));
    assert(ascii_lowercase(line)[0] == line[0]);
}

/// A line such as `12345,4` means four copies of the card with this id.
pub proof fn law_id_lines(
    raw: Seq<char>,
    id: Seq<char>,
    sep: Seq<char>,
    qty: Seq<char>,
    db: Map<u32, Card>,
)
    requires
        id_form(raw, id, sep, qty),
        amount(Some(id)) > 0,
        amount(Some(qty)) > 0,
    ensures
        meaning_of(raw, db) == Line::Entry(amount(Some(id)) as u32, amount(Some(qty)) as u32),
{
    let j = id.len() as int;
    let k = j + sep.len();
    let n = raw.len() as int;
    assert forall|p: int| 0 <= p < j implies raw[p] == id[p] && is_digit(#[trigger] raw[p]) by {
        assert(is_digit(id[p]));
    }
    assert forall|p: int| j <= p < k implies (#[trigger] raw[p] == ',' || raw[p] == ' ') by {
        assert(raw[p] == sep[p - j]);
    }
    assert forall|p: int| k <= p < n implies is_digit(#[trigger] raw[p]) by {
        assert(raw[p] == qty[p - k]);
        assert(is_digit(qty[p - k]));
    }
    lemma_no_header(raw);
    assert(!raw.contains('('));
    assert(!is_arena_form(raw)) by {
        if is_arena_form(raw) {
            let (q, m, s, c) = choose|
                q: Seq<char>,
                m: Seq<char>,
                s: Seq<char>,
                c: Seq<char>,
            | arena_form(raw, q, m, s, c);
            reveal_strlit(" ");
            reveal_strlit(" (");
            assert(raw[q.len() as int + m.len() as int + 2] == '(');
        }
    }
    assert(all_ascii(raw)) by {
        assert forall|p: int| 0 <= p < n implies (#[trigger] raw[p] as u32) < 0x80 by {
            if p >= j && p < k {
                assert(raw[p] == ',' || raw[p] == ' ');
            }
        }
    }
    lemma_run_end(raw, 0, 0, spaces());
    lemma_run_end(raw, 0, j, numerals());
    lemma_run_end(raw, j, k, separators());
    lemma_run_end(raw, k, n, numerals());
    lemma_run_end(raw, n, n, spaces());
    assert(raw.subrange(0, j) =~= id);
    assert(raw.subrange(k, n) =~= qty);
}

/// A line such as `4 Lightning Bolt (M21) 162` means four copies of the card
/// with this printing, where it is known.
pub proof fn law_printed_lines(
    raw: Seq<char>,
    qty: Seq<char>,
    name: Seq<char>,
    set: Seq<char>,
    num: Seq<char>,
    db: Map<u32, Card>,
)
    requires
        arena_form(raw, qty, name, set, num),
        print_of(db, set, num) is Some,
    ensures
        meaning_of(raw, db) == Line::Entry(
            print_of(db, set, num).unwrap(),
            amount(Some(qty)) as u32,
        ),
{
    assert(raw[0] == qty[0]);
    assert(is_digit(qty[0]));
    assert(raw.last() == num[num.len() - 1]);
    assert(crate::patterns::print_char(num[num.len() - 1]));
    lemma_no_header(raw);
    let (q, m, s, c) = choose|
        q: Seq<char>,
        m: Seq<char>,
        s: Seq<char>,
        c: Seq<char>,
    | arena_form(raw, q, m, s, c);
    lemma_arena_form_once(raw, qty, name, set, num, q, m, s, c);
}

/// A line that is no header and no comment, and begins with an ASCII character
/// but a digit, is unmatched.
pub proof fn law_lines_without_number(raw: Seq<char>, db: Map<u32, Card>)
    requires
        ({
            let line = trimmed(raw);
            &&& line.len() > 0 && (line[0] as u32) < 0x80 && !is_digit(line[0]) && line[0] != ','
            &&& !begins(line, "//"@) && !begins(line, "#"@)
            &&& ascii_lowercase(line) != "deck"@ && ascii_lowercase(line) != "commander"@
            &&& ascii_lowercase(line) != "companion"@ && ascii_lowercase(line) != "sideboard"@
            &&& ascii_lowercase(line) != "maybeboard"@
        }),
    ensures
        meaning_of(raw, db) == Line::Unmatched,
{
    let line = trimmed(raw);
    text::lemma_trimmed_first(raw);
    lemma_run_end(line, 0, 0, spaces());
    lemma_run_end(line, 0, 0, numerals());
    assert(!is_arena_form(line)) by {
        if is_arena_form(line) {
            let (q, m, s, c) = choose|
                q: Seq<char>,
                m: Seq<char>,
                s: Seq<char>,
                c: Seq<char>,
            | arena_form(line, q, m, s, c);
            assert(line[0] == q[0]);
            assert(is_digit(q[0]));
        }
    }
    assert(!id_char(line[0]));
}

/// A list that is being read.
pub ghost struct Listing {
    pub entries: Seq<(u32, u32, bool)>,
    /// The lines below are in the sideboard.
    pub side: bool,
    /// The lines of which nothing is known.
    pub unmatched: Seq<Seq<char>>,
}

/// The list after one more line.
pub open spec fn with_line(l: Listing, raw: Seq<char>, meaning: Line) -> Listing {
    match meaning {
        Line::Skip => l,
        Line::Main => Listing { side: false, ..l },
        Line::Side => Listing { side: true, ..l },
        Line::Entry(id, qty) => Listing { entries: l.entries.push((id, qty, l.side)), ..l },
        Line::Unmatched => Listing { unmatched: l.unmatched.push(trimmed(raw)), ..l },
    }
}

/// The list after all of the lines.
pub open spec fn listed(rows: Seq<Seq<char>>, db: Map<u32, Card>) -> Listing
    decreases rows.len(),
{
    if rows.len() == 0 {
        Listing { entries: seq![], side: false, unmatched: seq![] }
    } else {
        with_line(listed(rows.drop_last(), db), rows.last(), meaning_of(rows.last(), db))
    }
}

/// What a text holds as a list.
pub open spec fn listing_of(text: Seq<char>, db: Map<u32, Card>) -> Listing {
    listed(lines(text), db)
}

/// The first of a list, ten at most.
pub open spec fn first_ten(list: Seq<Seq<char>>) -> Seq<Seq<char>> {
    if list.len() < 10 {
        list
    } else {
        list.take(10)
    }
}

fn amount_of(groups: &Vec<Option<String>>, i: usize) -> (n: u32)
    ensures
        n == amount(group(group_views(groups@), i as int)),
{
    match group_of(groups, i) {
        Some(s) => match text::parse_number(&text::chars_of(s.as_str()), u32::MAX) {
            Some(n) => n,
            None => 0,
        },
        None => 0,
    }
}

fn is_word(low: &Vec<char>, word: &str) -> (r: bool)
    ensures
        r == (low@ == word@),
{
    text::same_chars(low, &text::chars_of(word))
}

/// What a line without white space at its ends means, from what the patterns
/// found in it.
pub fn classify_line(
    line: &str,
    arena: &Option<Vec<Option<String>>>,
    id_qty: &Option<Vec<Option<String>>>,
    cards: &CardDb,
) -> (r: Line)
    requires
        cards.wf(),
    ensures
        r == line_meaning(line@, found_groups(*arena), found_groups(*id_qty), cards@),
{
    if text::chars_of(line).len() == 0 || text::has_prefix(line, "//") || text::has_prefix(
        line,
        "#",
    ) {
        return Line::Skip;
    }
    let low = text::to_ascii_lower(line);
    if is_word(&low, "deck") || is_word(&low, "commander") || is_word(&low, "companion") {
        return Line::Main;
    }
    if is_word(&low, "sideboard") || is_word(&low, "maybeboard") {
        return Line::Side;
    }
    if let Some(g) = arena {
        if let (Some(set), Some(num)) = (group_of(g, 3), group_of(g, 4)) {
            if let Some(id) = cards.lookup_set_num(set.as_str(), num.as_str()) {
                return Line::Entry(id, amount_of(g, 1));
            }
        }
    }
    if let Some(g) = id_qty {
        let id = amount_of(g, 1);
        let qty = amount_of(g, 2);
        if id > 0 && qty > 0 {
            return Line::Entry(id, qty);
        }
    }
    Line::Unmatched
}

/// Reads a pasted list.
pub fn parse_arena_decklist(text: &str, cards: &CardDb) -> (r: ParsedDecklist)
    requires
        cards.wf(),
    ensures
        ({
            let l = listing_of(text@, cards@);
            &&& r.entries@ == l.entries
            &&& r.matched_lines == l.entries.len()
            &&& r.unmatched_lines == l.unmatched.len()
            &&& texts(r.unmatched_samples@) == first_ten(l.unmatched)
        }),
{
    let arena = compile(ARENA_PATTERN);
    let id_qty = compile(ID_QTY_PATTERN);
    let a = text::chars_of(text);
    let rows = text::lines_of(&a);
    let ghost all = lines(text@);
    let ghost db = cards@;
    let mut entries: Vec<(u32, u32, bool)> = Vec::new();
    let mut side = false;
    let mut unmatched_lines: usize = 0;
    let mut samples: Vec<String> = Vec::new();
    let mut i: usize = 0;
    proof {
        assert(all.take(0) =~= Seq::<Seq<char>>::empty());
        assert(entries@ =~= listed(all.take(0), db).entries);
        assert(texts(samples@) =~= first_ten(listed(all.take(0), db).unmatched));
    }
    while i < rows.len()
        invariant
            i <= rows.len(),
            rows@.len() == all.len(),
            forall|k: int| 0 <= k < all.len() ==> (#[trigger] rows@[k])@ == all[k],
            cards.wf(),
            db == cards@,
            crate::patterns::pattern_of(arena) == ARENA_PATTERN@,
            crate::patterns::pattern_of(id_qty) == ID_QTY_PATTERN@,
            entries@ == listed(all.take(i as int), db).entries,
            side == listed(all.take(i as int), db).side,
            unmatched_lines == listed(all.take(i as int), db).unmatched.len(),
            unmatched_lines <= i,
            texts(samples@) == first_ten(listed(all.take(i as int), db).unmatched),
        decreases rows@.len() - i,
    {
        let ghost was = listed(all.take(i as int), db);
        let ghost now = listed(all.take(i + 1), db);
        let raw = text::string_of(rows[i].as_slice());
        let line = text::trim(raw.as_str());
        proof {
            assert(all.take(i + 1).drop_last() =~= all.take(i as int));
            assert(all.take(i + 1).last() == raw@);
        }
        let printed = captures(&arena, line.as_str());
        let by_id = captures(&id_qty, line.as_str());
        let meaning = classify_line(line.as_str(), &printed, &by_id, cards);
        assert(meaning == meaning_of(raw@, db));
        match meaning {
            Line::Skip => {},
            Line::Main => {
                side = false;
            },
            Line::Side => {
                side = true;
            },
            Line::Entry(id, qty) => {
                entries.push((id, qty, side));
            },
            Line::Unmatched => {
                unmatched_lines += 1;
                let ghost list = samples@;
                if samples.len() < 10 {
                    samples.push(line);
                    proof {
                        assert(texts(samples@) =~= texts(list).push(line@));
                        assert(texts(list).len() == list.len());
                        assert(first_ten(now.unmatched) =~= was.unmatched.push(line@));
                    }
                } else {
                    proof {
                        assert(texts(list).len() == list.len());
                        assert(first_ten(now.unmatched) =~= first_ten(was.unmatched));
                    }
                }
            },
        }
        i += 1;
    }
    assert(all.take(i as int) =~= all);
    let matched_lines = entries.len();
    ParsedDecklist { entries, matched_lines, unmatched_lines, unmatched_samples: samples }
}

/// Every line is passed over, sets the side, gives an entry, or counts as
/// unmatched: nothing is lost.
pub proof fn law_lines_accounted(rows: Seq<Seq<char>>, db: Map<u32, Card>)
    ensures
        listed(rows, db).entries.len() + listed(rows, db).unmatched.len() <= rows.len(),
        (forall|i: int|
            0 <= i < rows.len() ==> meaning_of(#[trigger] rows[i], db) is Entry || meaning_of(
                rows[i],
                db,
            ) is Unmatched) ==> listed(rows, db).entries.len() + listed(rows, db).unmatched.len()
            == rows.len(),
    decreases rows.len(),
{
    if rows.len() > 0 {
        let rest = rows.drop_last();
        law_lines_accounted(rest, db);
        if forall|i: int|
            0 <= i < rows.len() ==> meaning_of(#[trigger] rows[i], db) is Entry || meaning_of(
                rows[i],
                db,
            ) is Unmatched {
            assert forall|i: int| 0 <= i < rest.len() implies meaning_of(#[trigger] rest[i], db)
                is Entry || meaning_of(rest[i], db) is Unmatched by {
                assert(rest[i] == rows[i]);
            }
            assert(rows[rows.len() - 1] == rows.last());
        }
    }
}

// ---------------------------------------------------------------------------
// Taking over a collection
// ---------------------------------------------------------------------------

/// The entries without the side they are on.
pub open spec fn pairs(entries: Seq<(u32, u32, bool)>) -> Seq<(u32, u32)> {
    entries.map_values(|e: (u32, u32, bool)| (e.0, e.1))
}

/// How many cards the entries hold.
pub open spec fn all_copies(entries: Seq<(u32, u32, bool)>) -> nat
    decreases entries.len(),
{
    if entries.len() == 0 {
        0
    } else {
        all_copies(entries.drop_last()) + entries.last().1 as nat
    }
}

proof fn lemma_copies_grow(entries: Seq<(u32, u32, bool)>, n: int)
    requires
        0 <= n <= entries.len(),
    ensures
        all_copies(entries.take(n)) <= all_copies(entries),
    decreases entries.len() - n,
{
    if n < entries.len() {
        lemma_copies_grow(entries.drop_last(), n);
        assert(entries.drop_last().take(n) =~= entries.take(n));
    } else {
        assert(entries.take(n) =~= entries);
    }
}

/// No card has more copies than there are in all.
pub proof fn lemma_total_within(entries: Seq<(u32, u32, bool)>, id: u32)
    ensures
        crate::counts::total(pairs(entries), id) <= all_copies(entries),
    decreases entries.len(),
{
    if entries.len() > 0 {
        lemma_total_within(entries.drop_last(), id);
        assert(pairs(entries).drop_last() =~= pairs(entries.drop_last()));
        assert(pairs(entries).last() == (entries.last().0, entries.last().1));
    }
}

/// What to add to the collection, and what to report; nothing where the list
/// holds more cards than 32 bits count.
pub fn import_plan(parsed: ParsedDecklist) -> (r: Option<(HashMap<u32, u32>, ImportSummary)>)
    ensures
        match r {
            Some((additions, summary)) => {
                &&& all_copies(parsed.entries@) <= u32::MAX
                &&& adds_up(additions@, pairs(parsed.entries@))
                &&& summary.matched_lines == parsed.matched_lines
                &&& summary.unmatched_lines == parsed.unmatched_lines
                &&& summary.unique_cards == additions@.len()
                &&& summary.total_cards == all_copies(parsed.entries@)
                &&& texts(summary.unmatched_samples@) == texts(parsed.unmatched_samples@)
            },
            None => all_copies(parsed.entries@) > u32::MAX,
        },
{
    broadcast use vstd::std_specs::hash::group_hash_axioms;

    let ghost all = parsed.entries@;
    let mut list: Vec<(u32, u32)> = Vec::new();
    let mut total_cards: u32 = 0;
    let mut i: usize = 0;
    assert(list@ =~= pairs(all.take(0)));
    while i < parsed.entries.len()
        invariant
            i <= parsed.entries@.len(),
            all == parsed.entries@,
            list@ == pairs(all.take(i as int)),
            total_cards == all_copies(all.take(i as int)),
        decreases parsed.entries@.len() - i,
    {
        let (id, qty, _side) = parsed.entries[i];
        proof {
            assert(all.take(i + 1).drop_last() =~= all.take(i as int));
            lemma_copies_grow(all, i + 1);
        }
        match total_cards.checked_add(qty) {
            Some(sum) => {
                total_cards = sum;
            },
            None => {
                return None;
            },
        }
        list.push((id, qty));
        i += 1;
        assert(list@ =~= pairs(all.take(i as int)));
    }
    assert(all.take(i as int) =~= all);
    proof {
        assert forall|id: u32| #[trigger] crate::counts::total(pairs(all), id) <= u32::MAX by {
            lemma_total_within(all, id);
        }
    }
    match checked_tally(&list) {
        Some(additions) => {
            let summary = ImportSummary {
                matched_lines: parsed.matched_lines,
                unmatched_lines: parsed.unmatched_lines,
                unique_cards: additions.len(),
                total_cards,
                unmatched_samples: parsed.unmatched_samples,
            };
            Some((additions, summary))
        },
        None => None,
    }
}

/// The lines that say where the next cards go: "sideboard" and "maybeboard" to
/// the side, "deck", "commander" and "companion" to the main deck, in whatever
/// case; and every card goes where the last such line said, at first to the main
/// deck.
pub proof fn law_side_lines(rows: Seq<Seq<char>>, head: Seq<char>, raw: Seq<char>, db: Map<u32, Card>)
    requires
        meaning_of(raw, db) is Entry,
    ensures
        ({
            let id = meaning_of(raw, db)->Entry_0;
            let qty = meaning_of(raw, db)->Entry_1;
            let before = listed(rows, db);
            let after = listed(rows.push(head).push(raw), db);
            &&& crate::cards::same_but_case(trimmed(head), "sideboard"@)
                || crate::cards::same_but_case(trimmed(head), "maybeboard"@) ==> after.entries
                == before.entries.push((id, qty, true))
            &&& crate::cards::same_but_case(trimmed(head), "deck"@)
                || crate::cards::same_but_case(trimmed(head), "commander"@)
                || crate::cards::same_but_case(trimmed(head), "companion"@) ==> after.entries
                == before.entries.push((id, qty, false))
            &&& listed(rows.push(raw), db).entries == before.entries.push((id, qty, before.side))
            &&& listed(seq![raw], db).entries == seq![(id, qty, false)]
        }),
{
    let t = trimmed(head);
    assert(rows.push(head).push(raw).drop_last() =~= rows.push(head));
    assert(rows.push(head).drop_last() =~= rows);
    assert(rows.push(raw).drop_last() =~= rows);
    assert(seq![raw].drop_last() =~= Seq::<Seq<char>>::empty());
    assert(Seq::<(u32, u32, bool)>::empty().push(
        (meaning_of(raw, db)->Entry_0, meaning_of(raw, db)->Entry_1, false),
    ) =~= seq![(meaning_of(raw, db)->Entry_0, meaning_of(raw, db)->Entry_1, false)]);
    lemma_header_words(t);
    assert(listed(Seq::<Seq<char>>::empty(), db).entries.len() == 0 && !listed(
        Seq::<Seq<char>>::empty(),
        db,
    ).side);
    assert(listed(rows.push(head), db) == with_line(
        listed(rows, db),
        head,
        meaning_of(head, db),
    ));
    assert(listed(rows.push(raw), db) == with_line(listed(rows, db), raw, meaning_of(raw, db)));
    assert(listed(rows.push(head).push(raw), db) == with_line(
        listed(rows.push(head), db),
        raw,
        meaning_of(raw, db),
    ));
    assert(listed(seq![raw], db) == with_line(
        listed(Seq::<Seq<char>>::empty(), db),
        raw,
        meaning_of(raw, db),
    ));
}

/// A header is no comment, and each word is its own lowercase.
proof fn lemma_header_words(t: Seq<char>)
    ensures
        crate::cards::same_but_case(t, "sideboard"@) || crate::cards::same_but_case(
            t,
            "maybeboard"@,
        ) || crate::cards::same_but_case(t, "deck"@) || crate::cards::same_but_case(
            t,
            "commander"@,
        ) || crate::cards::same_but_case(t, "companion"@) ==> t.len() > 0 && !begins(t, "//"@)
            && !begins(t, "#"@),
        crate::cards::same_but_case(t, "sideboard"@) <==> ascii_lowercase(t) == "sideboard"@,
        crate::cards::same_but_case(t, "maybeboard"@) <==> ascii_lowercase(t) == "maybeboard"@,
        crate::cards::same_but_case(t, "deck"@) <==> ascii_lowercase(t) == "deck"@,
        crate::cards::same_but_case(t, "commander"@) <==> ascii_lowercase(t) == "commander"@,
        crate::cards::same_but_case(t, "companion"@) <==> ascii_lowercase(t) == "companion"@,
        "deck"@ != "sideboard"@ && "deck"@ != "maybeboard"@,
        "commander"@ != "sideboard"@ && "commander"@ != "maybeboard"@,
        "companion"@ != "sideboard"@ && "companion"@ != "maybeboard"@,
{
    reveal_strlit("sideboard");
    reveal_strlit("maybeboard");
    reveal_strlit("deck");
    reveal_strlit("commander");
    reveal_strlit("companion");
    reveal_strlit("//");
    reveal_strlit("#");
    lemma_own_lowercase("sideboard"@);
    lemma_own_lowercase("maybeboard"@);
    lemma_own_lowercase("deck"@);
    lemma_own_lowercase("commander"@);
    lemma_own_lowercase("companion"@);
    crate::cards::lemma_same_but_case(t, "sideboard"@);
    crate::cards::lemma_same_but_case(t, "maybeboard"@);
    crate::cards::lemma_same_but_case(t, "deck"@);
    crate::cards::lemma_same_but_case(t, "commander"@);
    crate::cards::lemma_same_but_case(t, "companion"@);
    assert("deck"@.len() == 4 && "sideboard"@.len() == 9 && "maybeboard"@.len() == 10
        && "commander"@.len() == 9 && "companion"@.len() == 9);
    assert("sideboard"@[0] == 's' && "maybeboard"@[0] == 'm' && "deck"@[0] == 'd' && "commander"@[0]
        == 'c' && "companion"@[0] == 'c');
    if begins(t, "//"@) {
        assert(t.take(2)[0] == t[0]);
    }
    if begins(t, "#"@) {
        assert(t.take(1)[0] == t[0]);
    }
    if t.len() > 0 {
        assert(t[0] == t[0]);
    }
}

proof fn lemma_own_lowercase(s: Seq<char>)
    requires
        forall|i: int| 0 <= i < s.len() ==> 'a' <= #[trigger] s[i] <= 'z',
    ensures
        ascii_lowercase(s) == s,
{
    assert(ascii_lowercase(s) =~= s);
}

/// Blank lines and comments change nothing, wherever they stand.
pub proof fn law_comments(rows: Seq<Seq<char>>, raw: Seq<char>, db: Map<u32, Card>)
    requires
        text::blank(raw) || (trimmed(raw).len() >= 2 && trimmed(raw)[0] == '/' && trimmed(raw)[1]
            == '/') || (trimmed(raw).len() >= 1 && trimmed(raw)[0] == '#'),
    ensures
        listed(rows.push(raw), db) == listed(rows, db),
{
    reveal_strlit("//");
    reveal_strlit("#");
    let t = trimmed(raw);
    assert(rows.push(raw).drop_last() =~= rows);
    text::law_trimmed_to_nothing(raw);
    if t.len() >= 2 && t[0] == '/' && t[1] == '/' {
        assert(t.take(2) =~= "//"@);
    }
    if t.len() >= 1 && t[0] == '#' {
        assert(t.take(1) =~= "#"@);
    }
}

/// A line that is not understood is kept as such, without the white space around
/// it, and is no card.
pub proof fn law_unmatched(rows: Seq<Seq<char>>, raw: Seq<char>, db: Map<u32, Card>)
    requires
        meaning_of(raw, db) is Unmatched,
    ensures
        listed(rows.push(raw), db).entries == listed(rows, db).entries,
        listed(rows.push(raw), db).unmatched == listed(rows, db).unmatched.push(trimmed(raw)),
        listed(rows.push(raw), db).side == listed(rows, db).side,
{
    assert(rows.push(raw).drop_last() =~= rows);
}

/// The samples are the first lines that were not understood, ten at most.
pub proof fn law_samples(list: Seq<Seq<char>>)
    ensures
        list.len() <= 10 ==> first_ten(list) == list,
        list.len() > 10 ==> first_ten(list).len() == 10,
        forall|i: int| 0 <= i < first_ten(list).len() ==> #[trigger] first_ten(list)[i] == list[i],
{
    if list.len() == 10 {
        assert(list.take(10) =~= list);
    }
}

/// The copies of all entries are counted, each entry once.
pub proof fn law_all_copies(entries: Seq<(u32, u32, bool)>, id: u32, qty: u32, side: bool)
    ensures
        all_copies(entries.push((id, qty, side))) == all_copies(entries) + qty,
        all_copies(Seq::<(u32, u32, bool)>::empty()) == 0,
{
    assert(entries.push((id, qty, side)).drop_last() =~= entries);
}

/// A quantity is the number that its digits denote, and zero where 32 bits do not
/// hold that.
pub proof fn law_amounts(n: nat)
    ensures
        n <= u32::MAX ==> amount(Some(text::decimal(n))) == n,
        n > u32::MAX ==> amount(Some(text::decimal(n))) == 0,
{
    text::law_decimal_reads_back(n, n);
}

} // verus!
