//! What every stored deck lacks, for the list of decks.
use vstd::prelude::*;

use crate::cards::{Card, CardDb};
use crate::patterns::opt_text;
use crate::sim::mana::{listed_colors, produced_list_mask, symbol_of, ColorMask, COLOR_BITS};
use crate::text::{self, texts};

use super::wildcards::{
    have,
    ids_of,
    is_basic_land,
    is_free,
    lacking,
    rarity_of,
    required,
    row_card,
    share,
    summed,
    Counted,
    WildcardCost,
};

verus! {

/// A card of a deck: how many copies it asks for, and how many are owned.
#[derive(Debug)]
pub struct CostRow {
    pub deck_id: String,
    pub card_id: i64,
    pub required: i64,
    pub owned: i64,
}

/// What a deck lacks, the colors of its cards, and the card to show it by.
#[derive(Debug)]
pub struct DeckCost {
    pub wildcards_needed: WildcardCost,
    pub total_missing: u32,
    /// The colors in the order W, U, B, R, G.
    pub colors: Vec<String>,
    pub tile_fallback: Option<u32>,
}

/// What is known of a deck so far.
pub ghost struct Sums {
    pub common: nat,
    pub uncommon: nat,
    pub rare: nat,
    pub mythic: nat,
    pub total: nat,
    pub colors: ColorMask,
    /// The best card with an image: its rank and its id.
    pub tile: Option<(u8, u32)>,
}

pub open spec fn no_sums() -> Sums {
    Sums {
        common: 0,
        uncommon: 0,
        rare: 0,
        mythic: 0,
        total: 0,
        colors: ColorMask(0),
        tile: None,
    }
}

/// The rank of a rarity.
pub open spec fn rank(rarity: Option<Seq<char>>) -> u8 {
    if rarity == Some("mythic"@) {
        4
    } else if rarity == Some("rare"@) {
        3
    } else if rarity == Some("uncommon"@) {
        2
    } else if rarity == Some("common"@) {
        1
    } else {
        0
    }
}

/// How many copies a row lacks, cut to 32 bits.
pub open spec fn row_lack(row: CostRow, db: Map<u32, Card>) -> u32 {
    if is_free(db, row.card_id) || row.required <= row.owned {
        0
    } else {
        ((row.required - row.owned) as i64) as u32
    }
}

/// The better card to show a deck by: one with an image, of the highest rank,
/// the later of equal ones.
pub open spec fn better_tile(tile: Option<(u8, u32)>, card: Option<Card>) -> Option<(u8, u32)> {
    match card {
        Some(c) => if c.image_small is None {
            tile
        } else {
            match tile {
                Some(t) if rank(opt_text(c.rarity)) < t.0 => tile,
                _ => Some((rank(opt_text(c.rarity)), c.arena_id)),
            }
        },
        None => tile,
    }
}

/// The colors of a card.
pub open spec fn card_colors(card: Option<Card>) -> ColorMask {
    match card {
        Some(c) => listed_colors(c.colors),
        None => ColorMask(0),
    }
}

/// What is known of a deck after one more of its rows.
pub open spec fn with_row(s: Sums, row: CostRow, db: Map<u32, Card>) -> Sums {
    let n = row_lack(row, db) as nat;
    let rarity = rarity_of(db, row.card_id);
    let card = row_card(db, row.card_id);
    Sums {
        common: s.common + if rarity == Some("common"@) {
            n
        } else {
            0
        },
        uncommon: s.uncommon + if rarity == Some("uncommon"@) {
            n
        } else {
            0
        },
        rare: s.rare + if rarity == Some("rare"@) {
            n
        } else {
            0
        },
        mythic: s.mythic + if rarity == Some("mythic"@) {
            n
        } else {
            0
        },
        total: s.total + n,
        colors: s.colors.with(card_colors(card)),
        tile: better_tile(s.tile, card),
    }
}

/// What is known of a deck after all rows.
pub open spec fn deck_sums(rows: Seq<CostRow>, deck_id: Seq<char>, db: Map<u32, Card>) -> Sums
    decreases rows.len(),
{
    if rows.len() == 0 {
        no_sums()
    } else if rows.last().deck_id@ == deck_id {
        with_row(deck_sums(rows.drop_last(), deck_id, db), rows.last(), db)
    } else {
        deck_sums(rows.drop_last(), deck_id, db)
    }
}

/// The decks of the rows, each once, in the order in which they first come.
pub open spec fn decks_of(rows: Seq<CostRow>) -> Seq<Seq<char>>
    decreases rows.len(),
{
    if rows.len() == 0 {
        seq![]
    } else {
        let before = decks_of(rows.drop_last());
        if before.contains(rows.last().deck_id@) {
            before
        } else {
            before.push(rows.last().deck_id@)
        }
    }
}

/// The difference of every row is one that 64 bits hold, and what each deck
/// lacks one that 32 bits hold.
pub open spec fn countable(rows: Seq<CostRow>, db: Map<u32, Card>) -> bool {
    &&& forall|i: int|
        0 <= i < rows.len() ==> i64::MIN <= (#[trigger] rows[i]).required - rows[i].owned
            <= i64::MAX
    &&& forall|id: Seq<char>| #[trigger] deck_sums(rows, id, db).total <= u32::MAX
}

/// The symbols of the colors among the first `n`.
pub open spec fn symbols_of(mask: ColorMask, n: int) -> Seq<Seq<char>>
    decreases n,
{
    if n <= 0 {
        seq![]
    } else {
        let bit = COLOR_BITS@[n - 1].0;
        if mask.meets(ColorMask(bit)) {
            symbols_of(mask, n - 1).push(symbol_of(bit))
        } else {
            symbols_of(mask, n - 1)
        }
    }
}

/// The cost is what the sums say.
pub open spec fn costs(c: DeckCost, s: Sums) -> bool {
    &&& c.wildcards_needed.common == s.common
    &&& c.wildcards_needed.uncommon == s.uncommon
    &&& c.wildcards_needed.rare == s.rare
    &&& c.wildcards_needed.mythic == s.mythic
    &&& c.total_missing == s.total
    &&& texts(c.colors@) == symbols_of(s.colors, 5)
    &&& c.tile_fallback == (match s.tile {
        Some(t) => Some(t.1),
        None => None,
    })
}

/// No rarity goes beyond the total.
proof fn lemma_within_total(rows: Seq<CostRow>, id: Seq<char>, db: Map<u32, Card>)
    ensures
        ({
            let s = deck_sums(rows, id, db);
            s.common + s.uncommon + s.rare + s.mythic <= s.total
        }),
    decreases rows.len(),
{
    if rows.len() > 0 {
        lemma_within_total(rows.drop_last(), id, db);
        lemma_rarities_differ();
    }
}

proof fn lemma_rarities_differ()
    ensures
        "common"@ != "uncommon"@ && "common"@ != "rare"@ && "common"@ != "mythic"@,
        "uncommon"@ != "rare"@ && "uncommon"@ != "mythic"@ && "rare"@ != "mythic"@,
{
    reveal_strlit("common");
    reveal_strlit("uncommon");
    reveal_strlit("rare");
    reveal_strlit("mythic");
    assert("mythic"@[0] != "common"@[0]);
    assert("common"@.len() == 6 && "uncommon"@.len() == 8 && "rare"@.len() == 4
        && "mythic"@.len() == 6);
}

proof fn lemma_sums_grow(rows: Seq<CostRow>, n: int, id: Seq<char>, db: Map<u32, Card>)
    requires
        0 <= n <= rows.len(),
    ensures
        deck_sums(rows.take(n), id, db).total <= deck_sums(rows, id, db).total,
    decreases rows.len() - n,
{
    if n < rows.len() {
        lemma_sums_grow(rows.drop_last(), n, id, db);
        assert(rows.drop_last().take(n) =~= rows.take(n));
    } else {
        assert(rows.take(n) =~= rows);
    }
}

proof fn lemma_new_deck(rows: Seq<CostRow>, id: Seq<char>, db: Map<u32, Card>)
    requires
        !decks_of(rows).contains(id),
    ensures
        deck_sums(rows, id, db) == no_sums(),
    decreases rows.len(),
{
    if rows.len() > 0 {
        let before = decks_of(rows.drop_last());
        if before.contains(id) {
            let k = choose|k: int| 0 <= k < before.len() && before[k] == id;
            assert(decks_of(rows)[k] == id);
        }
        if rows.last().deck_id@ == id {
            assert(decks_of(rows)[before.len() as int] == id);
        }
        lemma_new_deck(rows.drop_last(), id, db);
    }
}

/// Each deck is listed once.
proof fn lemma_decks_once(rows: Seq<CostRow>)
    ensures
        forall|i: int, j: int|
            0 <= i < j < decks_of(rows).len() ==> decks_of(rows)[i] != decks_of(rows)[j],
    decreases rows.len(),
{
    if rows.len() > 0 {
        let before = decks_of(rows.drop_last());
        lemma_decks_once(rows.drop_last());
        assert forall|i: int, j: int| 0 <= i < j < decks_of(rows).len() implies decks_of(rows)[i]
            != decks_of(rows)[j] by {
            if j == before.len() {
                assert(before.contains(before[i]));
            }
        }
    }
}

#[derive(Clone, Copy)]
struct Acc {
    cost: WildcardCost,
    total: u32,
    colors: ColorMask,
    tile: Option<(u8, u32)>,
}

impl View for Acc {
    type V = Sums;

    closed spec fn view(&self) -> Sums {
        Sums {
            common: self.cost.common as nat,
            uncommon: self.cost.uncommon as nat,
            rare: self.cost.rare as nat,
            mythic: self.cost.mythic as nat,
            total: self.total as nat,
            colors: self.colors,
            tile: self.tile,
        }
    }
}

fn rarity_word(card: Option<&Card>, word: &str) -> (r: bool)
    ensures
        r == (match card {
            Some(c) => opt_text(c.rarity) == Some(word@),
            None => false,
        }),
{
    match card {
        Some(c) => match &c.rarity {
            Some(s) => text::same(s.as_str(), word),
            None => false,
        },
        None => false,
    }
}

/// The rank of a card's rarity.
pub fn rank_of(rarity: &Option<String>) -> (r: u8)
    ensures
        r == rank(opt_text(*rarity)),
{
    match rarity {
        Some(s) => {
            if text::same(s.as_str(), "mythic") {
                4
            } else if text::same(s.as_str(), "rare") {
                3
            } else if text::same(s.as_str(), "uncommon") {
                2
            } else if text::same(s.as_str(), "common") {
                1
            } else {
                0
            }
        },
        None => 0,
    }
}

/// Takes one more row of a deck; nothing where a number becomes too large.
fn take_row(acc: Acc, row: &CostRow, cards: &CardDb) -> (r: Option<Acc>)
    requires
        cards.wf(),
        acc@.common + acc@.uncommon + acc@.rare + acc@.mythic <= acc@.total,
    ensures
        match r {
            Some(a) => a@ == with_row(acc@, *row, cards@) && i64::MIN <= row.required - row.owned
                <= i64::MAX,
            None => !(i64::MIN <= row.required - row.owned <= i64::MAX) || with_row(
                acc@,
                *row,
                cards@,
            ).total > u32::MAX,
        },
{
    let ghost db = cards@;
    proof {
        lemma_rarities_differ();
    }
    let card = cards.get(row.card_id as u32);
    let diff: i64 = match row.required.checked_sub(row.owned) {
        Some(d) => d,
        None => {
            return None;
        },
    };
    let basic = match card {
        Some(c) => match &c.type_line {
            Some(t) => is_basic_land(Some(t.as_str())),
            None => false,
        },
        None => false,
    };
    assert(basic == is_free(db, row.card_id));
    let missing: u32 = if basic || diff <= 0 {
        0
    } else {
        diff as u32
    };
    assert(missing == row_lack(*row, db));
    let mut a = acc;
    match a.total.checked_add(missing) {
        Some(sum) => {
            a.total = sum;
        },
        None => {
            return None;
        },
    }
    if rarity_word(card, "common") {
        a.cost.common = a.cost.common + missing;
    } else if rarity_word(card, "uncommon") {
        a.cost.uncommon = a.cost.uncommon + missing;
    } else if rarity_word(card, "rare") {
        a.cost.rare = a.cost.rare + missing;
    } else if rarity_word(card, "mythic") {
        a.cost.mythic = a.cost.mythic + missing;
    }
    match card {
        Some(c) => {
            a.colors = a.colors.union(produced_list_mask(&c.colors));
            if c.image_small.is_some() {
                let rk = rank_of(&c.rarity);
                a.tile = match a.tile {
                    Some(t) if rk < t.0 => Some(t),
                    _ => Some((rk, c.arena_id)),
                };
            }
        },
        None => {
            proof {
                crate::sim::mana::law_union_meets(a.colors, a.colors, a.colors);
            }
        },
    }
    Some(a)
}

fn color_symbols(mask: ColorMask) -> (r: Vec<String>)
    ensures
        texts(r@) == symbols_of(mask, 5),
{
    let mut r: Vec<String> = Vec::new();
    let mut k: usize = 0;
    assert(texts(r@) =~= symbols_of(mask, 0));
    while k < 5
        invariant
            k <= 5,
            texts(r@) == symbols_of(mask, k as int),
        decreases 5 - k,
    {
        let bit: u8 = COLOR_BITS[k].0;
        if mask.intersects(ColorMask(bit)) {
            let mut s = String::new();
            s.push(COLOR_BITS[k].1);
            assert(s@ =~= symbol_of(bit));
            let ghost was = r@;
            r.push(s);
            assert(texts(r@) =~= texts(was).push(s@));
        }
        k += 1;
    }
    r
}

fn position_of(list: &Vec<(String, Acc)>, id: &str) -> (r: Option<usize>)
    ensures
        match r {
            Some(k) => k < list@.len() && list@[k as int].0@ == id@,
            None => forall|k: int| 0 <= k < list@.len() ==> (#[trigger] list@[k]).0@ != id@,
        },
{
    let mut k: usize = 0;
    while k < list.len()
        invariant
            k <= list@.len(),
            forall|j: int| 0 <= j < k ==> (#[trigger] list@[j]).0@ != id@,
        decreases list@.len() - k,
    {
        if text::same(list[k].0.as_str(), id) {
            return Some(k);
        }
        k += 1;
    }
    None
}

/// The list holds each deck of the rows with its sums.
spec fn holds_sums(list: Seq<(String, Acc)>, rows: Seq<CostRow>, db: Map<u32, Card>) -> bool {
    &&& list.len() == decks_of(rows).len()
    &&& forall|k: int|
        0 <= k < list.len() ==> (#[trigger] list[k]).0@ == decks_of(rows)[k] && list[k].1@
            == deck_sums(rows, decks_of(rows)[k], db)
}

/// What every deck of the rows lacks; nothing where a number is too large.
pub fn costs_for_all_decks(rows: &Vec<CostRow>, cards: &CardDb) -> (r: Option<
    Vec<(String, DeckCost)>,
>)
    requires
        cards.wf(),
    ensures
        match r {
            Some(list) => {
                &&& countable(rows@, cards@)
                &&& list@.len() == decks_of(rows@).len()
                &&& forall|k: int|
                    0 <= k < list@.len() ==> (#[trigger] list@[k]).0@ == decks_of(rows@)[k]
                        && costs(list@[k].1, deck_sums(rows@, decks_of(rows@)[k], cards@))
            },
            None => !countable(rows@, cards@),
        },
{
    let ghost db = cards@;
    let mut list: Vec<(String, Acc)> = Vec::new();
    let mut i: usize = 0;
    assert(rows@.take(0) =~= Seq::<CostRow>::empty());
    while i < rows.len()
        invariant
            i <= rows@.len(),
            cards.wf(),
            db == cards@,
            holds_sums(list@, rows@.take(i as int), db),
            forall|k: int|
                0 <= k < i ==> i64::MIN <= (#[trigger] rows@[k]).required - rows@[k].owned
                    <= i64::MAX,
            forall|id: Seq<char>| #[trigger]
                deck_sums(rows@.take(i as int), id, db).total <= u32::MAX,
        decreases rows@.len() - i,
    {
        let row = &rows[i];
        let ghost a = rows@.take(i as int);
        let ghost b = rows@.take(i + 1);
        let ghost id = row.deck_id@;
        let ghost was = list@;
        proof {
            assert(b.drop_last() =~= a);
            assert(b.last() == *row);
            lemma_within_total(a, id, db);
            lemma_sums_grow(rows@, i + 1, id, db);
            lemma_decks_once(a);
        }
        let known = position_of(&list, row.deck_id.as_str());
        let acc = match known {
            Some(k) => list[k].1,
            None => Acc {
                cost: WildcardCost { common: 0, uncommon: 0, rare: 0, mythic: 0 },
                total: 0,
                colors: ColorMask(0),
                tile: None,
            },
        };
        proof {
            match known {
                Some(k) => {
                    assert(decks_of(a)[k as int] == id);
                },
                None => {
                    assert(!decks_of(a).contains(id)) by {
                        if decks_of(a).contains(id) {
                            let k = choose|k: int| 0 <= k < decks_of(a).len() && decks_of(a)[k] == id;
                            assert(list@[k].0@ == id);
                        }
                    }
                    lemma_new_deck(a, id, db);
                },
            }
            assert(acc@ == deck_sums(a, id, db));
        }
        let more = match take_row(acc, row, cards) {
            Some(m) => m,
            None => {
                proof {
                    assert(deck_sums(b, id, db) == with_row(acc@, *row, db));
                    if countable(rows@, db) {
                        assert(i64::MIN <= rows@[i as int].required - rows@[i as int].owned
                            <= i64::MAX);
                        assert(deck_sums(rows@, id, db).total <= u32::MAX);
                    }
                }
                return None;
            },
        };
        match known {
            Some(k) => {
                let name = list[k].0.clone();
                list.set(k, (name, more));
                proof {
                    assert(decks_of(a).contains(decks_of(a)[k as int]));
                    assert(decks_of(b) == decks_of(a));
                    assert forall|j: int| 0 <= j < list@.len() implies (#[trigger] list@[j]).0@
                        == decks_of(b)[j] && list@[j].1@ == deck_sums(b, decks_of(b)[j], db) by {
                        if j != k {
                            assert(list@[j] == was[j]);
                            assert(decks_of(a)[j] != decks_of(a)[k as int]) by {
                                if j < k {
                                    assert(decks_of(a)[j] != decks_of(a)[k as int]);
                                } else {
                                    assert(decks_of(a)[k as int] != decks_of(a)[j]);
                                }
                            }
                        }
                    }
                }
            },
            None => {
                list.push((row.deck_id.clone(), more));
                proof {
                    assert(decks_of(b) == decks_of(a).push(id));
                    assert forall|j: int| 0 <= j < list@.len() implies (#[trigger] list@[j]).0@
                        == decks_of(b)[j] && list@[j].1@ == deck_sums(b, decks_of(b)[j], db) by {
                        if j < was.len() {
                            assert(list@[j] == was[j]);
                            assert(was[j].0@ != id);
                        }
                    }
                }
            },
        }
        proof {
            assert forall|x: Seq<char>| #[trigger] deck_sums(b, x, db).total <= u32::MAX by {
                assert(deck_sums(a, x, db).total <= u32::MAX);
            }
        }
        i += 1;
    }
    assert(rows@.take(i as int) =~= rows@);
    let mut out: Vec<(String, DeckCost)> = Vec::new();
    let mut k: usize = 0;
    while k < list.len()
        invariant
            k <= list@.len(),
            holds_sums(list@, rows@, db),
            out@.len() == k,
            forall|j: int|
                0 <= j < k ==> (#[trigger] out@[j]).0@ == decks_of(rows@)[j] && costs(
                    out@[j].1,
                    deck_sums(rows@, decks_of(rows@)[j], db),
                ),
        decreases list@.len() - k,
    {
        assert(list@[k as int].0@ == decks_of(rows@)[k as int]);
        let acc = list[k].1;
        let cost = DeckCost {
            wildcards_needed: acc.cost,
            total_missing: acc.total,
            colors: color_symbols(acc.colors),
            tile_fallback: match acc.tile {
                Some(t) => Some(t.1),
                None => None,
            },
        };
        out.push((list[k].0.clone(), cost));
        k += 1;
    }
    Some(out)
}

/// The cards of a deck's rows, in the order of the rows.
pub open spec fn cards_of(all: Seq<CostRow>, deck_id: Seq<char>) -> Seq<i64>
    decreases all.len(),
{
    if all.len() == 0 {
        seq![]
    } else if all.last().deck_id@ == deck_id {
        cards_of(all.drop_last(), deck_id).push(all.last().card_id)
    } else {
        cards_of(all.drop_last(), deck_id)
    }
}

/// Among the rows of all decks are those of a deck, with each of its cards
/// once, main deck and sideboard together, and with what is owned; in any
/// order.
pub open spec fn groups_rows(
    all: Seq<CostRow>,
    deck_id: Seq<char>,
    rows: Seq<(i64, i64, i64)>,
    owned: Map<i64, u32>,
) -> bool {
    &&& cards_of(all, deck_id).to_multiset() == ids_of(rows).to_multiset()
    &&& forall|k: int|
        0 <= k < all.len() && (#[trigger] all[k]).deck_id@ == deck_id ==> {
            &&& all[k].required == required(rows, all[k].card_id)
            &&& all[k].owned == have(owned, all[k].card_id)
        }
}

/// The sums of a deck are those of its cards.
spec fn same_sums(
    s: Sums,
    db: Map<u32, Card>,
    rows: Seq<(i64, i64, i64)>,
    owned: Map<i64, u32>,
    ids: Seq<i64>,
) -> bool {
    &&& s.total == summed(db, rows, owned, ids, Counted::Copies)
    &&& s.common == summed(db, rows, owned, ids, Counted::Rarity("common"@))
    &&& s.uncommon == summed(db, rows, owned, ids, Counted::Rarity("uncommon"@))
    &&& s.rare == summed(db, rows, owned, ids, Counted::Rarity("rare"@))
    &&& s.mythic == summed(db, rows, owned, ids, Counted::Rarity("mythic"@))
}

proof fn lemma_same_costs(
    all: Seq<CostRow>,
    deck_id: Seq<char>,
    rows: Seq<(i64, i64, i64)>,
    owned: Map<i64, u32>,
    db: Map<u32, Card>,
)
    requires
        forall|k: int|
            0 <= k < all.len() && (#[trigger] all[k]).deck_id@ == deck_id ==> {
                &&& all[k].required == required(rows, all[k].card_id)
                &&& all[k].owned == have(owned, all[k].card_id)
            },
        forall|id: i64| #[trigger] required(rows, id) <= u32::MAX,
    ensures
        same_sums(deck_sums(all, deck_id, db), db, rows, owned, cards_of(all, deck_id)),
    decreases all.len(),
{
    if all.len() > 0 {
        let rest = all.drop_last();
        let row = all.last();
        assert forall|k: int|
            0 <= k < rest.len() && (#[trigger] rest[k]).deck_id@ == deck_id implies rest[k].required
            == required(rows, rest[k].card_id) && rest[k].owned == have(
            owned,
            rest[k].card_id,
        ) by {
            assert(rest[k] == all[k]);
        }
        lemma_same_costs(rest, deck_id, rows, owned, db);
        if row.deck_id@ == deck_id {
            let ids = cards_of(all, deck_id);
            assert(all[all.len() - 1] == row);
            assert(ids.drop_last() =~= cards_of(rest, deck_id));
            assert(ids.last() == row.card_id);
            assert(required(rows, row.card_id) <= u32::MAX);
            assert(row_lack(row, db) == lacking(db, rows, owned, row.card_id));
        }
    }
}

proof fn lemma_sum_without(
    db: Map<u32, Card>,
    rows: Seq<(i64, i64, i64)>,
    owned: Map<i64, u32>,
    ids: Seq<i64>,
    at: int,
    what: Counted,
)
    requires
        0 <= at < ids.len(),
    ensures
        summed(db, rows, owned, ids, what) == summed(db, rows, owned, ids.remove(at), what) + share(
            db,
            rows,
            owned,
            ids[at],
            what,
        ),
    decreases ids.len(),
{
    if at == ids.len() - 1 {
        assert(ids.remove(at) =~= ids.drop_last());
    } else {
        lemma_sum_without(db, rows, owned, ids.drop_last(), at, what);
        assert(ids.remove(at).drop_last() =~= ids.drop_last().remove(at));
        assert(ids.remove(at).last() == ids.last());
    }
}

/// The order of the cards does not change a sum.
proof fn lemma_sum_any_order(
    db: Map<u32, Card>,
    rows: Seq<(i64, i64, i64)>,
    owned: Map<i64, u32>,
    a: Seq<i64>,
    b: Seq<i64>,
    what: Counted,
)
    requires
        a.to_multiset() == b.to_multiset(),
    ensures
        summed(db, rows, owned, a, what) == summed(db, rows, owned, b, what),
    decreases a.len(),
{
    a.to_multiset_ensures();
    b.to_multiset_ensures();
    if a.len() > 0 {
        let x = a.last();
        assert(a.contains(x));
        assert(b.to_multiset().count(x) > 0);
        let at = choose|k: int| 0 <= k < b.len() && b[k] == x;
        let n = a.len() - 1;
        assert(a.remove(n) =~= a.drop_last());
        assert(a.remove(n).to_multiset() =~= b.remove(at).to_multiset());
        lemma_sum_without(db, rows, owned, b, at, what);
        lemma_sum_any_order(db, rows, owned, a.drop_last(), b.remove(at), what);
    }
}

/// The list of decks and the view of one deck agree on what the deck costs,
/// whatever other decks are in the list, and in whatever order the rows come.
pub proof fn law_costs_agree(
    all: Seq<CostRow>,
    deck_id: Seq<char>,
    rows: Seq<(i64, i64, i64)>,
    owned: Map<i64, u32>,
    db: Map<u32, Card>,
)
    requires
        groups_rows(all, deck_id, rows, owned),
        forall|id: i64| #[trigger] required(rows, id) <= u32::MAX,
    ensures
        ({
            let s = deck_sums(all, deck_id, db);
            let ids = ids_of(rows);
            &&& s.total == summed(db, rows, owned, ids, Counted::Copies)
            &&& s.common == summed(db, rows, owned, ids, Counted::Rarity("common"@))
            &&& s.uncommon == summed(db, rows, owned, ids, Counted::Rarity("uncommon"@))
            &&& s.rare == summed(db, rows, owned, ids, Counted::Rarity("rare"@))
            &&& s.mythic == summed(db, rows, owned, ids, Counted::Rarity("mythic"@))
        }),
{
    let a = cards_of(all, deck_id);
    let b = ids_of(rows);
    lemma_same_costs(all, deck_id, rows, owned, db);
    lemma_sum_any_order(db, rows, owned, a, b, Counted::Copies);
    lemma_sum_any_order(db, rows, owned, a, b, Counted::Rarity("common"@));
    lemma_sum_any_order(db, rows, owned, a, b, Counted::Rarity("uncommon"@));
    lemma_sum_any_order(db, rows, owned, a, b, Counted::Rarity("rare"@));
    lemma_sum_any_order(db, rows, owned, a, b, Counted::Rarity("mythic"@));
}

/// One more row of a deck adds what it lacks to the deck, and to its rarity
/// alone; a row of another deck adds nothing.
pub proof fn law_row_costs(rows: Seq<CostRow>, row: CostRow, deck_id: Seq<char>, db: Map<u32, Card>)
    requires
        super::wildcards::never_basic(db, row.card_id),
        0 <= row.required <= u32::MAX,
        0 <= row.owned <= u32::MAX,
    ensures
        ({
            let was = deck_sums(rows, deck_id, db);
            let is = deck_sums(rows.push(row), deck_id, db);
            let n = if row.required > row.owned {
                row.required - row.owned
            } else {
                0
            };
            let known = db.contains_key(row.card_id as u32);
            let rarity = db[row.card_id as u32].rarity;
            &&& row.deck_id@ != deck_id ==> is == was
            &&& row.deck_id@ == deck_id ==> is.total == was.total + n
            &&& row.deck_id@ == deck_id && known && rarity is Some ==> {
                &&& is.common == was.common + if rarity->Some_0@ == "common"@ {
                    n
                } else {
                    0
                }
                &&& is.uncommon == was.uncommon + if rarity->Some_0@ == "uncommon"@ {
                    n
                } else {
                    0
                }
                &&& is.rare == was.rare + if rarity->Some_0@ == "rare"@ {
                    n
                } else {
                    0
                }
                &&& is.mythic == was.mythic + if rarity->Some_0@ == "mythic"@ {
                    n
                } else {
                    0
                }
            }
            &&& row.deck_id@ == deck_id && (!known || rarity is None) ==> is.common == was.common
                && is.uncommon == was.uncommon && is.rare == was.rare && is.mythic == was.mythic
        }),
{
    assert(rows.push(row).drop_last() =~= rows);
    super::wildcards::lemma_never_basic(db, row.card_id);
}

/// The card of the row is of this color.
pub open spec fn lists_color(row: CostRow, db: Map<u32, Card>, symbol: Seq<char>) -> bool {
    &&& db.contains_key(row.card_id as u32)
    &&& db[row.card_id as u32].colors is Some
    &&& exists|i: int|
        0 <= i < db[row.card_id as u32].colors->Some_0@.len()
            && #[trigger] db[row.card_id as u32].colors->Some_0@[i]@ == symbol
}

/// The colors of a deck are those of its cards: each that a card of the deck
/// has, and no other.
pub proof fn law_deck_colors(rows: Seq<CostRow>, deck_id: Seq<char>, db: Map<u32, Card>, k: int)
    requires
        0 <= k < 6,
    ensures
        ({
            let c = seq!['W', 'U', 'B', 'R', 'G', 'C'][k];
            let bit = seq![1u8, 2, 4, 8, 16, 32][k];
            deck_sums(rows, deck_id, db).colors.0 & bit != 0 <==> exists|i: int|
                0 <= i < rows.len() && (#[trigger] rows[i]).deck_id@ == deck_id && lists_color(
                    rows[i],
                    db,
                    seq![c],
                )
        }),
    decreases rows.len(),
{
    let c = seq!['W', 'U', 'B', 'R', 'G', 'C'][k];
    let bit = seq![1u8, 2, 4, 8, 16, 32][k];
    if rows.len() == 0 {
        assert(0u8 & bit == 0) by (bit_vector);
    } else {
        let rest = rows.drop_last();
        let last = rows[rows.len() - 1];
        law_deck_colors(rest, deck_id, db, k);
        assert forall|i: int| 0 <= i < rest.len() implies rest[i] == rows[i] by {}
        let a = deck_sums(rest, deck_id, db).colors.0;
        let b = card_colors(row_card(db, last.card_id)).0;
        assert((a | b) & bit != 0 <==> a & bit != 0 || b & bit != 0) by (bit_vector);
        assert(b & bit != 0 <==> lists_color(last, db, seq![c])) by {
            lemma_card_color(last, db, k);
        }
        if exists|i: int|
            0 <= i < rest.len() && (#[trigger] rest[i]).deck_id@ == deck_id && lists_color(
                rest[i],
                db,
                seq![c],
            ) {
            let i = choose|i: int|
                0 <= i < rest.len() && (#[trigger] rest[i]).deck_id@ == deck_id && lists_color(
                    rest[i],
                    db,
                    seq![c],
                );
            assert(rows[i].deck_id@ == deck_id);
        }
    }
}

proof fn lemma_card_color(row: CostRow, db: Map<u32, Card>, k: int)
    requires
        0 <= k < 6,
    ensures
        ({
            let c = seq!['W', 'U', 'B', 'R', 'G', 'C'][k];
            let bit = seq![1u8, 2, 4, 8, 16, 32][k];
            card_colors(row_card(db, row.card_id)).0 & bit != 0 <==> lists_color(row, db, seq![c])
        }),
{
    let c = seq!['W', 'U', 'B', 'R', 'G', 'C'][k];
    let bit = seq![1u8, 2, 4, 8, 16, 32][k];
    assert(0u8 & bit == 0) by (bit_vector);
    if db.contains_key(row.card_id as u32) && db[row.card_id as u32].colors is Some {
        let list = db[row.card_id as u32].colors->Some_0@;
        let parts = texts(list);
        crate::sim::mana::law_listed_colors(parts, k);
        if parts.contains(seq![c]) {
            let i = choose|i: int| 0 <= i < parts.len() && parts[i] == seq![c];
            assert(list[i]@ == seq![c]);
        }
        if lists_color(row, db, seq![c]) {
            let i = choose|i: int| 0 <= i < list.len() && #[trigger] list[i]@ == seq![c];
            assert(parts[i] == seq![c]);
        }
    }
}

/// The colors of a deck are listed by their letters, in the order W, U, B, R, G;
/// what is colorless is not listed.
pub proof fn law_color_letters(mask: ColorMask)
    ensures
        symbols_of(mask, 5) == letter(mask, 1, 'W') + letter(mask, 2, 'U') + letter(mask, 4, 'B')
            + letter(mask, 8, 'R') + letter(mask, 16, 'G'),
{
    reveal_with_fuel(symbols_of, 6);
    assert(symbols_of(mask, 0) =~= Seq::<Seq<char>>::empty());
    assert(symbols_of(mask, 1) =~= letter(mask, 1, 'W'));
    assert(symbols_of(mask, 2) =~= letter(mask, 1, 'W') + letter(mask, 2, 'U'));
    assert(symbols_of(mask, 3) =~= letter(mask, 1, 'W') + letter(mask, 2, 'U') + letter(
        mask,
        4,
        'B',
    ));
    assert(symbols_of(mask, 4) =~= letter(mask, 1, 'W') + letter(mask, 2, 'U') + letter(
        mask,
        4,
        'B',
    ) + letter(mask, 8, 'R'));
    assert(symbols_of(mask, 5) =~= letter(mask, 1, 'W') + letter(mask, 2, 'U') + letter(
        mask,
        4,
        'B',
    ) + letter(mask, 8, 'R') + letter(mask, 16, 'G'));
}

/// The letter of a color, where it is among the colors.
pub open spec fn letter(mask: ColorMask, bit: u8, c: char) -> Seq<Seq<char>> {
    if mask.0 & bit != 0 {
        seq![seq![c]]
    } else {
        seq![]
    }
}

/// The card of the row can be shown.
pub open spec fn has_image(row: CostRow, db: Map<u32, Card>) -> bool {
    db.contains_key(row.card_id as u32) && db[row.card_id as u32].image_small is Some
}

/// How rare the card of the row is.
pub open spec fn level(row: CostRow, db: Map<u32, Card>) -> int {
    super::api::rarity_level(opt_text(db[row.card_id as u32].rarity))
}

/// A deck is shown by the rarest of its cards with an image, of several the last
/// one; and by none where none has one.
pub proof fn law_deck_tile(rows: Seq<CostRow>, deck_id: Seq<char>, db: Map<u32, Card>)
    ensures
        match deck_sums(rows, deck_id, db).tile {
            Some(t) => exists|i: int|
                {
                    &&& 0 <= i < rows.len()
                    &&& (#[trigger] rows[i]).deck_id@ == deck_id
                    &&& has_image(rows[i], db)
                    &&& t.1 == db[rows[i].card_id as u32].arena_id
                    &&& t.0 == level(rows[i], db)
                    &&& forall|j: int|
                        0 <= j < rows.len() && (#[trigger] rows[j]).deck_id@ == deck_id && has_image(
                            rows[j],
                            db,
                        ) ==> level(rows[j], db) < t.0 || (level(rows[j], db) == t.0 && j <= i)
                },
            None => forall|j: int|
                0 <= j < rows.len() && (#[trigger] rows[j]).deck_id@ == deck_id ==> !has_image(
                    rows[j],
                    db,
                ),
        },
    decreases rows.len(),
{
    if rows.len() > 0 {
        let rest = rows.drop_last();
        let n = rows.len() - 1;
        let last = rows[n];
        law_deck_tile(rest, deck_id, db);
        assert forall|j: int| 0 <= j < rest.len() implies rest[j] == rows[j] by {}
        let was = deck_sums(rest, deck_id, db).tile;
        let is = deck_sums(rows, deck_id, db).tile;
        assert(has_image(last, db) ==> rank(opt_text(db[last.card_id as u32].rarity)) == level(
            last,
            db,
        ));
        let taken = last.deck_id@ == deck_id && has_image(last, db) && match was {
            Some(t) => t.0 <= level(last, db),
            None => true,
        };
        if let Some(t) = was {
            let i = choose|i: int|
                {
                    &&& 0 <= i < rest.len()
                    &&& (#[trigger] rest[i]).deck_id@ == deck_id
                    &&& has_image(rest[i], db)
                    &&& t.1 == db[rest[i].card_id as u32].arena_id
                    &&& t.0 == level(rest[i], db)
                    &&& forall|j: int|
                        0 <= j < rest.len() && (#[trigger] rest[j]).deck_id@ == deck_id && has_image(
                            rest[j],
                            db,
                        ) ==> level(rest[j], db) < t.0 || (level(rest[j], db) == t.0 && j <= i)
                };
            assert(rows[i] == rest[i]);
            if !taken {
                assert forall|j: int|
                    0 <= j < rows.len() && (#[trigger] rows[j]).deck_id@ == deck_id && has_image(
                        rows[j],
                        db,
                    ) implies level(rows[j], db) < t.0 || (level(rows[j], db) == t.0 && j <= i) by {
                    if j < n {
                        assert(rest[j] == rows[j]);
                    }
                }
            }
        }
        if taken || was is None {
            if let Some(t) = is {
                assert(rows[n].deck_id@ == deck_id && has_image(rows[n], db));
                assert forall|j: int|
                    0 <= j < rows.len() && (#[trigger] rows[j]).deck_id@ == deck_id && has_image(
                        rows[j],
                        db,
                    ) implies level(rows[j], db) < t.0 || (level(rows[j], db) == t.0 && j <= n) by {
                    if j < n {
                        assert(rest[j] == rows[j]);
                    }
                }
            } else {
                assert forall|j: int|
                    0 <= j < rows.len() && (#[trigger] rows[j]).deck_id@ == deck_id implies !has_image(
                    rows[j],
                    db,
                ) by {
                    if j < n {
                        assert(rest[j] == rows[j]);
                    }
                }
            }
        }
    }
}

/// Every deck with a row is listed, once, and no other.
pub proof fn law_decks_listed(rows: Seq<CostRow>, deck_id: Seq<char>)
    ensures
        decks_of(rows).contains(deck_id) <==> exists|i: int|
            0 <= i < rows.len() && (#[trigger] rows[i]).deck_id@ == deck_id,
        decks_of(rows).no_duplicates(),
    decreases rows.len(),
{
    if rows.len() > 0 {
        let rest = rows.drop_last();
        let last = rows[rows.len() - 1];
        law_decks_listed(rest, deck_id);
        law_decks_listed(rest, last.deck_id@);
        let was = decks_of(rest);
        let is = decks_of(rows);
        assert forall|j: int| 0 <= j < rest.len() implies rest[j] == rows[j] by {}
        if was.contains(deck_id) {
            let k = choose|k: int| 0 <= k < was.len() && was[k] == deck_id;
            assert(is[k] == deck_id);
            let i = choose|i: int| 0 <= i < rest.len() && (#[trigger] rest[i]).deck_id@ == deck_id;
            assert(rows[i].deck_id@ == deck_id);
        }
        if is.contains(deck_id) && !was.contains(deck_id) {
            let k = choose|k: int| 0 <= k < is.len() && is[k] == deck_id;
            if k < was.len() {
                assert(was[k] == deck_id);
            }
            assert(rows[rows.len() - 1].deck_id@ == deck_id);
        }
        if last.deck_id@ == deck_id && !was.contains(deck_id) {
            assert(is[is.len() - 1] == deck_id);
        }
    }
}

/// The cost that is told of a deck is what was counted, each number under its
/// own name.
pub proof fn law_costs_told(c: DeckCost, s: Sums)
    requires
        costs(c, s),
    ensures
        c.wildcards_needed.common == s.common,
        c.wildcards_needed.uncommon == s.uncommon,
        c.wildcards_needed.rare == s.rare,
        c.wildcards_needed.mythic == s.mythic,
        c.total_missing == s.total,
        s.tile matches Some(t) ==> c.tile_fallback == Some(t.1),
        s.tile is None ==> c.tile_fallback is None,
        s.colors.0 & 1 != 0 <==> texts(c.colors@).contains(seq!['W']),
{
    let l = symbols_of(s.colors, 5);
    law_color_letters(s.colors);
    let w = letter(s.colors, 1, 'W');
    if s.colors.0 & 1 != 0 {
        assert(l[0] == w[0]);
        assert(l[0] == seq!['W']);
    } else if l.contains(seq!['W']) {
        let i = choose|i: int| 0 <= i < l.len() && l[i] == seq!['W'];
        assert(l[i][0] == 'W');
        assert(seq!['U'][0] == 'U' && seq!['B'][0] == 'B' && seq!['R'][0] == 'R' && seq!['G'][0]
            == 'G');
    }
}

/// A basic land costs nothing.
pub proof fn law_basics_cost_nothing(
    rows: Seq<CostRow>,
    row: CostRow,
    deck_id: Seq<char>,
    db: Map<u32, Card>,
    i: int,
)
    requires
        db.contains_key(row.card_id as u32),
        db[row.card_id as u32].type_line matches Some(t) && 0 <= i <= t@.len() - 10 && t@.subrange(
            i,
            i + 10,
        ) == seq!['B', 'a', 's', 'i', 'c', ' ', 'L', 'a', 'n', 'd'],
    ensures
        ({
            let was = deck_sums(rows, deck_id, db);
            let is = deck_sums(rows.push(row), deck_id, db);
            &&& is.total == was.total
            &&& is.common == was.common && is.uncommon == was.uncommon
            &&& is.rare == was.rare && is.mythic == was.mythic
        }),
{
    assert(rows.push(row).drop_last() =~= rows);
    let word = seq!['B', 'a', 's', 'i', 'c', ' ', 'L', 'a', 'n', 'd'];
    let t = db[row.card_id as u32].type_line->Some_0@;
    assert(t.subrange(i, i + word.len()) == word);
    super::wildcards::law_basic_lines(db, row.card_id);
}

} // verus!
