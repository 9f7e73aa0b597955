//! What a deck lacks: for each card how many copies are owned and missing, and
//! what the missing ones cost in wildcards of each rarity.
//!
//! Basic lands are free, so they are never missing.
use std::collections::HashMap;
use vstd::prelude::*;

use crate::cards::{Card, CardDb};
use crate::patterns::opt_text;
use crate::text::{self, occurs};

use super::entries::{
    entry_views,
    find_card,
    name_unknown,
    show_entry,
    shown_entry,
    unknown_name,
    DeckCardEntry,
    EntryView,
};
use super::import::ParsedDecklist;

verus! {

broadcast use vstd::std_specs::hash::group_hash_axioms;

/// Wildcards by rarity.
#[derive(Debug, Clone, Copy, PartialEq, Eq, Structural)]
pub struct WildcardCost {
    pub common: u32,
    pub uncommon: u32,
    pub rare: u32,
    pub mythic: u32,
}

/// What a list of cards lacks.
#[derive(Debug)]
pub struct Analysis {
    pub mainboard: Vec<DeckCardEntry>,
    pub sideboard: Vec<DeckCardEntry>,
    pub cost: WildcardCost,
    pub unique_missing: u32,
    pub total_missing: u32,
}

/// The type line is that of a basic land.
pub open spec fn names_basic_land(type_line: Option<Seq<char>>) -> bool {
    type_line is Some && occurs(type_line.unwrap(), "Basic Land"@)
}

/// Whether the type line is that of a basic land.
pub fn is_basic_land(type_line: Option<&str>) -> (r: bool)
    ensures
        r == names_basic_land(
            match type_line {
                Some(t) => Some(t@),
                None => None,
            },
        ),
{
    match type_line {
        Some(t) => text::has(t, "Basic Land"),
        None => false,
    }
}

/// The card of a row, whose id is cut to 32 bits.
pub open spec fn row_card(db: Map<u32, Card>, id: i64) -> Option<Card> {
    find_card(db, id as u32)
}

/// The card with this id is a basic land.
pub open spec fn is_free(db: Map<u32, Card>, id: i64) -> bool {
    match row_card(db, id) {
        Some(c) => names_basic_land(opt_text(c.type_line)),
        None => false,
    }
}

/// The rarity of the card with this id.
pub open spec fn rarity_of(db: Map<u32, Card>, id: i64) -> Option<Seq<char>> {
    match row_card(db, id) {
        Some(c) => opt_text(c.rarity),
        None => None,
    }
}

/// The quantity of a row, cut to 32 bits.
pub open spec fn row_quantity(row: (i64, i64, i64)) -> u32 {
    row.1 as u32
}

/// How many copies of a card the rows ask for, in main deck and sideboard
/// together.
pub open spec fn required(rows: Seq<(i64, i64, i64)>, id: i64) -> nat
    decreases rows.len(),
{
    if rows.len() == 0 {
        0
    } else {
        required(rows.drop_last(), id) + if rows.last().0 == id {
            row_quantity(rows.last()) as nat
        } else {
            0nat
        }
    }
}

/// The ids of the rows, each once, in the order in which they first come.
pub open spec fn ids_of(rows: Seq<(i64, i64, i64)>) -> Seq<i64>
    decreases rows.len(),
{
    if rows.len() == 0 {
        seq![]
    } else {
        let before = ids_of(rows.drop_last());
        if before.contains(rows.last().0) {
            before
        } else {
            before.push(rows.last().0)
        }
    }
}

/// How many copies of a card are owned.
pub open spec fn have(owned: Map<i64, u32>, id: i64) -> nat {
    if owned.contains_key(id) {
        owned[id] as nat
    } else {
        0
    }
}

/// How many copies of a card are missing.
pub open spec fn lacking(
    db: Map<u32, Card>,
    rows: Seq<(i64, i64, i64)>,
    owned: Map<i64, u32>,
    id: i64,
) -> nat {
    if is_free(db, id) || required(rows, id) <= have(owned, id) {
        0
    } else {
        (required(rows, id) - have(owned, id)) as nat
    }
}

/// What is added up over the cards.
pub ghost enum Counted {
    /// Every missing copy.
    Copies,
    /// Every card of which a copy is missing.
    Cards,
    /// Every missing copy of a rarity.
    Rarity(Seq<char>),
}

/// What a card adds.
pub open spec fn share(
    db: Map<u32, Card>,
    rows: Seq<(i64, i64, i64)>,
    owned: Map<i64, u32>,
    id: i64,
    what: Counted,
) -> nat {
    let n = lacking(db, rows, owned, id);
    match what {
        Counted::Copies => n,
        Counted::Cards => if n > 0 {
            1
        } else {
            0
        },
        Counted::Rarity(r) => if rarity_of(db, id) == Some(r) {
            n
        } else {
            0
        },
    }
}

/// What the cards with these ids add up to.
pub open spec fn summed(
    db: Map<u32, Card>,
    rows: Seq<(i64, i64, i64)>,
    owned: Map<i64, u32>,
    ids: Seq<i64>,
    what: Counted,
) -> nat
    decreases ids.len(),
{
    if ids.len() == 0 {
        0
    } else {
        summed(db, rows, owned, ids.drop_last(), what) + share(db, rows, owned, ids.last(), what)
    }
}

/// The rows of the main deck, or those of the sideboard.
pub open spec fn on_side(rows: Seq<(i64, i64, i64)>, side: bool) -> Seq<(i64, i64, i64)>
    decreases rows.len(),
{
    if rows.len() == 0 {
        seq![]
    } else if (rows.last().2 != 0) == side {
        on_side(rows.drop_last(), side).push(rows.last())
    } else {
        on_side(rows.drop_last(), side)
    }
}

/// The rows in the order in which the missing copies are handed out: main deck
/// first.
pub open spec fn in_order(rows: Seq<(i64, i64, i64)>) -> Seq<(i64, i64, i64)> {
    on_side(rows, false) + on_side(rows, true)
}

/// How many of `missing` copies fall to `part` of `all` copies: the share that
/// it is of them, rounded up.
pub open spec fn dealt(missing: nat, all: nat, part: nat) -> nat {
    if all == 0 {
        0
    } else {
        ((missing * part + all - 1) / (all as int)) as nat
    }
}

/// How many copies row `i` is shown to lack: of the missing copies of its card
/// the share that it asks for. Shares are rounded so that a row and the rows of
/// the card before it get their share together, rounded up: what is left over
/// of a copy goes to the earlier row.
pub open spec fn row_missing(
    db: Map<u32, Card>,
    rows: Seq<(i64, i64, i64)>,
    owned: Map<i64, u32>,
    i: int,
) -> nat {
    let order = in_order(rows);
    let id = order[i].0;
    let missing = lacking(db, rows, owned, id);
    let all = required(rows, id);
    (dealt(missing, all, required(order.take(i + 1), id)) - dealt(
        missing,
        all,
        required(order.take(i), id),
    )) as nat
}

/// How row `i` is shown.
pub open spec fn row_entry(
    db: Map<u32, Card>,
    rows: Seq<(i64, i64, i64)>,
    owned: Map<i64, u32>,
    i: int,
) -> EntryView {
    let row = in_order(rows)[i];
    let qty = row_quantity(row);
    let missing = row_missing(db, rows, owned, i);
    shown_entry(
        row_card(db, row.0),
        row.0 as u32,
        qty,
        unknown_name(row.0 as int),
        (qty - missing) as u32,
        missing as u32,
        true,
    )
}

/// All rows as they are shown.
pub open spec fn row_entries(
    db: Map<u32, Card>,
    rows: Seq<(i64, i64, i64)>,
    owned: Map<i64, u32>,
) -> Seq<EntryView> {
    Seq::new(in_order(rows).len(), |i: int| row_entry(db, rows, owned, i))
}

/// Every number is one that 32 bits hold.
pub open spec fn fits(
    db: Map<u32, Card>,
    rows: Seq<(i64, i64, i64)>,
    owned: Map<i64, u32>,
) -> bool {
    &&& forall|id: i64| #[trigger] required(rows, id) <= u32::MAX
    &&& summed(db, rows, owned, ids_of(rows), Counted::Copies) <= u32::MAX
}

/// The analysis is that of the rows.
pub open spec fn analyzes(
    a: Analysis,
    db: Map<u32, Card>,
    rows: Seq<(i64, i64, i64)>,
    owned: Map<i64, u32>,
) -> bool {
    let ids = ids_of(rows);
    &&& entry_views(a.mainboard@) + entry_views(a.sideboard@) == row_entries(db, rows, owned)
    &&& a.mainboard@.len() == on_side(rows, false).len()
    &&& a.cost == (WildcardCost {
        common: summed(db, rows, owned, ids, Counted::Rarity("common"@)) as u32,
        uncommon: summed(db, rows, owned, ids, Counted::Rarity("uncommon"@)) as u32,
        rare: summed(db, rows, owned, ids, Counted::Rarity("rare"@)) as u32,
        mythic: summed(db, rows, owned, ids, Counted::Rarity("mythic"@)) as u32,
    })
    &&& a.unique_missing == summed(db, rows, owned, ids, Counted::Cards)
    &&& a.total_missing == summed(db, rows, owned, ids, Counted::Copies)
}

// ---------------------------------------------------------------------------
// Proofs
// ---------------------------------------------------------------------------

proof fn lemma_required_grows(rows: Seq<(i64, i64, i64)>, n: int, id: i64)
    requires
        0 <= n <= rows.len(),
    ensures
        required(rows.take(n), id) <= required(rows, id),
    decreases rows.len() - n,
{
    if n < rows.len() {
        lemma_required_grows(rows.drop_last(), n, id);
        assert(rows.drop_last().take(n) =~= rows.take(n));
    } else {
        assert(rows.take(n) =~= rows);
    }
}

proof fn lemma_not_required(rows: Seq<(i64, i64, i64)>, id: i64)
    requires
        !ids_of(rows).contains(id),
    ensures
        required(rows, id) == 0,
    decreases rows.len(),
{
    if rows.len() > 0 {
        let rest = rows.drop_last();
        let before = ids_of(rest);
        if before.contains(id) {
            let k = choose|k: int| 0 <= k < before.len() && before[k] == id;
            assert(ids_of(rows)[k] == id);
        }
        if rows.last().0 == id {
            if before.contains(id) {
            } else {
                assert(ids_of(rows)[before.len() as int] == id);
            }
        }
        lemma_not_required(rest, id);
    }
}

proof fn lemma_sum_grows(
    db: Map<u32, Card>,
    rows: Seq<(i64, i64, i64)>,
    owned: Map<i64, u32>,
    ids: Seq<i64>,
    n: int,
    what: Counted,
)
    requires
        0 <= n <= ids.len(),
    ensures
        summed(db, rows, owned, ids.take(n), what) <= summed(db, rows, owned, ids, what),
    decreases ids.len() - n,
{
    if n < ids.len() {
        lemma_sum_grows(db, rows, owned, ids.drop_last(), n, what);
        assert(ids.drop_last().take(n) =~= ids.take(n));
    } else {
        assert(ids.take(n) =~= ids);
    }
}

/// No rarity, and no count of cards, goes beyond the count of copies.
pub proof fn law_costs_within_total(
    db: Map<u32, Card>,
    rows: Seq<(i64, i64, i64)>,
    owned: Map<i64, u32>,
    ids: Seq<i64>,
    what: Counted,
)
    ensures
        summed(db, rows, owned, ids, what) <= summed(db, rows, owned, ids, Counted::Copies),
    decreases ids.len(),
{
    if ids.len() > 0 {
        law_costs_within_total(db, rows, owned, ids.drop_last(), what);
    }
}

proof fn lemma_required_append(
    a: Seq<(i64, i64, i64)>,
    b: Seq<(i64, i64, i64)>,
    id: i64,
)
    ensures
        required(a + b, id) == required(a, id) + required(b, id),
    decreases b.len(),
{
    if b.len() == 0 {
        assert(a + b =~= a);
    } else {
        assert((a + b).drop_last() =~= a + b.drop_last());
        lemma_required_append(a, b.drop_last(), id);
    }
}

proof fn lemma_required_sides(rows: Seq<(i64, i64, i64)>, id: i64)
    ensures
        required(on_side(rows, false), id) + required(on_side(rows, true), id) == required(
            rows,
            id,
        ),
    decreases rows.len(),
{
    if rows.len() > 0 {
        let rest = rows.drop_last();
        lemma_required_sides(rest, id);
        let side = rows.last().2 != 0;
        assert(on_side(rest, side).push(rows.last()).drop_last() =~= on_side(rest, side));
    }
}

/// How many missing copies of a card the first `n` rows are shown to lack.
pub open spec fn handed_out(
    db: Map<u32, Card>,
    rows: Seq<(i64, i64, i64)>,
    owned: Map<i64, u32>,
    id: i64,
    n: int,
) -> nat
    decreases n,
{
    if n <= 0 {
        0
    } else {
        handed_out(db, rows, owned, id, n - 1) + if in_order(rows)[n - 1].0 == id {
            row_missing(db, rows, owned, n - 1)
        } else {
            0
        }
    }
}

proof fn lemma_required_order(rows: Seq<(i64, i64, i64)>, id: i64, n: int)
    requires
        0 <= n <= in_order(rows).len(),
    ensures
        required(in_order(rows), id) == required(rows, id),
        required(in_order(rows).take(n), id) <= required(rows, id),
{
    lemma_required_append(on_side(rows, false), on_side(rows, true), id);
    lemma_required_sides(rows, id);
    lemma_required_grows(in_order(rows), n, id);
}

/// The part that falls to more copies is no smaller, and grows by no more than
/// the copies do.
proof fn lemma_dealt_grows(missing: nat, all: nat, part: nat, more: nat)
    requires
        missing <= all,
    ensures
        dealt(missing, all, part) <= dealt(missing, all, part + more) <= dealt(missing, all, part)
            + more,
{
    if all > 0 {
        let d = all as int;
        let x = missing * part + all - 1;
        let y = missing * (part + more) + all - 1;
        assert(y == x + missing * more) by (nonlinear_arith)
            requires
                x == missing * part + all - 1,
                y == missing * (part + more) + all - 1,
        ;
        assert(0 <= missing * more <= more * d) by (nonlinear_arith)
            requires
                missing <= d,
                missing >= 0,
                more >= 0,
        ;
        assert(0 <= missing * part) by (nonlinear_arith)
            requires
                missing >= 0,
                part >= 0,
        ;
        vstd::arithmetic::div_mod::lemma_div_is_ordered(x, y, d);
        vstd::arithmetic::div_mod::lemma_div_is_ordered(y, x + more * d, d);
        vstd::arithmetic::div_mod::lemma_hoist_over_denominator(x, more as int, all);
        vstd::arithmetic::div_mod::lemma_div_pos_is_pos(x, d);
    }
}

/// Nothing falls to nothing, and everything to all.
proof fn lemma_dealt_ends(missing: nat, all: nat)
    requires
        missing <= all,
    ensures
        dealt(missing, all, 0) == 0,
        dealt(missing, all, all) == missing,
{
    if all > 0 {
        let d = all as int;
        vstd::arithmetic::div_mod::lemma_basic_div(d - 1, d);
        vstd::arithmetic::div_mod::lemma_hoist_over_denominator(d - 1, missing as int, all);
    }
}

/// What falls to a part is its share, or less than one copy more.
proof fn lemma_dealt_share(missing: nat, all: nat, part: nat)
    requires
        all > 0,
    ensures
        missing * part <= dealt(missing, all, part) * all < missing * part + all,
{
    let d = all as int;
    let x = missing * part + all - 1;
    assert(0 <= missing * part) by (nonlinear_arith)
        requires
            missing >= 0,
            part >= 0,
    ;
    vstd::arithmetic::div_mod::lemma_div_pos_is_pos(x, d);
    vstd::arithmetic::div_mod::lemma_fundamental_div_mod(x, d);
    vstd::arithmetic::div_mod::lemma_mod_bound(x, d);
    assert(d * (x / d) == dealt(missing, all, part) * all) by (nonlinear_arith)
        requires
            d == all,
            x / d == dealt(missing, all, part),
    ;
}

proof fn lemma_handed_out(
    db: Map<u32, Card>,
    rows: Seq<(i64, i64, i64)>,
    owned: Map<i64, u32>,
    id: i64,
    n: int,
)
    requires
        0 <= n <= in_order(rows).len(),
    ensures
        handed_out(db, rows, owned, id, n) == dealt(
            lacking(db, rows, owned, id),
            required(rows, id),
            required(in_order(rows).take(n), id),
        ),
    decreases n,
{
    let order = in_order(rows);
    let missing = lacking(db, rows, owned, id);
    let all = required(rows, id);
    if n > 0 {
        lemma_handed_out(db, rows, owned, id, n - 1);
        assert(order.take(n).drop_last() =~= order.take(n - 1));
        assert(order.take(n).last() == order[n - 1]);
        let part = required(order.take(n - 1), id);
        if order[n - 1].0 == id {
            lemma_dealt_grows(missing, all, part, row_quantity(order[n - 1]) as nat);
        }
    } else {
        assert(order.take(0) =~= Seq::<(i64, i64, i64)>::empty());
        lemma_dealt_ends(missing, all);
    }
}

/// The missing copies of a card are handed out to its rows, all of them and no
/// more.
pub proof fn law_missing_handed_out(
    db: Map<u32, Card>,
    rows: Seq<(i64, i64, i64)>,
    owned: Map<i64, u32>,
    id: i64,
)
    ensures
        handed_out(db, rows, owned, id, in_order(rows).len() as int) == lacking(
            db,
            rows,
            owned,
            id,
        ),
{
    let order = in_order(rows);
    lemma_handed_out(db, rows, owned, id, order.len() as int);
    assert(order.take(order.len() as int) =~= order);
    lemma_required_order(rows, id, 0);
    lemma_dealt_ends(lacking(db, rows, owned, id), required(rows, id));
}

proof fn lemma_row_missing(
    db: Map<u32, Card>,
    rows: Seq<(i64, i64, i64)>,
    owned: Map<i64, u32>,
    i: int,
)
    requires
        0 <= i < in_order(rows).len(),
    ensures
        ({
            let order = in_order(rows);
            let id = order[i].0;
            let missing = lacking(db, rows, owned, id);
            let all = required(rows, id);
            let part = required(order.take(i), id);
            let qty = row_quantity(order[i]) as nat;
            &&& required(order.take(i + 1), id) == part + qty
            &&& part + qty <= all
            &&& dealt(missing, all, part) <= dealt(missing, all, part + qty) <= dealt(
                missing,
                all,
                part,
            ) + qty
            &&& row_missing(db, rows, owned, i) == dealt(missing, all, part + qty) - dealt(
                missing,
                all,
                part,
            )
            &&& row_missing(db, rows, owned, i) <= qty
        }),
{
    let order = in_order(rows);
    let id = order[i].0;
    assert(order.take(i + 1).drop_last() =~= order.take(i));
    assert(order.take(i + 1).last() == order[i]);
    lemma_required_order(rows, id, i + 1);
    lemma_dealt_grows(
        lacking(db, rows, owned, id),
        required(rows, id),
        required(order.take(i), id),
        row_quantity(order[i]) as nat,
    );
}

/// Each row shows as many copies as it asks for, owned and missing together.
pub proof fn law_owned_and_missing(
    db: Map<u32, Card>,
    rows: Seq<(i64, i64, i64)>,
    owned: Map<i64, u32>,
    i: int,
)
    requires
        0 <= i < in_order(rows).len(),
    ensures
        row_entry(db, rows, owned, i).owned + row_entry(db, rows, owned, i).missing
            == row_entry(db, rows, owned, i).quantity,
{
    lemma_row_missing(db, rows, owned, i);
}

/// The missing copies are handed out in proportion: what a row lacks differs
/// by less than one copy from the share of its card's missing copies that its
/// quantity is of all copies asked for.
pub proof fn law_missing_in_proportion(
    db: Map<u32, Card>,
    rows: Seq<(i64, i64, i64)>,
    owned: Map<i64, u32>,
    i: int,
)
    requires
        0 <= i < in_order(rows).len(),
        required(rows, in_order(rows)[i].0) > 0,
    ensures
        ({
            let id = in_order(rows)[i].0;
            let all = required(rows, id);
            let share = lacking(db, rows, owned, id) * row_quantity(in_order(rows)[i]);
            share - all < row_missing(db, rows, owned, i) * all < share + all
        }),
{
    let order = in_order(rows);
    let id = order[i].0;
    let missing = lacking(db, rows, owned, id);
    let all = required(rows, id);
    let part = required(order.take(i), id);
    let qty = row_quantity(order[i]) as nat;
    lemma_row_missing(db, rows, owned, i);
    lemma_dealt_share(missing, all, part);
    lemma_dealt_share(missing, all, part + qty);
    let a = dealt(missing, all, part);
    let b = dealt(missing, all, part + qty);
    assert(missing * (part + qty) == missing * part + missing * qty) by (nonlinear_arith);
    assert((b - a) * all == b * all - a * all) by (nonlinear_arith);
}

// ---------------------------------------------------------------------------
// Analyzing
// ---------------------------------------------------------------------------

fn add_up(rows: &Vec<(i64, i64, i64)>) -> (r: Option<(Vec<i64>, HashMap<i64, u32>)>)
    ensures
        match r {
            Some((ids, sums)) => {
                &&& ids@ == ids_of(rows@)
                &&& forall|id: i64| #[trigger] sums@.contains_key(id) <==> ids@.contains(id)
                &&& forall|id: i64| #[trigger]
                    sums@.contains_key(id) ==> sums@[id] == required(rows@, id)
                &&& forall|id: i64| #[trigger] required(rows@, id) <= u32::MAX
            },
            None => exists|id: i64| #[trigger] required(rows@, id) > u32::MAX,
        },
{
    let mut ids: Vec<i64> = Vec::new();
    let mut sums: HashMap<i64, u32> = HashMap::new();
    let mut i: usize = 0;
    assert(rows@.take(0) =~= Seq::<(i64, i64, i64)>::empty());
    assert(ids@ =~= ids_of(rows@.take(0)));
    while i < rows.len()
        invariant
            i <= rows@.len(),
            ids@ == ids_of(rows@.take(i as int)),
            forall|id: i64| #[trigger] sums@.contains_key(id) <==> ids@.contains(id),
            forall|id: i64| #[trigger]
                sums@.contains_key(id) ==> sums@[id] == required(rows@.take(i as int), id),
            forall|id: i64| #[trigger] required(rows@.take(i as int), id) <= u32::MAX,
        decreases rows@.len() - i,
    {
        let row = rows[i];
        let id: i64 = row.0;
        let qty: u32 = row.1 as u32;
        let ghost a = rows@.take(i as int);
        let ghost b = rows@.take(i + 1);
        let ghost was = sums@;
        let ghost old_ids = ids@;
        proof {
            assert(b.drop_last() =~= a);
            assert(b.last() == row);
            if !ids@.contains(id) {
                lemma_not_required(a, id);
            }
        }
        let known = sums.contains_key(&id);
        let have_now: u32 = match sums.get(&id) {
            Some(v) => *v,
            None => 0,
        };
        assert(have_now == required(a, id));
        match have_now.checked_add(qty) {
            Some(sum) => {
                sums.insert(id, sum);
            },
            None => {
                proof {
                    lemma_required_grows(rows@, i + 1, id);
                    assert(required(rows@, id) > u32::MAX);
                }
                return None;
            },
        }
        if !known {
            ids.push(id);
        }
        proof {
            assert forall|x: i64| #[trigger] sums@.contains_key(x) <==> ids@.contains(x) by {
                assert(was.contains_key(x) <==> old_ids.contains(x));
                if old_ids.contains(x) {
                    let k = choose|k: int| 0 <= k < old_ids.len() && old_ids[k] == x;
                    assert(ids@[k] == x);
                }
                if x == id && !known {
                    assert(ids@[old_ids.len() as int] == x);
                }
                if ids@.contains(x) && x != id {
                    let k = choose|k: int| 0 <= k < ids@.len() && ids@[k] == x;
                    assert(old_ids[k] == x);
                }
            }
            assert forall|x: i64| #[trigger] sums@.contains_key(x) implies sums@[x] == required(
                b,
                x,
            ) by {
                if x != id {
                    assert(was.contains_key(x));
                }
            }
            assert forall|x: i64| #[trigger] required(b, x) <= u32::MAX by {
                assert(required(a, x) <= u32::MAX);
            }
        }
        i += 1;
    }
    assert(rows@.take(i as int) =~= rows@);
    Some((ids, sums))
}

fn type_line_of(card: Option<&Card>) -> (r: Option<&str>)
    ensures
        match card {
            Some(c) => match r {
                Some(t) => opt_text(c.type_line) == Some(t@),
                None => c.type_line is None,
            },
            None => r is None,
        },
{
    match card {
        Some(c) => match &c.type_line {
            Some(t) => Some(t.as_str()),
            None => None,
        },
        None => None,
    }
}

fn rarity_is(card: Option<&Card>, rarity: &str) -> (r: bool)
    ensures
        r == (match card {
            Some(c) => opt_text(c.rarity) == Some(rarity@),
            None => false,
        }),
{
    match card {
        Some(c) => match &c.rarity {
            Some(s) => text::same(s.as_str(), rarity),
            None => false,
        },
        None => false,
    }
}

fn rows_on_side(rows: &Vec<(i64, i64, i64)>, side: bool) -> (r: Vec<(i64, i64, i64)>)
    ensures
        r@ == on_side(rows@, side),
{
    let mut r: Vec<(i64, i64, i64)> = Vec::new();
    let mut i: usize = 0;
    assert(r@ =~= on_side(rows@.take(0), side));
    while i < rows.len()
        invariant
            i <= rows@.len(),
            r@ == on_side(rows@.take(i as int), side),
        decreases rows@.len() - i,
    {
        assert(rows@.take(i + 1).drop_last() =~= rows@.take(i as int));
        if (rows[i].2 != 0) == side {
            r.push(rows[i]);
        }
        i += 1;
    }
    assert(rows@.take(i as int) =~= rows@);
    r
}

/// How many copies of a card a table holds.
spec fn pool_of(pool: Map<i64, u32>, id: i64) -> nat {
    if pool.contains_key(id) {
        pool[id] as nat
    } else {
        0
    }
}

/// What the first `n` rows ask for of each card.
spec fn seen_after(seen: Map<i64, u32>, rows: Seq<(i64, i64, i64)>, n: int) -> bool {
    forall|id: i64| #[trigger] pool_of(seen, id) == required(in_order(rows).take(n), id)
}

/// How many of `missing` copies fall to `part` of `all` copies.
fn deal(missing: u32, all: u32, part: u32) -> (r: u32)
    requires
        missing <= all,
        part <= all,
    ensures
        r == dealt(missing as nat, all as nat, part as nat),
        r <= missing,
{
    if all == 0 {
        return 0;
    }
    proof {
        lemma_dealt_ends(missing as nat, all as nat);
        lemma_dealt_grows(missing as nat, all as nat, part as nat, (all - part) as nat);
        assert(0 <= missing * part <= 0xffff_ffff * 0xffff_ffff) by (nonlinear_arith)
            requires
                0 <= missing <= 0xffff_ffff,
                0 <= part <= 0xffff_ffff,
        ;
    }
    let product: u64 = missing as u64 * part as u64;
    let up: u64 = product + (all - 1) as u64;
    let share: u64 = up / all as u64;
    assert(share == dealt(missing as nat, all as nat, part as nat));
    share as u32
}

/// Hands out the missing copies to rows, from row `from` of the order on.
fn hydrate(
    cards: &CardDb,
    part: &Vec<(i64, i64, i64)>,
    pool: &HashMap<i64, u32>,
    sums: &HashMap<i64, u32>,
    seen: &mut HashMap<i64, u32>,
    Ghost(rows): Ghost<Seq<(i64, i64, i64)>>,
    Ghost(owned): Ghost<Map<i64, u32>>,
    Ghost(from): Ghost<int>,
) -> (r: Vec<DeckCardEntry>)
    requires
        cards.wf(),
        0 <= from,
        from + part@.len() <= in_order(rows).len(),
        part@ == in_order(rows).subrange(from, from + part@.len()),
        forall|id: i64| #[trigger] pool_of(pool@, id) == lacking(cards@, rows, owned, id),
        forall|id: i64| #[trigger] pool_of(sums@, id) == required(rows, id),
        seen_after(old(seen)@, rows, from),
    ensures
        entry_views(r@) == row_entries(cards@, rows, owned).subrange(from, from + part@.len()),
        seen_after(final(seen)@, rows, from + part@.len()),
{
    let ghost db = cards@;
    let ghost order = in_order(rows);
    let ghost wanted = row_entries(db, rows, owned);
    let mut r: Vec<DeckCardEntry> = Vec::new();
    let mut i: usize = 0;
    assert(entry_views(r@) =~= wanted.subrange(from, from));
    while i < part.len()
        invariant
            i <= part@.len(),
            cards.wf(),
            db == cards@,
            order == in_order(rows),
            wanted == row_entries(db, rows, owned),
            0 <= from,
            from + part@.len() <= order.len(),
            part@ == order.subrange(from, from + part@.len()),
            forall|id: i64| #[trigger] pool_of(pool@, id) == lacking(db, rows, owned, id),
            forall|id: i64| #[trigger] pool_of(sums@, id) == required(rows, id),
            seen_after(seen@, rows, from + i),
            entry_views(r@) == wanted.subrange(from, from + i),
        decreases part@.len() - i,
    {
        let row = part[i];
        let card_id: i64 = row.0;
        let qty: u32 = row.1 as u32;
        let ghost at = from + i;
        let ghost was = seen@;
        proof {
            assert(order[at] == row);
            lemma_row_missing(db, rows, owned, at);
            assert(pool_of(pool@, card_id) == lacking(db, rows, owned, card_id));
            assert(pool_of(sums@, card_id) == required(rows, card_id));
            assert(pool_of(was, card_id) == required(order.take(at), card_id));
        }
        let card = cards.get(card_id as u32);
        let lack: u32 = match pool.get(&card_id) {
            Some(v) => *v,
            None => 0,
        };
        let all: u32 = match sums.get(&card_id) {
            Some(v) => *v,
            None => 0,
        };
        let before: u32 = match seen.get(&card_id) {
            Some(v) => *v,
            None => 0,
        };
        let missing: u32 = deal(lack, all, before + qty) - deal(lack, all, before);
        seen.insert(card_id, before + qty);
        proof {
            assert(missing == row_missing(db, rows, owned, at));
            assert(order.take(at + 1).drop_last() =~= order.take(at));
            assert(order.take(at + 1).last() == row);
            assert forall|x: i64| #[trigger] pool_of(seen@, x) == required(order.take(at + 1), x) by {
                assert(pool_of(was, x) == required(order.take(at), x));
            }
        }
        let entry = show_entry(
            card,
            card_id as u32,
            qty,
            name_unknown(card_id),
            qty - missing,
            missing,
            true,
        );
        assert(entry@ == row_entry(db, rows, owned, at));
        let ghost list = r@;
        r.push(entry);
        i += 1;
        proof {
            assert(wanted[at] == entry@);
            assert(entry_views(r@) =~= entry_views(list).push(entry@));
            assert(wanted.subrange(from, from + i) =~= wanted.subrange(from, at).push(wanted[at]));
        }
    }
    r
}

/// What the rows lack; nothing where a number is larger than 32 bits hold.
/// Main deck and sideboard share what is owned: a card in both is asked for
/// once, with both quantities together, and what is missing is handed out to
/// the rows in proportion to what they ask for.
pub fn analyze(
    cards: &CardDb,
    rows: &Vec<(i64, i64, i64)>,
    owned: &HashMap<i64, u32>,
) -> (r: Option<Analysis>)
    requires
        cards.wf(),
    ensures
        match r {
            Some(a) => fits(cards@, rows@, owned@) && analyzes(a, cards@, rows@, owned@),
            None => !fits(cards@, rows@, owned@),
        },
{
    let ghost db = cards@;
    let (ids, sums) = match add_up(rows) {
        Some(p) => p,
        None => {
            return None;
        },
    };
    let mut cost = WildcardCost { common: 0, uncommon: 0, rare: 0, mythic: 0 };
    let mut unique_missing: u32 = 0;
    let mut total_missing: u32 = 0;
    let mut pool: HashMap<i64, u32> = HashMap::new();
    let mut k: usize = 0;
    proof {
        assert(ids@.take(0) =~= Seq::<i64>::empty());
        reveal_strlit("common");
        reveal_strlit("uncommon");
        reveal_strlit("rare");
        reveal_strlit("mythic");
        assert("common"@.len() != "uncommon"@.len());
        assert("rare"@.len() != "common"@.len());
        assert("rare"@.len() != "mythic"@.len());
        assert("rare"@.len() != "uncommon"@.len());
        assert("mythic"@.len() != "uncommon"@.len());
        assert("mythic"@[0] != "common"@[0]);
    }
    while k < ids.len()
        invariant
            k <= ids@.len(),
            cards.wf(),
            db == cards@,
            ids@ == ids_of(rows@),
            "common"@ != "uncommon"@ && "common"@ != "rare"@ && "common"@ != "mythic"@,
            "uncommon"@ != "rare"@ && "uncommon"@ != "mythic"@ && "rare"@ != "mythic"@,
            forall|id: i64| #[trigger] sums@.contains_key(id) <==> ids@.contains(id),
            forall|id: i64| #[trigger]
                sums@.contains_key(id) ==> sums@[id] == required(rows@, id),
            total_missing == summed(db, rows@, owned@, ids@.take(k as int), Counted::Copies),
            unique_missing == summed(db, rows@, owned@, ids@.take(k as int), Counted::Cards),
            cost.common == summed(
                db,
                rows@,
                owned@,
                ids@.take(k as int),
                Counted::Rarity("common"@),
            ),
            cost.uncommon == summed(
                db,
                rows@,
                owned@,
                ids@.take(k as int),
                Counted::Rarity("uncommon"@),
            ),
            cost.rare == summed(
                db,
                rows@,
                owned@,
                ids@.take(k as int),
                Counted::Rarity("rare"@),
            ),
            cost.mythic == summed(
                db,
                rows@,
                owned@,
                ids@.take(k as int),
                Counted::Rarity("mythic"@),
            ),
            forall|id: i64| #[trigger]
                pool_of(pool@, id) == if ids@.take(k as int).contains(id) {
                    lacking(db, rows@, owned@, id)
                } else {
                    0
                },
        decreases ids@.len() - k,
    {
        let id: i64 = ids[k];
        let ghost a = ids@.take(k as int);
        let ghost b = ids@.take(k + 1);
        let ghost was = pool@;
        proof {
            assert(b.drop_last() =~= a);
            assert(b.last() == id);
            assert(ids@.contains(id));
            assert(sums@.contains_key(id));
            lemma_sum_grows(db, rows@, owned@, ids@, k + 1, Counted::Copies);
            law_costs_within_total(db, rows@, owned@, b, Counted::Cards);
            law_costs_within_total(db, rows@, owned@, b, Counted::Rarity("common"@));
            law_costs_within_total(db, rows@, owned@, b, Counted::Rarity("uncommon"@));
            law_costs_within_total(db, rows@, owned@, b, Counted::Rarity("rare"@));
            law_costs_within_total(db, rows@, owned@, b, Counted::Rarity("mythic"@));
        }
        let card = cards.get(id as u32);
        let need: u32 = match sums.get(&id) {
            Some(v) => *v,
            None => 0,
        };
        let own: u32 = match owned.get(&id) {
            Some(v) => *v,
            None => 0,
        };
        let missing: u32 = if is_basic_land(type_line_of(card)) || need <= own {
            0
        } else {
            need - own
        };
        assert(missing == lacking(db, rows@, owned@, id));
        if missing > 0 {
            match total_missing.checked_add(missing) {
                Some(sum) => {
                    total_missing = sum;
                },
                None => {
                    return None;
                },
            }
            unique_missing = unique_missing + 1;
            pool.insert(id, missing);
            if rarity_is(card, "common") {
                cost.common = cost.common + missing;
            } else if rarity_is(card, "uncommon") {
                cost.uncommon = cost.uncommon + missing;
            } else if rarity_is(card, "rare") {
                cost.rare = cost.rare + missing;
            } else if rarity_is(card, "mythic") {
                cost.mythic = cost.mythic + missing;
            }
        }
        proof {
            assert forall|x: i64| #[trigger] pool_of(pool@, x) == if b.contains(x) {
                lacking(db, rows@, owned@, x)
            } else {
                0
            } by {
                assert(pool_of(was, x) == if a.contains(x) {
                    lacking(db, rows@, owned@, x)
                } else {
                    0
                });
                if a.contains(x) {
                    let j = choose|j: int| 0 <= j < a.len() && a[j] == x;
                    assert(b[j] == x);
                }
                if x == id {
                    assert(b[k as int] == x);
                } else if b.contains(x) {
                    let j = choose|j: int| 0 <= j < b.len() && b[j] == x;
                    assert(a[j] == x);
                }
            }
        }
        k += 1;
    }
    proof {
        assert(ids@.take(k as int) =~= ids@);
        let order = in_order(rows@);
        assert(order.take(0) =~= Seq::<(i64, i64, i64)>::empty());
        assert forall|x: i64| #[trigger] pool_of(pool@, x) == lacking(db, rows@, owned@, x) by {
            if !ids@.contains(x) {
                lemma_not_required(rows@, x);
            }
        }
        assert forall|x: i64| #[trigger] pool_of(sums@, x) == required(rows@, x) by {
            if !ids@.contains(x) {
                lemma_not_required(rows@, x);
            } else {
                assert(sums@.contains_key(x));
            }
        }
    }
    let mut seen: HashMap<i64, u32> = HashMap::new();
    let main = rows_on_side(rows, false);
    let side = rows_on_side(rows, true);
    let ghost order = in_order(rows@);
    proof {
        assert(main@ =~= order.subrange(0, main@.len() as int));
        assert(side@ =~= order.subrange(main@.len() as int, (main@.len() + side@.len()) as int));
    }
    let mainboard = hydrate(
        cards,
        &main,
        &pool,
        &sums,
        &mut seen,
        Ghost(rows@),
        Ghost(owned@),
        Ghost(0int),
    );
    let sideboard = hydrate(
        cards,
        &side,
        &pool,
        &sums,
        &mut seen,
        Ghost(rows@),
        Ghost(owned@),
        Ghost(main@.len() as int),
    );
    proof {
        let wanted = row_entries(db, rows@, owned@);
        assert(entry_views(mainboard@) + entry_views(sideboard@) =~= wanted);
        assert(entry_views(mainboard@).len() == mainboard@.len());
    }
    Some(Analysis { mainboard, sideboard, cost, unique_missing, total_missing })
}

/// How many copies are owned, from the rows of the collection: none where a
/// number is negative, and the last row for a card counts.
pub open spec fn owned_from(rows: Seq<(i64, i64)>) -> Map<i64, u32>
    decreases rows.len(),
{
    if rows.len() == 0 {
        Map::empty()
    } else {
        let n = rows.last().1;
        owned_from(rows.drop_last()).insert(
            rows.last().0,
            if n < 0 {
                0
            } else {
                n as u32
            },
        )
    }
}

/// How many copies are owned, from the rows of the collection.
pub fn owned_map(rows: &Vec<(i64, i64)>) -> (m: HashMap<i64, u32>)
    ensures
        m@ == owned_from(rows@),
{
    let mut m: HashMap<i64, u32> = HashMap::new();
    let mut i: usize = 0;
    assert(rows@.take(0) =~= Seq::<(i64, i64)>::empty());
    assert(m@ =~= owned_from(rows@.take(0)));
    while i < rows.len()
        invariant
            i <= rows@.len(),
            m@ == owned_from(rows@.take(i as int)),
        decreases rows@.len() - i,
    {
        assert(rows@.take(i + 1).drop_last() =~= rows@.take(i as int));
        let (id, n) = rows[i];
        let qty: u32 = if n < 0 {
            0
        } else {
            n as u32
        };
        m.insert(id, qty);
        i += 1;
    }
    assert(rows@.take(i as int) =~= rows@);
    m
}

/// The question for what is owned of so many cards.
pub open spec fn owned_question(n: nat) -> Seq<char> {
    "SELECT card_id, quantity FROM collection WHERE card_id IN ("@ + text::joined(
        Seq::new(n, |i: int| "?"@),
        ","@,
    ) + ")"@
}

/// The question for what is owned of so many cards.
pub fn owned_query(n: usize) -> (r: String)
    ensures
        r@ == owned_question(n as nat),
{
    let mut marks: Vec<String> = Vec::new();
    let mut i: usize = 0;
    while i < n
        invariant
            i <= n,
            text::texts(marks@) == Seq::new(i as nat, |k: int| "?"@),
        decreases n - i,
    {
        let mut m = String::new();
        m.append("?");
        assert(m@ =~= "?"@);
        let ghost was = marks@;
        marks.push(m);
        i += 1;
        proof {
            assert(text::texts(marks@) =~= text::texts(was).push(m@));
            assert(Seq::new(i as nat, |k: int| "?"@) =~= Seq::new(
                (i - 1) as nat,
                |k: int| "?"@,
            ).push("?"@));
        }
    }
    let mut r = String::new();
    r.append("SELECT card_id, quantity FROM collection WHERE card_id IN (");
    r.append(text::join(&marks, ",").as_str());
    r.append(")");
    assert(r@ =~= owned_question(n as nat));
    r
}

/// The ids of the rows, each once.
pub fn unique_ids(rows: &Vec<(i64, i64, i64)>) -> (ids: Vec<i64>)
    ensures
        ids@ == ids_of(rows@),
{
    let mut ids: Vec<i64> = Vec::new();
    let mut i: usize = 0;
    assert(ids@ =~= ids_of(rows@.take(0)));
    while i < rows.len()
        invariant
            i <= rows@.len(),
            ids@ == ids_of(rows@.take(i as int)),
        decreases rows@.len() - i,
    {
        assert(rows@.take(i + 1).drop_last() =~= rows@.take(i as int));
        let id: i64 = rows[i].0;
        let mut known = false;
        let mut k: usize = 0;
        while k < ids.len()
            invariant
                k <= ids@.len(),
                known == exists|j: int| 0 <= j < k && ids@[j] == id,
            decreases ids@.len() - k,
        {
            if ids[k] == id {
                known = true;
            }
            k += 1;
        }
        if !known {
            ids.push(id);
        }
        i += 1;
    }
    assert(rows@.take(i as int) =~= rows@);
    ids
}

// ---------------------------------------------------------------------------
// Pasted lists
// ---------------------------------------------------------------------------

/// A request to analyze a pasted list.
#[derive(Debug)]
pub struct AnalyzeRequest {
    pub text: String,
}

/// What a pasted list lacks.
#[derive(Debug)]
pub struct AnalyzeResponse {
    pub mainboard: Vec<DeckCardEntry>,
    pub sideboard: Vec<DeckCardEntry>,
    pub wildcards_needed: WildcardCost,
    pub unique_missing: u32,
    pub total_missing: u32,
    pub matched_lines: usize,
    pub unmatched_lines: usize,
    pub unmatched_samples: Vec<String>,
}

/// The rows of the entries of a list.
pub open spec fn rows_from(entries: Seq<(u32, u32, bool)>) -> Seq<(i64, i64, i64)> {
    entries.map_values(
        |e: (u32, u32, bool)|
            (
                e.0 as i64,
                e.1 as i64,
                if e.2 {
                    1i64
                } else {
                    0i64
                },
            ),
    )
}

/// The rows of the entries of a list.
pub fn pasted_rows(entries: &Vec<(u32, u32, bool)>) -> (rows: Vec<(i64, i64, i64)>)
    ensures
        rows@ == rows_from(entries@),
{
    let mut rows: Vec<(i64, i64, i64)> = Vec::new();
    let mut i: usize = 0;
    while i < entries.len()
        invariant
            i <= entries@.len(),
            rows@.len() == i,
            forall|k: int| 0 <= k < i ==> #[trigger] rows@[k] == rows_from(entries@)[k],
        decreases entries@.len() - i,
    {
        let (id, qty, side) = entries[i];
        rows.push(
            (
                id as i64,
                qty as i64,
                if side {
                    1
                } else {
                    0
                },
            ),
        );
        i += 1;
    }
    assert(rows@ =~= rows_from(entries@));
    rows
}

/// What a pasted list lacks, given what is owned; nothing where a number is
/// larger than 32 bits hold.
pub fn analyze_pasted(
    cards: &CardDb,
    parsed: ParsedDecklist,
    owned: &HashMap<i64, u32>,
) -> (r: Option<AnalyzeResponse>)
    requires
        cards.wf(),
    ensures
        ({
            let rows = rows_from(parsed.entries@);
            match r {
                Some(a) => {
                    &&& fits(cards@, rows, owned@)
                    &&& analyzes(
                        (Analysis {
                            mainboard: a.mainboard,
                            sideboard: a.sideboard,
                            cost: a.wildcards_needed,
                            unique_missing: a.unique_missing,
                            total_missing: a.total_missing,
                        }),
                        cards@,
                        rows,
                        owned@,
                    )
                    &&& a.matched_lines == parsed.matched_lines
                    &&& a.unmatched_lines == parsed.unmatched_lines
                    &&& a.unmatched_samples == parsed.unmatched_samples
                },
                None => !fits(cards@, rows, owned@),
            }
        }),
{
    let rows = pasted_rows(&parsed.entries);
    match analyze(cards, &rows, owned) {
        Some(a) => Some(
            AnalyzeResponse {
                mainboard: a.mainboard,
                sideboard: a.sideboard,
                wildcards_needed: a.cost,
                unique_missing: a.unique_missing,
                total_missing: a.total_missing,
                matched_lines: parsed.matched_lines,
                unmatched_lines: parsed.unmatched_lines,
                unmatched_samples: parsed.unmatched_samples,
            },
        ),
        None => None,
    }
}

// ---------------------------------------------------------------------------
// What an analysis tells
// ---------------------------------------------------------------------------

/// The word stands nowhere in the text.
pub open spec fn without_word(s: Seq<char>, word: Seq<char>) -> bool {
    forall|i: int| 0 <= i <= s.len() - word.len() ==> #[trigger] s.subrange(i, i + word.len()) != word
}

/// The type line of a card does not say that the card is basic, or says nothing
/// at all.
pub open spec fn never_basic(db: Map<u32, Card>, id: i64) -> bool {
    db.contains_key(id as u32) ==> match db[id as u32].type_line {
        Some(t) => without_word(t@, seq!['B', 'a', 's', 'i', 'c']),
        None => true,
    }
}

/// How many copies are owned.
pub open spec fn in_collection(owned: Map<i64, u32>, id: i64) -> int {
    if owned.contains_key(id) {
        owned[id] as int
    } else {
        0
    }
}

/// A card whose type line does not say that it is basic is not free.
pub proof fn lemma_never_basic(db: Map<u32, Card>, id: i64)
    requires
        never_basic(db, id),
    ensures
        !is_free(db, id),
{
    reveal_strlit("Basic Land");
    if is_free(db, id) {
        let t = db[id as u32].type_line.unwrap()@;
        let i = choose|i: int| text::occurs_at(t, "Basic Land"@, i);
        assert(text::occurs_at(t, "Basic Land"@, i));
        assert(t.subrange(i, i + 5) =~= seq!['B', 'a', 's', 'i', 'c']) by {
            assert forall|k: int| 0 <= k < 5 implies t[i + k] == "Basic Land"@[k] by {
                assert(t.subrange(i, i + 10)[k] == "Basic Land"@[k]);
            }
        }
        assert(t.subrange(i, i + seq!['B', 'a', 's', 'i', 'c'].len()) == seq![
            'B',
            'a',
            's',
            'i',
            'c',
        ]);
    }
}

/// A card whose type line does not say that it is basic is not free: what is
/// missing of it is what is asked for less what is owned.
pub proof fn law_only_basics_are_free(
    db: Map<u32, Card>,
    rows: Seq<(i64, i64, i64)>,
    owned: Map<i64, u32>,
    id: i64,
)
    requires
        never_basic(db, id),
    ensures
        required(rows, id) >= in_collection(owned, id) ==> lacking(db, rows, owned, id)
            == required(rows, id) - in_collection(owned, id),
        required(rows, id) <= in_collection(owned, id) ==> lacking(db, rows, owned, id) == 0,
{
    lemma_never_basic(db, id);
}

/// A card whose type line says "Basic Land" is never missing.
pub proof fn law_basics_are_free(
    db: Map<u32, Card>,
    rows: Seq<(i64, i64, i64)>,
    owned: Map<i64, u32>,
    id: i64,
    i: int,
)
    requires
        db.contains_key(id as u32),
        db[id as u32].type_line matches Some(t) && 0 <= i <= t@.len() - 10 && t@.subrange(i, i + 10)
            == seq!['B', 'a', 's', 'i', 'c', ' ', 'L', 'a', 'n', 'd'],
    ensures
        lacking(db, rows, owned, id) == 0,
{
    reveal_strlit("Basic Land");
    let t = db[id as u32].type_line.unwrap()@;
    assert("Basic Land"@ =~= seq!['B', 'a', 's', 'i', 'c', ' ', 'L', 'a', 'n', 'd']);
    assert(text::occurs_at(t, "Basic Land"@, i));
}

/// One more row asks for as many more copies of its card as its quantity says,
/// on whichever side it is, and for no more of any other.
pub proof fn law_rows_add_up(rows: Seq<(i64, i64, i64)>, row: (i64, i64, i64), id: i64)
    ensures
        required(rows.push(row), id) == required(rows, id) + if row.0 == id {
            row.1 as u32 as nat
        } else {
            0
        },
        required(Seq::<(i64, i64, i64)>::empty(), id) == 0,
{
    assert(rows.push(row).drop_last() =~= rows);
}

proof fn lemma_same_share(
    db: Map<u32, Card>,
    rows: Seq<(i64, i64, i64)>,
    more: Seq<(i64, i64, i64)>,
    owned: Map<i64, u32>,
    ids: Seq<i64>,
    what: Counted,
)
    requires
        forall|i: int|
            0 <= i < ids.len() ==> required(rows, #[trigger] ids[i]) == required(more, ids[i]),
    ensures
        summed(db, rows, owned, ids, what) == summed(db, more, owned, ids, what),
    decreases ids.len(),
{
    if ids.len() > 0 {
        let rest = ids.drop_last();
        assert forall|i: int| 0 <= i < rest.len() implies required(rows, #[trigger] rest[i])
            == required(more, rest[i]) by {
            assert(rest[i] == ids[i]);
        }
        lemma_same_share(db, rows, more, owned, rest, what);
        assert(ids[ids.len() - 1] == ids.last());
    }
}

/// What adding a row for a card that was not in the list adds to each sum.
proof fn lemma_new_row(
    db: Map<u32, Card>,
    rows: Seq<(i64, i64, i64)>,
    owned: Map<i64, u32>,
    row: (i64, i64, i64),
    what: Counted,
)
    requires
        forall|i: int| 0 <= i < rows.len() ==> (#[trigger] rows[i]).0 != row.0,
    ensures
        ({
            let more = rows.push(row);
            summed(db, more, owned, ids_of(more), what) == summed(db, rows, owned, ids_of(rows), what)
                + share(db, more, owned, row.0, what)
        }),
{
    let more = rows.push(row);
    assert(more.drop_last() =~= rows);
    lemma_ids_within(rows);
    assert(!ids_of(rows).contains(row.0));
    let ids = ids_of(more);
    assert(ids == ids_of(rows).push(row.0));
    assert(ids.drop_last() =~= ids_of(rows));
    assert forall|i: int| 0 <= i < ids_of(rows).len() implies required(
        rows,
        #[trigger] ids_of(rows)[i],
    ) == required(more, ids_of(rows)[i]) by {
        assert(ids_of(rows).contains(ids_of(rows)[i]));
    }
    lemma_same_share(db, rows, more, owned, ids_of(rows), what);
}

proof fn lemma_ids_within(rows: Seq<(i64, i64, i64)>)
    ensures
        forall|id: i64| #[trigger]
            ids_of(rows).contains(id) ==> exists|i: int|
                0 <= i < rows.len() && (#[trigger] rows[i]).0 == id,
    decreases rows.len(),
{
    if rows.len() > 0 {
        let rest = rows.drop_last();
        lemma_ids_within(rest);
        assert forall|id: i64| #[trigger] ids_of(rows).contains(id) implies exists|i: int|
            0 <= i < rows.len() && (#[trigger] rows[i]).0 == id by {
            if ids_of(rest).contains(id) {
                let i = choose|i: int| 0 <= i < rest.len() && (#[trigger] rest[i]).0 == id;
                assert(rows[i].0 == id);
            } else {
                let k = choose|k: int| 0 <= k < ids_of(rows).len() && ids_of(rows)[k] == id;
                if k < ids_of(rest).len() {
                    assert(ids_of(rest)[k] == id);
                }
                assert(rows[rows.len() - 1].0 == id);
            }
        }
    }
}

/// What one more row for another card costs: for a card that is not basic, as
/// many copies as it asks for beyond what is owned, counted towards its rarity
/// and no other, and one card more where there are any. Nothing else changes.
pub proof fn law_new_card_costs(
    a: Analysis,
    b: Analysis,
    db: Map<u32, Card>,
    rows: Seq<(i64, i64, i64)>,
    owned: Map<i64, u32>,
    row: (i64, i64, i64),
)
    requires
        forall|i: int| 0 <= i < rows.len() ==> (#[trigger] rows[i]).0 != row.0,
        fits(db, rows, owned),
        fits(db, rows.push(row), owned),
        analyzes(a, db, rows, owned),
        analyzes(b, db, rows.push(row), owned),
        db.contains_key(row.0 as u32),
        never_basic(db, row.0),
    ensures
        ({
            let n = if (row.1 as u32) > in_collection(owned, row.0) {
                (row.1 as u32) - in_collection(owned, row.0)
            } else {
                0
            };
            let rarity = opt_text(db[row.0 as u32].rarity);
            &&& b.total_missing == a.total_missing + n
            &&& b.unique_missing == a.unique_missing + if n > 0 {
                1int
            } else {
                0
            }
            &&& b.cost.common == a.cost.common + if rarity == Some("common"@) {
                n
            } else {
                0
            }
            &&& b.cost.uncommon == a.cost.uncommon + if rarity == Some("uncommon"@) {
                n
            } else {
                0
            }
            &&& b.cost.rare == a.cost.rare + if rarity == Some("rare"@) {
                n
            } else {
                0
            }
            &&& b.cost.mythic == a.cost.mythic + if rarity == Some("mythic"@) {
                n
            } else {
                0
            }
        }),
{
    let more = rows.push(row);
    lemma_never_basic(db, row.0);
    lemma_ids_within(rows);
    lemma_not_required(rows, row.0);
    law_rows_add_up(rows, row, row.0);
    lemma_new_row(db, rows, owned, row, Counted::Copies);
    lemma_new_row(db, rows, owned, row, Counted::Cards);
    lemma_new_row(db, rows, owned, row, Counted::Rarity("common"@));
    lemma_new_row(db, rows, owned, row, Counted::Rarity("uncommon"@));
    lemma_new_row(db, rows, owned, row, Counted::Rarity("rare"@));
    lemma_new_row(db, rows, owned, row, Counted::Rarity("mythic"@));
    lemma_within(db, rows, owned);
    lemma_within(db, more, owned);
}

proof fn lemma_within(db: Map<u32, Card>, rows: Seq<(i64, i64, i64)>, owned: Map<i64, u32>)
    requires
        fits(db, rows, owned),
    ensures
        summed(db, rows, owned, ids_of(rows), Counted::Rarity("common"@)) <= u32::MAX,
        summed(db, rows, owned, ids_of(rows), Counted::Rarity("uncommon"@)) <= u32::MAX,
        summed(db, rows, owned, ids_of(rows), Counted::Rarity("rare"@)) <= u32::MAX,
        summed(db, rows, owned, ids_of(rows), Counted::Rarity("mythic"@)) <= u32::MAX,
{
    let ids = ids_of(rows);
    law_costs_within_total(db, rows, owned, ids, Counted::Rarity("common"@));
    law_costs_within_total(db, rows, owned, ids, Counted::Rarity("uncommon"@));
    law_costs_within_total(db, rows, owned, ids, Counted::Rarity("rare"@));
    law_costs_within_total(db, rows, owned, ids, Counted::Rarity("mythic"@));
}

/// A deck of one row shows what it lacks: for a card that is not basic the copies
/// beyond what is owned, and for no more than it asks for what is owned.
pub proof fn law_one_row(
    a: Analysis,
    db: Map<u32, Card>,
    owned: Map<i64, u32>,
    row: (i64, i64, i64),
)
    requires
        never_basic(db, row.0),
        analyzes(a, db, seq![row], owned),
        fits(db, seq![row], owned),
    ensures
        ({
            let qty = row.1 as u32;
            let n = if qty > in_collection(owned, row.0) {
                qty - in_collection(owned, row.0)
            } else {
                0
            };
            let shown = if row.2 != 0 {
                a.sideboard@
            } else {
                a.mainboard@
            };
            &&& a.mainboard@.len() + a.sideboard@.len() == 1
            &&& shown.len() == 1
            &&& shown[0].missing == n
            &&& shown[0].owned == qty - n
            &&& shown[0].quantity == qty
            &&& shown[0].arena_id == row.0 as u32
            &&& a.total_missing == n
        }),
{
    let rows = seq![row];
    assert(rows.drop_last() =~= Seq::<(i64, i64, i64)>::empty());
    reveal_with_fuel(on_side, 2);
    reveal_with_fuel(ids_of, 2);
    reveal_with_fuel(summed, 2);
    reveal_with_fuel(required, 2);
    reveal_with_fuel(handed_out, 2);
    assert(in_order(rows) =~= seq![row]);
    lemma_never_basic(db, row.0);
    law_missing_handed_out(db, rows, owned, row.0);
    law_owned_and_missing(db, rows, owned, 0);
    lemma_row_missing(db, rows, owned, 0);
    assert(ids_of(rows) =~= seq![row.0]);
    assert(ids_of(rows).drop_last() =~= Seq::<i64>::empty());
    let all = entry_views(a.mainboard@) + entry_views(a.sideboard@);
    assert(in_order(rows).len() == 1);
    assert(required(rows, row.0) == row.1 as u32);
    assert(handed_out(db, rows, owned, row.0, 1) == row_missing(db, rows, owned, 0));
    assert(row_missing(db, rows, owned, 0) == lacking(db, rows, owned, row.0));
    assert(all.len() == 1);
    assert(entry_views(a.mainboard@).len() == a.mainboard@.len());
    assert(entry_views(a.sideboard@).len() == a.sideboard@.len());
    assert(a.total_missing == lacking(db, rows, owned, row.0));
    assert(all[0] == row_entry(db, rows, owned, 0));
    if row.2 != 0 {
        assert(all[0] == a.sideboard@[0]@);
    } else {
        assert(all[0] == a.mainboard@[0]@);
    }
}

/// Only basic lands are free: those whose type line says "Basic Land" in one
/// piece.
pub proof fn law_basic_lines(db: Map<u32, Card>, id: i64)
    ensures
        is_free(db, id) <==> db.contains_key(id as u32) && db[id as u32].type_line is Some
            && !without_word(
            db[id as u32].type_line->Some_0@,
            seq!['B', 'a', 's', 'i', 'c', ' ', 'L', 'a', 'n', 'd'],
        ),
{
    reveal_strlit("Basic Land");
    let word = seq!['B', 'a', 's', 'i', 'c', ' ', 'L', 'a', 'n', 'd'];
    assert("Basic Land"@ =~= word);
    if db.contains_key(id as u32) && db[id as u32].type_line is Some {
        let t = db[id as u32].type_line->Some_0@;
        if text::occurs(t, word) {
            let i = choose|i: int| text::occurs_at(t, word, i);
            assert(t.subrange(i, i + word.len()) == word);
        }
        if !without_word(t, word) {
            let i = choose|i: int|
                0 <= i <= t.len() - word.len() && #[trigger] t.subrange(i, i + word.len()) == word;
            assert(text::occurs_at(t, word, i));
        }
    }
}

/// The rows that come first bear no less than their share of what is missing,
/// and less than one copy more.
pub proof fn law_first_rows_bear_more(
    db: Map<u32, Card>,
    rows: Seq<(i64, i64, i64)>,
    owned: Map<i64, u32>,
    id: i64,
    n: int,
)
    requires
        0 <= n <= in_order(rows).len(),
        required(rows, id) > 0,
    ensures
        ({
            let all = required(rows, id);
            let share = lacking(db, rows, owned, id) * required(in_order(rows).take(n), id);
            share <= handed_out(db, rows, owned, id, n) * all < share + all
        }),
{
    lemma_handed_out(db, rows, owned, id, n);
    lemma_dealt_share(
        lacking(db, rows, owned, id),
        required(rows, id),
        required(in_order(rows).take(n), id),
    );
}

/// One more row is shown on its own side, behind the others there: in the
/// sideboard where its mark is not zero.
pub proof fn law_sides_kept(rows: Seq<(i64, i64, i64)>, row: (i64, i64, i64))
    ensures
        row.2 == 0 ==> on_side(rows.push(row), false) == on_side(rows, false).push(row) && on_side(
            rows.push(row),
            true,
        ) == on_side(rows, true),
        row.2 != 0 ==> on_side(rows.push(row), true) == on_side(rows, true).push(row) && on_side(
            rows.push(row),
            false,
        ) == on_side(rows, false),
        on_side(Seq::<(i64, i64, i64)>::empty(), true).len() == 0,
        on_side(Seq::<(i64, i64, i64)>::empty(), false).len() == 0,
{
    assert(rows.push(row).drop_last() =~= rows);
}

/// The main deck of an analysis shows the rows of the main deck, and the
/// sideboard those of the sideboard, each with its card and its quantity.
pub proof fn law_sides_shown(
    a: Analysis,
    db: Map<u32, Card>,
    rows: Seq<(i64, i64, i64)>,
    owned: Map<i64, u32>,
    i: int,
)
    requires
        analyzes(a, db, rows, owned),
    ensures
        a.mainboard@.len() == on_side(rows, false).len(),
        a.sideboard@.len() == on_side(rows, true).len(),
        0 <= i < a.mainboard@.len() ==> a.mainboard@[i].arena_id == on_side(rows, false)[i].0 as u32
            && a.mainboard@[i].quantity == on_side(rows, false)[i].1 as u32,
        0 <= i < a.sideboard@.len() ==> a.sideboard@[i].arena_id == on_side(rows, true)[i].0 as u32
            && a.sideboard@[i].quantity == on_side(rows, true)[i].1 as u32,
{
    let main = entry_views(a.mainboard@);
    let side = entry_views(a.sideboard@);
    let all = row_entries(db, rows, owned);
    assert(main.len() == a.mainboard@.len());
    assert(side.len() == a.sideboard@.len());
    assert((main + side).len() == all.len());
    if 0 <= i < main.len() {
        assert((main + side)[i] == a.mainboard@[i]@);
        assert(all[i] == row_entry(db, rows, owned, i));
    }
    if 0 <= i < side.len() {
        assert((main + side)[main.len() + i] == a.sideboard@[i]@);
        assert(all[main.len() + i] == row_entry(db, rows, owned, main.len() + i));
    }
}

/// What is owned of a card is what the last row of the collection for it says;
/// a number below zero counts as none, and so does a card without a row.
pub proof fn law_owned_rows(rows: Seq<(i64, i64)>, i: int, id: i64)
    requires
        0 <= i < rows.len(),
        rows[i].0 == id,
        forall|j: int| i < j < rows.len() ==> (#[trigger] rows[j]).0 != id,
        rows[i].1 <= u32::MAX,
    ensures
        rows[i].1 >= 0 ==> in_collection(owned_from(rows), id) == rows[i].1,
        rows[i].1 < 0 ==> in_collection(owned_from(rows), id) == 0,
    decreases rows.len(),
{
    let rest = rows.drop_last();
    if i < rest.len() {
        assert(rows[rows.len() - 1].0 != id);
        assert(rest[i] == rows[i]);
        assert forall|j: int| i < j < rest.len() implies (#[trigger] rest[j]).0 != id by {
            assert(rest[j] == rows[j]);
        }
        law_owned_rows(rest, i, id);
    }
}

/// A card without a row in the collection is not owned.
pub proof fn law_not_owned(rows: Seq<(i64, i64)>, id: i64)
    requires
        forall|j: int| 0 <= j < rows.len() ==> (#[trigger] rows[j]).0 != id,
    ensures
        in_collection(owned_from(rows), id) == 0,
    decreases rows.len(),
{
    if rows.len() > 0 {
        let rest = rows.drop_last();
        assert(rows[rows.len() - 1].0 != id);
        assert forall|j: int| 0 <= j < rest.len() implies (#[trigger] rest[j]).0 != id by {
            assert(rest[j] == rows[j]);
        }
        law_not_owned(rest, id);
    }
}

/// Every card of the rows is counted, and each once.
pub proof fn law_ids_once(rows: Seq<(i64, i64, i64)>, id: i64)
    ensures
        ids_of(rows).contains(id) <==> exists|i: int|
            0 <= i < rows.len() && (#[trigger] rows[i]).0 == id,
        ids_of(rows).no_duplicates(),
    decreases rows.len(),
{
    if rows.len() > 0 {
        let rest = rows.drop_last();
        let last = rows[rows.len() - 1];
        law_ids_once(rest, id);
        law_ids_once(rest, last.0);
        let was = ids_of(rest);
        let is = ids_of(rows);
        assert forall|j: int| 0 <= j < rest.len() implies rest[j] == rows[j] by {}
        if was.contains(id) {
            let k = choose|k: int| 0 <= k < was.len() && was[k] == id;
            assert(is[k] == id);
            let i = choose|i: int| 0 <= i < rest.len() && (#[trigger] rest[i]).0 == id;
            assert(rows[i].0 == id);
        }
        if is.contains(id) && !was.contains(id) {
            let k = choose|k: int| 0 <= k < is.len() && is[k] == id;
            if k < was.len() {
                assert(was[k] == id);
            }
            assert(rows[rows.len() - 1].0 == id);
        }
        if last.0 == id && !was.contains(id) {
            assert(is[is.len() - 1] == id);
        }
    }
}

/// A pasted list becomes rows as a stored deck has them: card, copies and side.
pub proof fn law_pasted_rows(entries: Seq<(u32, u32, bool)>, i: int)
    requires
        0 <= i < entries.len(),
    ensures
        rows_from(entries).len() == entries.len(),
        rows_from(entries)[i].0 == entries[i].0,
        rows_from(entries)[i].1 == entries[i].1,
        rows_from(entries)[i].2 != 0 <==> entries[i].2,
{
}

/// The question has a place for each card: one more card is one more place.
pub proof fn law_owned_question(n: nat)
    requires
        n > 0,
    ensures
        owned_question(1) == "SELECT card_id, quantity FROM collection WHERE card_id IN ("@ + seq![
            '?',
        ] + seq![')'],
        owned_question(n).last() == ')',
        owned_question(n + 1) == owned_question(n).drop_last() + seq![',', '?', ')'],
{
    reveal_strlit("?");
    reveal_strlit(",");
    reveal_strlit(")");
    assert("?"@ =~= seq!['?']);
    assert(","@ =~= seq![',']);
    assert(")"@ =~= seq![')']);
    let head = "SELECT card_id, quantity FROM collection WHERE card_id IN ("@;
    let one = Seq::new(1, |i: int| "?"@);
    let list = Seq::new(n, |i: int| "?"@);
    let more = Seq::new(n + 1, |i: int| "?"@);
    assert(text::joined(one, ","@) == "?"@);
    assert(more.drop_last() =~= list);
    assert(more.last() == "?"@);
    let all = text::joined(list, ","@);
    assert(text::joined(more, ","@) == all + ","@ + "?"@);
    assert(owned_question(n).drop_last() =~= head + all);
    assert(owned_question(n + 1) =~= owned_question(n).drop_last() + seq![',', '?', ')']);
}

/// A row of an analysis whose card is known shows its name and in which formats
/// it is legal.
pub proof fn law_rows_shown(
    a: Analysis,
    db: Map<u32, Card>,
    rows: Seq<(i64, i64, i64)>,
    owned: Map<i64, u32>,
    i: int,
)
    requires
        analyzes(a, db, rows, owned),
        0 <= i < a.mainboard@.len(),
        db.contains_key(on_side(rows, false)[i].0 as u32),
    ensures
        ({
            let c = db[on_side(rows, false)[i].0 as u32];
            &&& a.mainboard@[i].name@ == c.name@
            &&& a.mainboard@[i].cmc == c.cmc
            &&& a.mainboard@[i]@.legalities == super::entries::opt_pairs(c.legalities)
        }),
{
    let main = entry_views(a.mainboard@);
    let side = entry_views(a.sideboard@);
    let all = row_entries(db, rows, owned);
    assert(main.len() == a.mainboard@.len());
    assert((main + side)[i] == a.mainboard@[i]@);
    assert(all[i] == row_entry(db, rows, owned, i));
}

} // verus!
