//! Cards that are handed out: by boosters, rewards and other changes of the
//! inventory, wherever in a payload they stand.
use std::collections::HashMap;
use vstd::prelude::*;

use crate::counts::{adds_up, checked_tally, countable};
use crate::json::{
    field_views,
    first_field,
    get_first,
    item_views,
    key_texts,
    law_first_of,
    law_get,
    lemma_array_view,
    lemma_object_view,
    Json,
    JsonNumber,
    JsonView,
};

verus! {

/// The cards that an item of a list hands out: one copy where it is a card id,
/// or else the quantity it gives, one where it gives none.
pub open spec fn grant_in(v: JsonView) -> Option<(u32, u32)> {
    let id = first_field(v, seq!["cardId"@, "grpId"@]);
    if v.natural() is Some && v.natural().unwrap() <= u32::MAX {
        Some((v.natural().unwrap() as u32, 1))
    } else if id is Some && id.unwrap().natural() is Some {
        let qty = match v.get("quantity"@) {
            Some(q) => match q.natural() {
                Some(n) => n,
                None => 1,
            },
            None => 1,
        };
        Some((id.unwrap().natural().unwrap() as u32, qty as u32))
    } else {
        None
    }
}

/// The cards that the items of a list hand out.
pub open spec fn grants_of(items: Seq<JsonView>) -> Seq<(u32, u32)>
    decreases items.len(),
{
    if items.len() == 0 {
        seq![]
    } else {
        match grant_in(items.last()) {
            Some(g) => grants_of(items.drop_last()).push(g),
            None => grants_of(items.drop_last()),
        }
    }
}

/// The keys whose lists hand out cards.
pub open spec fn grant_keys() -> Seq<Seq<char>> {
    seq!["cardsAdded"@, "cardsOpened"@, "cardGrants"@, "boosterContents"@, "Cards"@, "cards"@]
}

/// The cards that the lists under the first `n` of the keys hand out.
pub open spec fn direct_grants(v: JsonView, n: int) -> Seq<(u32, u32)>
    decreases n,
{
    if n <= 0 {
        seq![]
    } else {
        match v.get(grant_keys()[n - 1]) {
            Some(x) if x.items() is Some => direct_grants(v, n - 1) + grants_of(
                x.items().unwrap(),
            ),
            _ => direct_grants(v, n - 1),
        }
    }
}

/// The cards that a value hands out, at any depth.
pub open spec fn grants_in(v: JsonView) -> Seq<(u32, u32)>
    decreases v,
{
    match v {
        JsonView::Object(fields) => direct_grants(v, 6) + grants_in_fields(fields),
        JsonView::Array(items) => grants_in_items(items),
        _ => seq![],
    }
}

/// The cards that the items of an array hand out, at any depth.
pub open spec fn grants_in_items(items: Seq<JsonView>) -> Seq<(u32, u32)>
    decreases items,
{
    if items.len() == 0 {
        seq![]
    } else {
        grants_in_items(items.subrange(0, items.len() - 1)) + grants_in(items[items.len() - 1])
    }
}

/// The cards that the fields of an object hand out, at any depth.
pub open spec fn grants_in_fields(fields: Seq<(Seq<char>, JsonView)>) -> Seq<(u32, u32)>
    decreases fields,
{
    if fields.len() == 0 {
        seq![]
    } else {
        grants_in_fields(fields.subrange(0, fields.len() - 1)) + grants_in(
            fields[fields.len() - 1].1,
        )
    }
}

fn grant_of(v: &Json) -> (r: Option<(u32, u32)>)
    ensures
        r == grant_in(v@),
{
    if let Some(n) = v.as_u64() {
        if n <= u32::MAX as u64 {
            return Some((n as u32, 1));
        }
    }
    let keys = ["cardId", "grpId"];
    assert(key_texts(keys@) =~= seq!["cardId"@, "grpId"@]);
    if let Some(id) = get_first(v, &keys) {
        if let Some(n) = id.as_u64() {
            let qty: u64 = match v.get("quantity") {
                Some(q) => match q.as_u64() {
                    Some(k) => k,
                    None => 1,
                },
                None => 1,
            };
            return Some((n as u32, qty as u32));
        }
    }
    None
}

fn push_grants(items: &Vec<Json>, out: &mut Vec<(u32, u32)>)
    ensures
        final(out)@ == old(out)@ + grants_of(item_views(items@)),
{
    let ghost all = item_views(items@);
    let ghost was = out@;
    let mut i: usize = 0;
    assert(out@ =~= was + grants_of(all.take(0)));
    while i < items.len()
        invariant
            i <= items@.len(),
            all == item_views(items@),
            out@ == was + grants_of(all.take(i as int)),
        decreases items@.len() - i,
    {
        assert(all.take(i + 1).drop_last() =~= all.take(i as int));
        assert(all.take(i + 1).last() == items@[i as int]@);
        if let Some(g) = grant_of(&items[i]) {
            out.push(g);
        }
        i += 1;
        assert(out@ =~= was + grants_of(all.take(i as int)));
    }
    assert(all.take(i as int) =~= all);
}

/// How many copies of each card a value hands out, at any depth; nothing where
/// 32 bits do not count the copies of some card.
pub fn additions(v: &Json) -> (r: Option<HashMap<u32, u32>>)
    ensures
        match r {
            Some(m) => countable(grants_in(v@)) && adds_up(m@, grants_in(v@)),
            None => !countable(grants_in(v@)),
        },
{
    let mut out: Vec<(u32, u32)> = Vec::new();
    walk(v, &mut out);
    assert(out@ =~= grants_in(v@));
    checked_tally(&out)
}

/// Appends the cards that a value hands out, at any depth.
pub fn walk(v: &Json, out: &mut Vec<(u32, u32)>)
    ensures
        final(out)@ == old(out)@ + grants_in(v@),
    decreases v,
{
    let ghost was = out@;
    match v {
        Json::Object(fields) => {
            let keys = ["cardsAdded", "cardsOpened", "cardGrants", "boosterContents", "Cards", "cards"];
            assert(key_texts(keys@) =~= grant_keys());
            let mut k: usize = 0;
            assert(out@ =~= was + direct_grants(v@, 0));
            while k < 6
                invariant
                    k <= 6,
                    key_texts(keys@) == grant_keys(),
                    out@ == was + direct_grants(v@, k as int),
                decreases 6 - k,
            {
                assert(grant_keys()[k as int] == keys@[k as int]@);
                if let Some(x) = v.get(keys[k]) {
                    if let Some(items) = x.as_array() {
                        push_grants(items, out);
                    }
                }
                k += 1;
                assert(out@ =~= was + direct_grants(v@, k as int));
            }
            let ghost direct = out@;
            let ghost all = field_views(fields@);
            let mut i: usize = 0;
            assert(out@ =~= direct + grants_in_fields(all.take(0)));
            while i < fields.len()
                invariant
                    i <= fields@.len(),
                    *v == Json::Object(*fields),
                    all == field_views(fields@),
                    out@ == direct + grants_in_fields(all.take(i as int)),
                decreases fields@.len() - i,
            {
                assert(decreases_to!(*v => (*v)->Object_0));
                assert(decreases_to!(*fields => fields@));
                assert(decreases_to!(fields@ => fields@[i as int]));
                assert(decreases_to!(fields@[i as int] => fields@[i as int].1));
                walk(&fields[i].1, out);
                i += 1;
                proof {
                    let part = all.take(i as int);
                    assert(part.subrange(0, part.len() - 1) =~= all.take(i - 1));
                    assert(part[part.len() - 1].1 == fields@[i - 1].1@);
                    assert(out@ =~= direct + grants_in_fields(part));
                }
            }
            proof {
                lemma_object_view(*fields);
                assert(all.take(i as int) =~= all);
                assert(out@ =~= was + grants_in(v@));
            }
        },
        Json::Array(items) => {
            let ghost all = item_views(items@);
            let mut i: usize = 0;
            assert(out@ =~= was + grants_in_items(all.take(0)));
            while i < items.len()
                invariant
                    i <= items@.len(),
                    *v == Json::Array(*items),
                    all == item_views(items@),
                    out@ == was + grants_in_items(all.take(i as int)),
                decreases items@.len() - i,
            {
                assert(decreases_to!(*v => (*v)->Array_0));
                assert(decreases_to!(*items => items@));
                assert(decreases_to!(items@ => items@[i as int]));
                walk(&items[i], out);
                i += 1;
                proof {
                    let part = all.take(i as int);
                    assert(part.subrange(0, part.len() - 1) =~= all.take(i - 1));
                    assert(part[part.len() - 1] == items@[i - 1]@);
                    assert(out@ =~= was + grants_in_items(part));
                }
            }
            proof {
                lemma_array_view(*items);
                assert(all.take(i as int) =~= all);
            }
        },
        _ => {
            assert(out@ =~= was + grants_in(v@));
        },
    }
}

/// The quantity of a card after a change: no card goes below zero copies. A
/// card that was not there begins with the change itself.
pub open spec fn changed(quantity: Option<i64>, delta: i64) -> int {
    match quantity {
        Some(q) => if q + delta < 0 {
            0
        } else {
            q + delta
        },
        None => delta as int,
    }
}

/// The quantity of a card after a change; nothing where 64 bits do not hold
/// it.
pub fn apply_delta(quantity: Option<i64>, delta: i64) -> (r: Option<i64>)
    ensures
        match r {
            Some(n) => n == changed(quantity, delta),
            None => changed(quantity, delta) > i64::MAX,
        },
{
    match quantity {
        Some(q) => {
            let sum: i128 = q as i128 + delta as i128;
            if sum < 0 {
                Some(0)
            } else if sum > i64::MAX as i128 {
                None
            } else {
                Some(sum as i64)
            }
        },
        None => Some(delta),
    }
}

/// Payloads that list no cards anywhere hand out none.
pub proof fn law_no_lists_no_grants(fields: Seq<(Seq<char>, JsonView)>)
    requires
        forall|k: int|
            0 <= k < 6 ==> JsonView::Object(fields).get(#[trigger] grant_keys()[k]) is None,
        forall|i: int|
            0 <= i < fields.len() ==> !((#[trigger] fields[i]).1 is Object)
                && !(fields[i].1 is Array),
    ensures
        grants_in(JsonView::Object(fields)).len() == 0,
{
    let v = JsonView::Object(fields);
    lemma_no_direct(v, 6);
    lemma_plain_fields(fields);
}

proof fn lemma_no_direct(v: JsonView, n: int)
    requires
        0 <= n <= 6,
        forall|k: int| 0 <= k < 6 ==> v.get(#[trigger] grant_keys()[k]) is None,
    ensures
        direct_grants(v, n).len() == 0,
    decreases n,
{
    if n > 0 {
        lemma_no_direct(v, n - 1);
        assert(v.get(grant_keys()[n - 1]) is None);
    }
}

proof fn lemma_plain_fields(fields: Seq<(Seq<char>, JsonView)>)
    requires
        forall|i: int|
            0 <= i < fields.len() ==> !((#[trigger] fields[i]).1 is Object)
                && !(fields[i].1 is Array),
    ensures
        grants_in_fields(fields).len() == 0,
    decreases fields.len(),
{
    if fields.len() > 0 {
        let rest = fields.subrange(0, fields.len() - 1);
        assert forall|i: int| 0 <= i < rest.len() implies !((#[trigger] rest[i]).1 is Object)
            && !(rest[i].1 is Array) by {
            assert(rest[i] == fields[i]);
        }
        lemma_plain_fields(rest);
        let last = fields[fields.len() - 1].1;
        assert(!(last is Object) && !(last is Array));
        reveal_with_fuel(grants_in, 2);
        assert(grants_in(last).len() == 0);
    }
}

/// A list of card ids hands out one copy of each, as often as it is listed.
pub proof fn law_grants_of_ids(ids: Seq<u32>)
    ensures
        grants_of(ids.map_values(|id: u32| JsonView::Number(JsonNumber::Pos(id as u64))))
            == ids.map_values(|id: u32| (id, 1u32)),
    decreases ids.len(),
{
    let items = ids.map_values(|id: u32| JsonView::Number(JsonNumber::Pos(id as u64)));
    if ids.len() > 0 {
        law_grants_of_ids(ids.drop_last());
        assert(items.drop_last() =~= ids.drop_last().map_values(
            |id: u32| JsonView::Number(JsonNumber::Pos(id as u64)),
        ));
        assert(grants_of(items) =~= ids.map_values(|id: u32| (id, 1u32)));
    } else {
        assert(grants_of(items) =~= ids.map_values(|id: u32| (id, 1u32)));
    }
}

/// An object in a list hands out as many copies of its card as it says, and one
/// where it says nothing.
pub proof fn law_grant_objects(v: JsonView, id: u32, qty: u32)
    requires
        v is Object,
        v.get("cardId"@) == Some(JsonView::Number(JsonNumber::Pos(id as u64))),
    ensures
        v.get("quantity"@) == Some(JsonView::Number(JsonNumber::Pos(qty as u64))) ==> grant_in(v)
            == Some((id, qty)),
        v.get("quantity"@) is None ==> grant_in(v) == Some((id, 1u32)),
{
    let keys = seq!["cardId"@, "grpId"@];
    law_first_of(v, keys, 0);
}

/// What is handed out does not depend on how deep it is buried: wrapped in a
/// field that is no list of cards, or in an array, it is the same.
pub proof fn law_grants_at_any_depth(key: Seq<char>, v: JsonView)
    ensures
        grants_in(JsonView::Array(seq![v])) == grants_in(v),
        !grant_keys().contains(key) ==> grants_in(JsonView::Object(seq![(key, v)])) == grants_in(v),
{
    let items = seq![v];
    assert(items.subrange(0, 0) =~= Seq::<JsonView>::empty());
    assert(grants_in_items(items) == grants_in_items(items.subrange(0, 0)) + grants_in(v));
    assert(Seq::<(u32, u32)>::empty() + grants_in(v) =~= grants_in(v));
    if !grant_keys().contains(key) {
        let fields = seq![(key, v)];
        let o = JsonView::Object(fields);
        assert forall|k: int| 0 <= k < 6 implies o.get(#[trigger] grant_keys()[k]) is None by {
            law_get(o, grant_keys()[k]);
            assert(grant_keys().contains(grant_keys()[k]));
        }
        lemma_no_direct(o, 6);
        assert(fields.subrange(0, 0) =~= Seq::<(Seq<char>, JsonView)>::empty());
        assert(grants_in_fields(fields) == grants_in_fields(fields.subrange(0, 0)) + grants_in(v));
    }
}

/// Values side by side hand out what each of them does.
pub proof fn law_grants_side_by_side(items: Seq<JsonView>, v: JsonView)
    ensures
        grants_in(JsonView::Array(items.push(v))) == grants_in(JsonView::Array(items)) + grants_in(
            v,
        ),
{
    let more = items.push(v);
    assert(more.subrange(0, more.len() - 1) =~= items);
    assert(more[more.len() - 1] == v);
}

/// Each of the known lists hands out its cards, once: the numbers under such a
/// name are counted as they stand.
pub proof fn law_known_lists(k: int, ids: Seq<u32>, id: u32)
    requires
        0 <= k < 6,
    ensures
        ({
            let key = seq![
                "cardsAdded"@,
                "cardsOpened"@,
                "cardGrants"@,
                "boosterContents"@,
                "Cards"@,
                "cards"@,
            ][k];
            let items = ids.map_values(
                |id: u32| JsonView::Number(JsonNumber::Pos(id as u64)),
            );
            grants_in(JsonView::Object(seq![(key, JsonView::Array(items))])) == ids.map_values(
                |id: u32| (id, 1u32),
            )
        }),
{
    let key = grant_keys()[k];
    let items = ids.map_values(|id: u32| JsonView::Number(JsonNumber::Pos(id as u64)));
    let list = JsonView::Array(items);
    let fields = seq![(key, list)];
    let o = JsonView::Object(fields);
    law_grants_of_ids(ids);
    lemma_keys_differ();
    assert forall|j: int| 0 <= j < 6 implies o.get(#[trigger] grant_keys()[j]) == (if j == k {
        Some(list)
    } else {
        None
    }) by {
        law_get(o, grant_keys()[j]);
        assert(fields[0].0 == key);
        if j == k {
            assert(o.get(grant_keys()[j]) == Some(fields[0].1));
        } else {
            assert(grant_keys()[j] != grant_keys()[k]);
        }
    }
    lemma_one_direct(o, list, k, 6);
    lemma_numbers_hand_out_nothing(items);
    assert(fields.subrange(0, 0) =~= Seq::<(Seq<char>, JsonView)>::empty());
    assert(grants_in_fields(fields) == grants_in_fields(fields.subrange(0, 0)) + grants_in(list));
    assert(grants_in(o) =~= grants_of(items));
}

proof fn lemma_keys_differ()
    ensures
        forall|i: int, j: int|
            0 <= i < 6 && 0 <= j < 6 && i != j ==> #[trigger] grant_keys()[i]
                != #[trigger] grant_keys()[j],
{
    reveal_strlit("cardsAdded");
    reveal_strlit("cardsOpened");
    reveal_strlit("cardGrants");
    reveal_strlit("boosterContents");
    reveal_strlit("Cards");
    reveal_strlit("cards");
    let a = "cardsAdded"@;
    let b = "cardsOpened"@;
    let c = "cardGrants"@;
    let d = "boosterContents"@;
    let e = "Cards"@;
    let f = "cards"@;
    assert(a.len() == 10 && b.len() == 11 && c.len() == 10 && d.len() == 15 && e.len() == 5
        && f.len() == 5);
    assert(a[4] != c[4] && e[0] != f[0]);
}

proof fn lemma_one_direct(v: JsonView, list: JsonView, k: int, n: int)
    requires
        0 <= n <= 6,
        0 <= k < 6,
        list is Array,
        forall|j: int|
            0 <= j < 6 ==> v.get(#[trigger] grant_keys()[j]) == (if j == k {
                Some(list)
            } else {
                None
            }),
    ensures
        direct_grants(v, n) == (if n > k {
            grants_of(list->Array_0)
        } else {
            seq![]
        }),
    decreases n,
{
    if n > 0 {
        lemma_one_direct(v, list, k, n - 1);
        assert(v.get(grant_keys()[n - 1]) == (if n - 1 == k {
            Some(list)
        } else {
            None
        }));
        assert(Seq::<(u32, u32)>::empty() + grants_of(list->Array_0) =~= grants_of(
            list->Array_0,
        ));
    }
}

proof fn lemma_numbers_hand_out_nothing(items: Seq<JsonView>)
    requires
        forall|i: int| 0 <= i < items.len() ==> (#[trigger] items[i]) is Number,
    ensures
        grants_in(JsonView::Array(items)).len() == 0,
        grants_in_items(items).len() == 0,
    decreases items.len(),
{
    if items.len() > 0 {
        let rest = items.subrange(0, items.len() - 1);
        assert forall|i: int| 0 <= i < rest.len() implies (#[trigger] rest[i]) is Number by {
            assert(rest[i] == items[i]);
        }
        lemma_numbers_hand_out_nothing(rest);
        let last = items[items.len() - 1];
        assert(last is Number);
        assert(grants_in(last).len() == 0);
        assert(grants_in_items(items) == grants_in_items(rest) + grants_in(last));
    }
    assert(grants_in(JsonView::Array(items)) == grants_in_items(items));
}

/// A collection never goes below zero, and gains and losses within what is owned
/// cancel out.
pub proof fn law_changes(quantity: i64, delta: i64)
    requires
        quantity >= 0,
    ensures
        changed(Some(quantity), delta) >= 0,
        quantity + delta >= 0 ==> changed(Some(quantity), delta) == quantity + delta,
        quantity + delta < 0 ==> changed(Some(quantity), delta) == 0,
        changed(None, delta) == delta,
{
}

/// The card that an object hands out may stand under either of its names, and
/// the first goes first.
pub proof fn law_grant_names(v: JsonView, id: u32, qty: u32)
    requires
        v is Object,
        v.get("cardId"@) is None,
        v.get("grpId"@) == Some(JsonView::Number(JsonNumber::Pos(id as u64))),
        v.get("quantity"@) == Some(JsonView::Number(JsonNumber::Pos(qty as u64))),
    ensures
        grant_in(v) == Some((id, qty)),
{
    law_first_of(v, seq!["cardId"@, "grpId"@], 1);
}

} // verus!
