//! The collection: an object of card ids and quantities, at the top of the
//! payload or under a key of its own.
use vstd::prelude::*;

use crate::json::{field_views, Json, JsonNumber, JsonView};
use crate::text::{self, decimal, law_decimal_reads_back, number};

verus! {

pub open spec fn collection_keys() -> Seq<Seq<char>> {
    seq!["cards"@, "playerCards"@, "cardPool"@, "collection"@, "playerCardsV3"@]
}

/// Every key denotes a card id.
pub open spec fn all_ids(fields: Seq<(Seq<char>, JsonView)>) -> bool {
    forall|i: int| 0 <= i < fields.len() ==> number((#[trigger] fields[i]).0, u32::MAX as nat) is Some
}

/// The object under the first of the keys that has an object; empty where
/// there is none.
pub open spec fn first_fields(v: JsonView, keys: Seq<Seq<char>>) -> Seq<(Seq<char>, JsonView)>
    decreases keys.len(),
{
    if keys.len() == 0 {
        seq![]
    } else {
        match v.get(keys[0]) {
            Some(x) if x.fields() is Some => x.fields().unwrap(),
            _ => first_fields(v, keys.skip(1)),
        }
    }
}

/// The fields that hold the collection: those of the payload where it has any
/// and all their keys are card ids, or else those under a key of its own.
pub open spec fn collection_in(payload: JsonView) -> Seq<(Seq<char>, JsonView)> {
    match payload {
        JsonView::Object(fields) => if fields.len() > 0 && all_ids(fields) {
            fields
        } else {
            first_fields(payload, collection_keys())
        },
        _ => seq![],
    }
}

/// The card and the quantity of a field; nothing where the key is no card id
/// or the value is no natural number.
pub open spec fn owned_in(f: (Seq<char>, JsonView)) -> Option<(u32, i64)> {
    match (number(f.0, u32::MAX as nat), f.1.natural()) {
        (Some(id), Some(qty)) => Some((id as u32, qty as i64)),
        _ => None,
    }
}

/// The cards and quantities of the fields, in their order.
pub open spec fn owned_rows(fields: Seq<(Seq<char>, JsonView)>) -> Seq<(u32, i64)>
    decreases fields.len(),
{
    if fields.len() == 0 {
        seq![]
    } else {
        match owned_in(fields.last()) {
            Some(row) => owned_rows(fields.drop_last()).push(row),
            None => owned_rows(fields.drop_last()),
        }
    }
}

fn id_of(key: &String) -> (r: Option<u32>)
    ensures
        match r {
            Some(n) => number(key@, u32::MAX as nat) == Some(n as nat),
            None => number(key@, u32::MAX as nat) is None,
        },
{
    text::parse_number(&text::chars_of(key.as_str()), u32::MAX)
}

/// The fields that hold the collection; nothing stands for no field.
pub fn locate_collection<'a>(payload: &'a Json) -> (r: Option<&'a Vec<(String, Json)>>)
    ensures
        match r {
            Some(fields) => field_views(fields@) == collection_in(payload@),
            None => collection_in(payload@).len() == 0,
        },
{
    let fields = match payload.as_object() {
        Some(f) => f,
        None => {
            return None;
        },
    };
    let ghost all = field_views(fields@);
    let mut ids = true;
    let mut i: usize = 0;
    while i < fields.len()
        invariant
            i <= fields@.len(),
            all == field_views(fields@),
            ids == forall|k: int|
                0 <= k < i ==> number((#[trigger] all[k]).0, u32::MAX as nat) is Some,
        decreases fields@.len() - i,
    {
        assert(all[i as int].0 == fields@[i as int].0@);
        if id_of(&fields[i].0).is_none() {
            ids = false;
        }
        i += 1;
    }
    if ids && fields.len() > 0 {
        return Some(fields);
    }
    let keys = ["cards", "playerCards", "cardPool", "collection", "playerCardsV3"];
    let ghost texts = collection_keys();
    assert(crate::json::key_texts(keys@) =~= texts);
    let mut k: usize = 0;
    assert(texts.skip(0) =~= texts);
    while k < 5
        invariant
            k <= 5,
            texts == crate::json::key_texts(keys@),
            texts.len() == 5,
            first_fields(payload@, texts) == first_fields(payload@, texts.skip(k as int)),
            collection_in(payload@) == first_fields(payload@, texts),
        decreases 5 - k,
    {
        assert(texts.skip(k as int).skip(1) =~= texts.skip(k + 1));
        assert(texts.skip(k as int)[0] == keys@[k as int]@);
        if let Some(x) = payload.get(keys[k]) {
            if let Some(inner) = x.as_object() {
                return Some(inner);
            }
        }
        k += 1;
    }
    None
}

/// The cards and quantities of the collection that a payload holds.
pub fn collection_rows(payload: &Json) -> (rows: Vec<(u32, i64)>)
    ensures
        rows@ == owned_rows(collection_in(payload@)),
{
    let mut rows: Vec<(u32, i64)> = Vec::new();
    assert(rows@ =~= Seq::<(u32, i64)>::empty());
    if let Some(fields) = locate_collection(payload) {
        let ghost all = field_views(fields@);
        let mut i: usize = 0;
        assert(all.take(0) =~= Seq::<(Seq<char>, JsonView)>::empty());
        while i < fields.len()
            invariant
                i <= fields@.len(),
                all == field_views(fields@),
                rows@ == owned_rows(all.take(i as int)),
            decreases fields@.len() - i,
        {
            assert(all.take(i + 1).drop_last() =~= all.take(i as int));
            assert(all.take(i + 1).last() == (fields@[i as int].0@, fields@[i as int].1@));
            if let Some(id) = id_of(&fields[i].0) {
                if let Some(qty) = fields[i].1.as_u64() {
                    rows.push((id, qty as i64));
                }
            }
            i += 1;
        }
        assert(all.take(i as int) =~= all);
    }
    rows
}

/// A collection at the root of a payload, with nothing but card ids as keys, and
/// one under a known name, is taken whole: each card with the number it stands
/// for, in its place.
pub proof fn law_collections(owned: Seq<(u32, u32)>, payload: JsonView)
    requires
        owned.len() > 0,
    ensures
        ({
            let fields = owned.map_values(
                |c: (u32, u32)|
                    (decimal(c.0 as nat), JsonView::Number(JsonNumber::Pos(c.1 as u64))),
            );
            let rows = owned.map_values(|c: (u32, u32)| (c.0, c.1 as i64));
            &&& owned_rows(collection_in(JsonView::Object(fields))) == rows
            &&& payload is Object && payload.get("cards"@) == Some(JsonView::Object(fields)) && !(
            payload->Object_0.len() > 0 && all_ids(payload->Object_0)) ==> owned_rows(
                collection_in(payload),
            ) == rows
        }),
{
    let fields = owned.map_values(
        |c: (u32, u32)| (decimal(c.0 as nat), JsonView::Number(JsonNumber::Pos(c.1 as u64))),
    );
    assert(all_ids(fields)) by {
        assert forall|i: int| 0 <= i < fields.len() implies number(
            (#[trigger] fields[i]).0,
            u32::MAX as nat,
        ) is Some by {
            law_decimal_reads_back(owned[i].0 as nat, u32::MAX as nat);
        }
    }
    lemma_owned_rows(owned);
    assert(collection_keys()[0] == "cards"@);
}

proof fn lemma_owned_rows(owned: Seq<(u32, u32)>)
    ensures
        owned_rows(
            owned.map_values(
                |c: (u32, u32)|
                    (decimal(c.0 as nat), JsonView::Number(JsonNumber::Pos(c.1 as u64))),
            ),
        ) == owned.map_values(|c: (u32, u32)| (c.0, c.1 as i64)),
    decreases owned.len(),
{
    let fields = owned.map_values(
        |c: (u32, u32)| (decimal(c.0 as nat), JsonView::Number(JsonNumber::Pos(c.1 as u64))),
    );
    let rows = owned.map_values(|c: (u32, u32)| (c.0, c.1 as i64));
    if owned.len() > 0 {
        lemma_owned_rows(owned.drop_last());
        assert(fields.drop_last() =~= owned.drop_last().map_values(
            |c: (u32, u32)|
                (decimal(c.0 as nat), JsonView::Number(JsonNumber::Pos(c.1 as u64))),
        ));
        law_decimal_reads_back(owned.last().0 as nat, u32::MAX as nat);
        assert(owned_rows(fields) =~= rows);
    } else {
        assert(owned_rows(fields) =~= rows);
    }
}

/// A collection may stand under any of its names, and of several objects the
/// first in this order counts.
pub proof fn law_collection_names(payload: JsonView, k: int, fields: Seq<(Seq<char>, JsonView)>)
    requires
        payload is Object,
        exists|i: int|
            0 <= i < payload->Object_0.len() && number(
                (#[trigger] payload->Object_0[i]).0,
                u32::MAX as nat,
            ) is None,
        0 <= k < 5,
        ({
            let names = seq![
                "cards"@,
                "playerCards"@,
                "cardPool"@,
                "collection"@,
                "playerCardsV3"@,
            ];
            &&& payload.get(names[k]) == Some(JsonView::Object(fields))
            &&& forall|j: int| 0 <= j < k ==> payload.get(#[trigger] names[j]) is None
        }),
    ensures
        collection_in(payload) == fields,
{
    let names = seq!["cards"@, "playerCards"@, "cardPool"@, "collection"@, "playerCardsV3"@];
    assert(collection_keys() =~= names);
    lemma_first_fields(payload, names, k, fields);
}

proof fn lemma_first_fields(
    v: JsonView,
    keys: Seq<Seq<char>>,
    k: int,
    fields: Seq<(Seq<char>, JsonView)>,
)
    requires
        0 <= k < keys.len(),
        v.get(keys[k]) == Some(JsonView::Object(fields)),
        forall|j: int| 0 <= j < k ==> v.get(#[trigger] keys[j]) is None,
    ensures
        first_fields(v, keys) == fields,
    decreases k,
{
    if k > 0 {
        let rest = keys.skip(1);
        assert(v.get(keys[0]) is None);
        assert(rest[k - 1] == keys[k]);
        assert forall|j: int| 0 <= j < k - 1 implies v.get(#[trigger] rest[j]) is None by {
            assert(rest[j] == keys[j + 1]);
        }
        lemma_first_fields(v, rest, k - 1, fields);
    }
}

/// What is no card with a number is passed over, and the rest is kept.
pub proof fn law_other_fields(fields: Seq<(Seq<char>, JsonView)>, key: Seq<char>, v: JsonView)
    requires
        number(key, u32::MAX as nat) is None || !(v is Number),
    ensures
        owned_rows(fields.push((key, v))) == owned_rows(fields),
{
    assert(fields.push((key, v)).drop_last() =~= fields);
}

} // verus!
