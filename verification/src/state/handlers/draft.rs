//! Packs and picks of drafts.
use vstd::prelude::*;

use crate::json::{
    first_items,
    first_text,
    get_first_items,
    get_first_text,
    item_views,
    key_texts,
    law_first_of,
    number_list,
    render_numbers,
    Json,
    JsonNumber,
    JsonView,
};
use crate::patterns::opt_text;

verus! {

/// A pick: pack and pick number, the card, and the cards of the pack as JSON.
#[derive(Debug)]
pub struct PickRecord {
    pub pack_number: u32,
    pub pick_number: u32,
    pub picked_card_id: u32,
    pub pack_card_ids: String,
}

/// What an event says of a draft.
#[derive(Debug)]
pub struct DraftRecord {
    pub draft_id: String,
    pub set_code: Option<String>,
    pub pick: Option<PickRecord>,
}

/// The natural number under the first of the keys that has one; nothing where
/// that number is too large for 32 bits.
pub open spec fn first_number(v: JsonView, keys: Seq<Seq<char>>) -> Option<u32>
    decreases keys.len(),
{
    if keys.len() == 0 {
        None
    } else {
        match v.get(keys[0]) {
            Some(x) if x.natural() is Some => if x.natural().unwrap() <= u32::MAX {
                Some(x.natural().unwrap() as u32)
            } else {
                None
            },
            _ => first_number(v, keys.skip(1)),
        }
    }
}

/// The natural numbers among the items, as far as 32 bits hold each.
pub open spec fn numbers_in(items: Seq<JsonView>) -> Seq<u32>
    decreases items.len(),
{
    if items.len() == 0 {
        seq![]
    } else {
        match items.last().natural() {
            Some(n) => numbers_in(items.drop_last()).push(n as u32),
            None => numbers_in(items.drop_last()),
        }
    }
}

/// The cards of the pack.
pub open spec fn pack_in(v: JsonView) -> Seq<u32> {
    match first_items(v, seq!["packCards"@, "PackCards"@, "draftPack"@]) {
        Some(items) => numbers_in(items),
        None => seq![],
    }
}

/// The record is what the payload says of a draft. A pick is there where pack,
/// pick and card are given.
pub open spec fn records_draft(r: DraftRecord, v: JsonView) -> bool {
    let pack = first_number(v, seq!["packNumber"@, "PackNumber"@, "currentPack"@]);
    let pick = first_number(v, seq!["pickNumber"@, "PickNumber"@, "currentPick"@]);
    let card = first_number(v, seq!["pickedCardId"@, "cardId"@, "CardId"@]);
    &&& first_text(v, seq!["draftId"@, "DraftId"@, "id"@]) == Some(r.draft_id@)
    &&& opt_text(r.set_code) == first_text(v, seq!["setCode"@, "SetCode"@, "set"@])
    &&& match r.pick {
        Some(p) => {
            &&& pack == Some(p.pack_number)
            &&& pick == Some(p.pick_number)
            &&& card == Some(p.picked_card_id)
            &&& p.pack_card_ids@ == number_list(pack_in(v))
        },
        None => pack is None || pick is None || card is None,
    }
}

/// The natural number under the first of the keys that has one.
pub fn first_u32(v: &Json, keys: &[&str]) -> (r: Option<u32>)
    ensures
        r == first_number(v@, key_texts(keys@)),
{
    let ghost all = key_texts(keys@);
    let mut i: usize = 0;
    assert(all.skip(0) =~= all);
    while i < keys.len()
        invariant
            i <= keys@.len(),
            all == key_texts(keys@),
            first_number(v@, all) == first_number(v@, all.skip(i as int)),
        decreases keys@.len() - i,
    {
        assert(all.skip(i as int).skip(1) =~= all.skip(i + 1));
        assert(all.skip(i as int)[0] == keys@[i as int]@);
        if let Some(x) = v.get(keys[i]) {
            if let Some(n) = x.as_u64() {
                return if n <= u32::MAX as u64 {
                    Some(n as u32)
                } else {
                    None
                };
            }
        }
        i += 1;
    }
    None
}

/// The natural numbers of the array under the first of the keys that has one.
pub fn first_array(v: &Json, keys: &[&str]) -> (r: Option<Vec<u32>>)
    ensures
        match r {
            Some(list) => first_items(v@, key_texts(keys@)) is Some && list@ == numbers_in(
                first_items(v@, key_texts(keys@)).unwrap(),
            ),
            None => first_items(v@, key_texts(keys@)) is None,
        },
{
    let items = match get_first_items(v, keys) {
        Some(items) => items,
        None => {
            return None;
        },
    };
    let ghost all = item_views(items@);
    let mut out: Vec<u32> = Vec::new();
    let mut i: usize = 0;
    assert(out@ =~= numbers_in(all.take(0)));
    while i < items.len()
        invariant
            i <= items@.len(),
            all == item_views(items@),
            out@ == numbers_in(all.take(i as int)),
        decreases items@.len() - i,
    {
        assert(all.take(i + 1).drop_last() =~= all.take(i as int));
        assert(all.take(i + 1).last() == items@[i as int]@);
        if let Some(n) = items[i].as_u64() {
            out.push(n as u32);
        }
        i += 1;
    }
    assert(all.take(i as int) =~= all);
    Some(out)
}

/// What a payload says of a draft; nothing where it has no draft id.
pub fn draft_record(v: &Json) -> (r: Option<DraftRecord>)
    ensures
        match r {
            Some(rec) => records_draft(rec, v@),
            None => first_text(v@, seq!["draftId"@, "DraftId"@, "id"@]) is None,
        },
{
    let id_keys = ["draftId", "DraftId", "id"];
    let pack_keys = ["packNumber", "PackNumber", "currentPack"];
    let pick_keys = ["pickNumber", "PickNumber", "currentPick"];
    let cards_keys = ["packCards", "PackCards", "draftPack"];
    let card_keys = ["pickedCardId", "cardId", "CardId"];
    let set_keys = ["setCode", "SetCode", "set"];
    proof {
        assert(key_texts(id_keys@) =~= seq!["draftId"@, "DraftId"@, "id"@]);
        assert(key_texts(pack_keys@) =~= seq!["packNumber"@, "PackNumber"@, "currentPack"@]);
        assert(key_texts(pick_keys@) =~= seq!["pickNumber"@, "PickNumber"@, "currentPick"@]);
        assert(key_texts(cards_keys@) =~= seq!["packCards"@, "PackCards"@, "draftPack"@]);
        assert(key_texts(card_keys@) =~= seq!["pickedCardId"@, "cardId"@, "CardId"@]);
        assert(key_texts(set_keys@) =~= seq!["setCode"@, "SetCode"@, "set"@]);
    }
    let draft_id = match get_first_text(v, &id_keys) {
        Some(id) => id,
        None => {
            return None;
        },
    };
    let pack_number = first_u32(v, &pack_keys);
    let pick_number = first_u32(v, &pick_keys);
    let pack_cards = first_array(v, &cards_keys);
    let picked = first_u32(v, &card_keys);
    let set_code = get_first_text(v, &set_keys);
    let pick = match (pack_number, pick_number, picked) {
        (Some(pack_number), Some(pick_number), Some(picked_card_id)) => {
            let cards = match pack_cards {
                Some(c) => c,
                None => {
                    let none: Vec<u32> = Vec::new();
                    assert(none@ =~= Seq::<u32>::empty());
                    none
                },
            };
            match render_numbers(&cards) {
                Ok(pack_card_ids) => Some(
                    PickRecord { pack_number, pick_number, picked_card_id, pack_card_ids },
                ),
                Err(_) => None,
            }
        },
        _ => None,
    };
    Some(DraftRecord { draft_id, set_code, pick })
}

/// The set code to store for a draft: an event without one keeps the old one.
pub fn merge_set_code(stored: Option<String>, new: Option<String>) -> (r: Option<String>)
    ensures
        r == (if new is Some {
            new
        } else {
            stored
        }),
{
    match new {
        Some(s) => Some(s),
        None => stored,
    }
}

/// What a pick is stored with: the numbers of pack and pick, the card that was
/// taken, and all cards of the pack in their order. Without one of the three
/// numbers nothing is picked.
pub proof fn law_picks(r: DraftRecord, v: JsonView, id: Seq<char>, pack: u64, pick: u64, card: u64)
    requires
        records_draft(r, v),
        v.get("draftId"@) == Some(JsonView::Text(id)),
        v.get("packNumber"@) == Some(JsonView::Number(JsonNumber::Pos(pack))),
        v.get("pickNumber"@) == Some(JsonView::Number(JsonNumber::Pos(pick))),
        pack <= u32::MAX && pick <= u32::MAX && card <= u32::MAX,
    ensures
        r.draft_id@ == id,
        v.get("pickedCardId"@) == Some(JsonView::Number(JsonNumber::Pos(card))) ==> {
            &&& r.pick matches Some(p)
            &&& p.pack_number == pack
            &&& p.pick_number == pick
            &&& p.picked_card_id == card
        },
        v.get("pickedCardId"@) is None && v.get("cardId"@) is None && v.get("CardId"@) is None
            ==> r.pick is None,
{
    let ids = seq!["draftId"@, "DraftId"@, "id"@];
    law_first_of(v, ids, 0);
    let cards = seq!["pickedCardId"@, "cardId"@, "CardId"@];
    assert(cards.skip(1) =~= seq!["cardId"@, "CardId"@]);
    assert(cards.skip(1).skip(1) =~= seq!["CardId"@]);
    assert(cards.skip(1).skip(1).skip(1) =~= Seq::<Seq<char>>::empty());
    reveal_with_fuel(first_number, 5);
}

/// The cards of a pack are the numbers of its list, each in its place.
pub proof fn law_packs(v: JsonView, ids: Seq<u32>)
    requires
        v.get("packCards"@) == Some(
            JsonView::Array(ids.map_values(|id: u32| JsonView::Number(JsonNumber::Pos(id as u64)))),
        ),
    ensures
        pack_in(v) == ids,
{
    let keys = seq!["packCards"@, "PackCards"@, "draftPack"@];
    law_first_of(v, keys, 0);
    lemma_numbers_in(ids);
}

proof fn lemma_numbers_in(ids: Seq<u32>)
    ensures
        numbers_in(ids.map_values(|id: u32| JsonView::Number(JsonNumber::Pos(id as u64)))) == ids,
    decreases ids.len(),
{
    let items = ids.map_values(|id: u32| JsonView::Number(JsonNumber::Pos(id as u64)));
    if ids.len() > 0 {
        lemma_numbers_in(ids.drop_last());
        assert(items.drop_last() =~= ids.drop_last().map_values(
            |id: u32| JsonView::Number(JsonNumber::Pos(id as u64)),
        ));
        assert(numbers_in(items) =~= ids);
    } else {
        assert(numbers_in(items) =~= ids);
    }
}

/// Each number of a draft may stand under any of its names, and of several the
/// first counts; so may its id and its set.
pub proof fn law_draft_names(
    r: DraftRecord,
    v: JsonView,
    k: int,
    pack: u32,
    pick: u32,
    card: u32,
    id: Seq<char>,
    set: Seq<char>,
)
    requires
        records_draft(r, v),
        0 <= k < 3,
        ({
            let packs = seq!["packNumber"@, "PackNumber"@, "currentPack"@];
            let picks = seq!["pickNumber"@, "PickNumber"@, "currentPick"@];
            let cards = seq!["pickedCardId"@, "cardId"@, "CardId"@];
            let ids = seq!["draftId"@, "DraftId"@, "id"@];
            let sets = seq!["setCode"@, "SetCode"@, "set"@];
            &&& v.get(packs[k]) == Some(JsonView::Number(JsonNumber::Pos(pack as u64)))
            &&& forall|j: int| 0 <= j < k ==> v.get(#[trigger] packs[j]) is None
            &&& v.get(picks[k]) == Some(JsonView::Number(JsonNumber::Pos(pick as u64)))
            &&& forall|j: int| 0 <= j < k ==> v.get(#[trigger] picks[j]) is None
            &&& v.get(cards[k]) == Some(JsonView::Number(JsonNumber::Pos(card as u64)))
            &&& forall|j: int| 0 <= j < k ==> v.get(#[trigger] cards[j]) is None
            &&& v.get(ids[k]) == Some(JsonView::Text(id))
            &&& forall|j: int| 0 <= j < k ==> v.get(#[trigger] ids[j]) is None
            &&& v.get(sets[k]) == Some(JsonView::Text(set))
            &&& forall|j: int| 0 <= j < k ==> v.get(#[trigger] sets[j]) is None
        }),
    ensures
        r.draft_id@ == id,
        opt_text(r.set_code) == Some(set),
        r.pick matches Some(p) && p.pack_number == pack && p.pick_number == pick
            && p.picked_card_id == card,
{
    lemma_first_number(v, seq!["packNumber"@, "PackNumber"@, "currentPack"@], k, pack);
    lemma_first_number(v, seq!["pickNumber"@, "PickNumber"@, "currentPick"@], k, pick);
    lemma_first_number(v, seq!["pickedCardId"@, "cardId"@, "CardId"@], k, card);
    law_first_of(v, seq!["draftId"@, "DraftId"@, "id"@], k);
    law_first_of(v, seq!["setCode"@, "SetCode"@, "set"@], k);
}

proof fn lemma_first_number(v: JsonView, keys: Seq<Seq<char>>, k: int, n: u32)
    requires
        0 <= k < keys.len(),
        v.get(keys[k]) == Some(JsonView::Number(JsonNumber::Pos(n as u64))),
        forall|j: int| 0 <= j < k ==> v.get(#[trigger] keys[j]) is None,
    ensures
        first_number(v, keys) == Some(n),
    decreases k,
{
    if k > 0 {
        let rest = keys.skip(1);
        assert(v.get(keys[0]) is None);
        assert(rest[k - 1] == keys[k]);
        assert forall|j: int| 0 <= j < k - 1 implies v.get(#[trigger] rest[j]) is None by {
            assert(rest[j] == keys[j + 1]);
        }
        lemma_first_number(v, rest, k - 1, n);
    }
}

/// The cards of a pack may stand under any of their names.
pub proof fn law_pack_names(v: JsonView, k: int, ids: Seq<u32>)
    requires
        0 <= k < 3,
        ({
            let names = seq!["packCards"@, "PackCards"@, "draftPack"@];
            &&& v.get(names[k]) == Some(
                JsonView::Array(
                    ids.map_values(|id: u32| JsonView::Number(JsonNumber::Pos(id as u64))),
                ),
            )
            &&& forall|j: int| 0 <= j < k ==> v.get(#[trigger] names[j]) is None
        }),
    ensures
        pack_in(v) == ids,
{
    let names = seq!["packCards"@, "PackCards"@, "draftPack"@];
    law_first_of(v, names, k);
    lemma_numbers_in(ids);
}

/// A pick is stored with the cards of its pack, in their order.
pub proof fn law_pick_packs(r: DraftRecord, v: JsonView, ids: Seq<u32>)
    requires
        records_draft(r, v),
        v.get("packCards"@) == Some(
            JsonView::Array(ids.map_values(|id: u32| JsonView::Number(JsonNumber::Pos(id as u64)))),
        ),
    ensures
        r.pick matches Some(p) ==> p.pack_card_ids@ == number_list(ids),
{
    law_packs(v, ids);
}

} // verus!
