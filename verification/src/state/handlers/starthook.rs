//! The state that the game dumps when it starts: inventory and decks.
use serde_json::Value;
use vstd::prelude::*;

use crate::json::{
    field,
    field_of,
    field_views,
    item_views,
    law_get,
    lemma_array_view,
    lemma_object_view,
    value_view,
    Json,
    JsonView,
};
use crate::text;

use super::decks::{deck_list_keys, decks_in};

verus! {

/// The inventory of a start dump; nothing where it has none.
pub fn inventory_of(payload: &Value) -> (r: Option<&Value>)
    ensures
        match r {
            Some(v) => value_view(*payload).get("InventoryInfo"@) == Some(value_view(*v)),
            None => value_view(*payload).get("InventoryInfo"@) is None,
        },
{
    field(payload, "InventoryInfo")
}

/// The id of a deck's summary; empty where it has none.
pub open spec fn summary_id(s: JsonView) -> Seq<char> {
    match s.get("DeckId"@) {
        Some(v) => match v.text() {
            Some(t) => t,
            None => seq![],
        },
        None => seq![],
    }
}

/// A deck made of a summary and of what the map of decks holds under its id.
pub open spec fn combined(s: JsonView, decks: Seq<(Seq<char>, JsonView)>) -> JsonView {
    let body = match field_of(decks, summary_id(s)) {
        Some(b) => b,
        None => JsonView::Null,
    };
    JsonView::Object(seq![("Deck"@, body), ("Summary"@, s)])
}

/// The decks made of the summaries that have an id.
pub open spec fn combined_all(
    summaries: Seq<JsonView>,
    decks: Seq<(Seq<char>, JsonView)>,
) -> Seq<JsonView>
    decreases summaries.len(),
{
    if summaries.len() == 0 {
        seq![]
    } else if summary_id(summaries.last()).len() == 0 {
        combined_all(summaries.drop_last(), decks)
    } else {
        combined_all(summaries.drop_last(), decks).push(combined(summaries.last(), decks))
    }
}

/// The decks of a start dump; none where summaries or decks are missing.
pub open spec fn decks_at_start(payload: JsonView) -> Seq<JsonView> {
    match (payload.get("DeckSummaries"@), payload.get("Decks"@)) {
        (Some(s), Some(d)) => match (s.items(), d.fields()) {
            (Some(summaries), Some(decks)) => combined_all(summaries, decks),
            _ => seq![],
        },
        _ => seq![],
    }
}

fn combine(s: &Json, id: &str, decks: &Json) -> (r: Json)
    requires
        decks@ is Object,
        id@ == summary_id(s@),
    ensures
        r@ == combined(s@, decks@->Object_0),
{
    let body = match decks.get(id) {
        Some(b) => b.copy(),
        None => Json::Null,
    };
    let mut fields: Vec<(String, Json)> = Vec::new();
    fields.push((text::owned("Deck"), body));
    fields.push((text::owned("Summary"), s.copy()));
    proof {
        lemma_object_view(fields);
        assert(field_views(fields@) =~= combined(s@, decks@->Object_0)->Object_0);
    }
    Json::Object(fields)
}

/// The decks of a start dump; nothing where there are none.
pub fn build_combined_decks(payload: &Json) -> (r: Option<Vec<Json>>)
    ensures
        match r {
            Some(list) => item_views(list@) == decks_at_start(payload@) && list@.len() > 0,
            None => decks_at_start(payload@).len() == 0,
        },
{
    let summaries = payload.get("DeckSummaries")?.as_array()?;
    let decks = payload.get("Decks")?;
    decks.as_object()?;
    let ghost all = item_views(summaries@);
    let ghost map = decks@->Object_0;
    let mut out: Vec<Json> = Vec::new();
    let mut i: usize = 0;
    assert(item_views(out@) =~= combined_all(all.take(0), map));
    while i < summaries.len()
        invariant
            i <= summaries@.len(),
            all == item_views(summaries@),
            decks@ == JsonView::Object(map),
            item_views(out@) == combined_all(all.take(i as int), map),
        decreases summaries@.len() - i,
    {
        assert(all.take(i + 1).drop_last() =~= all.take(i as int));
        assert(all.take(i + 1).last() == summaries@[i as int]@);
        let s = &summaries[i];
        let id = match s.get("DeckId") {
            Some(v) => match v.as_str() {
                Some(t) => t.clone(),
                None => text::owned(""),
            },
            None => text::owned(""),
        };
        proof {
            reveal_strlit("");
            assert(""@ =~= Seq::<char>::empty());
        }
        assert(id@ == summary_id(s@));
        if text::chars_of(id.as_str()).len() > 0 {
            let ghost was = out@;
            let deck = combine(s, id.as_str(), decks);
            out.push(deck);
            assert(item_views(out@) =~= item_views(was).push(deck@));
        }
        i += 1;
    }
    assert(all.take(i as int) =~= all);
    if out.len() == 0 {
        None
    } else {
        Some(out)
    }
}

/// The decks of a start dump as a payload of their own.
pub fn deck_payload(decks: Vec<Json>) -> (r: Json)
    ensures
        decks_in(r@) == item_views(decks@),
{
    let mut fields: Vec<(String, Json)> = Vec::new();
    fields.push((text::owned("PreconDecks"), Json::Array(decks)));
    proof {
        lemma_object_view(fields);
        lemma_array_view(decks);
        let views = field_views(fields@);
        assert(views[0].0 == "PreconDecks"@);
        assert(views[0].1 == JsonView::Array(item_views(decks@)));
        assert(field_of(views, "PreconDecks"@) == Some(views[0].1));
        assert(deck_list_keys()[0] == "PreconDecks"@);
    }
    Json::Object(fields)
}

/// Each summary with an id gives one deck, in the order of the summaries: the
/// summary with the lists that the dump has under its id. Summaries without an id
/// give none.
pub proof fn law_decks_at_start(
    summaries: Seq<JsonView>,
    s: JsonView,
    decks: Seq<(Seq<char>, JsonView)>,
    id: Seq<char>,
    i: int,
)
    ensures
        s.get("DeckId"@) is None ==> combined_all(summaries.push(s), decks) == combined_all(
            summaries,
            decks,
        ),
        ({
            &&& s.get("DeckId"@) == Some(JsonView::Text(id))
            &&& id.len() > 0
            &&& 0 <= i < decks.len()
            &&& decks[i].0 == id
            &&& forall|j: int| 0 <= j < i ==> (#[trigger] decks[j]).0 != id
        }) ==> {
            let all = combined_all(summaries.push(s), decks);
            &&& all.drop_last() == combined_all(summaries, decks)
            &&& all.len() == combined_all(summaries, decks).len() + 1
            &&& all.last().get("Summary"@) == Some(s)
            &&& all.last().get("Deck"@) == Some(decks[i].1)
        },
        combined_all(Seq::<JsonView>::empty(), decks).len() == 0,
{
    let more = summaries.push(s);
    assert(more.drop_last() =~= summaries);
    law_get(JsonView::Object(decks), id);
    reveal_strlit("Deck");
    reveal_strlit("Summary");
    let made = combined(s, decks);
    let fields = seq![
        (
            "Deck"@,
            match field_of(decks, summary_id(s)) {
                Some(b) => b,
                None => JsonView::Null,
            },
        ),
        ("Summary"@, s),
    ];
    assert(made->Object_0 =~= fields);
    assert(made == JsonView::Object(fields));
    assert(fields[0].0 == "Deck"@ && fields[1].0 == "Summary"@);
    assert("Deck"@.len() != "Summary"@.len());
    law_get(made, "Deck"@);
    law_get(made, "Summary"@);
    assert(made.get("Deck"@) == Some(fields[0].1));
    assert(made.get("Summary"@) == Some(fields[1].1));
    if summary_id(s).len() > 0 {
        assert(combined_all(more, decks).drop_last() =~= combined_all(summaries, decks));
    }
}

/// The decks of a start dump are those of its summaries, with the lists that it
/// holds beside them; where either is missing there are none.
pub proof fn law_start_dump(
    payload: JsonView,
    summaries: Seq<JsonView>,
    decks: Seq<(Seq<char>, JsonView)>,
)
    ensures
        payload.get("DeckSummaries"@) == Some(JsonView::Array(summaries)) && payload.get("Decks"@)
            == Some(JsonView::Object(decks)) ==> decks_at_start(payload) == combined_all(
            summaries,
            decks,
        ),
        payload.get("DeckSummaries"@) is None || payload.get("Decks"@) is None ==> decks_at_start(
            payload,
        ).len() == 0,
{
}

} // verus!
