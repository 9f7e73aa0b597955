//! Cards as the web interface shows them.
use vstd::prelude::*;
use vstd::string::StringExecFns;

use crate::cards::{local_url, rewrite_image_url, Card, Cmc};
use crate::patterns::opt_text;
use crate::state::copy_text;
use crate::text::{self, texts};

verus! {

/// A card of a deck.
#[derive(Debug)]
pub struct DeckCardEntry {
    pub arena_id: u32,
    pub quantity: u32,
    pub name: String,
    pub mana_cost: Option<String>,
    pub cmc: Option<Cmc>,
    pub rarity: Option<String>,
    pub type_line: Option<String>,
    pub image_small: Option<String>,
    pub owned: u32,
    pub missing: u32,
    /// Format and legality, pair by pair; nothing where that is not known.
    pub legalities: Option<Vec<(String, String)>>,
}

/// What a card of a deck holds.
pub ghost struct EntryView {
    pub arena_id: u32,
    pub quantity: u32,
    pub name: Seq<char>,
    pub mana_cost: Option<Seq<char>>,
    pub cmc: Option<Cmc>,
    pub rarity: Option<Seq<char>>,
    pub type_line: Option<Seq<char>>,
    pub image_small: Option<Seq<char>>,
    pub owned: u32,
    pub missing: u32,
    pub legalities: Option<Seq<(Seq<char>, Seq<char>)>>,
}

/// The texts of a list of pairs.
pub open spec fn pair_texts(list: Seq<(String, String)>) -> Seq<(Seq<char>, Seq<char>)> {
    list.map_values(|p: (String, String)| (p.0@, p.1@))
}

/// The texts of an optional list of pairs.
pub open spec fn opt_pairs(
    list: Option<Vec<(String, String)>>,
) -> Option<Seq<(Seq<char>, Seq<char>)>> {
    match list {
        Some(l) => Some(pair_texts(l@)),
        None => None,
    }
}

/// The texts of an optional list.
pub open spec fn opt_texts(list: Option<Vec<String>>) -> Option<Seq<Seq<char>>> {
    match list {
        Some(l) => Some(texts(l@)),
        None => None,
    }
}

impl View for DeckCardEntry {
    type V = EntryView;

    open spec fn view(&self) -> EntryView {
        EntryView {
            arena_id: self.arena_id,
            quantity: self.quantity,
            name: self.name@,
            mana_cost: opt_text(self.mana_cost),
            cmc: self.cmc,
            rarity: opt_text(self.rarity),
            type_line: opt_text(self.type_line),
            image_small: opt_text(self.image_small),
            owned: self.owned,
            missing: self.missing,
            legalities: opt_pairs(self.legalities),
        }
    }
}

/// What a list of cards holds.
pub open spec fn entry_views(list: Seq<DeckCardEntry>) -> Seq<EntryView> {
    list.map_values(|e: DeckCardEntry| e@)
}

/// The card with this id.
pub open spec fn find_card(db: Map<u32, Card>, id: u32) -> Option<Card> {
    if db.contains_key(id) {
        Some(db[id])
    } else {
        None
    }
}

/// The local address of an image.
pub open spec fn local_image(url: Option<String>) -> Option<Seq<char>> {
    match url {
        Some(u) => Some(local_url(u@)),
        None => None,
    }
}

/// How a card is shown: with what is known of it, or else with a stand-in for
/// its name.
pub open spec fn shown_entry(
    card: Option<Card>,
    arena_id: u32,
    quantity: u32,
    stand_in: Seq<char>,
    owned: u32,
    missing: u32,
    with_legalities: bool,
) -> EntryView {
    match card {
        Some(c) => EntryView {
            arena_id,
            quantity,
            name: c.name@,
            mana_cost: opt_text(c.mana_cost),
            cmc: c.cmc,
            rarity: opt_text(c.rarity),
            type_line: opt_text(c.type_line),
            image_small: local_image(c.image_small),
            owned,
            missing,
            legalities: if with_legalities {
                opt_pairs(c.legalities)
            } else {
                None
            },
        },
        None => EntryView {
            arena_id,
            quantity,
            name: stand_in,
            mana_cost: None,
            cmc: None,
            rarity: None,
            type_line: None,
            image_small: None,
            owned,
            missing,
            legalities: None,
        },
    }
}

/// A copy of an optional list of pairs.
pub fn copy_pairs(list: &Option<Vec<(String, String)>>) -> (r: Option<Vec<(String, String)>>)
    ensures
        opt_pairs(r) == opt_pairs(*list),
{
    match list {
        Some(l) => {
            let mut r: Vec<(String, String)> = Vec::new();
            let mut i: usize = 0;
            while i < l.len()
                invariant
                    i <= l@.len(),
                    r@.len() == i,
                    forall|k: int|
                        0 <= k < i ==> (#[trigger] r@[k]).0@ == l@[k].0@ && r@[k].1@ == l@[k].1@,
                decreases l@.len() - i,
            {
                r.push((l[i].0.clone(), l[i].1.clone()));
                i += 1;
            }
            assert(pair_texts(r@) =~= pair_texts(l@));
            Some(r)
        },
        None => None,
    }
}

/// A copy of an optional list.
pub fn copy_list(list: &Option<Vec<String>>) -> (r: Option<Vec<String>>)
    ensures
        opt_texts(r) == opt_texts(*list),
{
    match list {
        Some(l) => Some(text::copy_texts(l)),
        None => None,
    }
}

/// The local address of an image.
pub fn localize(url: &Option<String>) -> (r: Option<String>)
    ensures
        opt_text(r) == local_image(*url),
{
    match url {
        Some(u) => Some(rewrite_image_url(u.as_str())),
        None => None,
    }
}

/// How a card is shown.
pub fn show_entry(
    card: Option<&Card>,
    arena_id: u32,
    quantity: u32,
    stand_in: String,
    owned: u32,
    missing: u32,
    with_legalities: bool,
) -> (r: DeckCardEntry)
    ensures
        r@ == shown_entry(
            match card {
                Some(c) => Some(*c),
                None => None,
            },
            arena_id,
            quantity,
            stand_in@,
            owned,
            missing,
            with_legalities,
        ),
{
    match card {
        Some(c) => DeckCardEntry {
            arena_id,
            quantity,
            name: c.name.clone(),
            mana_cost: copy_text(&c.mana_cost),
            cmc: c.cmc,
            rarity: copy_text(&c.rarity),
            type_line: copy_text(&c.type_line),
            image_small: localize(&c.image_small),
            owned,
            missing,
            legalities: if with_legalities {
                copy_pairs(&c.legalities)
            } else {
                None
            },
        },
        None => DeckCardEntry {
            arena_id,
            quantity,
            name: stand_in,
            mana_cost: None,
            cmc: None,
            rarity: None,
            type_line: None,
            image_small: None,
            owned,
            missing,
            legalities: None,
        },
    }
}

/// The stand-in for the name of a card that is not known.
pub open spec fn unknown_name(id: int) -> Seq<char> {
    "Card #"@ + text::decimal_int(id)
}

/// The stand-in for the name of a card that is not known.
pub fn name_unknown(id: i64) -> (r: String)
    ensures
        r@ == unknown_name(id as int),
{
    let mut r = String::new();
    r.append("Card #");
    text::push_decimal_int(&mut r, id);
    assert(r@ =~= unknown_name(id as int));
    r
}

/// A card that is known is shown with what is known of it, and one that is not
/// with its stand-in; both with the numbers that go with them.
pub proof fn law_shown(
    c: Card,
    arena_id: u32,
    quantity: u32,
    stand_in: Seq<char>,
    owned: u32,
    missing: u32,
    with_legalities: bool,
)
    ensures
        ({
            let known = shown_entry(
                Some(c),
                arena_id,
                quantity,
                stand_in,
                owned,
                missing,
                with_legalities,
            );
            let other = shown_entry(
                None,
                arena_id,
                quantity,
                stand_in,
                owned,
                missing,
                with_legalities,
            );
            &&& known.name == c.name@ && other.name == stand_in
            &&& known.arena_id == arena_id && other.arena_id == arena_id
            &&& known.quantity == quantity && other.quantity == quantity
            &&& known.owned == owned && other.owned == owned
            &&& known.missing == missing && other.missing == missing
            &&& known.cmc == c.cmc && other.cmc is None
            &&& known.mana_cost == opt_text(c.mana_cost) && other.mana_cost is None
            &&& known.rarity == opt_text(c.rarity) && other.rarity is None
            &&& known.type_line == opt_text(c.type_line) && other.type_line is None
            &&& c.image_small is Some ==> known.image_small == Some(
                local_url(c.image_small->Some_0@),
            )
            &&& c.image_small is None ==> known.image_small is None
            &&& with_legalities ==> known.legalities == opt_pairs(c.legalities)
            &&& !with_legalities ==> known.legalities is None
        }),
{
}

} // verus!
