//! Card metadata from Scryfall, keyed by MTGA's `arena_id` (also `grpId`).
//!
//! The bulk file is filtered down to the cards that have an `arena_id`; the
//! result is cached and refreshed once the cache is older than a week.
use std::collections::HashMap;
use vstd::arithmetic::power2::{lemma2_to64, lemma_pow2_strictly_increases, lemma_pow2_unfold};
use vstd::prelude::*;
use vstd::string::StringExecFns;

use crate::text;

verus! {

broadcast use vstd::std_specs::hash::group_hash_axioms;

/// A converted mana cost, as the bits of an IEEE 754 number of 32 bits: one
/// sign bit, eight of the exponent, twenty-three of the fraction.
#[derive(Debug, Clone, Copy, PartialEq, Eq, Structural)]
pub struct Cmc {
    pub bits: u32,
}

impl Cmc {
    pub open spec fn exponent(self) -> nat {
        ((self.bits / 0x80_0000) % 0x100) as nat
    }

    pub open spec fn fraction(self) -> nat {
        (self.bits % 0x80_0000) as nat
    }

    /// Neither a number below zero nor no number at all.
    pub open spec fn counts(self) -> bool {
        &&& !(self.exponent() == 0xff && self.fraction() != 0)
        &&& self.bits < 0x8000_0000 || self.bits == 0x8000_0000
    }

    /// The integer part of the scaled number: the number is
    /// `mantissa / 2^places`.
    pub open spec fn mantissa(self) -> nat {
        if self.exponent() == 0 {
            self.fraction()
        } else {
            self.fraction() + 0x80_0000
        }
    }

    /// How many binary places follow the point; none where the number is
    /// a whole number of at least `2^23`.
    pub open spec fn places(self) -> nat {
        if self.exponent() == 0 {
            149
        } else if self.exponent() < 150 {
            (150 - self.exponent()) as nat
        } else {
            0
        }
    }

    /// The number rounded to the nearest integer, halves upwards, and capped
    /// at the largest byte; nothing for a number that does not count.
    pub open spec fn rounds_to(self) -> Option<nat> {
        if !self.counts() {
            None
        } else if self.places() == 0 {
            Some(255)
        } else {
            let p = vstd::arithmetic::power2::pow2(self.places());
            let n = (2 * self.mantissa() + p) / (2 * p);
            Some(
                if n < 255 {
                    n
                } else {
                    255
                },
            )
        }
    }

    /// The number rounded to the nearest integer, halves upwards, and capped
    /// at the largest byte.
    pub fn rounded(self) -> (r: Option<u8>)
        ensures
            match r {
                Some(n) => self.rounds_to() == Some(n as nat),
                None => self.rounds_to() is None,
            },
    {
        let exponent: u32 = (self.bits / 0x80_0000) % 0x100;
        let fraction: u32 = self.bits % 0x80_0000;
        if exponent == 0xff && fraction != 0 {
            return None;
        }
        if self.bits > 0x8000_0000 {
            return None;
        }
        if exponent >= 150 {
            return Some(255);
        }
        let mantissa: u64 = if exponent == 0 {
            fraction as u64
        } else {
            fraction as u64 + 0x80_0000
        };
        let places: u32 = if exponent == 0 {
            149
        } else {
            150 - exponent
        };
        assert(places == self.places());
        if places >= 32 {
            proof {
                lemma2_to64();
                if places > 32 {
                    lemma_pow2_strictly_increases(32, places as nat);
                }
                let p = vstd::arithmetic::power2::pow2(places as nat);
                let m = mantissa as nat;
                assert((2 * m + p) / (2 * p) == 0) by (nonlinear_arith)
                    requires
                        m < 0x100_0000,
                        p >= 0x1_0000_0000,
                ;
            }
            return Some(0);
        }
        let mut p: u64 = 1;
        let mut k: u32 = 0;
        proof {
            lemma2_to64();
        }
        while k < places
            invariant
                k <= places < 32,
                p == vstd::arithmetic::power2::pow2(k as nat),
                p <= 0x8000_0000,
            decreases places - k,
        {
            proof {
                lemma_pow2_unfold((k + 1) as nat);
                lemma2_to64();
                if k + 1 < 31 {
                    lemma_pow2_strictly_increases((k + 1) as nat, 31);
                }
            }
            p = p * 2;
            k += 1;
        }
        let n: u64 = (2 * mantissa + p) / (2 * p);
        if n < 255 {
            Some(n as u8)
        } else {
            Some(255)
        }
    }
}

/// One face of a card with several faces.
#[derive(Debug, Clone)]
pub struct CardFace {
    pub mana_cost: Option<String>,
    pub type_line: Option<String>,
    pub produced_mana: Option<Vec<String>>,
    pub oracle_text: Option<String>,
}

/// What is known of one card.
#[derive(Debug, Clone)]
pub struct Card {
    pub arena_id: u32,
    pub name: String,
    pub mana_cost: Option<String>,
    pub type_line: Option<String>,
    pub colors: Option<Vec<String>>,
    pub rarity: Option<String>,
    pub set: Option<String>,
    pub collector_number: Option<String>,
    pub cmc: Option<Cmc>,
    pub image_small: Option<String>,
    pub image_normal: Option<String>,
    pub scryfall_uri: Option<String>,
    /// Format name and legality, pair by pair.
    pub legalities: Option<Vec<(String, String)>>,
    pub oracle_text: Option<String>,
    pub produced_mana: Option<Vec<String>>,
    pub card_faces: Option<Vec<CardFace>>,
}

/// The cards by `arena_id`.
pub struct CardDb {
    cards: Vec<Card>,
    by_arena_id: HashMap<u32, usize>,
}

/// What a list of cards gives by `arena_id`: of several cards with one id the
/// last.
pub open spec fn keyed(cards: Seq<Card>) -> Map<u32, Card>
    decreases cards.len(),
{
    if cards.len() == 0 {
        Map::empty()
    } else {
        keyed(cards.drop_last()).insert(cards.last().arena_id, cards.last())
    }
}

impl View for CardDb {
    type V = Map<u32, Card>;

    closed spec fn view(&self) -> Map<u32, Card> {
        Map::new(
            |id: u32| self.by_arena_id@.contains_key(id),
            |id: u32| self.cards@[self.by_arena_id@[id] as int],
        )
    }
}

impl CardDb {
    /// Each card stands once, under its own id.
    pub closed spec fn wf(&self) -> bool {
        &&& forall|id: u32| #[trigger]
            self.by_arena_id@.contains_key(id) ==> {
                &&& self.by_arena_id@[id] < self.cards@.len()
                &&& self.cards@[self.by_arena_id@[id] as int].arena_id == id
            }
        &&& forall|i: int|
            0 <= i < self.cards@.len() ==> {
                &&& self.by_arena_id@.contains_key((#[trigger] self.cards@[i]).arena_id)
                &&& self.by_arena_id@[self.cards@[i].arena_id] == i
            }
    }

    /// Every card, once.
    pub closed spec fn listed(&self) -> Seq<Card> {
        self.cards@
    }

    /// The listed cards are those that are found by id, each once, under its
    /// own id.
    pub proof fn lemma_listed(&self)
        requires
            self.wf(),
        ensures
            forall|i: int|
                0 <= i < self.listed().len() ==> self@.contains_key(
                    (#[trigger] self.listed()[i]).arena_id,
                ) && self@[self.listed()[i].arena_id] == self.listed()[i],
            forall|id: u32| #[trigger]
                self@.contains_key(id) ==> self.listed().contains(self@[id])
                    && self@[id].arena_id == id,
            forall|i: int, j: int|
                0 <= i < j < self.listed().len() ==> (#[trigger] self.listed()[i]).arena_id != (
                #[trigger] self.listed()[j]).arena_id,
    {
        assert forall|id: u32| #[trigger] self@.contains_key(id) implies self.listed().contains(
            self@[id],
        ) && self@[id].arena_id == id by {
            assert(self.by_arena_id@.contains_key(id));
            assert(self.cards@[self.by_arena_id@[id] as int] == self@[id]);
        }
    }

    /// No card at all.
    pub fn empty() -> (db: CardDb)
        ensures
            db.wf(),
            db@ == Map::<u32, Card>::empty(),
            db.listed() == Seq::<Card>::empty(),
    {
        let db = CardDb { cards: Vec::new(), by_arena_id: HashMap::new() };
        assert(db@ =~= Map::<u32, Card>::empty());
        db
    }

    /// The card with this id.
    pub fn get(&self, arena_id: u32) -> (r: Option<&Card>)
        requires
            self.wf(),
        ensures
            match r {
                Some(c) => self@.contains_key(arena_id) && *c == self@[arena_id] && c.arena_id
                    == arena_id,
                None => !self@.contains_key(arena_id),
            },
    {
        match self.by_arena_id.get(&arena_id) {
            Some(i) => {
                assert(self.by_arena_id@.contains_key(arena_id));
                Some(&self.cards[*i])
            },
            None => None,
        }
    }

    /// Every card, once.
    pub fn iter(&self) -> (r: &Vec<Card>)
        ensures
            r@ == self.listed(),
    {
        &self.cards
    }

    /// Adds a card, in place of one with the same id.
    pub fn insert(&mut self, card: Card)
        requires
            old(self).wf(),
        ensures
            final(self).wf(),
            final(self)@ == old(self)@.insert(card.arena_id, card),
    {
        let id = card.arena_id;
        let known: Option<usize> = match self.by_arena_id.get(&id) {
            Some(i) => Some(*i),
            None => None,
        };
        match known {
            Some(i) => {
                assert(self.by_arena_id@.contains_key(id));
                self.cards.set(i, card);
            },
            None => {
                self.by_arena_id.insert(id, self.cards.len());
                self.cards.push(card);
            },
        }
        assert(self@ =~= old(self)@.insert(card.arena_id, card));
    }

    /// The cards of a list by id: of several with one id the last.
    pub fn from_cards(cards: Vec<Card>) -> (db: CardDb)
        ensures
            db.wf(),
            db@ == keyed(cards@),
    {
        let mut db = CardDb::empty();
        let ghost all = cards@;
        assert(all.take(0) =~= Seq::<Card>::empty());
        for card in it: cards
            invariant
                db.wf(),
                it.seq() == all,
                db@ == keyed(all.take(it.index() as int)),
        {
            proof {
                let n = it.index() as int;
                assert(all.take(n + 1).drop_last() =~= all.take(n));
            }
            db.insert(card);
        }
        assert(all.take(all.len() as int) =~= all);
        db
    }
}

// ---------------------------------------------------------------------------
// Printings
// ---------------------------------------------------------------------------

/// The card is printed in this set, whatever the case of its code, under this
/// collector number.
pub open spec fn prints_as(card: Card, set: Seq<char>, num: Seq<char>) -> bool {
    &&& card.set is Some
    &&& card.collector_number is Some
    &&& text::ascii_lowercase(card.set.unwrap()@) == text::ascii_lowercase(set)
    &&& card.collector_number.unwrap()@ == num
}

/// The id is the largest among the cards with this printing.
pub open spec fn is_print(
    db: Map<u32, Card>,
    set: Seq<char>,
    num: Seq<char>,
    id: u32,
) -> bool {
    &&& db.contains_key(id)
    &&& prints_as(db[id], set, num)
    &&& forall|other: u32| #[trigger]
        db.contains_key(other) && prints_as(db[other], set, num) ==> other <= id
}

/// The card with this printing, of several the one with the largest id.
pub open spec fn print_of(db: Map<u32, Card>, set: Seq<char>, num: Seq<char>) -> Option<u32> {
    if exists|id: u32| is_print(db, set, num, id) {
        Some(choose|id: u32| is_print(db, set, num, id))
    } else {
        None
    }
}

fn is_printed(card: &Card, set: &Vec<char>, num: &str) -> (r: bool)
    ensures
        r == (card.set is Some && card.collector_number is Some && text::ascii_lowercase(
            card.set.unwrap()@,
        ) == set@ && card.collector_number.unwrap()@ == num@),
{
    match (&card.set, &card.collector_number) {
        (Some(s), Some(n)) => text::same_chars(&text::to_ascii_lower(s.as_str()), set)
            && text::same(n.as_str(), num),
        _ => false,
    }
}

impl CardDb {
    /// The card with this printing.
    pub fn lookup_set_num(&self, set: &str, num: &str) -> (r: Option<u32>)
        requires
            self.wf(),
        ensures
            r == print_of(self@, set@, num@),
    {
        let wanted = text::to_ascii_lower(set);
        let mut r: Option<u32> = None;
        let mut i: usize = 0;
        while i < self.cards.len()
            invariant
                i <= self.cards@.len(),
                self.wf(),
                wanted@ == text::ascii_lowercase(set@),
                match r {
                    Some(id) => self@.contains_key(id) && prints_as(self@[id], set@, num@),
                    None => true,
                },
                forall|k: int|
                    0 <= k < i && prints_as(#[trigger] self.cards@[k], set@, num@) ==> r is Some
                        && self.cards@[k].arena_id <= r.unwrap(),
            decreases self.cards@.len() - i,
        {
            let card = &self.cards[i];
            if is_printed(card, &wanted, num) {
                proof {
                    assert(self.by_arena_id@.contains_key(self.cards@[i as int].arena_id));
                    assert(self@[card.arena_id] == *card);
                }
                r = match r {
                    Some(id) if id >= card.arena_id => Some(id),
                    _ => Some(card.arena_id),
                };
            }
            i += 1;
        }
        proof {
            assert forall|other: u32| #[trigger]
                self@.contains_key(other) && prints_as(self@[other], set@, num@) implies r is Some
                && other <= r.unwrap() by {
                assert(self.by_arena_id@.contains_key(other));
                let k = self.by_arena_id@[other] as int;
                assert(self.cards@[k] == self@[other]);
            }
            if r is Some {
                assert(is_print(self@, set@, num@, r.unwrap()));
                let other = choose|id: u32| is_print(self@, set@, num@, id);
                assert(is_print(self@, set@, num@, other));
            } else {
                if exists|id: u32| is_print(self@, set@, num@, id) {
                    let other = choose|id: u32| is_print(self@, set@, num@, id);
                    assert(is_print(self@, set@, num@, other));
                }
            }
        }
        r
    }
}

// ---------------------------------------------------------------------------
// Images
// ---------------------------------------------------------------------------

/// The address is that of a card image: size, side, two directories, file.
pub open spec fn image_parts(url: Seq<char>) -> Option<Seq<Seq<char>>> {
    match text::without_prefix(url, "https://cards.scryfall.io/"@) {
        Some(rest) => {
            let parts = text::split(rest, '/');
            if parts.len() == 5 && parts[1] == "front"@ {
                Some(parts)
            } else {
                None
            }
        },
        None => None,
    }
}

/// The address under which a card image is served locally: the file without
/// what asks for a version of it; other addresses stay as they are.
pub open spec fn local_url(url: Seq<char>) -> Seq<char> {
    match image_parts(url) {
        Some(parts) => "/cdn/cards/"@ + parts[0] + "/"@ + text::up_to(parts[4], "?"@),
        None => url,
    }
}

/// The address under which a card image is served locally.
pub fn rewrite_image_url(url: &str) -> (r: String)
    ensures
        r@ == local_url(url@),
{
    if let Some(rest) = text::strip(url, "https://cards.scryfall.io/") {
        let parts = text::split_at_char(&text::chars_of(rest.as_str()), '/');
        let front = text::chars_of("front");
        if parts.len() == 5 && text::same_chars(&parts[1], &front) {
            let mut r = String::new();
            r.append("/cdn/cards/");
            r.append(text::string_of(parts[0].as_slice()).as_str());
            r.append("/");
            let file = text::string_of(parts[4].as_slice());
            r.append(text::cut(file.as_str(), "?").as_str());
            proof {
                let p = text::split(rest@, '/');
                assert(parts@[0]@ == p[0] && parts@[1]@ == p[1] && parts@[4]@ == p[4]);
                assert(r@ =~= local_url(url@));
            }
            return r;
        }
        proof {
            let p = text::split(rest@, '/');
            if parts@.len() == 5 {
                assert(parts@[1]@ == p[1]);
            }
        }
    }
    let mut r = String::new();
    r.append(url);
    assert(r@ =~= url@);
    r
}

// ---------------------------------------------------------------------------
// The bulk file
// ---------------------------------------------------------------------------

/// One file of the bulk index.
#[derive(Debug)]
pub struct BulkEntry {
    pub bulk_type: String,
    pub download_uri: String,
}

/// The addresses of a card's images.
#[derive(Debug)]
pub struct ScryfallImageUris {
    pub small: Option<String>,
    pub normal: Option<String>,
}

/// A card of the bulk file; only those with an `arena_id` are in the game.
#[derive(Debug)]
pub struct ScryfallCard {
    pub arena_id: Option<u32>,
    pub name: String,
    pub mana_cost: Option<String>,
    pub type_line: Option<String>,
    pub colors: Option<Vec<String>>,
    pub rarity: Option<String>,
    pub set: Option<String>,
    pub collector_number: Option<String>,
    pub cmc: Option<Cmc>,
    pub image_uris: Option<ScryfallImageUris>,
    pub scryfall_uri: Option<String>,
    pub legalities: Option<Vec<(String, String)>>,
    pub oracle_text: Option<String>,
    pub produced_mana: Option<Vec<String>>,
    pub card_faces: Option<Vec<CardFace>>,
}

/// The address of the file with all cards: that of the first `default_cards`
/// entry.
pub open spec fn default_uri(index: Seq<BulkEntry>) -> Option<Seq<char>>
    decreases index.len(),
{
    if index.len() == 0 {
        None
    } else if index[0].bulk_type@ == "default_cards"@ {
        Some(index[0].download_uri@)
    } else {
        default_uri(index.skip(1))
    }
}

/// The address of the file with all cards.
pub fn default_cards_uri(index: &Vec<BulkEntry>) -> (r: Option<String>)
    ensures
        match r {
            Some(s) => default_uri(index@) == Some(s@),
            None => default_uri(index@) is None,
        },
{
    let mut i: usize = 0;
    assert(index@.skip(0) =~= index@);
    while i < index.len()
        invariant
            i <= index@.len(),
            default_uri(index@) == default_uri(index@.skip(i as int)),
        decreases index@.len() - i,
    {
        assert(index@.skip(i as int).skip(1) =~= index@.skip(i + 1));
        assert(index@.skip(i as int)[0] == index@[i as int]);
        if text::same(index[i].bulk_type.as_str(), "default_cards") {
            return Some(index[i].download_uri.clone());
        }
        i += 1;
    }
    None
}

/// The card that a card of the bulk file gives; nothing without an `arena_id`.
pub open spec fn arena_card(c: ScryfallCard) -> Option<Card> {
    match c.arena_id {
        Some(arena_id) => Some(
            Card {
                arena_id,
                name: c.name,
                mana_cost: c.mana_cost,
                type_line: c.type_line,
                colors: c.colors,
                rarity: c.rarity,
                set: c.set,
                collector_number: c.collector_number,
                cmc: c.cmc,
                image_small: match c.image_uris {
                    Some(u) => u.small,
                    None => None,
                },
                image_normal: match c.image_uris {
                    Some(u) => u.normal,
                    None => None,
                },
                scryfall_uri: c.scryfall_uri,
                legalities: c.legalities,
                oracle_text: c.oracle_text,
                produced_mana: c.produced_mana,
                card_faces: c.card_faces,
            },
        ),
        None => None,
    }
}

/// The cards of the game among those of the bulk file, in their order.
pub open spec fn arena_cards_in(raw: Seq<ScryfallCard>) -> Seq<Card>
    decreases raw.len(),
{
    if raw.len() == 0 {
        seq![]
    } else {
        match arena_card(raw.last()) {
            Some(c) => arena_cards_in(raw.drop_last()).push(c),
            None => arena_cards_in(raw.drop_last()),
        }
    }
}

/// The cards of the game among those of the bulk file.
pub fn arena_cards(raw: Vec<ScryfallCard>) -> (out: Vec<Card>)
    ensures
        out@ == arena_cards_in(raw@),
{
    let ghost all = raw@;
    let mut out: Vec<Card> = Vec::new();
    assert(out@ =~= arena_cards_in(all.take(0)));
    for c in it: raw
        invariant
            it.seq() == all,
            out@ == arena_cards_in(all.take(it.index() as int)),
    {
        proof {
            let n = it.index() as int;
            assert(all.take(n + 1).drop_last() =~= all.take(n));
            assert(all.take(n + 1).last() == c);
        }
        if let Some(arena_id) = c.arena_id {
            let (small, normal) = match c.image_uris {
                Some(u) => (u.small, u.normal),
                None => (None, None),
            };
            out.push(
                Card {
                    arena_id,
                    name: c.name,
                    mana_cost: c.mana_cost,
                    type_line: c.type_line,
                    colors: c.colors,
                    rarity: c.rarity,
                    set: c.set,
                    collector_number: c.collector_number,
                    cmc: c.cmc,
                    image_small: small,
                    image_normal: normal,
                    scryfall_uri: c.scryfall_uri,
                    legalities: c.legalities,
                    oracle_text: c.oracle_text,
                    produced_mana: c.produced_mana,
                    card_faces: c.card_faces,
                },
            );
        }
    }
    assert(all.take(all.len() as int) =~= all);
    out
}

/// Every card of the database that the bulk file gives comes from a card of
/// that file with its id.
pub proof fn law_database_from_bulk(raw: Seq<ScryfallCard>, id: u32)
    requires
        keyed(arena_cards_in(raw)).contains_key(id),
    ensures
        exists|i: int|
            0 <= i < raw.len() && (#[trigger] raw[i]).arena_id == Some(id) && arena_card(raw[i])
                == Some(keyed(arena_cards_in(raw))[id]),
    decreases raw.len(),
{
    if raw.len() > 0 {
        let rest = raw.drop_last();
        match arena_card(raw.last()) {
            Some(c) => {
                let cards = arena_cards_in(rest);
                assert(cards.push(c).drop_last() =~= cards);
                if c.arena_id == id {
                    assert(raw[raw.len() - 1].arena_id == Some(id));
                } else {
                    law_database_from_bulk(rest, id);
                    let i = choose|i: int|
                        0 <= i < rest.len() && (#[trigger] rest[i]).arena_id == Some(id)
                            && arena_card(rest[i]) == Some(keyed(arena_cards_in(rest))[id]);
                    assert(raw[i] == rest[i]);
                }
            },
            None => {
                law_database_from_bulk(rest, id);
                let i = choose|i: int|
                    0 <= i < rest.len() && (#[trigger] rest[i]).arena_id == Some(id)
                        && arena_card(rest[i]) == Some(keyed(arena_cards_in(rest))[id]);
                assert(raw[i] == rest[i]);
            },
        }
    }
}

// ---------------------------------------------------------------------------
// The cache
// ---------------------------------------------------------------------------

/// A cache is used for a week.
pub const STALE_AFTER_SECS: u64 = 604_800;

/// Whether a cache of this age, in whole seconds and nanoseconds, is too old.
pub fn is_stale(age_secs: u64, age_nanos: u32) -> (r: bool)
    requires
        age_nanos < 1_000_000_000,
    ensures
        r == (age_secs * 1_000_000_000 + age_nanos > STALE_AFTER_SECS * 1_000_000_000),
{
    age_secs > STALE_AFTER_SECS || (age_secs == STALE_AFTER_SECS && age_nanos > 0)
}

/// Where the cards come from.
#[derive(Debug, Clone, Copy, PartialEq, Eq, Structural)]
pub enum CardSource {
    Cache,
    /// The bulk file, which is then cached.
    Fetch,
    /// Nowhere: there are no cards.
    Empty,
}

/// Where the cards come from at first: a cache that is not too old is used,
/// and else the bulk file is fetched unless that is switched off. The age of
/// the cache is nothing where there is no cache.
pub fn card_source(cache_age: Option<(u64, u32)>, skip_fetch: bool) -> (r: CardSource)
    requires
        cache_age matches Some(age) ==> age.1 < 1_000_000_000,
    ensures
        r == (match cache_age {
            Some(age) if age.0 * 1_000_000_000 + age.1 <= STALE_AFTER_SECS
                * 1_000_000_000 => CardSource::Cache,
            _ => if skip_fetch {
                CardSource::Empty
            } else {
                CardSource::Fetch
            },
        }),
{
    if let Some((secs, nanos)) = cache_age {
        if !is_stale(secs, nanos) {
            return CardSource::Cache;
        }
    }
    if skip_fetch {
        CardSource::Empty
    } else {
        CardSource::Fetch
    }
}

/// Where the cards come from when fetching failed: a cache that is too old is
/// better than none.
pub fn source_after_failure(cache_exists: bool) -> (r: CardSource)
    ensures
        r == (if cache_exists {
            CardSource::Cache
        } else {
            CardSource::Empty
        }),
{
    if cache_exists {
        CardSource::Cache
    } else {
        CardSource::Empty
    }
}

/// The two texts are the same but for the case of ASCII letters.
pub open spec fn same_but_case(a: Seq<char>, b: Seq<char>) -> bool {
    &&& a.len() == b.len()
    &&& forall|i: int|
        0 <= i < a.len() ==> {
            ||| #[trigger] a[i] == b[i]
            ||| 'A' <= a[i] <= 'Z' && b[i] as u32 == a[i] as u32 + 32
            ||| 'A' <= b[i] <= 'Z' && a[i] as u32 == b[i] as u32 + 32
        }
}

/// Texts that differ in case alone are those with the same lowercase.
pub proof fn lemma_same_but_case(a: Seq<char>, b: Seq<char>)
    ensures
        same_but_case(a, b) <==> text::ascii_lowercase(a) == text::ascii_lowercase(b),
{
    let x = text::ascii_lowercase(a);
    let y = text::ascii_lowercase(b);
    if same_but_case(a, b) {
        assert forall|i: int| 0 <= i < x.len() implies x[i] == y[i] by {
            assert(a[i] == a[i]);
            lemma_lower_same(a[i], b[i]);
        }
        assert(x =~= y);
    }
    if x == y {
        assert(x.len() == y.len());
        assert forall|i: int| 0 <= i < a.len() implies {
            ||| #[trigger] a[i] == b[i]
            ||| 'A' <= a[i] <= 'Z' && b[i] as u32 == a[i] as u32 + 32
            ||| 'A' <= b[i] <= 'Z' && a[i] as u32 == b[i] as u32 + 32
        } by {
            assert(x[i] == y[i]);
            lemma_lower_same(a[i], b[i]);
        }
    }
}

proof fn lemma_lower_same(a: char, b: char)
    ensures
        text::ascii_lower(a) == text::ascii_lower(b) <==> {
            ||| a == b
            ||| 'A' <= a <= 'Z' && b as u32 == a as u32 + 32
            ||| 'A' <= b <= 'Z' && a as u32 == b as u32 + 32
        },
{
    if 'A' <= a <= 'Z' {
        assert(a as u8 == a as u32);
        assert((a as u8 + 32) as char as u32 == a as u32 + 32);
    }
    if 'A' <= b <= 'Z' {
        assert(b as u8 == b as u32);
        assert((b as u8 + 32) as char as u32 == b as u32 + 32);
    }
}

/// The card that a set code and a collector number stand for: a card with that
/// code, whatever its case, and exactly that number, of which no other has a
/// larger id; and where any card has them, one is found.
pub proof fn law_printings(db: Map<u32, Card>, set: Seq<char>, num: Seq<char>, id: u32)
    ensures
        match print_of(db, set, num) {
            Some(found) => {
                &&& db.contains_key(found)
                &&& db[found].set is Some && same_but_case(db[found].set.unwrap()@, set)
                &&& db[found].collector_number is Some
                    && db[found].collector_number.unwrap()@ == num
                &&& id > found && db.contains_key(id) && db[id].set is Some
                    && db[id].collector_number is Some && db[id].collector_number.unwrap()@ == num
                    ==> !same_but_case(db[id].set.unwrap()@, set)
            },
            None => !(db.contains_key(id) && db[id].set is Some && db[id].collector_number is Some
                && same_but_case(db[id].set.unwrap()@, set)
                && db[id].collector_number.unwrap()@ == num),
        },
{
    if let Some(found) = print_of(db, set, num) {
        assert(is_print(db, set, num, found));
        lemma_same_but_case(db[found].set.unwrap()@, set);
        if db.contains_key(id) && db[id].set is Some {
            lemma_same_but_case(db[id].set.unwrap()@, set);
        }
    } else if db.contains_key(id) && db[id].set is Some {
        lemma_same_but_case(db[id].set.unwrap()@, set);
        if prints_as(db[id], set, num) {
            lemma_some_print(db, set, num, id);
        }
    }
}

proof fn lemma_some_print(db: Map<u32, Card>, set: Seq<char>, num: Seq<char>, id: u32)
    requires
        db.contains_key(id),
        prints_as(db[id], set, num),
    ensures
        exists|found: u32| is_print(db, set, num, found),
    decreases u32::MAX - id,
{
    if exists|other: u32| #[trigger]
        db.contains_key(other) && prints_as(db[other], set, num) && other > id {
        let other = choose|other: u32| #[trigger]
            db.contains_key(other) && prints_as(db[other], set, num) && other > id;
        lemma_some_print(db, set, num, other);
    } else {
        assert(is_print(db, set, num, id));
    }
}

/// What stands before the first separator is the first piece.
proof fn lemma_split_first(a: Seq<char>, c: char, rest: Seq<char>)
    requires
        !a.contains(c),
    ensures
        text::split(a + seq![c] + rest, c) == seq![a] + text::split(rest, c),
        text::split(a, c) == seq![a],
{
    let s = a + seq![c] + rest;
    let n = a.len() as int;
    assert forall|i: int| 0 <= i < n implies #[trigger] s[i] != c && a[i] != c by {
        assert(a.contains(a[i]));
    }
    assert(s[n] == c);
    text::lemma_before(s, c, n);
    text::lemma_before(a, c, n);
    assert(s.take(n) =~= a);
    assert(s.skip(n + 1) =~= rest);
}

/// The address of a card image, side by side with what it consists of.
pub open spec fn image_address(
    size: Seq<char>,
    side: Seq<char>,
    dirs: (Seq<char>, Seq<char>),
    file: Seq<char>,
) -> Seq<char> {
    "https://cards.scryfall.io/"@ + (size + seq!['/'] + (side + seq!['/'] + (dirs.0 + seq!['/'] + (
    dirs.1 + seq!['/'] + file))))
}

/// The image of a card's front is served under its size and file name, without
/// the version that the address asks for. The other side's, and what has other
/// parts, stays where it is.
pub proof fn law_image_addresses(
    size: Seq<char>,
    side: Seq<char>,
    dirs: (Seq<char>, Seq<char>),
    file: Seq<char>,
    version: Seq<char>,
)
    requires
        !size.contains('/'),
        !side.contains('/'),
        !dirs.0.contains('/'),
        !dirs.1.contains('/'),
        !file.contains('/'),
        !file.contains('?'),
        !version.contains('/'),
    ensures
        ({
            let plain = image_address(size, side, dirs, file);
            let asked = image_address(size, side, dirs, file + seq!['?'] + version);
            let served = "/cdn/cards/"@ + size + "/"@ + file;
            &&& side == seq!['f', 'r', 'o', 'n', 't'] ==> local_url(plain) == served && local_url(
                asked,
            ) == served
            &&& side != seq!['f', 'r', 'o', 'n', 't'] ==> local_url(plain) == plain && local_url(
                asked,
            ) == asked
        }),
{
    let asked = file + seq!['?'] + version;
    assert(!asked.contains('/')) by {
        if asked.contains('/') {
            let i = choose|i: int| 0 <= i < asked.len() && asked[i] == '/';
            if i < file.len() {
                assert(file.contains(file[i]));
            } else if i > file.len() {
                assert(version.contains(version[i - file.len() - 1]));
            }
        }
    }
    reveal_strlit("front");
    assert("front"@ =~= seq!['f', 'r', 'o', 'n', 't']);
    lemma_image_parts(size, side, dirs, file);
    lemma_image_parts(size, side, dirs, asked);
    reveal_strlit("?");
    let q = "?"@;
    assert(q =~= seq!['?']);
    let n = file.len() as int;
    assert(asked.subrange(n, n + 1) =~= q);
    assert forall|j: int| 0 <= j < n implies !text::occurs_at(asked, q, j) by {
        if text::occurs_at(asked, q, j) {
            assert(asked.subrange(j, j + 1)[0] == asked[j]);
            assert(file.contains(file[j]));
        }
    }
    text::lemma_position(asked, q, n);
    assert(asked.take(n) =~= file);
    if text::occurs(file, q) {
        let j = choose|j: int| text::occurs_at(file, q, j);
        assert(file.subrange(j, j + 1)[0] == file[j]);
        assert(file.contains(file[j]));
    }
}

proof fn lemma_image_parts(
    size: Seq<char>,
    side: Seq<char>,
    dirs: (Seq<char>, Seq<char>),
    file: Seq<char>,
)
    requires
        !size.contains('/'),
        !side.contains('/'),
        !dirs.0.contains('/'),
        !dirs.1.contains('/'),
        !file.contains('/'),
    ensures
        image_parts(image_address(size, side, dirs, file)) == if side == "front"@ {
            Some(seq![size, side, dirs.0, dirs.1, file])
        } else {
            None
        },
{
    let p = "https://cards.scryfall.io/"@;
    let d = dirs.1 + seq!['/'] + file;
    let c = dirs.0 + seq!['/'] + d;
    let b = side + seq!['/'] + c;
    let a = size + seq!['/'] + b;
    let url = p + a;
    assert(url.take(p.len() as int) =~= p);
    assert(url.skip(p.len() as int) =~= a);
    lemma_split_first(file, '/', seq![]);
    lemma_split_first(dirs.1, '/', file);
    lemma_split_first(dirs.0, '/', d);
    lemma_split_first(side, '/', c);
    lemma_split_first(size, '/', b);
    assert(text::split(a, '/') =~= seq![size, side, dirs.0, dirs.1, file]);
}

/// An address elsewhere stays as it is.
pub proof fn law_other_addresses(url: Seq<char>)
    requires
        !text::begins(url, "https://cards.scryfall.io/"@),
    ensures
        local_url(url) == url,
{
}

/// The address of the file with all cards is the first of that type.
pub proof fn law_default_uri(index: Seq<BulkEntry>, i: int)
    requires
        0 <= i < index.len(),
        index[i].bulk_type@ == "default_cards"@,
        forall|j: int| 0 <= j < i ==> (#[trigger] index[j]).bulk_type@ != "default_cards"@,
    ensures
        default_uri(index) == Some(index[i].download_uri@),
    decreases i,
{
    if i > 0 {
        assert(index[0].bulk_type@ != "default_cards"@);
        let rest = index.skip(1);
        assert(rest[i - 1] == index[i]);
        assert forall|j: int| 0 <= j < i - 1 implies (#[trigger] rest[j]).bulk_type@
            != "default_cards"@ by {
            assert(rest[j] == index[j + 1]);
        }
        law_default_uri(rest, i - 1);
    }
}

/// A card of the bulk file with an id of the game is in the database under that
/// id, unless a later one with the same id takes its place; and it keeps all
/// that the file says of it.
pub proof fn law_bulk_cards_kept(raw: Seq<ScryfallCard>, i: int, id: u32)
    requires
        0 <= i < raw.len(),
        raw[i].arena_id == Some(id),
        forall|j: int| i < j < raw.len() ==> (#[trigger] raw[j]).arena_id != Some(id),
    ensures
        ({
            let db = keyed(arena_cards_in(raw));
            let card = db[id];
            &&& db.contains_key(id)
            &&& card.arena_id == id
            &&& card.name == raw[i].name
            &&& card.mana_cost == raw[i].mana_cost
            &&& card.type_line == raw[i].type_line
            &&& card.colors == raw[i].colors
            &&& card.rarity == raw[i].rarity
            &&& card.set == raw[i].set
            &&& card.collector_number == raw[i].collector_number
            &&& card.cmc == raw[i].cmc
            &&& raw[i].image_uris is Some ==> card.image_small == raw[i].image_uris->Some_0.small
                && card.image_normal == raw[i].image_uris->Some_0.normal
            &&& raw[i].image_uris is None ==> card.image_small is None && card.image_normal is None
            &&& card.scryfall_uri == raw[i].scryfall_uri
            &&& card.legalities == raw[i].legalities
            &&& card.oracle_text == raw[i].oracle_text
            &&& card.produced_mana == raw[i].produced_mana
            &&& card.card_faces == raw[i].card_faces
        }),
    decreases raw.len(),
{
    let rest = raw.drop_last();
    let last = raw[raw.len() - 1];
    if let Some(c) = arena_card(last) {
        assert(arena_cards_in(raw).drop_last() =~= arena_cards_in(rest));
    }
    if i < rest.len() {
        assert(last.arena_id != Some(id));
        assert forall|j: int| i < j < rest.len() implies (#[trigger] rest[j]).arena_id != Some(
            id,
        ) by {
            assert(rest[j] == raw[j]);
        }
        assert(rest[i] == raw[i]);
        law_bulk_cards_kept(rest, i, id);
    }
}

/// A mana value is rounded to the nearest whole number, and up from the middle
/// between two; what is too large for a byte counts as the largest. The number
/// stands in its bits as the exponent `e`, from which 127 is taken, and the
/// binary places `f` behind the point.
pub proof fn law_rounded(c: Cmc, e: nat, f: nat)
    requires
        f < 0x80_0000,
        e < 0xff,
        c.bits == e * 0x80_0000 + f,
    ensures
        e >= 150 ==> c.rounds_to() == Some(255nat),
        e == 0 ==> c.rounds_to() == Some(0nat),
        0 < e < 150 ==> ({
            let one = vstd::arithmetic::power2::pow2((150 - e) as nat);
            match c.rounds_to() {
                Some(n) => {
                    &&& n <= 255
                    &&& (2 * n - 1) * one <= 2 * (0x80_0000 + f)
                    &&& n < 255 ==> 2 * (0x80_0000 + f) < (2 * n + 1) * one
                },
                None => false,
            }
        }),
{
    assert(c.bits / 0x80_0000 == e && c.bits % 0x80_0000 == f) by {
        vstd::arithmetic::div_mod::lemma_fundamental_div_mod_converse(
            c.bits as int,
            0x80_0000,
            e as int,
            f as int,
        );
    }
    assert(c.exponent() == e);
    assert(c.fraction() == f);
    assert(c.bits < 0x8000_0000);
    if e == 0 {
        let p = vstd::arithmetic::power2::pow2(149);
        lemma2_to64();
        lemma_pow2_strictly_increases(32, 149);
        assert((2 * f + p) / (2 * p) as nat == 0) by (nonlinear_arith)
            requires
                2 * f < p,
                p > 0,
        ;
    } else if e < 150 {
        let p = vstd::arithmetic::power2::pow2((150 - e) as nat);
        vstd::arithmetic::power2::lemma_pow2_pos((150 - e) as nat);
        let m = 0x80_0000 + f;
        let n = (2 * m + p) / (2 * p);
        assert((2 * n - 1) * p <= 2 * m < (2 * n + 1) * p) by (nonlinear_arith)
            requires
                p > 0,
                n == (2 * m + p) / (2 * p),
        ;
        if n >= 255 {
            assert((2 * 255 - 1) * p <= (2 * n - 1) * p) by (nonlinear_arith)
                requires
                    n >= 255,
                    p > 0,
            ;
        }
    }
}

/// What is below zero, or no number, gives no mana value; zero with a minus sign
/// is zero.
pub proof fn law_no_number(c: Cmc)
    ensures
        c.bits > 0x8000_0000 ==> c.rounds_to() is None,
        0x7f80_0000 < c.bits < 0x8000_0000 ==> c.rounds_to() is None,
        c.bits == 0x8000_0000 ==> c.rounds_to() == Some(0nat),
{
    if c.bits == 0x8000_0000 {
        let p = vstd::arithmetic::power2::pow2(149);
        vstd::arithmetic::power2::lemma_pow2_pos(149);
        assert(p / (2 * p) as nat == 0) by (nonlinear_arith)
            requires
                p > 0,
        ;
    }
    if 0x7f80_0000 < c.bits < 0x8000_0000 {
        vstd::arithmetic::div_mod::lemma_fundamental_div_mod_converse(
            c.bits as int,
            0x80_0000,
            0xff,
            c.bits - 0x7f80_0000,
        );
    }
}

} // verus!
