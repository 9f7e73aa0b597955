//! Turns a main deck, as pairs of card id and quantity, into the flat form that
//! the simulation plays with.
use vstd::prelude::*;
use vstd::string::StringExecFns;

use crate::cards::{Card, CardDb};
use crate::text::{self, decimal, letter_or_digit, occurs_at, texts, trimmed, up_to};

use super::mana::{
    cost_of,
    faces_of,
    land_produces,
    made_by,
    parse_mana_cost,
    symbols,
    warnings_in,
    ColorMask,
    CostView,
    ParsedCost,
    COLOR_BITS,
};

verus! {

/// What a card is to the simulation.
#[derive(Debug, Clone)]
pub enum CardKind {
    Land { produces: ColorMask },
    Spell { cost: ParsedCost },
    /// Not in the card database: it is shuffled and drawn like any card, and
    /// left out of what can be cast.
    UnknownSpell,
}

/// A card of the deck with its number of copies.
#[derive(Debug, Clone)]
pub struct SimCard {
    pub arena_id: u32,
    pub name: String,
    pub mana_cost: String,
    pub quantity: u32,
    pub kind: CardKind,
}

/// What a card kind holds.
pub ghost enum KindView {
    Land(ColorMask),
    Spell(CostView),
    Unknown,
}

/// What a card of the deck holds.
pub ghost struct SimCardView {
    pub arena_id: u32,
    pub name: Seq<char>,
    pub mana_cost: Seq<char>,
    pub quantity: u32,
    pub kind: KindView,
}

impl View for CardKind {
    type V = KindView;

    open spec fn view(&self) -> KindView {
        match self {
            CardKind::Land { produces } => KindView::Land(*produces),
            CardKind::Spell { cost } => KindView::Spell(cost@),
            CardKind::UnknownSpell => KindView::Unknown,
        }
    }
}

impl View for SimCard {
    type V = SimCardView;

    open spec fn view(&self) -> SimCardView {
        SimCardView {
            arena_id: self.arena_id,
            name: self.name@,
            mana_cost: self.mana_cost@,
            quantity: self.quantity,
            kind: self.kind@,
        }
    }
}

impl SimCardView {
    /// The mana value of a spell; zero for every other card.
    pub open spec fn value(self) -> u8 {
        match self.kind {
            KindView::Spell(cost) => cost.mana_value,
            _ => 0,
        }
    }
}

impl SimCard {
    /// Whether the card is a land.
    pub fn is_land(&self) -> (r: bool)
        ensures
            r == (self@.kind is Land),
    {
        match &self.kind {
            CardKind::Land { .. } => true,
            _ => false,
        }
    }

    /// The mana value of a spell; zero for every other card.
    pub fn mana_value(&self) -> (r: u8)
        ensures
            r == self@.value(),
    {
        match &self.kind {
            CardKind::Spell { cost } => cost.mana_value,
            _ => 0,
        }
    }

    /// The cost of a spell.
    pub fn cost(&self) -> (r: Option<&ParsedCost>)
        ensures
            match r {
                Some(c) => self@.kind == KindView::Spell(c@),
                None => !(self@.kind is Spell),
            },
    {
        match &self.kind {
            CardKind::Spell { cost } => Some(cost),
            _ => None,
        }
    }
}

/// A deck ready to be played with.
pub struct CompiledDeck {
    /// The distinct cards; `library` holds positions in this list.
    pub cards: Vec<SimCard>,
    /// One entry for each card of the deck.
    pub library: Vec<u16>,
    pub land_count: u32,
    /// The highest mana value of a spell, at most 7.
    pub max_spell_mv: u8,
    /// The bit of each color that some spell has a pip of, and no other color
    /// in it, with the first turn on which such a spell could be cast.
    pub colors_needed: Vec<(u8, u8)>,
    pub warnings: Vec<String>,
}

/// What the distinct cards of a deck hold.
pub open spec fn card_views(cards: Seq<SimCard>) -> Seq<SimCardView> {
    cards.map_values(|c: SimCard| c@)
}

/// What a deck holds.
pub ghost struct DeckView {
    pub cards: Seq<SimCardView>,
    pub library: Seq<u16>,
    pub land_count: u32,
    pub max_spell_mv: u8,
    pub colors_needed: Seq<(u8, u8)>,
}

impl View for CompiledDeck {
    type V = DeckView;

    open spec fn view(&self) -> DeckView {
        DeckView {
            cards: card_views(self.cards@),
            library: self.library@,
            land_count: self.land_count,
            max_spell_mv: self.max_spell_mv,
            colors_needed: self.colors_needed@,
        }
    }
}

impl DeckView {
    /// Every entry of the library is a card of the deck.
    pub open spec fn wf(self) -> bool {
        forall|i: int| 0 <= i < self.library.len() ==> (#[trigger] self.library[i]) < self.cards.len()
    }
}

// ---------------------------------------------------------------------------
// Lands
// ---------------------------------------------------------------------------

/// The characters from `i` on up to `j` are a word: letters and digits, and
/// neither before nor behind them stands another one.
pub open spec fn is_word(s: Seq<char>, i: int, j: int) -> bool {
    &&& 0 <= i < j <= s.len()
    &&& forall|k: int| i <= k < j ==> letter_or_digit(#[trigger] s[k])
    &&& i > 0 ==> !letter_or_digit(s[i - 1])
    &&& j < s.len() ==> !letter_or_digit(s[j])
}

/// "Land" stands at `i` as a word.
pub open spec fn land_word_at(s: Seq<char>, i: int) -> bool {
    occurs_at(s, seq!['L', 'a', 'n', 'd'], i) && is_word(s, i, i + 4)
}

/// One of the words of a type line is "Land".
pub open spec fn says_land(type_line: Seq<char>) -> bool {
    exists|i: int| land_word_at(type_line, i)
}

/// Whether one of the words of a type line is "Land".
pub fn is_land_type(type_line: &str) -> (r: bool)
    ensures
        r == says_land(type_line@),
{
    let a = text::chars_of(type_line);
    let word = text::chars_of("Land");
    proof {
        reveal_strlit("Land");
        assert(word@ =~= seq!['L', 'a', 'n', 'd']);
    }
    let mut i: usize = 0;
    while i < a.len()
        invariant
            i <= a@.len(),
            a@ == type_line@,
            word@ == seq!['L', 'a', 'n', 'd'],
            forall|j: int| 0 <= j < i ==> !land_word_at(a@, j),
        decreases a@.len() - i,
    {
        if text::match_at(&a, &word, i) {
            let end: usize = i + 4;
            let open = i == 0 || !text::is_letter_or_digit(a[i - 1]);
            let closed = end == a.len() || !text::is_letter_or_digit(a[end]);
            if open && closed && text::is_letter_or_digit(a[i]) && text::is_letter_or_digit(a[i + 1])
                && text::is_letter_or_digit(a[i + 2]) && text::is_letter_or_digit(a[i + 3]) {
                assert(is_word(a@, i as int, i + 4));
                assert(land_word_at(a@, i as int));
                return true;
            }
        }
        i += 1;
    }
    false
}


// ---------------------------------------------------------------------------
// Entries
// ---------------------------------------------------------------------------

/// The type line of a card's front: what stands before the first "//" of its
/// type line, or else the type line of its first face.
pub open spec fn front_type(card: Card) -> Seq<char> {
    match card.type_line {
        Some(t) => trimmed(up_to(t@, "//"@)),
        None => if faces_of(card).len() > 0 {
            optional(faces_of(card)[0].type_line)
        } else {
            seq![]
        },
    }
}

/// A text, or the empty text where there is none.
pub open spec fn optional(s: Option<String>) -> Seq<char> {
    match s {
        Some(t) => t@,
        None => seq![],
    }
}

/// The text of a card's cost: its own where it has one that is not empty, or
/// else that of its first face.
pub open spec fn cost_text(card: Card) -> Seq<char> {
    if optional(card.mana_cost).len() > 0 {
        optional(card.mana_cost)
    } else if faces_of(card).len() > 0 {
        optional(faces_of(card)[0].mana_cost)
    } else {
        seq![]
    }
}

/// The face `k`, which is not the front, is a land.
pub open spec fn back_land_at(card: Card, k: int) -> bool {
    &&& 1 <= k < faces_of(card).len()
    &&& faces_of(card)[k].type_line is Some
    &&& says_land(faces_of(card)[k].type_line.unwrap()@)
}

/// The front of the card is a spell, and another face of it is a land.
pub open spec fn has_back_land(card: Card) -> bool {
    !says_land(front_type(card)) && exists|k: int| back_land_at(card, k)
}

/// What a card of the database is to the simulation. A land of which no color
/// is known makes colorless mana.
pub open spec fn kind_of(card: Card) -> KindView {
    if says_land(front_type(card)) {
        KindView::Land(
            if made_by(card) == ColorMask(0) {
                ColorMask(32)
            } else {
                made_by(card)
            },
        )
    } else {
        KindView::Spell(cost_of(cost_text(card), card.cmc))
    }
}

/// The card that an entry of a deck list gives.
pub open spec fn compiled_card(entry: (u32, u32), db: Map<u32, Card>) -> SimCardView {
    if db.contains_key(entry.0) {
        let card = db[entry.0];
        SimCardView {
            arena_id: entry.0,
            name: card.name@,
            mana_cost: optional(card.mana_cost),
            quantity: entry.1,
            kind: kind_of(card),
        }
    } else {
        SimCardView {
            arena_id: entry.0,
            name: "Unknown #"@ + decimal(entry.0 as nat),
            mana_cost: seq![],
            quantity: entry.1,
            kind: KindView::Unknown,
        }
    }
}

/// Each of the texts behind a card's name and a colon.
pub open spec fn prefixed(name: Seq<char>, list: Seq<Seq<char>>) -> Seq<Seq<char>> {
    list.map_values(|w: Seq<char>| name + ": "@ + w)
}

/// The warnings about one entry.
pub open spec fn entry_warnings(entry: (u32, u32), db: Map<u32, Card>) -> Seq<Seq<char>> {
    if !db.contains_key(entry.0) {
        seq![
            "Unknown card "@ + decimal(entry.0 as nat) + " ("@ + decimal(entry.1 as nat)
                + "x): excluded from castability stats"@,
        ]
    } else {
        let card = db[entry.0];
        if says_land(front_type(card)) {
            if made_by(card) == ColorMask(0) {
                seq![
                    card.name@ + ": "@
                        + "no mana colors detected; treating as colorless source"@,
                ]
            } else {
                seq![]
            }
        } else {
            prefixed(card.name@, warnings_in(symbols(cost_text(card))))
        }
    }
}

/// The cards that a deck list gives: one for each entry with any copies.
pub open spec fn compiled_cards(
    entries: Seq<(u32, u32)>,
    db: Map<u32, Card>,
) -> Seq<SimCardView>
    decreases entries.len(),
{
    if entries.len() == 0 {
        seq![]
    } else if entries.last().1 == 0 {
        compiled_cards(entries.drop_last(), db)
    } else {
        compiled_cards(entries.drop_last(), db).push(compiled_card(entries.last(), db))
    }
}

/// The warnings about the entries, in their order.
pub open spec fn all_entry_warnings(
    entries: Seq<(u32, u32)>,
    db: Map<u32, Card>,
) -> Seq<Seq<char>>
    decreases entries.len(),
{
    if entries.len() == 0 {
        seq![]
    } else if entries.last().1 == 0 {
        all_entry_warnings(entries.drop_last(), db)
    } else {
        all_entry_warnings(entries.drop_last(), db) + entry_warnings(entries.last(), db)
    }
}

/// The names of the entries that are spells with a land on their back.
pub open spec fn back_land_names(
    entries: Seq<(u32, u32)>,
    db: Map<u32, Card>,
) -> Seq<Seq<char>>
    decreases entries.len(),
{
    if entries.len() == 0 {
        seq![]
    } else {
        let before = back_land_names(entries.drop_last(), db);
        let e = entries.last();
        if e.1 != 0 && db.contains_key(e.0) && has_back_land(db[e.0]) {
            before.push(db[e.0].name@)
        } else {
            before
        }
    }
}

/// The warnings about a deck list.
pub open spec fn deck_warnings(
    entries: Seq<(u32, u32)>,
    db: Map<u32, Card>,
) -> Seq<Seq<char>> {
    let names = back_land_names(entries, db);
    if names.len() == 0 {
        all_entry_warnings(entries, db)
    } else {
        all_entry_warnings(entries, db).push(
            decimal(names.len()) + " modal back-face land(s) treated as spells: "@ + text::joined(
                names,
                ", "@,
            ),
        )
    }
}

/// One entry for each copy of each card: its position in the list of cards.
pub open spec fn spread(cards: Seq<SimCardView>) -> Seq<u16>
    decreases cards.len(),
{
    if cards.len() == 0 {
        seq![]
    } else {
        spread(cards.drop_last()) + Seq::new(
            cards.last().quantity as nat,
            |k: int| ((cards.len() - 1) % 0x1_0000) as u16,
        )
    }
}

/// How many copies of lands there are.
pub open spec fn lands_among(cards: Seq<SimCardView>) -> nat
    decreases cards.len(),
{
    if cards.len() == 0 {
        0
    } else {
        lands_among(cards.drop_last()) + if cards.last().kind is Land {
            cards.last().quantity as nat
        } else {
            0
        }
    }
}

/// The highest mana value of a card that is no land.
pub open spec fn highest_value(cards: Seq<SimCardView>) -> u8
    decreases cards.len(),
{
    if cards.len() == 0 {
        0
    } else {
        let before = highest_value(cards.drop_last());
        if before < cards.last().value() {
            cards.last().value()
        } else {
            before
        }
    }
}

/// The card is a spell with a pip of this color and no other.
pub open spec fn asks_for(card: SimCardView, bit: u8) -> bool {
    match card.kind {
        KindView::Spell(cost) => cost.pips.contains(ColorMask(bit)),
        _ => false,
    }
}

/// The lowest mana value among the spells that ask for a color.
pub open spec fn earliest(cards: Seq<SimCardView>, bit: u8) -> Option<u8>
    decreases cards.len(),
{
    if cards.len() == 0 {
        None
    } else {
        let before = earliest(cards.drop_last(), bit);
        if !asks_for(cards.last(), bit) {
            before
        } else {
            match before {
                Some(v) if v <= cards.last().value() => Some(v),
                _ => Some(cards.last().value()),
            }
        }
    }
}

/// The colors that the deck asks for among the first `n` of the six, with the
/// first turn on which each is needed.
pub open spec fn needed(cards: Seq<SimCardView>, n: int) -> Seq<(u8, u8)>
    decreases n,
{
    if n <= 0 {
        seq![]
    } else {
        let bit = COLOR_BITS@[n - 1].0;
        match earliest(cards, bit) {
            Some(v) => needed(cards, n - 1).push(
                (
                    bit,
                    if v < 1 {
                        1
                    } else {
                        v
                    },
                ),
            ),
            None => needed(cards, n - 1),
        }
    }
}

/// The deck that a deck list gives.
pub open spec fn compiled(entries: Seq<(u32, u32)>, db: Map<u32, Card>) -> DeckView {
    let cards = compiled_cards(entries, db);
    DeckView {
        cards,
        library: spread(cards),
        land_count: lands_among(cards) as u32,
        max_spell_mv: if highest_value(cards) < 7 {
            highest_value(cards)
        } else {
            7
        },
        colors_needed: needed(cards, 6),
    }
}

fn front_type_of(card: &Card) -> (r: String)
    ensures
        r@ == front_type(*card),
{
    match &card.type_line {
        Some(t) => {
            let front = text::cut(t.as_str(), "//");
            text::trim(front.as_str())
        },
        None => match &card.card_faces {
            Some(faces) if faces.len() > 0 => or_empty(&faces[0].type_line),
            _ => {
                let r = String::new();
                assert(r@ =~= Seq::<char>::empty());
                r
            },
        },
    }
}

/// A copy of a text; the empty text where there is none.
fn or_empty(s: &Option<String>) -> (r: String)
    ensures
        r@ == optional(*s),
{
    match s {
        Some(t) => t.clone(),
        None => {
            let r = String::new();
            assert(r@ =~= Seq::<char>::empty());
            r
        },
    }
}

fn cost_text_of(card: &Card) -> (r: String)
    ensures
        r@ == cost_text(*card),
{
    let own = or_empty(&card.mana_cost);
    if text::chars_of(own.as_str()).len() > 0 {
        return own;
    }
    match &card.card_faces {
        Some(faces) if faces.len() > 0 => or_empty(&faces[0].mana_cost),
        _ => {
            let r = String::new();
            assert(r@ =~= Seq::<char>::empty());
            r
        },
    }
}

fn back_land(card: &Card) -> (r: bool)
    ensures
        r == exists|k: int| back_land_at(*card, k),
{
    if let Some(faces) = &card.card_faces {
        let mut k: usize = 1;
        while k < faces.len()
            invariant
                1 <= k,
                faces@ == faces_of(*card),
                forall|j: int| 1 <= j < k ==> !back_land_at(*card, j),
            decreases faces@.len() - k,
        {
            if let Some(t) = &faces[k].type_line {
                if is_land_type(t.as_str()) {
                    assert(back_land_at(*card, k as int));
                    return true;
                }
            }
            k += 1;
        }
    }
    false
}

fn with_name(name: &String, w: &str) -> (r: String)
    ensures
        r@ == name@ + ": "@ + w@,
{
    let mut r = name.clone();
    r.append(": ");
    r.append(w);
    r
}

fn compile_entry(
    card: &Card,
    arena_id: u32,
    quantity: u32,
    warnings: &mut Vec<String>,
    back_lands: &mut Vec<String>,
    Ghost(db): Ghost<Map<u32, Card>>,
) -> (r: SimCard)
    requires
        quantity > 0,
        db.contains_key(arena_id),
        db[arena_id] == *card,
    ensures
        r@ == compiled_card((arena_id, quantity), db),
        texts(final(warnings)@) == texts(old(warnings)@) + entry_warnings((arena_id, quantity), db),
        texts(final(back_lands)@) == if has_back_land(*card) {
            texts(old(back_lands)@).push(card.name@)
        } else {
            texts(old(back_lands)@)
        },
{
    let front = front_type_of(card);
    let kind = if is_land_type(front.as_str()) {
        let produces = land_produces(card);
        if produces.is_empty() {
            let w = with_name(
                &card.name,
                "no mana colors detected; treating as colorless source",
            );
            warnings.push(w);
            assert(texts(warnings@) =~= texts(old(warnings)@) + entry_warnings(
                (arena_id, quantity),
                db,
            ));
            CardKind::Land { produces: ColorMask(32) }
        } else {
            assert(texts(warnings@) =~= texts(old(warnings)@) + entry_warnings(
                (arena_id, quantity),
                db,
            ));
            CardKind::Land { produces }
        }
    } else {
        if back_land(card) {
            back_lands.push(card.name.clone());
            assert(texts(back_lands@) =~= texts(old(back_lands)@).push(card.name@));
        }
        let text = cost_text_of(card);
        let (cost, cost_warnings) = parse_mana_cost(text.as_str(), card.cmc);
        let ghost found = texts(cost_warnings@);
        let mut k: usize = 0;
        assert(texts(warnings@) =~= texts(old(warnings)@) + prefixed(card.name@, found.take(0)));
        while k < cost_warnings.len()
            invariant
                k <= cost_warnings@.len(),
                found == texts(cost_warnings@),
                texts(warnings@) == texts(old(warnings)@) + prefixed(
                    card.name@,
                    found.take(k as int),
                ),
            decreases cost_warnings@.len() - k,
        {
            let ghost before = warnings@;
            let w = with_name(&card.name, cost_warnings[k].as_str());
            warnings.push(w);
            k += 1;
            proof {
                assert(texts(warnings@) =~= texts(before).push(w@));
                assert(prefixed(card.name@, found.take(k as int)) =~= prefixed(
                    card.name@,
                    found.take(k - 1),
                ).push(w@));
                assert(texts(warnings@) =~= texts(old(warnings)@) + prefixed(
                    card.name@,
                    found.take(k as int),
                ));
            }
        }
        assert(found.take(k as int) =~= found);
        CardKind::Spell { cost }
    };
    SimCard {
        arena_id,
        name: card.name.clone(),
        mana_cost: or_empty(&card.mana_cost),
        quantity,
        kind,
    }
}

/// Each entry of the spread is a position in the list.
pub proof fn lemma_spread_in(cards: Seq<SimCardView>)
    ensures
        forall|i: int| 0 <= i < spread(cards).len() ==> (#[trigger] spread(cards)[i]) < cards.len(),
    decreases cards.len(),
{
    if cards.len() > 0 {
        let a = spread(cards.drop_last());
        lemma_spread_in(cards.drop_last());
        assert forall|i: int| 0 <= i < spread(cards).len() implies (#[trigger] spread(cards)[i])
            < cards.len() by {
            if i < a.len() {
                assert(spread(cards)[i] == a[i]);
            }
        }
    }
}

proof fn lemma_lands_grow(cards: Seq<SimCardView>, n: int)
    requires
        0 <= n <= cards.len(),
    ensures
        lands_among(cards.take(n)) <= lands_among(cards),
    decreases cards.len() - n,
{
    if n < cards.len() {
        lemma_lands_grow(cards.drop_last(), n);
        assert(cards.drop_last().take(n) =~= cards.take(n));
    } else {
        assert(cards.take(n) =~= cards);
    }
}

fn spread_of(cards: &Vec<SimCard>) -> (library: Vec<u16>)
    ensures
        library@ == spread(card_views(cards@)),
{
    let ghost views = card_views(cards@);
    let mut library: Vec<u16> = Vec::new();
    let mut i: usize = 0;
    assert(library@ =~= spread(views.take(0)));
    while i < cards.len()
        invariant
            i <= cards@.len(),
            views == card_views(cards@),
            library@ == spread(views.take(i as int)),
        decreases cards@.len() - i,
    {
        let at: u16 = (i % 0x1_0000) as u16;
        let ghost before = library@;
        let n = cards[i].quantity;
        let mut k: u32 = 0;
        while k < n
            invariant
                k <= n,
                library@ == before + Seq::new(k as nat, |j: int| at),
            decreases n - k,
        {
            let ghost now = library@;
            library.push(at);
            k += 1;
            assert(library@ =~= before + Seq::new(k as nat, |j: int| at));
        }
        proof {
            assert(views.take(i + 1).drop_last() =~= views.take(i as int));
            assert(library@ =~= spread(views.take(i + 1)));
        }
        i += 1;
    }
    assert(views.take(i as int) =~= views);
    library
}

fn count_lands(cards: &Vec<SimCard>) -> (n: u32)
    requires
        lands_among(card_views(cards@)) <= u32::MAX,
    ensures
        n == lands_among(card_views(cards@)),
{
    let ghost views = card_views(cards@);
    let mut n: u32 = 0;
    let mut i: usize = 0;
    while i < cards.len()
        invariant
            i <= cards@.len(),
            views == card_views(cards@),
            lands_among(views) <= u32::MAX,
            n == lands_among(views.take(i as int)),
        decreases cards@.len() - i,
    {
        proof {
            assert(views.take(i + 1).drop_last() =~= views.take(i as int));
            lemma_lands_grow(views, i + 1);
        }
        if cards[i].is_land() {
            n = n + cards[i].quantity;
        }
        i += 1;
    }
    assert(views.take(i as int) =~= views);
    n
}

fn max_value(cards: &Vec<SimCard>) -> (v: u8)
    ensures
        v == highest_value(card_views(cards@)),
{
    let ghost views = card_views(cards@);
    let mut v: u8 = 0;
    let mut i: usize = 0;
    while i < cards.len()
        invariant
            i <= cards@.len(),
            views == card_views(cards@),
            v == highest_value(views.take(i as int)),
        decreases cards@.len() - i,
    {
        assert(views.take(i + 1).drop_last() =~= views.take(i as int));
        let w = cards[i].mana_value();
        if v < w {
            v = w;
        }
        i += 1;
    }
    assert(views.take(i as int) =~= views);
    v
}

fn has_pip(pips: &Vec<ColorMask>, bit: u8) -> (r: bool)
    ensures
        r == pips@.contains(ColorMask(bit)),
{
    let mut i: usize = 0;
    while i < pips.len()
        invariant
            i <= pips@.len(),
            forall|j: int| 0 <= j < i ==> pips@[j] != ColorMask(bit),
        decreases pips@.len() - i,
    {
        if pips[i].0 == bit {
            assert(pips@[i as int] == ColorMask(bit));
            return true;
        }
        i += 1;
    }
    false
}

fn earliest_of(cards: &Vec<SimCard>, bit: u8) -> (r: Option<u8>)
    ensures
        r == earliest(card_views(cards@), bit),
{
    let ghost views = card_views(cards@);
    let mut r: Option<u8> = None;
    let mut i: usize = 0;
    while i < cards.len()
        invariant
            i <= cards@.len(),
            views == card_views(cards@),
            r == earliest(views.take(i as int), bit),
        decreases cards@.len() - i,
    {
        assert(views.take(i + 1).drop_last() =~= views.take(i as int));
        assert(views.take(i + 1).last() == cards@[i as int]@);
        if let Some(cost) = cards[i].cost() {
            if has_pip(&cost.pips, bit) {
                let v = cost.mana_value;
                r = match r {
                    Some(w) if w <= v => Some(w),
                    _ => Some(v),
                };
            }
        }
        i += 1;
    }
    assert(views.take(i as int) =~= views);
    r
}

/// Compiles a deck list.
pub fn compile_deck(entries: &[(u32, u32)], db: &CardDb) -> (deck: CompiledDeck)
    requires
        db.wf(),
        lands_among(compiled_cards(entries@, db@)) <= u32::MAX,
    ensures
        deck@ == compiled(entries@, db@),
        texts(deck.warnings@) == deck_warnings(entries@, db@),
        deck@.wf(),
{
    let mut cards: Vec<SimCard> = Vec::new();
    let mut warnings: Vec<String> = Vec::new();
    let mut back_lands: Vec<String> = Vec::new();
    let mut i: usize = 0;
    proof {
        assert(card_views(cards@) =~= compiled_cards(entries@.take(0), db@));
        assert(texts(warnings@) =~= all_entry_warnings(entries@.take(0), db@));
        assert(texts(back_lands@) =~= back_land_names(entries@.take(0), db@));
    }
    while i < entries.len()
        invariant
            i <= entries@.len(),
            db.wf(),
            card_views(cards@) == compiled_cards(entries@.take(i as int), db@),
            texts(warnings@) == all_entry_warnings(entries@.take(i as int), db@),
            texts(back_lands@) == back_land_names(entries@.take(i as int), db@),
        decreases entries@.len() - i,
    {
        let (arena_id, quantity) = entries[i];
        proof {
            assert(entries@.take(i + 1).drop_last() =~= entries@.take(i as int));
            assert(entries@.take(i + 1).last() == (arena_id, quantity));
        }
        i += 1;
        if quantity == 0 {
            continue ;
        }
        let ghost before = cards@;
        let sim = match db.get(arena_id) {
            Some(card) => compile_entry(
                card,
                arena_id,
                quantity,
                &mut warnings,
                &mut back_lands,
                Ghost(db@),
            ),
            None => {
                let mut w = String::new();
                w.append("Unknown card ");
                text::push_decimal(&mut w, arena_id as u64);
                w.append(" (");
                text::push_decimal(&mut w, quantity as u64);
                w.append("x): excluded from castability stats");
                let ghost old_warnings = warnings@;
                warnings.push(w);
                let mut name = String::new();
                name.append("Unknown #");
                text::push_decimal(&mut name, arena_id as u64);
                let empty = String::new();
                proof {
                    let e = (arena_id, quantity);
                    assert(w@ =~= "Unknown card "@ + decimal(e.0 as nat) + " ("@ + decimal(
                        e.1 as nat,
                    ) + "x): excluded from castability stats"@);
                    assert(texts(warnings@) =~= texts(old_warnings) + entry_warnings(e, db@));
                    assert(name@ =~= "Unknown #"@ + decimal(arena_id as nat));
                    assert(empty@ =~= Seq::<char>::empty());
                }
                SimCard {
                    arena_id,
                    name,
                    mana_cost: empty,
                    quantity,
                    kind: CardKind::UnknownSpell,
                }
            },
        };
        assert(sim@ == compiled_card((arena_id, quantity), db@));
        cards.push(sim);
        assert(card_views(cards@) =~= card_views(before).push(sim@));
    }
    assert(entries@.take(i as int) =~= entries@);
    if back_lands.len() > 0 {
        let mut w = String::new();
        text::push_decimal(&mut w, back_lands.len() as u64);
        w.append(" modal back-face land(s) treated as spells: ");
        w.append(text::join(&back_lands, ", ").as_str());
        let ghost old_warnings = warnings@;
        warnings.push(w);
        proof {
            let names = texts(back_lands@);
            assert(w@ =~= decimal(names.len()) + " modal back-face land(s) treated as spells: "@
                + text::joined(names, ", "@));
            assert(texts(warnings@) =~= texts(old_warnings).push(w@));
        }
    }
    let library = spread_of(&cards);
    let land_count = count_lands(&cards);
    let highest = max_value(&cards);
    let max_spell_mv: u8 = if highest < 7 {
        highest
    } else {
        7
    };
    let ghost views = card_views(cards@);
    let mut colors_needed: Vec<(u8, u8)> = Vec::new();
    let mut k: usize = 0;
    assert(colors_needed@ =~= needed(views, 0));
    while k < 6
        invariant
            k <= 6,
            views == card_views(cards@),
            colors_needed@ == needed(views, k as int),
        decreases 6 - k,
    {
        let bit = COLOR_BITS[k].0;
        if let Some(v) = earliest_of(&cards, bit) {
            colors_needed.push(
                (
                    bit,
                    if v < 1 {
                        1
                    } else {
                        v
                    },
                ),
            );
        }
        k += 1;
    }
    proof {
        lemma_spread_in(views);
    }
    CompiledDeck { cards, library, land_count, max_spell_mv, colors_needed, warnings }
}

/// A type line names a land where the word stands in it by itself, and only
/// there: not where it begins or ends a longer word.
pub proof fn law_land_word(front: Seq<char>, back: Seq<char>)
    requires
        front.len() == 0 || front.last() == ' ',
        back.len() == 0 || back[0] == ' ',
    ensures
        says_land(front + seq!['L', 'a', 'n', 'd'] + back),
{
    let s = front + seq!['L', 'a', 'n', 'd'] + back;
    let n = front.len() as int;
    assert(s.subrange(n, n + 4) =~= seq!['L', 'a', 'n', 'd']);
    assert(land_word_at(s, n));
}

/// A type line in which every "Land" is part of a longer word names no land.
pub proof fn law_no_land_word(s: Seq<char>)
    requires
        forall|i: int|
            #![trigger s[i]]
            0 <= i && i + 4 <= s.len() && s[i] == 'L' && s[i + 1] == 'a' && s[i + 2] == 'n' && s[i
                + 3] == 'd' ==> (i > 0 && 'a' <= s[i - 1] <= 'z') || (i + 4 < s.len() && 'a' <= s[i
                + 4] <= 'z'),
    ensures
        !says_land(s),
{
    if says_land(s) {
        let i = choose|i: int| land_word_at(s, i);
        let w = s.subrange(i, i + 4);
        assert(w[0] == s[i] && w[1] == s[i + 1] && w[2] == s[i + 2] && w[3] == s[i + 3]);
    }
}

/// Of a card with two faces the front alone decides whether it is a land: what
/// stands behind the "//" of its type line does not count.
pub proof fn law_front_decides(card: Card, line: String, front: Seq<char>, back: Seq<char>)
    requires
        card.type_line == Some(line),
        line@ == front + seq!['/', '/'] + back,
        !front.contains('/'),
    ensures
        kind_of(card) is Land <==> says_land(trimmed(front)),
        kind_of(card) is Spell <==> !says_land(trimmed(front)),
{
    let s = line@;
    let p = "//"@;
    reveal_strlit("//");
    assert(p =~= seq!['/', '/']);
    let n = front.len() as int;
    assert(s.subrange(n, n + 2) =~= p);
    assert forall|j: int| 0 <= j < n implies !occurs_at(s, p, j) by {
        if occurs_at(s, p, j) {
            assert(s.subrange(j, j + 2)[0] == s[j]);
            assert(front.contains(front[j]));
        }
    }
    text::lemma_position(s, p, n);
    assert(s.take(n) =~= front);
}

/// A card with one type line is a land exactly where that line names one.
pub proof fn law_plain_type_lines(card: Card, line: String)
    requires
        card.type_line == Some(line),
        !line@.contains('/'),
    ensures
        kind_of(card) is Land <==> says_land(trimmed(line@)),
        kind_of(card) is Spell <==> !says_land(trimmed(line@)),
{
    let s = line@;
    reveal_strlit("//");
    if text::occurs(s, "//"@) {
        let i = choose|i: int| occurs_at(s, "//"@, i);
        assert(s.subrange(i, i + 2)[0] == s[i]);
        assert(s.contains(s[i]));
    }
}

/// What a land of the deck makes is never nothing: where no color is known, it is
/// colorless mana.
pub proof fn law_lands_make_mana(card: Card)
    ensures
        match kind_of(card) {
            KindView::Land(made) => if made_by(card).0 != 0 {
                made == made_by(card)
            } else {
                made.0 == 32
            },
            KindView::Spell(cost) => cost == cost_of(cost_text(card), card.cmc),
            KindView::Unknown => false,
        },
{
}

/// Each entry of a deck list without empty entries becomes one card, in order:
/// with its id and number of copies, and with the name that the database has
/// for it. What the database does not have is unknown, and nothing else is.
pub proof fn law_entries_become_cards(entries: Seq<(u32, u32)>, db: Map<u32, Card>)
    requires
        forall|i: int| 0 <= i < entries.len() ==> (#[trigger] entries[i]).1 > 0,
    ensures
        compiled_cards(entries, db).len() == entries.len(),
        forall|i: int|
            0 <= i < entries.len() ==> {
                let card = #[trigger] compiled_cards(entries, db)[i];
                &&& card.arena_id == entries[i].0
                &&& card.quantity == entries[i].1
                &&& card.kind is Unknown <==> !db.contains_key(entries[i].0)
                &&& db.contains_key(entries[i].0) ==> card.name == db[entries[i].0].name@
                    && card.kind == kind_of(db[entries[i].0])
            },
    decreases entries.len(),
{
    if entries.len() > 0 {
        let rest = entries.drop_last();
        assert forall|i: int| 0 <= i < rest.len() implies (#[trigger] rest[i]).1 > 0 by {
            assert(rest[i] == entries[i]);
        }
        law_entries_become_cards(rest, db);
        assert forall|i: int| 0 <= i < rest.len() implies compiled_cards(entries, db)[i]
            == compiled_cards(rest, db)[i] && rest[i] == entries[i] by {}
    }
}

/// Entries without copies count for nothing, wherever they stand.
pub proof fn law_empty_entries(
    before: Seq<(u32, u32)>,
    id: u32,
    after: Seq<(u32, u32)>,
    db: Map<u32, Card>,
)
    ensures
        compiled(before + seq![(id, 0u32)] + after, db) == compiled(before + after, db),
        deck_warnings(before + seq![(id, 0u32)] + after, db) == deck_warnings(before + after, db),
    decreases after.len(),
{
    lemma_empty_entries(before, id, after, db);
}

proof fn lemma_empty_entries(
    before: Seq<(u32, u32)>,
    id: u32,
    after: Seq<(u32, u32)>,
    db: Map<u32, Card>,
)
    ensures
        compiled_cards(before + seq![(id, 0u32)] + after, db) == compiled_cards(before + after, db),
        all_entry_warnings(before + seq![(id, 0u32)] + after, db) == all_entry_warnings(
            before + after,
            db,
        ),
        back_land_names(before + seq![(id, 0u32)] + after, db) == back_land_names(
            before + after,
            db,
        ),
    decreases after.len(),
{
    let all = before + seq![(id, 0u32)] + after;
    let both = before + after;
    if after.len() == 0 {
        assert(all.drop_last() =~= both);
        assert(all.last() == (id, 0u32));
    } else {
        let rest = after.drop_last();
        lemma_empty_entries(before, id, rest, db);
        assert(all.drop_last() =~= before + seq![(id, 0u32)] + rest);
        assert(both.drop_last() =~= before + rest);
        assert(all.last() == after.last() && both.last() == after.last());
    }
}

/// Each card lies in the library as often as it has copies.
pub proof fn law_copies(cards: Seq<SimCardView>, k: int)
    requires
        cards.len() <= 0x1_0000,
        0 <= k < cards.len(),
    ensures
        spread(cards).to_multiset().count(k as u16) == cards[k].quantity,
    decreases cards.len(),
{
    broadcast use vstd::seq_lib::group_to_multiset_ensures;

    let rest = cards.drop_last();
    let ci = ((cards.len() - 1) % 0x1_0000) as u16;
    let n = cards.last().quantity as nat;
    let copies = Seq::new(n, |i: int| ci);
    assert(copies =~= Seq::new(n, |i: int| ((cards.len() - 1) % 0x1_0000) as u16));
    vstd::seq_lib::lemma_multiset_commutative(spread(rest), copies);
    lemma_same_copies(ci, n, k as u16);
    if k < rest.len() {
        law_copies(rest, k);
        assert(rest[k] == cards[k]);
        assert(ci != k as u16);
    } else {
        lemma_spread_in(rest);
        if spread(rest).contains(k as u16) {
            let i = choose|i: int| 0 <= i < spread(rest).len() && spread(rest)[i] == k as u16;
            assert(spread(rest)[i] < rest.len());
        }
        assert(spread(rest).to_multiset().count(k as u16) == 0);
    }
}

proof fn lemma_same_copies(c: u16, n: nat, k: u16)
    ensures
        Seq::new(n, |i: int| c).to_multiset().count(k) == if k == c {
            n
        } else {
            0
        },
    decreases n,
{
    broadcast use vstd::seq_lib::group_to_multiset_ensures;

    let s = Seq::new(n, |i: int| c);
    if n > 0 {
        let rest = Seq::new((n - 1) as nat, |i: int| c);
        lemma_same_copies(c, (n - 1) as nat, k);
        assert(s =~= rest.push(c));
    } else {
        assert(s =~= Seq::<u16>::empty());
    }
}

/// The highest mana value, up to 7, is that of some card, and no card has a
/// higher one.
pub proof fn law_highest_value(entries: Seq<(u32, u32)>, db: Map<u32, Card>)
    ensures
        ({
            let deck = compiled(entries, db);
            &&& deck.max_spell_mv <= 7
            &&& forall|i: int|
                0 <= i < deck.cards.len() ==> (#[trigger] deck.cards[i]).value()
                    <= deck.max_spell_mv || deck.max_spell_mv == 7
            &&& deck.max_spell_mv > 0 ==> exists|i: int|
                0 <= i < deck.cards.len() && (#[trigger] deck.cards[i]).value()
                    >= deck.max_spell_mv
        }),
{
    let deck = compiled(entries, db);
    lemma_highest(deck.cards);
    if deck.max_spell_mv > 0 {
        let i = choose|i: int|
            0 <= i < deck.cards.len() && (#[trigger] deck.cards[i]).value() == highest_value(
                deck.cards,
            );
        assert(deck.cards[i].value() >= deck.max_spell_mv);
    }
}

proof fn lemma_highest(cards: Seq<SimCardView>)
    ensures
        forall|i: int| 0 <= i < cards.len() ==> (#[trigger] cards[i]).value() <= highest_value(cards),
        highest_value(cards) > 0 ==> exists|i: int|
            0 <= i < cards.len() && (#[trigger] cards[i]).value() == highest_value(cards),
    decreases cards.len(),
{
    if cards.len() > 0 {
        let rest = cards.drop_last();
        lemma_highest(rest);
        assert forall|i: int| 0 <= i < cards.len() implies (#[trigger] cards[i]).value()
            <= highest_value(cards) by {
            if i < rest.len() {
                assert(rest[i] == cards[i]);
            }
        }
        if highest_value(cards) > 0 {
            if highest_value(rest) < cards.last().value() {
                assert(cards[cards.len() - 1].value() == highest_value(cards));
            } else {
                let i = choose|i: int|
                    0 <= i < rest.len() && (#[trigger] rest[i]).value() == highest_value(rest);
                assert(cards[i].value() == highest_value(cards));
            }
        }
    }
}

/// The card is a spell, and one of its pips can be paid with this color alone.
pub open spec fn one_color_pip(card: SimCardView, bit: u8) -> bool {
    exists|p: int|
        card.kind is Spell && 0 <= p < card.kind->Spell_0.pips.len()
            && #[trigger] card.kind->Spell_0.pips[p] == ColorMask(bit)
}

/// The first turn on which a spell of this mana value could be cast.
pub open spec fn first_turn(card: SimCardView) -> u8 {
    if card.kind is Spell && card.kind->Spell_0.mana_value > 1 {
        card.kind->Spell_0.mana_value
    } else {
        1
    }
}

/// The colors that a deck needs are those of the pips that some spell of it has,
/// each listed once, and each from the turn on which the cheapest such spell
/// could be cast.
pub proof fn law_colors_needed(entries: Seq<(u32, u32)>, db: Map<u32, Card>, k: int)
    requires
        0 <= k < 6,
    ensures
        ({
            let bit = seq![1u8, 2, 4, 8, 16, 32][k];
            let deck = compiled(entries, db);
            &&& (exists|i: int| 0 <= i < deck.cards.len() && one_color_pip(#[trigger] deck.cards[i], bit))
                <==> (exists|j: int|
                0 <= j < deck.colors_needed.len() && (#[trigger] deck.colors_needed[j]).0 == bit)
            &&& forall|j: int|
                0 <= j < deck.colors_needed.len() && (#[trigger] deck.colors_needed[j]).0 == bit
                    ==> {
                    let turn = deck.colors_needed[j].1;
                    &&& forall|i: int|
                        0 <= i < deck.cards.len() && one_color_pip(#[trigger] deck.cards[i], bit) ==> turn
                            <= first_turn(deck.cards[i])
                    &&& exists|i: int|
                        0 <= i < deck.cards.len() && one_color_pip(#[trigger] deck.cards[i], bit) && turn
                            == first_turn(deck.cards[i])
                }
            &&& forall|i: int, j: int|
                0 <= i < j < deck.colors_needed.len() ==> (#[trigger] deck.colors_needed[i]).0 < (
                #[trigger] deck.colors_needed[j]).0
        }),
{
    let bit = seq![1u8, 2, 4, 8, 16, 32][k];
    let deck = compiled(entries, db);
    lemma_earliest(deck.cards, bit);
    lemma_needed(deck.cards, 6);
    assert(COLOR_BITS@[k].0 == bit);
    if earliest(deck.cards, bit) is Some {
        let j = choose|j: int|
            0 <= j < deck.colors_needed.len() && (#[trigger] deck.colors_needed[j]).0
                == COLOR_BITS@[k].0;
        assert(deck.colors_needed[j].0 == bit);
    }
}

proof fn lemma_needed(cards: Seq<SimCardView>, n: int)
    requires
        0 <= n <= 6,
    ensures
        forall|k: int|
            0 <= k < n && earliest(cards, (#[trigger] COLOR_BITS@[k]).0) is Some ==> exists|j: int|
                0 <= j < needed(cards, n).len() && (#[trigger] needed(cards, n)[j]).0
                    == COLOR_BITS@[k].0,
        forall|j: int|
            0 <= j < needed(cards, n).len() ==> {
                let (bit, turn) = #[trigger] needed(cards, n)[j];
                earliest(cards, bit) is Some && turn == if earliest(cards, bit).unwrap() < 1 {
                    1
                } else {
                    earliest(cards, bit).unwrap()
                }
            },
        forall|i: int, j: int|
            0 <= i < j < needed(cards, n).len() ==> (#[trigger] needed(cards, n)[i]).0 < (
            #[trigger] needed(cards, n)[j]).0,
        n > 0 ==> forall|j: int|
            0 <= j < needed(cards, n).len() ==> (#[trigger] needed(cards, n)[j]).0 <= COLOR_BITS@[n
                - 1].0,
    decreases n,
{
    if n > 0 {
        lemma_needed(cards, n - 1);
        let before = needed(cards, n - 1);
        let list = needed(cards, n);
        assert forall|j: int| 0 <= j < before.len() implies list[j] == before[j] by {}
        assert forall|k: int|
            0 <= k < n && earliest(cards, (#[trigger] COLOR_BITS@[k]).0) is Some implies exists|
            j: int,
        |
            0 <= j < list.len() && (#[trigger] list[j]).0 == COLOR_BITS@[k].0 by {
            if k == n - 1 {
                assert(list[list.len() - 1].0 == COLOR_BITS@[k].0);
            } else {
                let j = choose|j: int|
                    0 <= j < before.len() && (#[trigger] before[j]).0 == COLOR_BITS@[k].0;
                assert(list[j].0 == COLOR_BITS@[k].0);
            }
        }
    }
}

proof fn lemma_earliest(cards: Seq<SimCardView>, bit: u8)
    ensures
        match earliest(cards, bit) {
            Some(v) => {
                &&& forall|i: int|
                    0 <= i < cards.len() && one_color_pip(#[trigger] cards[i], bit) ==> v
                        <= cards[i].value()
                &&& exists|i: int|
                    0 <= i < cards.len() && one_color_pip(#[trigger] cards[i], bit) && v
                        == cards[i].value()
            },
            None => forall|i: int| 0 <= i < cards.len() ==> !one_color_pip(#[trigger] cards[i], bit),
        },
    decreases cards.len(),
{
    if cards.len() > 0 {
        let rest = cards.drop_last();
        lemma_earliest(rest, bit);
        let last = cards[cards.len() - 1];
        assert(asks_for(last, bit) == one_color_pip(last, bit)) by {
            if asks_for(last, bit) {
                let pips = last.kind->Spell_0.pips;
                let p = choose|p: int| 0 <= p < pips.len() && pips[p] == ColorMask(bit);
                assert(last.kind->Spell_0.pips[p] == ColorMask(bit));
            }
        }
        assert forall|i: int| 0 <= i < rest.len() implies rest[i] == cards[i] by {}
        if let Some(v) = earliest(rest, bit) {
            let i = choose|i: int|
                0 <= i < rest.len() && one_color_pip(#[trigger] rest[i], bit) && v == rest[i].value();
            assert(one_color_pip(cards[i], bit) && v == cards[i].value());
        }
    }
}

/// A card that is not known is warned about by its id and number of copies.
pub proof fn law_unknown_card(entry: (u32, u32), db: Map<u32, Card>)
    requires
        !db.contains_key(entry.0),
    ensures
        entry_warnings(entry, db) == seq![
            "Unknown card "@ + decimal(entry.0 as nat) + seq![' ', '('] + decimal(entry.1 as nat)
                + "x): excluded from castability stats"@,
        ],
{
    reveal_strlit(" (");
    assert(" ("@ =~= seq![' ', '(']);
}

/// Nothing is to be warned about in the card of the entry.
pub open spec fn is_sound(entry: (u32, u32), db: Map<u32, Card>) -> bool {
    &&& db.contains_key(entry.0)
    &&& kind_of(db[entry.0]) is Land ==> made_by(db[entry.0]).0 != 0
    &&& kind_of(db[entry.0]) is Spell ==> warnings_in(symbols(cost_text(db[entry.0]))).len() == 0
        && forall|k: int|
        1 <= k < faces_of(db[entry.0]).len() ==> ((
        #[trigger] faces_of(db[entry.0])[k]).type_line matches Some(t) ==> !says_land(t@))
}

/// A deck is warned about only where there is a reason: a card that is not known,
/// a land of which no color is known, a symbol that is not known, or a spell with
/// a land on its back.
pub proof fn law_no_warnings(entries: Seq<(u32, u32)>, db: Map<u32, Card>)
    requires
        forall|i: int|
            0 <= i < entries.len() ==> (#[trigger] entries[i]).1 == 0 || is_sound(entries[i], db),
    ensures
        deck_warnings(entries, db).len() == 0,
{
    lemma_no_warnings(entries, db);
}

proof fn lemma_no_warnings(entries: Seq<(u32, u32)>, db: Map<u32, Card>)
    requires
        forall|i: int|
            0 <= i < entries.len() ==> (#[trigger] entries[i]).1 == 0 || is_sound(entries[i], db),
    ensures
        all_entry_warnings(entries, db).len() == 0,
        back_land_names(entries, db).len() == 0,
    decreases entries.len(),
{
    if entries.len() > 0 {
        let rest = entries.drop_last();
        let last = entries[entries.len() - 1];
        assert forall|i: int| 0 <= i < rest.len() implies (#[trigger] rest[i]).1 == 0 || is_sound(
            rest[i],
            db,
        ) by {
            assert(rest[i] == entries[i]);
        }
        lemma_no_warnings(rest, db);
        if last.1 != 0 {
            assert(is_sound(last, db));
            if has_back_land(db[last.0]) {
                let k = choose|k: int| back_land_at(db[last.0], k);
                assert(faces_of(db[last.0])[k].type_line is Some);
            }
        }
    }
}

/// A spell with a land on another face is told of by its name, and still counts
/// as a spell.
pub proof fn law_back_lands(entries: Seq<(u32, u32)>, e: (u32, u32), db: Map<u32, Card>, k: int)
    requires
        e.1 > 0,
        db.contains_key(e.0),
        kind_of(db[e.0]) is Spell,
        1 <= k < faces_of(db[e.0]).len(),
        faces_of(db[e.0])[k].type_line matches Some(t) && says_land(t@),
    ensures
        back_land_names(entries.push(e), db) == back_land_names(entries, db).push(db[e.0].name@),
        compiled_card(e, db).kind is Spell,
{
    assert(entries.push(e).drop_last() =~= entries);
    assert(back_land_at(db[e.0], k));
}

/// The cost of a card is its own where it has one, and else that of its first
/// face.
pub proof fn law_cost_text(card: Card, cost: String, face: String)
    ensures
        card.mana_cost == Some(cost) && cost@.len() > 0 ==> cost_text(card) == cost@,
        (card.mana_cost is None || (card.mana_cost == Some(cost) && cost@.len() == 0)) && faces_of(
            card,
        ).len() > 0 && faces_of(card)[0].mana_cost == Some(face) ==> cost_text(card) == face@,
        card.mana_cost is None && faces_of(card).len() == 0 ==> cost_text(card).len() == 0,
{
}

/// A card without a type line of its own is what its first face is.
pub proof fn law_first_face_type(card: Card, line: String)
    requires
        card.type_line is None,
    ensures
        faces_of(card).len() > 0 && faces_of(card)[0].type_line == Some(line) ==> (kind_of(
            card,
        ) is Land <==> says_land(line@)),
        faces_of(card).len() == 0 ==> kind_of(card) is Spell,
{
    if faces_of(card).len() == 0 {
        assert(!says_land(Seq::<char>::empty()));
    }
}

} // verus!
