//! Mana costs, the colors that lands make, and what lands can pay for.
use vstd::prelude::*;
use vstd::string::StringExecFns;

use crate::cards::{Card, CardFace, Cmc};
use crate::text::{self, lines, number, occurs, position, split, texts};

use super::matching::{apart, augment, coverable, fits, held, lemma_complete, lemma_stuck, matched};

verus! {

/// A set of mana colors, one bit each. `C` is colorless mana itself, not
/// "any color".
#[derive(Debug, Clone, Copy, PartialEq, Eq, Structural)]
pub struct ColorMask(pub u8);

/// The bit of each color and its symbol.
pub const COLOR_BITS: [(u8, char); 6] = [
    (1, 'W'),
    (2, 'U'),
    (4, 'B'),
    (8, 'R'),
    (16, 'G'),
    (32, 'C'),
];

/// The color that a symbol stands for.
pub open spec fn color_of(symbol: Seq<char>) -> Option<ColorMask> {
    if symbol.len() != 1 {
        None
    } else if symbol[0] == 'W' {
        Some(ColorMask(1))
    } else if symbol[0] == 'U' {
        Some(ColorMask(2))
    } else if symbol[0] == 'B' {
        Some(ColorMask(4))
    } else if symbol[0] == 'R' {
        Some(ColorMask(8))
    } else if symbol[0] == 'G' {
        Some(ColorMask(16))
    } else if symbol[0] == 'C' {
        Some(ColorMask(32))
    } else {
        None
    }
}

/// The symbol of the color with this bit.
pub open spec fn symbol_of(bit: u8) -> Seq<char> {
    if bit == 1 {
        seq!['W']
    } else if bit == 2 {
        seq!['U']
    } else if bit == 4 {
        seq!['B']
    } else if bit == 8 {
        seq!['R']
    } else if bit == 16 {
        seq!['G']
    } else if bit == 32 {
        seq!['C']
    } else {
        seq![]
    }
}

/// One where the mask has the bit, else zero.
pub open spec fn bit_count(mask: u8, bit: u8) -> nat {
    if mask & bit != 0 {
        1
    } else {
        0
    }
}

impl ColorMask {
    /// The two sets share a color.
    pub open spec fn meets(self, other: ColorMask) -> bool {
        self.0 & other.0 != 0
    }

    /// All colors of the two sets.
    pub open spec fn with(self, other: ColorMask) -> ColorMask {
        ColorMask(self.0 | other.0)
    }

    /// How many colors the set has.
    pub open spec fn size(self) -> nat {
        bit_count(self.0, 1) + bit_count(self.0, 2) + bit_count(self.0, 4) + bit_count(self.0, 8)
            + bit_count(self.0, 16) + bit_count(self.0, 32) + bit_count(self.0, 64) + bit_count(
            self.0,
            128,
        )
    }

    /// The color that a symbol stands for.
    pub fn from_symbol(s: &str) -> (r: Option<ColorMask>)
        ensures
            r == color_of(s@),
    {
        let a = text::chars_of(s);
        ColorMask::from_chars(&a)
    }

    fn from_chars(a: &Vec<char>) -> (r: Option<ColorMask>)
        ensures
            r == color_of(a@),
    {
        if a.len() != 1 {
            return None;
        }
        let mut k: usize = 0;
        while k < 6
            invariant
                k <= 6,
                a@.len() == 1,
                forall|j: int| 0 <= j < k ==> a@[0] != (#[trigger] COLOR_BITS@[j]).1,
            decreases 6 - k,
        {
            if COLOR_BITS[k].1 == a[0] {
                return Some(ColorMask(COLOR_BITS[k].0));
            }
            k += 1;
        }
        assert(COLOR_BITS@[0].1 == 'W' && COLOR_BITS@[1].1 == 'U' && COLOR_BITS@[2].1 == 'B'
            && COLOR_BITS@[3].1 == 'R' && COLOR_BITS@[4].1 == 'G' && COLOR_BITS@[5].1 == 'C');
        None
    }

    /// All colors of the two sets.
    pub fn union(self, other: ColorMask) -> (r: ColorMask)
        ensures
            r == self.with(other),
    {
        ColorMask(self.0 | other.0)
    }

    /// Whether the two sets share a color.
    pub fn intersects(self, other: ColorMask) -> (r: bool)
        ensures
            r == self.meets(other),
    {
        self.0 & other.0 != 0
    }

    /// Whether the set has no color.
    pub fn is_empty(self) -> (r: bool)
        ensures
            r == (self == ColorMask(0)),
    {
        self.0 == 0
    }

    /// How many colors the set has.
    pub fn color_count(self) -> (n: u32)
        ensures
            n == self.size(),
            n <= 8,
    {
        let mut n: u32 = 0;
        if self.0 & 1 != 0 {
            n += 1;
        }
        if self.0 & 2 != 0 {
            n += 1;
        }
        if self.0 & 4 != 0 {
            n += 1;
        }
        if self.0 & 8 != 0 {
            n += 1;
        }
        if self.0 & 16 != 0 {
            n += 1;
        }
        if self.0 & 32 != 0 {
            n += 1;
        }
        if self.0 & 64 != 0 {
            n += 1;
        }
        if self.0 & 128 != 0 {
            n += 1;
        }
        n
    }
}

/// A symbol stands for a color exactly where that color has the symbol.
pub proof fn law_symbols(symbol: Seq<char>, bit: u8)
    requires
        symbol_of(bit).len() > 0,
    ensures
        color_of(symbol) == Some(ColorMask(bit)) <==> symbol == symbol_of(bit),
{
    if color_of(symbol) == Some(ColorMask(bit)) {
        assert(symbol =~= symbol_of(bit));
    }
}

/// What a set shares with two sets together, it shares with one of them.
pub proof fn law_union_meets(a: ColorMask, b: ColorMask, c: ColorMask)
    ensures
        a.with(b).meets(c) <==> a.meets(c) || b.meets(c),
        a.with(b) == b.with(a),
        a.with(b).with(c) == a.with(b.with(c)),
        a.with(a) == a,
        a.with(ColorMask(0)) == a,
{
    let x = a.0;
    let y = b.0;
    let z = c.0;
    assert((x | y) & z != 0 <==> x & z != 0 || y & z != 0) by (bit_vector);
    assert(x | y == y | x) by (bit_vector);
    assert((x | y) | z == x | (y | z)) by (bit_vector);
    assert(x | x == x) by (bit_vector);
    assert(x | 0 == x) by (bit_vector);
}

/// A casting cost. `pips` holds one set per colored pip: a hybrid pip has
/// several colors. Phyrexian pips are paid with life and left out, `{2/W}`
/// costs its generic branch, and `{X}` counts as zero.
#[derive(Debug, Clone)]
pub struct ParsedCost {
    pub generic: u8,
    pub pips: Vec<ColorMask>,
    /// The card's converted mana cost where it is known, else generic and
    /// pips together.
    pub mana_value: u8,
}

/// What a cost holds.
pub ghost struct CostView {
    pub generic: u8,
    pub pips: Seq<ColorMask>,
    pub mana_value: u8,
}

impl View for ParsedCost {
    type V = CostView;

    open spec fn view(&self) -> CostView {
        CostView { generic: self.generic, pips: self.pips@, mana_value: self.mana_value }
    }
}

impl CostView {
    /// How many lands the cost takes.
    pub open spec fn needs(self) -> nat {
        self.generic as nat + self.pips.len()
    }

    /// `lands`, each making one mana of any one of its colors, can pay the
    /// cost: there are enough of them, and each pip can have a land of its own.
    pub open spec fn payable(self, lands: Seq<ColorMask>) -> bool {
        self.needs() <= lands.len() && coverable(self.pips, lands)
    }
}

impl Default for ParsedCost {
    /// The cost of nothing.
    fn default() -> (r: ParsedCost)
        ensures
            r.generic == 0,
            r.pips@.len() == 0,
            r.mana_value == 0,
    {
        ParsedCost { generic: 0, pips: Vec::new(), mana_value: 0 }
    }
}

impl ParsedCost {
    /// How many lands the cost takes; this may differ from the mana value.
    pub fn lands_needed(&self) -> (n: usize)
        requires
            self@.needs() <= usize::MAX,
        ensures
            n == self@.needs(),
    {
        self.generic as usize + self.pips.len()
    }

    /// A copy of the cost.
    pub fn copy(&self) -> (r: ParsedCost)
        ensures
            r@ == self@,
    {
        let pips = self.pips.clone();
        assert(pips@ =~= self.pips@);
        ParsedCost { generic: self.generic, pips, mana_value: self.mana_value }
    }
}

// ---------------------------------------------------------------------------
// Reading costs
// ---------------------------------------------------------------------------

/// The symbols of a cost: what stands in each pair of braces, from left to
/// right, up to a brace that is not closed.
pub open spec fn symbols(s: Seq<char>) -> Seq<Seq<char>>
    decreases s.len(),
    via symbols_decreases
{
    let a = text::before(s, '{');
    let b = text::before(s.skip(a), '}');
    if a >= s.len() || a + b >= s.len() {
        seq![]
    } else {
        seq![s.subrange(a + 1, a + b)] + symbols(s.skip(a + b + 1))
    }
}

#[via_fn]
proof fn symbols_decreases(s: Seq<char>) {
    text::lemma_before_is_first(s, '{');
    text::lemma_before_is_first(s.skip(text::before(s, '{')), '}');
}

/// What a symbol asks for.
pub ghost enum Meaning {
    /// Nothing: it counts as zero or is paid with life.
    Free,
    /// Mana of any color.
    Generic(nat),
    /// One mana of one of these colors.
    Pip(ColorMask),
    /// The symbol is not known.
    Unknown,
}

/// The first of the parts that denotes a number.
pub open spec fn first_number(parts: Seq<Seq<char>>) -> Option<nat>
    decreases parts.len(),
{
    if parts.len() == 0 {
        None
    } else {
        match first_number(parts.drop_last()) {
            Some(n) => Some(n),
            None => number(parts.last(), 255),
        }
    }
}

/// All colors among the parts.
pub open spec fn colors_among(parts: Seq<Seq<char>>) -> ColorMask
    decreases parts.len(),
{
    if parts.len() == 0 {
        ColorMask(0)
    } else {
        match color_of(parts.last()) {
            Some(m) => colors_among(parts.drop_last()).with(m),
            None => colors_among(parts.drop_last()),
        }
    }
}

/// What a symbol asks for.
pub open spec fn meaning(symbol: Seq<char>) -> Meaning {
    if symbol.contains('P') {
        Meaning::Free
    } else if let Some(n) = number(symbol, 255) {
        Meaning::Generic(n)
    } else if symbol == seq!['X'] || symbol == seq!['Y'] || symbol == seq!['Z'] {
        Meaning::Free
    } else if symbol == seq!['S'] {
        Meaning::Generic(1)
    } else if symbol.contains('/') {
        match first_number(split(symbol, '/')) {
            Some(n) => Meaning::Generic(n),
            None => {
                let colors = colors_among(split(symbol, '/'));
                if colors == ColorMask(0) {
                    Meaning::Unknown
                } else {
                    Meaning::Pip(colors)
                }
            },
        }
    } else {
        match color_of(symbol) {
            Some(m) => Meaning::Pip(m),
            None => Meaning::Unknown,
        }
    }
}

/// The generic mana that the symbols ask for.
pub open spec fn generic_in(symbols: Seq<Seq<char>>) -> nat
    decreases symbols.len(),
{
    if symbols.len() == 0 {
        0
    } else {
        generic_in(symbols.drop_last()) + match meaning(symbols.last()) {
            Meaning::Generic(n) => n,
            _ => 0,
        }
    }
}

/// The colored pips among the symbols, in their order.
pub open spec fn pips_in(symbols: Seq<Seq<char>>) -> Seq<ColorMask>
    decreases symbols.len(),
{
    if symbols.len() == 0 {
        seq![]
    } else {
        match meaning(symbols.last()) {
            Meaning::Pip(m) => pips_in(symbols.drop_last()).push(m),
            _ => pips_in(symbols.drop_last()),
        }
    }
}

/// The warnings about symbols that are not known, in their order.
pub open spec fn warnings_in(symbols: Seq<Seq<char>>) -> Seq<Seq<char>>
    decreases symbols.len(),
{
    if symbols.len() == 0 {
        seq![]
    } else if meaning(symbols.last()) is Unknown {
        warnings_in(symbols.drop_last()).push(
            "unrecognized mana symbol {"@ + symbols.last() + "}"@,
        )
    } else {
        warnings_in(symbols.drop_last())
    }
}

/// `n`, or the largest byte where `n` is larger.
pub open spec fn capped(n: nat) -> u8 {
    if n < 255 {
        n as u8
    } else {
        255
    }
}

/// The cost that a text and a converted mana cost give.
pub open spec fn cost_of(s: Seq<char>, cmc: Option<Cmc>) -> CostView {
    let generic = capped(generic_in(symbols(s)));
    let pips = pips_in(symbols(s));
    CostView {
        generic,
        pips,
        mana_value: match cmc {
            Some(c) if c.rounds_to() is Some => c.rounds_to().unwrap() as u8,
            _ => capped(generic as nat + pips.len()),
        },
    }
}

fn symbols_of(s: &Vec<char>) -> (out: Vec<Vec<char>>)
    ensures
        out@.len() == symbols(s@).len(),
        forall|k: int| 0 <= k < out@.len() ==> (#[trigger] out@[k])@ == symbols(s@)[k],
{
    let mut out: Vec<Vec<char>> = Vec::new();
    let mut at: usize = 0;
    let ghost mut done: Seq<Seq<char>> = Seq::empty();
    assert(s@.skip(0) =~= s@);
    assert(done + symbols(s@) =~= symbols(s@));
    loop
        invariant
            at <= s@.len(),
            done.len() == out@.len(),
            forall|k: int| 0 <= k < out@.len() ==> (#[trigger] out@[k])@ == done[k],
            done + symbols(s@.skip(at as int)) == symbols(s@),
        decreases s@.len() - at,
    {
        let ghost rest = s@.skip(at as int);
        let a: usize = text::count_before(s, '{', at);
        if at + a == s.len() {
            assert(done + symbols(rest) =~= done);
            return out;
        }
        let b: usize = text::count_before(s, '}', at + a);
        assert(rest.skip(a as int) =~= s@.skip(at + a));
        if at + a + b == s.len() {
            assert(done + symbols(rest) =~= done);
            return out;
        }
        assert(b >= 1) by {
            if b == 0 {
                assert(s@[at + a] == '{' && s@[at + a] == '}');
            }
        }
        let sym = text::copy_range(s, at + a + 1, at + a + b);
        assert(sym@ =~= rest.subrange(a + 1, a + b));
        out.push(sym);
        proof {
            assert(rest.skip(a + b + 1) =~= s@.skip(at + a + b + 1));
            let tail = symbols(s@.skip(at + a + b + 1));
            assert(done + (seq![sym@] + tail) =~= done.push(sym@) + tail);
            done = done.push(sym@);
        }
        at = at + a + b + 1;
    }
}

/// What a symbol asks for, as plain values.
enum Asks {
    Free,
    Generic(u8),
    Pip(ColorMask),
    Unknown,
}

impl View for Asks {
    type V = Meaning;

    closed spec fn view(&self) -> Meaning {
        match self {
            Asks::Free => Meaning::Free,
            Asks::Generic(n) => Meaning::Generic(*n as nat),
            Asks::Pip(m) => Meaning::Pip(*m),
            Asks::Unknown => Meaning::Unknown,
        }
    }
}

fn is_char(s: &Vec<char>, c: char) -> (r: bool)
    ensures
        r == (s@ == seq![c]),
{
    let r = s.len() == 1 && s[0] == c;
    assert(r ==> s@ =~= seq![c]);
    r
}

fn asks(sym: &Vec<char>) -> (r: Asks)
    ensures
        r@ == meaning(sym@),
{
    if text::has_char(sym, 'P') {
        return Asks::Free;
    }
    if let Some(n) = text::parse_number(sym, 255) {
        return Asks::Generic(n as u8);
    }
    if is_char(sym, 'X') || is_char(sym, 'Y') || is_char(sym, 'Z') {
        return Asks::Free;
    }
    if is_char(sym, 'S') {
        return Asks::Generic(1);
    }
    if text::has_char(sym, '/') {
        let parts = text::split_at_char(sym, '/');
        let ghost all = split(sym@, '/');
        let mut mask = ColorMask(0);
        let mut k: usize = 0;
        assert(all.take(0) =~= Seq::<Seq<char>>::empty());
        while k < parts.len()
            invariant
                k <= parts@.len(),
                parts@.len() == all.len(),
                forall|j: int| 0 <= j < all.len() ==> (#[trigger] parts@[j])@ == all[j],
                mask == colors_among(all.take(k as int)),
                first_number(all.take(k as int)) is None,
                all == split(sym@, '/'),
                !sym@.contains('P'),
                number(sym@, 255) is None,
                sym@ != seq!['X'] && sym@ != seq!['Y'] && sym@ != seq!['Z'] && sym@ != seq!['S'],
                sym@.contains('/'),
            decreases parts@.len() - k,
        {
            assert(all.take(k + 1).drop_last() =~= all.take(k as int));
            assert(all.take(k + 1).last() == parts@[k as int]@);
            if let Some(n) = text::parse_number(&parts[k], 255) {
                proof {
                    lemma_first_number(all, k + 1);
                }
                return Asks::Generic(n as u8);
            }
            if let Some(m) = ColorMask::from_chars(&parts[k]) {
                mask = mask.union(m);
            }
            k += 1;
        }
        assert(all.take(k as int) =~= all);
        if mask.is_empty() {
            return Asks::Unknown;
        }
        return Asks::Pip(mask);
    }
    match ColorMask::from_chars(sym) {
        Some(m) => Asks::Pip(m),
        None => Asks::Unknown,
    }
}

proof fn lemma_first_number(parts: Seq<Seq<char>>, n: int)
    requires
        0 <= n <= parts.len(),
        first_number(parts.take(n)) is Some,
    ensures
        first_number(parts) == first_number(parts.take(n)),
    decreases parts.len() - n,
{
    if n < parts.len() {
        assert(parts.take(n + 1).drop_last() =~= parts.take(n));
        lemma_first_number(parts, n + 1);
    } else {
        assert(parts.take(n) =~= parts);
    }
}

/// Reads a casting cost, with a warning for each symbol that is not known.
pub fn parse_mana_cost(text: &str, cmc: Option<Cmc>) -> (r: (ParsedCost, Vec<String>))
    ensures
        r.0@ == cost_of(text@, cmc),
        texts(r.1@) == warnings_in(symbols(text@)),
{
    let a = text::chars_of(text);
    let syms = symbols_of(&a);
    let ghost all = symbols(text@);
    let mut generic: u8 = 0;
    let mut pips: Vec<ColorMask> = Vec::new();
    let mut warnings: Vec<String> = Vec::new();
    let mut k: usize = 0;
    assert(all.take(0) =~= Seq::<Seq<char>>::empty());
    assert(texts(warnings@) =~= warnings_in(all.take(0)));
    while k < syms.len()
        invariant
            k <= syms@.len(),
            syms@.len() == all.len(),
            forall|j: int| 0 <= j < all.len() ==> (#[trigger] syms@[j])@ == all[j],
            generic == capped(generic_in(all.take(k as int))),
            pips@ == pips_in(all.take(k as int)),
            texts(warnings@) == warnings_in(all.take(k as int)),
        decreases syms@.len() - k,
    {
        assert(all.take(k + 1).drop_last() =~= all.take(k as int));
        assert(all.take(k + 1).last() == syms@[k as int]@);
        match asks(&syms[k]) {
            Asks::Free => {},
            Asks::Generic(n) => {
                generic = generic.saturating_add(n);
            },
            Asks::Pip(m) => {
                pips.push(m);
            },
            Asks::Unknown => {
                let mut w = String::new();
                w.append("unrecognized mana symbol {");
                w.append(text::string_of(syms[k].as_slice()).as_str());
                w.append("}");
                let ghost before = warnings@;
                warnings.push(w);
                proof {
                    assert(w@ =~= "unrecognized mana symbol {"@ + all[k as int] + "}"@);
                    assert(texts(warnings@) =~= texts(before).push(w@));
                }
            },
        }
        k += 1;
    }
    assert(all.take(k as int) =~= all);
    let known: Option<u8> = match cmc {
        Some(c) => c.rounded(),
        None => None,
    };
    let mana_value: u8 = match known {
        Some(n) => n,
        None => if pips.len() < 256 {
            generic.saturating_add(pips.len() as u8)
        } else {
            255
        },
    };
    (ParsedCost { generic, pips, mana_value }, warnings)
}

// ---------------------------------------------------------------------------
// What lands make
// ---------------------------------------------------------------------------

/// All colors of a list of symbols.
pub open spec fn listed_colors(list: Option<Vec<String>>) -> ColorMask {
    match list {
        Some(l) => colors_among(texts(l@)),
        None => ColorMask(0),
    }
}

/// All colors that the faces' own lists give, after those of `first`.
pub open spec fn face_colors(first: ColorMask, faces: Seq<CardFace>) -> ColorMask
    decreases faces.len(),
{
    if faces.len() == 0 {
        first
    } else {
        face_colors(first, faces.drop_last()).with(listed_colors(faces.last().produced_mana))
    }
}

/// The faces of a card; none where it has no list of faces.
pub open spec fn faces_of(card: Card) -> Seq<CardFace> {
    match card.card_faces {
        Some(f) => f@,
        None => seq![],
    }
}

/// The mask with a bit where the type line names a basic land type.
pub open spec fn type_bit(type_line: Seq<char>, name: Seq<char>, bit: u8) -> ColorMask {
    if occurs(type_line, name) {
        ColorMask(bit)
    } else {
        ColorMask(0)
    }
}

/// The colors of the basic land types in a type line.
pub open spec fn type_colors(type_line: Seq<char>) -> ColorMask {
    type_bit(type_line, "Plains"@, 1).with(type_bit(type_line, "Island"@, 2)).with(
        type_bit(type_line, "Swamp"@, 4),
    ).with(type_bit(type_line, "Mountain"@, 8)).with(type_bit(type_line, "Forest"@, 16)).with(
        type_bit(type_line, "Wastes"@, 32),
    )
}

/// `first` and all colors of the pips.
pub open spec fn pip_colors(first: ColorMask, pips: Seq<ColorMask>) -> ColorMask
    decreases pips.len(),
{
    if pips.len() == 0 {
        first
    } else {
        pip_colors(first, pips.drop_last()).with(pips.last())
    }
}

/// The colors of the pips that follow the first "Add " of each line.
pub open spec fn added_colors(lines: Seq<Seq<char>>) -> ColorMask
    decreases lines.len(),
{
    if lines.len() == 0 {
        ColorMask(0)
    } else {
        let before = added_colors(lines.drop_last());
        let line = lines.last();
        if occurs(line, "Add "@) {
            pip_colors(before, pips_in(symbols(line.skip(position(line, "Add "@)))))
        } else {
            before
        }
    }
}

/// The colors that a rules text adds; none where there is no text.
pub open spec fn text_colors(text: Option<String>) -> ColorMask {
    match text {
        Some(t) => added_colors(lines(t@)),
        None => ColorMask(0),
    }
}

/// All colors that the faces' texts add, after those of `first`.
pub open spec fn face_text_colors(first: ColorMask, faces: Seq<CardFace>) -> ColorMask
    decreases faces.len(),
{
    if faces.len() == 0 {
        first
    } else {
        face_text_colors(first, faces.drop_last()).with(text_colors(faces.last().oracle_text))
    }
}

/// The colors that a land makes: those that it and its faces list; where they
/// list none, those of the basic land types in its type line; where there are
/// none either, those that its text and the texts of its faces add.
pub open spec fn made_by(card: Card) -> ColorMask {
    let listed = face_colors(listed_colors(card.produced_mana), faces_of(card));
    let typed = match card.type_line {
        Some(t) => type_colors(t@),
        None => ColorMask(0),
    };
    if listed != ColorMask(0) {
        listed
    } else if typed != ColorMask(0) {
        typed
    } else {
        face_text_colors(text_colors(card.oracle_text), faces_of(card))
    }
}

proof fn lemma_with_nothing(m: ColorMask)
    ensures
        m.with(ColorMask(0)) == m,
        ColorMask(0).with(m) == m,
{
    let x = m.0;
    assert(x | 0 == x) by (bit_vector);
    assert(0 | x == x) by (bit_vector);
}

/// The colors that a land makes; none where none is found.
pub fn land_produces(card: &Card) -> (mask: ColorMask)
    ensures
        mask == made_by(*card),
{
    let mut mask = produced_list_mask(&card.produced_mana);
    if let Some(faces) = &card.card_faces {
        let mut k: usize = 0;
        assert(faces@.take(0) =~= Seq::<CardFace>::empty());
        while k < faces.len()
            invariant
                k <= faces@.len(),
                mask == face_colors(listed_colors(card.produced_mana), faces@.take(k as int)),
            decreases faces@.len() - k,
        {
            assert(faces@.take(k + 1).drop_last() =~= faces@.take(k as int));
            mask = mask.union(produced_list_mask(&faces[k].produced_mana));
            k += 1;
        }
        assert(faces@.take(k as int) =~= faces@);
    }
    if !mask.is_empty() {
        return mask;
    }
    if let Some(tl) = &card.type_line {
        mask = basic_types_mask(tl.as_str());
    }
    if !mask.is_empty() {
        return mask;
    }
    if let Some(text) = &card.oracle_text {
        mask = add_clause_mask(text.as_str());
    }
    if let Some(faces) = &card.card_faces {
        let mut k: usize = 0;
        assert(faces@.take(0) =~= Seq::<CardFace>::empty());
        while k < faces.len()
            invariant
                k <= faces@.len(),
                mask == face_text_colors(text_colors(card.oracle_text), faces@.take(k as int)),
            decreases faces@.len() - k,
        {
            assert(faces@.take(k + 1).drop_last() =~= faces@.take(k as int));
            if let Some(text) = &faces[k].oracle_text {
                mask = mask.union(add_clause_mask(text.as_str()));
            } else {
                proof {
                    lemma_with_nothing(mask);
                }
            }
            k += 1;
        }
        assert(faces@.take(k as int) =~= faces@);
    }
    mask
}

/// All colors of a list of symbols.
pub fn produced_list_mask(list: &Option<Vec<String>>) -> (mask: ColorMask)
    ensures
        mask == listed_colors(*list),
{
    let mut mask = ColorMask(0);
    if let Some(l) = list {
        let ghost all = texts(l@);
        let mut k: usize = 0;
        assert(all.take(0) =~= Seq::<Seq<char>>::empty());
        while k < l.len()
            invariant
                k <= l@.len(),
                all == texts(l@),
                mask == colors_among(all.take(k as int)),
            decreases l@.len() - k,
        {
            assert(all.take(k + 1).drop_last() =~= all.take(k as int));
            assert(all.take(k + 1).last() == l@[k as int]@);
            if let Some(m) = ColorMask::from_symbol(l[k].as_str()) {
                mask = mask.union(m);
            }
            k += 1;
        }
        assert(all.take(k as int) =~= all);
    }
    mask
}

fn named(type_line: &str, name: &str, bit: u8) -> (mask: ColorMask)
    ensures
        mask == type_bit(type_line@, name@, bit),
{
    if text::has(type_line, name) {
        ColorMask(bit)
    } else {
        ColorMask(0)
    }
}

/// The colors of the basic land types in a type line.
pub fn basic_types_mask(type_line: &str) -> (mask: ColorMask)
    ensures
        mask == type_colors(type_line@),
{
    named(type_line, "Plains", 1).union(named(type_line, "Island", 2)).union(
        named(type_line, "Swamp", 4),
    ).union(named(type_line, "Mountain", 8)).union(named(type_line, "Forest", 16)).union(
        named(type_line, "Wastes", 32),
    )
}

/// The colors of the pips that follow "Add " on each line of a rules text.
pub fn add_clause_mask(text: &str) -> (mask: ColorMask)
    ensures
        mask == added_colors(lines(text@)),
{
    let a = text::chars_of(text);
    let rows = text::lines_of(&a);
    let add = text::chars_of("Add ");
    let ghost all = lines(text@);
    let mut mask = ColorMask(0);
    let mut k: usize = 0;
    assert(all.take(0) =~= Seq::<Seq<char>>::empty());
    while k < rows.len()
        invariant
            k <= rows@.len(),
            rows@.len() == all.len(),
            forall|j: int| 0 <= j < all.len() ==> (#[trigger] rows@[j])@ == all[j],
            add@ == "Add "@,
            mask == added_colors(all.take(k as int)),
        decreases rows@.len() - k,
    {
        assert(all.take(k + 1).drop_last() =~= all.take(k as int));
        assert(all.take(k + 1).last() == rows@[k as int]@);
        if let Some(pos) = text::find(&rows[k], &add) {
            let clause = text::slice_of(&rows[k], pos, rows[k].len());
            assert(clause@ =~= all[k as int].skip(pos as int));
            let (cost, _) = parse_mana_cost(clause.as_str(), None);
            let ghost start = mask;
            let mut i: usize = 0;
            assert(cost.pips@.take(0) =~= Seq::<ColorMask>::empty());
            while i < cost.pips.len()
                invariant
                    i <= cost.pips@.len(),
                    mask == pip_colors(start, cost.pips@.take(i as int)),
                decreases cost.pips@.len() - i,
            {
                assert(cost.pips@.take(i + 1).drop_last() =~= cost.pips@.take(i as int));
                mask = mask.union(cost.pips[i]);
                i += 1;
            }
            assert(cost.pips@.take(i as int) =~= cost.pips@);
        }
        k += 1;
    }
    assert(all.take(k as int) =~= all);
    mask
}

// ---------------------------------------------------------------------------
// Paying costs
// ---------------------------------------------------------------------------

/// Whether `lands` can pay `cost`.
pub fn can_pay(cost: &ParsedCost, lands: &[ColorMask]) -> (r: bool)
    ensures
        r == cost@.payable(lands@),
{
    if cost.pips.len() > lands.len() || (cost.generic as usize) > lands.len() - cost.pips.len() {
        return false;
    }
    let n = cost.pips.len();
    let mut land_match: Vec<Option<usize>> = Vec::new();
    let mut fresh: Vec<bool> = Vec::new();
    let mut i: usize = 0;
    while i < lands.len()
        invariant
            i <= lands@.len(),
            land_match@.len() == i,
            forall|l: int| 0 <= l < i ==> #[trigger] land_match@[l] is None,
            fresh@.len() == i,
            forall|l: int| 0 <= l < i ==> !#[trigger] fresh@[l],
        decreases lands@.len() - i,
    {
        land_match.push(None);
        fresh.push(false);
        i += 1;
    }
    let mut pi: usize = 0;
    while pi < n
        invariant
            n == cost.pips@.len(),
            pi <= n,
            fresh@.len() == lands@.len(),
            forall|l: int| 0 <= l < lands@.len() ==> !#[trigger] fresh@[l],
            fits(land_match@, cost.pips@, lands@),
            apart(land_match@, fresh@),
            forall|p: usize| held(land_match@, fresh@, p) <==> p < pi,
        decreases n - pi,
    {
        let mut visited = fresh.clone();
        assert(visited@ =~= fresh@);
        let ghost m = land_match@;
        if !augment(pi, &cost.pips, lands, &mut visited, &mut land_match) {
            proof {
                assert(!held(m, fresh@, pi));
                lemma_stuck(cost.pips@, lands@, m, visited@, pi);
            }
            return false;
        }
        pi += 1;
    }
    proof {
        assert forall|p: usize| p < cost.pips@.len() implies #[trigger] matched(land_match@, p) by {
            assert(held(land_match@, fresh@, p));
        }
        lemma_complete(cost.pips@, lands@, land_match@);
    }
    true
}

/// Where each element of a list stands in another one that holds as many of it.
proof fn lemma_found_within(a: Seq<ColorMask>, b: Seq<ColorMask>) -> (g: Seq<int>)
    requires
        a.to_multiset().subset_of(b.to_multiset()),
    ensures
        g.len() == a.len(),
        forall|i: int| 0 <= i < g.len() ==> 0 <= #[trigger] g[i] < b.len() && b[g[i]] == a[i],
        forall|i: int, j: int| 0 <= i < j < g.len() ==> g[i] != g[j],
    decreases a.len(),
{
    if a.len() == 0 {
        Seq::<int>::empty()
    } else {
        let x = a.last();
        let rest = a.drop_last();
        assert(rest.push(x) =~= a);
        rest.to_multiset_ensures();
        a.to_multiset_ensures();
        b.to_multiset_ensures();
        assert(a.to_multiset() =~= rest.to_multiset().insert(x));
        assert(a.to_multiset().count(x) <= b.to_multiset().count(x));
        assert(b.contains(x));
        let at = choose|k: int| 0 <= k < b.len() && b[k] == x;
        let others = b.remove(at);
        assert(others.to_multiset() =~= b.to_multiset().remove(x));
        assert forall|v: ColorMask| rest.to_multiset().count(v) <= others.to_multiset().count(v) by {
            assert(a.to_multiset().count(v) <= b.to_multiset().count(v));
        }
        let h = lemma_found_within(rest, others);
        let g = Seq::new(
            a.len(),
            |i: int|
                if i == rest.len() {
                    at
                } else if h[i] < at {
                    h[i]
                } else {
                    h[i] + 1
                },
        );
        assert forall|i: int| 0 <= i < g.len() implies 0 <= #[trigger] g[i] < b.len() && b[g[i]]
            == a[i] by {
            if i < rest.len() {
                assert(0 <= h[i] < others.len() && others[h[i]] == rest[i]);
            }
        }
        assert forall|i: int, j: int| 0 <= i < j < g.len() implies g[i] != g[j] by {
            if j < rest.len() {
                assert(h[i] != h[j]);
            }
        }
        g
    }
}

/// So many different places are no more than there are.
proof fn lemma_no_longer(g: Seq<int>, n: nat)
    requires
        forall|i: int| 0 <= i < g.len() ==> 0 <= #[trigger] g[i] < n,
        forall|i: int, j: int| 0 <= i < j < g.len() ==> g[i] != g[j],
    ensures
        g.len() <= n,
{
    vstd::set_lib::lemma_int_range(0, n as int);
    g.unique_seq_to_set();
    assert(g.to_set().subset_of(vstd::set_lib::set_int_range(0, n as int)));
    vstd::set_lib::lemma_len_subset(g.to_set(), vstd::set_lib::set_int_range(0, n as int));
}

/// Lands that can pay a cost still can when more lands come among them, in any
/// order.
pub proof fn law_more_lands(cost: CostView, lands: Seq<ColorMask>, more: Seq<ColorMask>)
    requires
        cost.payable(lands),
        lands.to_multiset().subset_of(more.to_multiset()),
    ensures
        cost.payable(more),
{
    let f = choose|f: Seq<int>| super::matching::assigns(f, cost.pips, lands);
    let g = lemma_found_within(lands, more);
    let h = Seq::new(f.len(), |p: int| g[f[p]]);
    assert(super::matching::assigns(h, cost.pips, more)) by {
        assert forall|p: int| 0 <= p < h.len() implies 0 <= #[trigger] h[p] < more.len()
            && cost.pips[p].meets(more[h[p]]) by {
            assert(0 <= f[p] < lands.len() && cost.pips[p].meets(lands[f[p]]));
            assert(0 <= g[f[p]] < more.len() && more[g[f[p]]] == lands[f[p]]);
        }
        assert forall|p: int, q: int| 0 <= p < q < h.len() implies h[p] != h[q] by {
            assert(f[p] != f[q]);
            assert(0 <= f[p] < lands.len() && 0 <= f[q] < lands.len());
            if f[p] < f[q] {
                assert(g[f[p]] != g[f[q]]);
            } else {
                assert(g[f[q]] != g[f[p]]);
            }
        }
    }
    lemma_no_longer(g, more.len());
}

/// A land that makes every color.
pub open spec fn any_color() -> ColorMask {
    ColorMask(63)
}

/// The number of lands that a cost takes is the least that pays it where every
/// land makes every color, and each pip has a color. Generic mana and pips
/// decide it, not the mana value.
pub proof fn law_lands_needed(cost: CostView, mana_value: u8, n: nat)
    requires
        forall|p: int| 0 <= p < cost.pips.len() ==> (#[trigger] cost.pips[p]).meets(any_color()),
    ensures
        cost.payable(Seq::new(n, |i: int| any_color())) <==> n >= cost.needs(),
        (CostView { mana_value, ..cost }).needs() == cost.needs(),
{
    let lands = Seq::new(n, |i: int| any_color());
    if n >= cost.needs() {
        let f = Seq::new(cost.pips.len(), |p: int| p);
        assert(super::matching::assigns(f, cost.pips, lands));
    }
}

/// A cost that asks for nothing is payable without lands.
pub proof fn law_free_cost(cost: CostView, lands: Seq<ColorMask>)
    requires
        cost.needs() == 0,
    ensures
        cost.payable(lands),
{
    assert(super::matching::assigns(Seq::<int>::empty(), cost.pips, lands));
}

/// The text of a cost with these symbols.
pub open spec fn braced(list: Seq<Seq<char>>) -> Seq<char>
    decreases list.len(),
{
    if list.len() == 0 {
        seq![]
    } else {
        seq!['{'] + list[0] + seq!['}'] + braced(list.skip(1))
    }
}

/// A cost is read symbol by symbol: what stands between each pair of braces, in
/// order, nothing left out.
pub proof fn law_symbols_read(list: Seq<Seq<char>>)
    requires
        forall|i: int| 0 <= i < list.len() ==> !(#[trigger] list[i]).contains('}'),
    ensures
        symbols(braced(list)) == list,
    decreases list.len(),
{
    let s = braced(list);
    if list.len() == 0 {
        assert(text::before(s, '{') == 0);
        assert(symbols(s) =~= list);
    } else {
        let first = list[0];
        let rest = list.skip(1);
        assert forall|i: int| 0 <= i < rest.len() implies !(#[trigger] rest[i]).contains('}') by {
            assert(rest[i] == list[i + 1]);
        }
        law_symbols_read(rest);
        assert(s[0] == '{');
        text::lemma_before(s, '{', 0);
        assert(s.skip(0) =~= s);
        let n = first.len() + 1;
        assert forall|j: int| 0 <= j < n implies #[trigger] s[j] != '}' by {
            if j > 0 {
                assert(s[j] == first[j - 1]);
                assert(first.contains(first[j - 1]));
            }
        }
        assert(s[n as int] == '}');
        text::lemma_before(s, '}', n as int);
        assert(s.subrange(1, n as int) =~= first);
        assert(s.skip(n + 1 as int) =~= braced(rest));
        assert(symbols(s) =~= seq![first] + rest);
        assert(seq![first] + rest =~= list);
    }
}

/// What one more symbol asks for is added to what the others ask for. A color
/// asks for one mana of that color.
pub proof fn law_color_pips(list: Seq<Seq<char>>, k: int)
    requires
        0 <= k < 6,
    ensures
        ({
            let c = seq!['W', 'U', 'B', 'R', 'G', 'C'][k];
            let bit = seq![1u8, 2, 4, 8, 16, 32][k];
            &&& pips_in(list.push(seq![c])) == pips_in(list).push(ColorMask(bit))
            &&& generic_in(list.push(seq![c])) == generic_in(list)
            &&& warnings_in(list.push(seq![c])) == warnings_in(list)
        }),
{
    let c = seq!['W', 'U', 'B', 'R', 'G', 'C'][k];
    let s = seq![c];
    assert(list.push(s).drop_last() =~= list);
    lemma_letter(c);
}

/// A single letter is no number, and holds neither a slash nor a `P` but where it
/// is one.
proof fn lemma_letter(c: char)
    requires
        'A' <= c <= 'Z',
        c != 'P',
    ensures
        !seq![c].contains('P'),
        !seq![c].contains('/'),
        number(seq![c], 255) is None,
{
    let s = seq![c];
    assert(s[0] == c);
    assert(text::unsigned_part(s) =~= s);
    if number(s, 255) is Some {
        assert(text::is_digit(s[0]));
    }
}

/// A number asks for so much generic mana; snow for one; `X`, `Y` and `Z` for
/// nothing; and so does anything that can be paid with life.
pub proof fn law_other_symbols(list: Seq<Seq<char>>, n: nat, front: Seq<char>, back: Seq<char>)
    requires
        n <= 255,
    ensures
        pips_in(list.push(text::decimal(n))) == pips_in(list),
        generic_in(list.push(text::decimal(n))) == generic_in(list) + n,
        pips_in(list.push(seq!['S'])) == pips_in(list),
        generic_in(list.push(seq!['S'])) == generic_in(list) + 1,
        pips_in(list.push(seq!['X'])) == pips_in(list) && generic_in(list.push(seq!['X']))
            == generic_in(list),
        pips_in(list.push(seq!['Y'])) == pips_in(list) && generic_in(list.push(seq!['Y']))
            == generic_in(list),
        pips_in(list.push(seq!['Z'])) == pips_in(list) && generic_in(list.push(seq!['Z']))
            == generic_in(list),
        pips_in(list.push(front + seq!['P'] + back)) == pips_in(list),
        generic_in(list.push(front + seq!['P'] + back)) == generic_in(list),
{
    let d = text::decimal(n);
    text::law_decimal_reads_back(n, 255);
    assert(!d.contains('P')) by {
        if d.contains('P') {
            let i = choose|i: int| 0 <= i < d.len() && d[i] == 'P';
            assert(text::is_digit(d[i]));
        }
    }
    let p = front + seq!['P'] + back;
    assert(p[front.len() as int] == 'P');
    assert(p.contains('P'));
    assert(list.push(d).drop_last() =~= list);
    assert(list.push(p).drop_last() =~= list);
    assert(list.push(seq!['S']).drop_last() =~= list);
    assert(list.push(seq!['X']).drop_last() =~= list);
    assert(list.push(seq!['Y']).drop_last() =~= list);
    assert(list.push(seq!['Z']).drop_last() =~= list);
    lemma_letter('S');
    lemma_letter('X');
    lemma_letter('Y');
    lemma_letter('Z');
    assert(seq!['S'][0] != seq!['X'][0] && seq!['S'][0] != seq!['Y'][0] && seq!['S'][0]
        != seq!['Z'][0]);
}

/// A hybrid of two colors asks for one mana of either; a hybrid with a number
/// asks for that much generic mana.
pub proof fn law_hybrids(list: Seq<Seq<char>>, j: int, k: int, n: nat)
    requires
        0 <= j < 6,
        0 <= k < 6,
        n <= 255,
    ensures
        ({
            let colors = seq!['W', 'U', 'B', 'R', 'G', 'C'];
            let bits = seq![1u8, 2, 4, 8, 16, 32];
            let two = seq![colors[j], '/', colors[k]];
            let either = text::decimal(n) + seq!['/', colors[k]];
            &&& pips_in(list.push(two)) == pips_in(list).push(ColorMask(bits[j] | bits[k]))
            &&& generic_in(list.push(two)) == generic_in(list)
            &&& pips_in(list.push(either)) == pips_in(list)
            &&& generic_in(list.push(either)) == generic_in(list) + n
        }),
{
    let colors = seq!['W', 'U', 'B', 'R', 'G', 'C'];
    let bits = seq![1u8, 2, 4, 8, 16, 32];
    let two = seq![colors[j], '/', colors[k]];
    let a = seq![colors[j]];
    let b = seq![colors[k]];
    lemma_letter(colors[j]);
    lemma_letter(colors[k]);
    assert(a[0] == colors[j] && b[0] == colors[k]);
    assert(two =~= a + seq!['/'] + b);
    lemma_split_two(a, b);
    lemma_hybrid_shape(a, b);
    lemma_two_parts(a, b);
    let x = bits[j];
    let y = bits[k];
    assert(0u8 | x == x) by (bit_vector);
    assert((x | y) != 0) by (bit_vector)
        requires
            x != 0,
    ;
    assert(color_of(a) == Some(ColorMask(x)) && color_of(b) == Some(ColorMask(y)));
    assert(colors_among(seq![a, b]) == ColorMask(x | y));
    assert(list.push(two).drop_last() =~= list);
    let d = text::decimal(n);
    let either = d + seq!['/', colors[k]];
    text::law_decimal_reads_back(n, 255);
    assert(!d.contains('P') && !d.contains('/')) by {
        assert forall|i: int| 0 <= i < d.len() implies d[i] != 'P' && d[i] != '/' by {
            assert(text::is_digit(d[i]));
        }
    }
    assert(either =~= d + seq!['/'] + b);
    lemma_split_two(d, b);
    lemma_hybrid_shape(d, b);
    lemma_two_parts(d, b);
    assert(list.push(either).drop_last() =~= list);
}

/// Two parts around a slash are those two parts.
proof fn lemma_split_two(a: Seq<char>, b: Seq<char>)
    requires
        !a.contains('/'),
        !b.contains('/'),
    ensures
        split(a + seq!['/'] + b, '/') == seq![a, b],
{
    let s = a + seq!['/'] + b;
    let n = a.len() as int;
    assert forall|i: int| 0 <= i < n implies #[trigger] s[i] != '/' by {
        assert(a.contains(a[i]));
    }
    assert(s[n] == '/');
    text::lemma_before(s, '/', n);
    assert(s.take(n) =~= a);
    assert(s.skip(n + 1) =~= b);
    assert forall|i: int| 0 <= i < b.len() implies #[trigger] b[i] != '/' by {
        assert(b.contains(b[i]));
    }
    text::lemma_before(b, '/', b.len() as int);
    assert(split(b, '/') =~= seq![b]);
    assert(split(s, '/') =~= seq![a, b]);
}

/// Two parts around a slash are no number and none of the letters.
proof fn lemma_hybrid_shape(a: Seq<char>, b: Seq<char>)
    requires
        !a.contains('P'),
        !b.contains('P'),
        a.len() > 0,
        b.len() > 0,
    ensures
        ({
            let s = a + seq!['/'] + b;
            &&& !s.contains('P')
            &&& s.contains('/')
            &&& number(s, 255) is None
            &&& s != seq!['X'] && s != seq!['Y'] && s != seq!['Z'] && s != seq!['S']
        }),
{
    let s = a + seq!['/'] + b;
    let n = a.len() as int;
    assert(s[n] == '/');
    assert(s.len() >= 3);
    if s.contains('P') {
        let i = choose|i: int| 0 <= i < s.len() && s[i] == 'P';
        if i < n {
            assert(a.contains(a[i]));
        } else if i > n {
            assert(b.contains(b[i - n - 1]));
        }
    }
    if number(s, 255) is Some {
        let d = text::unsigned_part(s);
        let i = if d.len() == s.len() {
            n
        } else {
            n - 1
        };
        assert(d[i] == '/');
        assert(text::is_digit(d[i]));
    }
}

proof fn lemma_two_parts(a: Seq<char>, b: Seq<char>)
    ensures
        first_number(seq![a, b]) == (match number(a, 255) {
            Some(n) => Some(n),
            None => number(b, 255),
        }),
        colors_among(seq![a, b]) == ({
            let first = match color_of(a) {
                Some(m) => ColorMask(0).with(m),
                None => ColorMask(0),
            };
            match color_of(b) {
                Some(m) => first.with(m),
                None => first,
            }
        }),
{
    let list = seq![a, b];
    assert(list.drop_last() =~= seq![a]);
    assert(seq![a].drop_last() =~= Seq::<Seq<char>>::empty());
    assert(list.last() == b && seq![a].last() == a);
    reveal_with_fuel(first_number, 3);
    reveal_with_fuel(colors_among, 3);
}

/// What a cost holds: its pips and generic mana, of which no more than 255
/// count, and as its mana value those together where none is known.
pub proof fn law_costs_read(list: Seq<Seq<char>>)
    requires
        forall|i: int| 0 <= i < list.len() ==> !(#[trigger] list[i]).contains('}'),
    ensures
        ({
            let cost = cost_of(braced(list), None);
            &&& cost.pips == pips_in(list)
            &&& generic_in(list) <= 255 ==> cost.generic == generic_in(list)
            &&& generic_in(list) + pips_in(list).len() <= 255 ==> cost.mana_value == generic_in(
                list,
            ) + pips_in(list).len()
            &&& generic_in(list) + pips_in(list).len() > 255 ==> cost.mana_value == 255
        }),
        pips_in(Seq::<Seq<char>>::empty()).len() == 0,
        generic_in(Seq::<Seq<char>>::empty()) == 0,
{
    law_symbols_read(list);
}

/// A color is among listed symbols exactly where its symbol is listed.
pub proof fn law_listed_colors(parts: Seq<Seq<char>>, k: int)
    requires
        0 <= k < 6,
    ensures
        ({
            let c = seq!['W', 'U', 'B', 'R', 'G', 'C'][k];
            let bit = seq![1u8, 2, 4, 8, 16, 32][k];
            colors_among(parts).0 & bit != 0 <==> parts.contains(seq![c])
        }),
    decreases parts.len(),
{
    let c = seq!['W', 'U', 'B', 'R', 'G', 'C'][k];
    let bit = seq![1u8, 2, 4, 8, 16, 32][k];
    if parts.len() == 0 {
        assert(0u8 & bit == 0) by (bit_vector);
    } else {
        let rest = parts.drop_last();
        law_listed_colors(rest, k);
        let last = parts.last();
        let a = colors_among(rest).0;
        if rest.contains(seq![c]) {
            let i = choose|i: int| 0 <= i < rest.len() && rest[i] == seq![c];
            assert(parts[i] == seq![c]);
        }
        if last == seq![c] {
            assert(parts[parts.len() - 1] == seq![c]);
        }
        if parts.contains(seq![c]) && last != seq![c] {
            let i = choose|i: int| 0 <= i < parts.len() && parts[i] == seq![c];
            assert(rest[i] == seq![c]);
        }
        assert(seq![c][0] == c);
        if let Some(m) = color_of(last) {
            let b = m.0;
            assert((a | b) & bit != 0 <==> a & bit != 0 || b & bit != 0) by (bit_vector);
            assert(b & bit != 0 <==> b == bit) by (bit_vector)
                requires
                    b == 1 || b == 2 || b == 4 || b == 8 || b == 16 || b == 32,
                    bit == 1 || bit == 2 || bit == 4 || bit == 8 || bit == 16 || bit == 32,
            ;
            if b == bit {
                assert(last =~= seq![c]);
            }
        } else {
            assert(last != seq![c]);
        }
    }
}

/// What a land makes. Where it, or one of its faces, lists a color, it makes
/// what is listed and nothing else, whatever its types are; where nothing is
/// listed, what its basic land types make; and its rules text counts only where
/// neither says anything.
pub proof fn law_land_colors(card: Card)
    ensures
        ({
            let listed = face_colors(listed_colors(card.produced_mana), faces_of(card));
            let typed = match card.type_line {
                Some(t) => type_colors(t@),
                None => ColorMask(0),
            };
            &&& listed.0 != 0 ==> made_by(card) == listed
            &&& listed.0 == 0 && typed.0 != 0 ==> made_by(card) == typed
            &&& listed.0 == 0 && typed.0 == 0 ==> made_by(card) == face_text_colors(
                text_colors(card.oracle_text),
                faces_of(card),
            )
        }),
{
}

/// A land that lists what it makes, with no faces, makes a color exactly where
/// it lists its symbol.
pub proof fn law_listed_lands(card: Card, list: Vec<String>, k: int)
    requires
        card.produced_mana == Some(list),
        card.card_faces is None,
        0 <= k < 6,
        exists|i: int|
            0 <= i < list@.len() && color_of((#[trigger] list@[i])@) is Some,
    ensures
        ({
            let c = seq!['W', 'U', 'B', 'R', 'G', 'C'][k];
            let bit = seq![1u8, 2, 4, 8, 16, 32][k];
            made_by(card).0 & bit != 0 <==> exists|i: int|
                0 <= i < list@.len() && (#[trigger] list@[i])@ == seq![c]
        }),
{
    let c = seq!['W', 'U', 'B', 'R', 'G', 'C'][k];
    let parts = texts(list@);
    law_listed_colors(parts, k);
    let i = choose|i: int| 0 <= i < list@.len() && color_of((#[trigger] list@[i])@) is Some;
    let m = color_of(list@[i]@).unwrap().0;
    let j = if m == 1 {
        0
    } else if m == 2 {
        1
    } else if m == 4 {
        2
    } else if m == 8 {
        3
    } else if m == 16 {
        4
    } else {
        5int
    };
    law_listed_colors(parts, j);
    assert(list@[i]@ =~= seq![seq!['W', 'U', 'B', 'R', 'G', 'C'][j]]);
    assert(parts[i] == list@[i]@);
    assert(parts.contains(seq![seq!['W', 'U', 'B', 'R', 'G', 'C'][j]]));
    assert(0u8 & m == 0) by (bit_vector);
    assert(colors_among(parts).0 != 0);
    assert(face_colors(listed_colors(card.produced_mana), faces_of(card)) == colors_among(parts));
    if parts.contains(seq![c]) {
        let n = choose|n: int| 0 <= n < parts.len() && parts[n] == seq![c];
        assert(list@[n]@ == seq![c]);
    }
    if exists|n: int| 0 <= n < list@.len() && (#[trigger] list@[n])@ == seq![c] {
        let n = choose|n: int| 0 <= n < list@.len() && (#[trigger] list@[n])@ == seq![c];
        assert(parts[n] == seq![c]);
    }
}

/// The basic land types make their colors: each where its name stands in the type
/// line, and no other.
pub proof fn law_type_colors(t: Seq<char>)
    ensures
        type_colors(t).0 & 1 != 0 <==> occurs(t, "Plains"@),
        type_colors(t).0 & 2 != 0 <==> occurs(t, "Island"@),
        type_colors(t).0 & 4 != 0 <==> occurs(t, "Swamp"@),
        type_colors(t).0 & 8 != 0 <==> occurs(t, "Mountain"@),
        type_colors(t).0 & 16 != 0 <==> occurs(t, "Forest"@),
        type_colors(t).0 & 32 != 0 <==> occurs(t, "Wastes"@),
{
    let a = type_bit(t, "Plains"@, 1).0;
    let b = type_bit(t, "Island"@, 2).0;
    let c = type_bit(t, "Swamp"@, 4).0;
    let d = type_bit(t, "Mountain"@, 8).0;
    let e = type_bit(t, "Forest"@, 16).0;
    let f = type_bit(t, "Wastes"@, 32).0;
    let m = a | b | c | d | e | f;
    assert(type_colors(t).0 == m);
    assert((m & 1 != 0 <==> a == 1) && (m & 2 != 0 <==> b == 2) && (m & 4 != 0 <==> c == 4) && (m
        & 8 != 0 <==> d == 8) && (m & 16 != 0 <==> e == 16) && (m & 32 != 0 <==> f == 32))
        by (bit_vector)
        requires
            m == a | b | c | d | e | f,
            a == 0 || a == 1,
            b == 0 || b == 2,
            c == 0 || c == 4,
            d == 0 || d == 8,
            e == 0 || e == 16,
            f == 0 || f == 32,
    ;
}

/// Whether lands pay a cost: exactly where there are enough of them and each pip
/// can have one of its own that shares a color with it.
pub proof fn law_payable(cost: CostView, lands: Seq<ColorMask>)
    ensures
        cost.payable(lands) <==> cost.generic + cost.pips.len() <= lands.len() && exists|f: Seq<int>|
            each_has_its_land(f, cost.pips, lands),
{
    if cost.payable(lands) {
        let f = choose|f: Seq<int>| super::matching::assigns(f, cost.pips, lands);
        assert(each_has_its_land(f, cost.pips, lands));
    }
    if exists|f: Seq<int>| each_has_its_land(f, cost.pips, lands) {
        let f = choose|f: Seq<int>| each_has_its_land(f, cost.pips, lands);
        assert(super::matching::assigns(f, cost.pips, lands));
    }
}

/// `f` gives each pip a land of its own that shares a color with it.
pub open spec fn each_has_its_land(f: Seq<int>, pips: Seq<ColorMask>, lands: Seq<ColorMask>) -> bool {
    &&& f.len() == pips.len()
    &&& forall|p: int|
        0 <= p < f.len() ==> 0 <= #[trigger] f[p] < lands.len() && pips[p].0 & lands[f[p]].0 != 0
    &&& forall|p: int, q: int| 0 <= p < q < f.len() ==> f[p] != f[q]
}

/// The mana value is the one that is known, rounded; where none is, or what is
/// known is no number, what the symbols ask for. What the symbols ask for does
/// not depend on it.
pub proof fn law_known_value(s: Seq<char>, cmc: Cmc)
    ensures
        cmc.rounds_to() matches Some(n) ==> n <= 255 ==> cost_of(s, Some(cmc)).mana_value == n,
        cmc.rounds_to() is None ==> cost_of(s, Some(cmc)) == cost_of(s, None),
        cost_of(s, Some(cmc)).generic == cost_of(s, None).generic,
        cost_of(s, Some(cmc)).pips == cost_of(s, None).pips,
{
}

/// Two masks together have the bits of both.
proof fn lemma_bits_of_both(a: u8, b: u8, bit: u8)
    ensures
        (a | b) & bit != 0 <==> a & bit != 0 || b & bit != 0,
{
    assert((a | b) & bit != 0 <==> a & bit != 0 || b & bit != 0) by (bit_vector);
}

/// A text in which symbols stand between other words.
pub open spec fn sentence(parts: Seq<(Seq<char>, Seq<char>)>, end: Seq<char>) -> Seq<char>
    decreases parts.len(),
{
    if parts.len() == 0 {
        end
    } else {
        parts[0].0 + seq!['{'] + parts[0].1 + seq!['}'] + sentence(parts.skip(1), end)
    }
}

/// The symbols that stand in a text.
pub open spec fn symbols_told(parts: Seq<(Seq<char>, Seq<char>)>) -> Seq<Seq<char>> {
    parts.map_values(|p: (Seq<char>, Seq<char>)| p.1)
}

/// The words hold no brace, and the symbols none that closes.
pub open spec fn plain_words(parts: Seq<(Seq<char>, Seq<char>)>, end: Seq<char>) -> bool {
    &&& forall|i: int|
        0 <= i < parts.len() ==> !(#[trigger] parts[i]).0.contains('{') && !parts[i].1.contains('}')
    &&& !end.contains('{')
}

proof fn lemma_no_symbol(s: Seq<char>)
    requires
        !s.contains('{'),
    ensures
        symbols(s).len() == 0,
{
    assert forall|j: int| 0 <= j < s.len() implies #[trigger] s[j] != '{' by {
        assert(s.contains(s[j]));
    }
    text::lemma_before(s, '{', s.len() as int);
}

proof fn lemma_first_symbol(words: Seq<char>, symbol: Seq<char>, rest: Seq<char>)
    requires
        !words.contains('{'),
        !symbol.contains('}'),
    ensures
        symbols(words + seq!['{'] + symbol + seq!['}'] + rest) == seq![symbol] + symbols(rest),
{
    let s = words + seq!['{'] + symbol + seq!['}'] + rest;
    let w = words.len() as int;
    assert forall|j: int| 0 <= j < w implies #[trigger] s[j] != '{' by {
        assert(s[j] == words[j]);
        assert(words.contains(words[j]));
    }
    assert(s[w] == '{');
    text::lemma_before(s, '{', w);
    let t = s.skip(w);
    let n = symbol.len() as int + 1;
    assert forall|j: int| 0 <= j < n implies #[trigger] t[j] != '}' by {
        if j > 0 {
            assert(t[j] == symbol[j - 1]);
            assert(symbol.contains(symbol[j - 1]));
        }
    }
    assert(t[n] == '}');
    text::lemma_before(t, '}', n);
    assert(s.subrange(w + 1, w + n) =~= symbol);
    assert(s.skip(w + n + 1) =~= rest);
}

/// Symbols are found wherever they stand in a text.
pub proof fn law_symbols_in_text(parts: Seq<(Seq<char>, Seq<char>)>, end: Seq<char>)
    requires
        plain_words(parts, end),
    ensures
        symbols(sentence(parts, end)) == symbols_told(parts),
    decreases parts.len(),
{
    if parts.len() == 0 {
        lemma_no_symbol(end);
        assert(symbols(end) =~= symbols_told(parts));
    } else {
        let rest = parts.skip(1);
        assert(!parts[0].0.contains('{') && !parts[0].1.contains('}'));
        assert forall|i: int| 0 <= i < rest.len() implies !(#[trigger] rest[i]).0.contains('{')
            && !rest[i].1.contains('}') by {
            assert(rest[i] == parts[i + 1]);
        }
        law_symbols_in_text(rest, end);
        lemma_first_symbol(parts[0].0, parts[0].1, sentence(rest, end));
        assert(seq![parts[0].1] + symbols_told(rest) =~= symbols_told(parts));
    }
}

/// Words without a brace in front of a text change nothing.
proof fn lemma_words_in_front(
    words: Seq<char>,
    parts: Seq<(Seq<char>, Seq<char>)>,
    end: Seq<char>,
)
    requires
        plain_words(parts, end),
        !words.contains('{'),
    ensures
        symbols(words + sentence(parts, end)) == symbols_told(parts),
{
    let t = words + sentence(parts, end);
    if parts.len() == 0 {
        if t.contains('{') {
            let j = choose|j: int| 0 <= j < t.len() && t[j] == '{';
            if j < words.len() {
                assert(words.contains(words[j]));
            } else {
                assert(end.contains(end[j - words.len()]));
            }
        }
        lemma_no_symbol(t);
        assert(symbols(t) =~= symbols_told(parts));
    } else {
        let rest = parts.skip(1);
        let more = words + parts[0].0;
        assert(!parts[0].0.contains('{') && !parts[0].1.contains('}'));
        if more.contains('{') {
            let j = choose|j: int| 0 <= j < more.len() && more[j] == '{';
            if j < words.len() {
                assert(words.contains(words[j]));
            } else {
                assert(parts[0].0.contains(parts[0].0[j - words.len()]));
            }
        }
        assert forall|i: int| 0 <= i < rest.len() implies !(#[trigger] rest[i]).0.contains('{')
            && !rest[i].1.contains('}') by {
            assert(rest[i] == parts[i + 1]);
        }
        law_symbols_in_text(rest, end);
        assert(t =~= more + seq!['{'] + parts[0].1 + seq!['}'] + sentence(rest, end));
        lemma_first_symbol(more, parts[0].1, sentence(rest, end));
        assert(seq![parts[0].1] + symbols_told(rest) =~= symbols_told(parts));
    }
}

/// The colors that a rules text adds: those of the symbols that stand behind the
/// first "Add " of a line. What stands before it, such as a cost, adds nothing,
/// and neither does a line without it.
pub proof fn law_text_adds(
    lines: Seq<Seq<char>>,
    front: Seq<char>,
    parts: Seq<(Seq<char>, Seq<char>)>,
    end: Seq<char>,
    bit: u8,
)
    requires
        plain_words(parts, end),
        forall|i: int|
            0 <= i < front.len() ==> !text::occurs_at(
                front + seq!['A', 'd', 'd', ' '] + sentence(parts, end),
                seq!['A', 'd', 'd', ' '],
                i,
            ),
    ensures
        ({
            let line = front + seq!['A', 'd', 'd', ' '] + sentence(parts, end);
            let pips = pips_in(symbols_told(parts));
            added_colors(lines.push(line)).0 & bit != 0 <==> added_colors(lines).0 & bit != 0
                || exists|p: int| 0 <= p < pips.len() && (#[trigger] pips[p]).0 & bit != 0
        }),
{
    reveal_strlit("Add ");
    let add = seq!['A', 'd', 'd', ' '];
    assert("Add "@ =~= add);
    let s = sentence(parts, end);
    let line = front + add + s;
    let n = front.len() as int;
    assert(line.subrange(n, n + 4) =~= add);
    assert(text::occurs_at(line, add, n));
    text::lemma_position(line, add, n);
    let t = line.skip(n);
    assert(t =~= add + s);
    assert(lines.push(line).drop_last() =~= lines);
    let pips = pips_in(symbols_told(parts));
    assert(!add.contains('{'));
    lemma_words_in_front(add, parts, end);
    lemma_pip_colors(added_colors(lines), pips, bit);
}

proof fn lemma_pip_colors(first: ColorMask, pips: Seq<ColorMask>, bit: u8)
    ensures
        pip_colors(first, pips).0 & bit != 0 <==> first.0 & bit != 0 || exists|p: int|
            0 <= p < pips.len() && (#[trigger] pips[p]).0 & bit != 0,
    decreases pips.len(),
{
    if pips.len() > 0 {
        let rest = pips.drop_last();
        lemma_pip_colors(first, rest, bit);
        lemma_bits_of_both(pip_colors(first, rest).0, pips.last().0, bit);
        if exists|p: int| 0 <= p < rest.len() && (#[trigger] rest[p]).0 & bit != 0 {
            let p = choose|p: int| 0 <= p < rest.len() && (#[trigger] rest[p]).0 & bit != 0;
            assert(pips[p].0 & bit != 0);
        }
        if pips.last().0 & bit != 0 {
            assert(pips[pips.len() - 1].0 & bit != 0);
        }
        if exists|p: int| 0 <= p < pips.len() && (#[trigger] pips[p]).0 & bit != 0 {
            let p = choose|p: int| 0 <= p < pips.len() && (#[trigger] pips[p]).0 & bit != 0;
            if p < rest.len() {
                assert(rest[p].0 & bit != 0);
            }
        }
    }
}

/// A line that does not say "Add " adds no color, and no text no color at all.
pub proof fn law_other_text(lines: Seq<Seq<char>>, line: Seq<char>)
    requires
        forall|i: int|
            0 <= i <= line.len() - 4 ==> #[trigger] line.subrange(i, i + 4) != seq![
                'A',
                'd',
                'd',
                ' ',
            ],
    ensures
        added_colors(lines.push(line)) == added_colors(lines),
        added_colors(Seq::<Seq<char>>::empty()).0 == 0,
{
    reveal_strlit("Add ");
    assert("Add "@ =~= seq!['A', 'd', 'd', ' ']);
    assert(lines.push(line).drop_last() =~= lines);
    if occurs(line, "Add "@) {
        let i = choose|i: int| text::occurs_at(line, "Add "@, i);
        assert(line.subrange(i, i + 4) == "Add "@);
    }
}

/// The faces of a card add to what the card itself lists, and to what its text
/// adds; and neither takes anything away.
pub proof fn law_faces_add(first: ColorMask, faces: Seq<CardFace>, bit: u8)
    ensures
        face_colors(first, faces).0 & bit != 0 <==> first.0 & bit != 0 || exists|i: int|
            0 <= i < faces.len() && listed_colors((#[trigger] faces[i]).produced_mana).0 & bit != 0,
        face_text_colors(first, faces).0 & bit != 0 <==> first.0 & bit != 0 || exists|i: int|
            0 <= i < faces.len() && text_colors((#[trigger] faces[i]).oracle_text).0 & bit != 0,
    decreases faces.len(),
{
    if faces.len() > 0 {
        let rest = faces.drop_last();
        let last = faces[faces.len() - 1];
        law_faces_add(first, rest, bit);
        assert forall|i: int| 0 <= i < rest.len() implies rest[i] == faces[i] by {}
        lemma_bits_of_both(
            face_colors(first, rest).0,
            listed_colors(last.produced_mana).0,
            bit,
        );
        lemma_bits_of_both(
            face_text_colors(first, rest).0,
            text_colors(last.oracle_text).0,
            bit,
        );
        if exists|i: int|
            0 <= i < rest.len() && listed_colors((#[trigger] rest[i]).produced_mana).0 & bit != 0 {
            let i = choose|i: int|
                0 <= i < rest.len() && listed_colors((#[trigger] rest[i]).produced_mana).0 & bit != 0;
            assert(listed_colors(faces[i].produced_mana).0 & bit != 0);
        }
        if exists|i: int|
            0 <= i < rest.len() && text_colors((#[trigger] rest[i]).oracle_text).0 & bit != 0 {
            let i = choose|i: int|
                0 <= i < rest.len() && text_colors((#[trigger] rest[i]).oracle_text).0 & bit != 0;
            assert(text_colors(faces[i].oracle_text).0 & bit != 0);
        }
    }
}

/// A symbol that means nothing known is warned about and asks for nothing; every
/// other gives no warning.
pub proof fn law_unknown_symbols(list: Seq<Seq<char>>, c: char)
    requires
        'a' <= c <= 'z' || ('A' <= c <= 'Z' && !seq![
            'W',
            'U',
            'B',
            'R',
            'G',
            'C',
            'X',
            'Y',
            'Z',
            'S',
            'P',
        ].contains(c)),
    ensures
        warnings_in(list.push(seq![c])) == warnings_in(list).push(
            "unrecognized mana symbol {"@ + seq![c] + "}"@,
        ),
        pips_in(list.push(seq![c])) == pips_in(list),
        generic_in(list.push(seq![c])) == generic_in(list),
{
    let s = seq![c];
    let known = seq!['W', 'U', 'B', 'R', 'G', 'C', 'X', 'Y', 'Z', 'S', 'P'];
    assert(list.push(s).drop_last() =~= list);
    assert(s[0] == c);
    assert(known[0] == 'W' && known[1] == 'U' && known[2] == 'B' && known[3] == 'R' && known[4]
        == 'G' && known[5] == 'C' && known[6] == 'X' && known[7] == 'Y' && known[8] == 'Z' && known[9]
        == 'S' && known[10] == 'P');
    assert forall|k: int| 0 <= k < known.len() implies known.contains(#[trigger] known[k]) by {}
    assert(text::unsigned_part(s) =~= s);
    if number(s, 255) is Some {
        assert(text::is_digit(s[0]));
    }
    assert(seq!['X'][0] == 'X' && seq!['Y'][0] == 'Y' && seq!['Z'][0] == 'Z' && seq!['S'][0] == 'S');
    assert(color_of(s) is None);
}

} // verus!
