//! The regular expressions by which lines are recognised.
use regex::Regex;
use vstd::prelude::*;

use crate::text::{all_ascii, all_digits, before, begins, is_digit, is_ws, occurs, trimmed_start};

verus! {

/// The compiled pattern `regex::Regex`.
#[verifier::external_type_specification]
#[verifier::external_body]
pub struct ExRegex(Regex);

/// The pattern that a regular expression was made from, as `Regex::as_str`
/// gives it.
pub uninterp spec fn pattern_of(re: Regex) -> Seq<char>;

/// What `Regex::captures` finds with a pattern in a text: the whole match,
/// then each group, with nothing for a group that took no part; nothing at all
/// where the pattern does not match.
pub uninterp spec fn captures_of(
    pattern: Seq<char>,
    text: Seq<char>,
) -> Option<Seq<Option<Seq<char>>>>;

/// What `Regex::replace` makes of a text with the empty text as replacement.
pub uninterp spec fn without_match(pattern: Seq<char>, text: Seq<char>) -> Seq<char>;

/// A time of day as the log writes it before a message.
pub const TIMESTAMP_PATTERN: &'static str =
    r"^\d{1,2}/\d{1,2}/\d{4} \d{1,2}:\d{2}:\d{2}(?: [AP]M)?:\s*";

/// An arrow, a message name, an argument in round brackets, and a JSON body
/// that begins on the same line.
pub const HEADER_PATTERN: &'static str =
    r"^(==>|<==)\s+([A-Za-z0-9_.]+)(?:\([^)]*\))?\s*(\{.*)?$";

/// A message from or to the match, and a JSON body that begins on the same
/// line.
pub const MATCH_FLOW_PATTERN: &'static str =
    r"^(?:Match to [A-Z0-9_]+|[A-Z0-9_]+ to Match):\s+([A-Za-z][A-Za-z0-9_]*)\s*(\{.*)?$";

/// A line of a deck list: quantity, name, set and collector number.
pub const ARENA_PATTERN: &'static str =
    r"(?i)^\s*(\d+)x?\s+(.+?)\s+\(([A-Z0-9]{2,5})\)\s+([A-Z0-9★†_-]+)\s*$";

/// A line with a card id and a quantity.
pub const ID_QTY_PATTERN: &'static str = r"^\s*(\d{3,7})[\s,]+(\d+)\s*$";

/// One of the patterns above.
pub open spec fn known(pattern: Seq<char>) -> bool {
    ||| pattern == TIMESTAMP_PATTERN@
    ||| pattern == HEADER_PATTERN@
    ||| pattern == MATCH_FLOW_PATTERN@
    ||| pattern == ARENA_PATTERN@
    ||| pattern == ID_QTY_PATTERN@
}

/// A text that may be absent.
pub open spec fn opt_text(o: Option<String>) -> Option<Seq<char>> {
    match o {
        Some(s) => Some(s@),
        None => None,
    }
}

/// The groups of a match.
pub open spec fn group_views(groups: Seq<Option<String>>) -> Seq<Option<Seq<char>>> {
    groups.map_values(|o: Option<String>| opt_text(o))
}

/// The group with this number; nothing where there is none or it took no part.
pub open spec fn group(groups: Seq<Option<Seq<char>>>, i: int) -> Option<Seq<char>> {
    if 0 <= i < groups.len() {
        groups[i]
    } else {
        None
    }
}

/// A character of a set code.
pub open spec fn set_char(c: char) -> bool {
    is_digit(c) || 'A' <= c <= 'Z' || 'a' <= c <= 'z'
}

/// A character of a collector number.
pub open spec fn print_char(c: char) -> bool {
    set_char(c) || c == '★' || c == '†' || c == '_' || c == '-'
}

/// The text is a quantity, a name, a set code in brackets and a collector
/// number, with one space between any two of them.
pub open spec fn arena_form(
    text: Seq<char>,
    qty: Seq<char>,
    name: Seq<char>,
    set: Seq<char>,
    num: Seq<char>,
) -> bool {
    &&& text == qty + " "@ + name + " ("@ + set + ") "@ + num
    &&& qty.len() > 0 && all_digits(qty)
    &&& name.len() > 0 && !name.contains('\n')
    &&& 2 <= set.len() <= 5
    &&& forall|i: int| 0 <= i < set.len() ==> set_char(#[trigger] set[i])
    &&& num.len() > 0
    &&& forall|i: int| 0 <= i < num.len() ==> print_char(#[trigger] num[i])
}

/// The text is a card id of three to seven digits and a quantity, with commas
/// and spaces between them.
pub open spec fn id_form(
    text: Seq<char>,
    id: Seq<char>,
    sep: Seq<char>,
    qty: Seq<char>,
) -> bool {
    &&& text == id + sep + qty
    &&& 3 <= id.len() <= 7 && all_digits(id)
    &&& sep.len() > 0
    &&& forall|i: int| 0 <= i < sep.len() ==> (#[trigger] sep[i] == ',' || sep[i] == ' ')
    &&& qty.len() > 0 && all_digits(qty)
}

/// The text is of the plainest form of a line with set and collector number.
pub open spec fn is_arena_form(text: Seq<char>) -> bool {
    exists|qty: Seq<char>, name: Seq<char>, set: Seq<char>, num: Seq<char>|
        arena_form(text, qty, name, set, num)
}

/// Nothing but white space stands before an ASCII character that is no digit.
pub open spec fn begins_without_number(text: Seq<char>) -> bool {
    let i = run_end(text, 0, spaces());
    i < text.len() && (text[i] as u32) < 0x80 && !is_digit(text[i])
}

/// What the pattern for deck lists finds: in a line of the plainest form the
/// parts that it is made of, and nothing where there is no bracket before a set
/// code or no number at the beginning. For other lines this is a name for what
/// it finds.
pub open spec fn arena_found(text: Seq<char>) -> Option<Seq<Option<Seq<char>>>> {
    if is_arena_form(text) {
        let (qty, name, set, num) = choose|
            qty: Seq<char>,
            name: Seq<char>,
            set: Seq<char>,
            num: Seq<char>,
        | arena_form(text, qty, name, set, num);
        Some(seq![Some(text), Some(qty), Some(name), Some(set), Some(num)])
    } else if !text.contains('(') || begins_without_number(text) {
        None
    } else {
        captures_of(ARENA_PATTERN@, text)
    }
}

/// The digits, as a class.
pub open spec fn numerals() -> spec_fn(char) -> bool {
    |c: char| is_digit(c)
}

/// White space and commas, as a class.
pub open spec fn separators() -> spec_fn(char) -> bool {
    |c: char| is_ws(c) || c == ','
}

/// The card id of three to seven digits and the quantity of a line in ASCII,
/// with commas and white space between them.
pub open spec fn id_parts(s: Seq<char>) -> Option<(Seq<char>, Seq<char>)> {
    let i = run_end(s, 0, spaces());
    let j = run_end(s, i, numerals());
    let k = run_end(s, j, separators());
    let m = run_end(s, k, numerals());
    if 3 <= j - i <= 7 && k > j && m > k && run_end(s, m, spaces()) == s.len() {
        Some((s.subrange(i, j), s.subrange(k, m)))
    } else {
        None
    }
}

/// A line with a card id and a quantity may hold this character.
pub open spec fn id_char(c: char) -> bool {
    is_digit(c) || is_ws(c) || c == ',' || (c as u32) >= 0x80
}

/// What the pattern for card ids finds: the id and the quantity of a line in
/// ASCII, and nothing where another ASCII character stands. For other lines this
/// is a name for what it finds.
pub open spec fn id_found(text: Seq<char>) -> Option<Seq<Option<Seq<char>>>> {
    if all_ascii(text) {
        match id_parts(text) {
            Some((id, qty)) => Some(seq![Some(text), Some(id), Some(qty)]),
            None => None,
        }
    } else if exists|i: int| 0 <= i < text.len() && !id_char(#[trigger] text[i]) {
        None
    } else {
        captures_of(ID_QTY_PATTERN@, text)
    }
}

/// What the patterns find: the parts that make up a line, and nothing in other
/// lines. Of a line of a deck list what is found is stated for quantity, set
/// code and number, and the name is left open.
pub open spec fn finds_parts(
    pattern: Seq<char>,
    text: Seq<char>,
    found: Option<Seq<Option<Seq<char>>>>,
) -> bool {
    &&& pattern == ARENA_PATTERN@ ==> match arena_found(text) {
        Some(g) => found is Some && group(found.unwrap(), 1) == group(g, 1) && group(
            found.unwrap(),
            3,
        ) == group(g, 3) && group(found.unwrap(), 4) == group(g, 4),
        None => found is None,
    }
    &&& pattern == ID_QTY_PATTERN@ ==> match id_found(text) {
        Some(g) => found is Some && group(found.unwrap(), 1) == group(g, 1) && group(
            found.unwrap(),
            2,
        ) == group(g, 2),
        None => found is None,
    }
    &&& pattern == MATCH_FLOW_PATTERN@ ==> match flow_parts(text) {
        Some((kind, body)) => found is Some && group(found.unwrap(), 1) == Some(kind) && group(
            found.unwrap(),
            2,
        ) == body,
        None => found is None,
    }
    &&& pattern == HEADER_PATTERN@ ==> match arrow_parts(text) {
        Some((arrow, kind, body)) => found is Some && group(found.unwrap(), 1) == Some(arrow)
            && group(found.unwrap(), 2) == Some(kind) && group(found.unwrap(), 3) == body,
        None => found is None,
    }
}

/// A character of the name of a message.
pub open spec fn kind_char(c: char) -> bool {
    set_char(c) || c == '_' || c == '.'
}

/// A part that may be absent, between two texts.
pub open spec fn between(before: Seq<char>, part: Option<Seq<char>>, behind: Seq<char>) -> Seq<char> {
    match part {
        Some(p) => before + p + behind,
        None => seq![],
    }
}

/// The body that begins on the line of a header: it begins with a brace.
pub open spec fn body_form(body: Option<Seq<char>>) -> bool {
    body matches Some(b) ==> b.len() > 0 && b[0] == '{' && !b.contains('\n')
}

/// The text is an arrow, the name of a message, an argument in round brackets
/// or none, and the beginning of a body or none.
pub open spec fn arrow_form(
    text: Seq<char>,
    arrow: Seq<char>,
    kind: Seq<char>,
    arg: Option<Seq<char>>,
    body: Option<Seq<char>>,
) -> bool {
    &&& text == arrow + " "@ + kind + between("("@, arg, ")"@) + between(" "@, body, seq![])
    &&& arrow == "==>"@ || arrow == "<=="@
    &&& kind.len() > 0
    &&& forall|i: int| 0 <= i < kind.len() ==> kind_char(#[trigger] kind[i])
    &&& arg matches Some(a) ==> !a.contains(')')
    &&& body_form(body)
}

/// Where the characters of a class that stand from `i` on end.
pub open spec fn run_end(s: Seq<char>, i: int, class: spec_fn(char) -> bool) -> int
    decreases s.len() - i,
{
    if 0 <= i < s.len() && class(s[i]) {
        run_end(s, i + 1, class)
    } else {
        i
    }
}

/// Characters of a class up to one that is not in it are a run.
pub proof fn lemma_run_end(s: Seq<char>, i: int, j: int, class: spec_fn(char) -> bool)
    requires
        0 <= i <= j <= s.len(),
        forall|k: int| i <= k < j ==> class(#[trigger] s[k]),
        j < s.len() ==> !class(s[j]),
    ensures
        run_end(s, i, class) == j,
    decreases j - i,
{
    if i < j {
        lemma_run_end(s, i + 1, j, class);
    }
}

/// White space, as a class.
pub open spec fn spaces() -> spec_fn(char) -> bool {
    |c: char| is_ws(c)
}

/// The characters of the name of a message behind an arrow.
pub open spec fn kinds() -> spec_fn(char) -> bool {
    |c: char| kind_char(c)
}

/// The characters of a player's id.
pub open spec fn players() -> spec_fn(char) -> bool {
    |c: char| player_char(c)
}

/// The characters of the name of a message from or to the match.
pub open spec fn names() -> spec_fn(char) -> bool {
    |c: char| set_char(c) || c == '_'
}

/// What stands behind the header proper, from `i` on: white space, and then
/// nothing or the beginning of a body, which is a brace and all that follows on
/// the line; nothing where anything else stands there.
pub open spec fn body_at(s: Seq<char>, i: int) -> Option<Option<Seq<char>>> {
    let m = run_end(s, i, spaces());
    if m >= s.len() {
        Some(None)
    } else if s[m] == '{' && !s.skip(m).contains('\n') {
        Some(Some(s.skip(m)))
    } else {
        None
    }
}

/// Where an argument in round brackets ends that begins at `i`; `i` where none
/// begins there, and beyond the text where it is not closed.
pub open spec fn argument_end(s: Seq<char>, i: int) -> int {
    if i < s.len() && s[i] == '(' {
        i + before(s.skip(i), ')') + 1
    } else {
        i
    }
}

/// The parts of a line with an arrow: the arrow, the name of the message, and
/// the beginning of the body, if that is there.
pub open spec fn arrow_parts(s: Seq<char>) -> Option<(Seq<char>, Seq<char>, Option<Seq<char>>)> {
    let i = run_end(s, 3, spaces());
    let j = run_end(s, i, kinds());
    let k = argument_end(s, j);
    if !begins(s, "==>"@) && !begins(s, "<=="@) || i == 3 || j == i || k > s.len() {
        None
    } else {
        match body_at(s, k) {
            Some(body) => Some((s.take(3), s.subrange(i, j), body)),
            None => None,
        }
    }
}

/// Where the sender and the receiver of a message end, one of whom is the match.
pub open spec fn route_end(s: Seq<char>) -> Option<int> {
    if begins(s, "Match to "@) {
        let j = run_end(s, 9, players());
        if j > 9 {
            Some(j)
        } else {
            None
        }
    } else {
        let j = run_end(s, 0, players());
        if j > 0 && begins(s.skip(j), " to Match"@) {
            Some(j + 9)
        } else {
            None
        }
    }
}

/// The parts of a line from or to the match: the name of the message, and the
/// beginning of the body, if that is there.
pub open spec fn flow_parts(s: Seq<char>) -> Option<(Seq<char>, Option<Seq<char>>)> {
    match route_end(s) {
        Some(p) => {
            let i = run_end(s, p + 1, spaces());
            let j = run_end(s, i, names());
            if p >= s.len() || s[p] != ':' || i == p + 1 || j == i || is_digit(s[i]) || s[i]
                == '_' {
                None
            } else {
                match body_at(s, j) {
                    Some(body) => Some((s.subrange(i, j), body)),
                    None => None,
                }
            }
        },
        None => None,
    }
}

/// A character of a player's id.
pub open spec fn player_char(c: char) -> bool {
    is_digit(c) || 'A' <= c <= 'Z' || c == '_'
}

/// The text is a message from the match to a player or the other way, its name,
/// and the beginning of a body or none.
pub open spec fn flow_form(
    text: Seq<char>,
    player: Seq<char>,
    from_match: bool,
    kind: Seq<char>,
    body: Option<Seq<char>>,
) -> bool {
    &&& text == (if from_match {
        "Match to "@ + player
    } else {
        player + " to Match"@
    }) + ": "@ + kind + between(" "@, body, seq![])
    &&& player.len() > 0
    &&& forall|i: int| 0 <= i < player.len() ==> player_char(#[trigger] player[i])
    &&& kind.len() > 0 && ('A' <= kind[0] <= 'Z' || 'a' <= kind[0] <= 'z')
    &&& forall|i: int| 0 <= i < kind.len() ==> (set_char(#[trigger] kind[i]) || kind[i] == '_')
    &&& body_form(body)
}

/// How many ASCII digits stand from `i` on.
pub open spec fn digit_run(s: Seq<char>, i: int) -> nat
    decreases s.len() - i,
{
    if 0 <= i < s.len() && is_digit(s[i]) {
        1 + digit_run(s, i + 1)
    } else {
        0
    }
}

/// Where a number from `i` on and the character behind it end: as many digits
/// as are allowed, and that character.
pub open spec fn number_end(s: Seq<char>, i: int, least: nat, most: nat, c: char) -> Option<int> {
    let n = digit_run(s, i);
    if least <= n <= most && i + n < s.len() && s[i + n] == c {
        Some(i + n + 1)
    } else {
        None
    }
}

/// Where a date ends, such as `5/11/2026 `: month, day and year.
pub open spec fn date_end(s: Seq<char>) -> Option<int> {
    match number_end(s, 0, 1, 2, '/') {
        Some(day) => match number_end(s, day, 1, 2, '/') {
            Some(year) => number_end(s, year, 4, 4, ' '),
            None => None,
        },
        None => None,
    }
}

/// Where seconds from `i` on end, with the half of the day behind them, if that
/// is said, and a colon.
pub open spec fn seconds_end(s: Seq<char>, i: int) -> Option<int> {
    let end = i + 2;
    if digit_run(s, i) != 2 {
        None
    } else if end < s.len() && s[end] == ':' {
        Some(end + 1)
    } else if end + 3 < s.len() && s[end] == ' ' && (s[end + 1] == 'A' || s[end + 1] == 'P')
        && s[end + 2] == 'M' && s[end + 3] == ':' {
        Some(end + 4)
    } else {
        None
    }
}

/// Where the time at the beginning of a text ends, as the log writes it, such
/// as `5/11/2026 4:56:02 PM:`.
pub open spec fn time_end(s: Seq<char>) -> Option<int> {
    match date_end(s) {
        Some(hour) => match number_end(s, hour, 1, 2, ':') {
            Some(minute) => match number_end(s, minute, 2, 2, ':') {
                Some(second) => seconds_end(s, second),
                None => None,
            },
            None => None,
        },
        None => None,
    }
}

/// How long a time is at most.
pub const LONGEST_TIME: i32 = 23;

/// Whether the text begins with a time does not depend on what counts as a
/// digit beyond ASCII: an ASCII character that cannot stand there ends the first
/// number, or all is ASCII so far as a time goes.
pub open spec fn plain_start(s: Seq<char>) -> bool {
    let n = digit_run(s, 0) as int;
    ||| n < s.len() && (s[n] as u32) < 0x80 && (n == 0 || s[n] != '/')
    ||| forall|i: int|
        0 <= i < s.len() && i < LONGEST_TIME ==> (#[trigger] s[i] as u32) < 0x80
}

/// The text without a time at its beginning and the white space behind that. Of
/// a text that may begin with digits of other scripts than ASCII this is what
/// the pattern for times leaves of it.
pub open spec fn timeless(s: Seq<char>) -> Seq<char> {
    match time_end(s) {
        Some(n) => trimmed_start(s.skip(n)),
        None => if plain_start(s) {
            s
        } else {
            without_match(TIMESTAMP_PATTERN@, s)
        },
    }
}

/// A line of the plainest form has one quantity, one set code and one number.
pub proof fn lemma_arena_form_once(
    text: Seq<char>,
    qty: Seq<char>,
    name: Seq<char>,
    set: Seq<char>,
    num: Seq<char>,
    qty2: Seq<char>,
    name2: Seq<char>,
    set2: Seq<char>,
    num2: Seq<char>,
)
    requires
        arena_form(text, qty, name, set, num),
        arena_form(text, qty2, name2, set2, num2),
    ensures
        qty == qty2,
        set == set2,
        num == num2,
{
    lemma_arena_ends(text, qty, name, set, num);
    lemma_arena_ends(text, qty2, name2, set2, num2);
    let n = text.len() as int;
    // The number ends at the last space.
    let a = n - num.len();
    let b = n - num2.len();
    if a < b {
        assert(print_char(num[b - 1 - a]));
        assert(text[b - 1] == num[b - 1 - a]);
    } else if b < a {
        assert(print_char(num2[a - 1 - b]));
        assert(text[a - 1] == num2[a - 1 - b]);
    }
    assert(num =~= num2);
    // The set code ends at the bracket before it.
    let c = a - 2 - set.len();
    let d = a - 2 - set2.len();
    if c < d {
        assert(set_char(set[d - 1 - c]));
        assert(text[d - 1] == set[d - 1 - c]);
    } else if d < c {
        assert(set_char(set2[c - 1 - d]));
        assert(text[c - 1] == set2[c - 1 - d]);
    }
    assert(set =~= set2);
    // The quantity ends at the first space.
    if qty.len() < qty2.len() {
        assert(is_digit(qty2[qty.len() as int]));
    } else if qty2.len() < qty.len() {
        assert(is_digit(qty[qty2.len() as int]));
    }
    assert(qty =~= qty2);
}

/// Where the parts of such a line stand.
proof fn lemma_arena_ends(
    text: Seq<char>,
    qty: Seq<char>,
    name: Seq<char>,
    set: Seq<char>,
    num: Seq<char>,
)
    requires
        arena_form(text, qty, name, set, num),
    ensures
        ({
            let a = text.len() - num.len();
            let c = a - 2 - set.len();
            &&& 0 < c
            &&& qty.len() < c
            &&& text[a - 1] == ' '
            &&& text[c - 1] == '('
            &&& text[qty.len() as int] == ' '
            &&& forall|i: int| 0 <= i < qty.len() ==> text[i] == qty[i]
            &&& forall|i: int| 0 <= i < num.len() ==> text[a + i] == num[i]
            &&& forall|i: int| 0 <= i < set.len() ==> text[c + i] == set[i]
            &&& text.subrange(a, text.len() as int) == num
            &&& text.subrange(c, c + set.len()) == set
            &&& text.subrange(0, qty.len() as int) == qty
        }),
{
    reveal_strlit(" ");
    reveal_strlit(" (");
    reveal_strlit(") ");
    let a = text.len() - num.len();
    let c = a - 2 - set.len();
    assert(text.subrange(a, text.len() as int) =~= num);
    assert(text.subrange(c, c + set.len()) =~= set);
    assert(text.subrange(0, qty.len() as int) =~= qty);
    assert forall|i: int| 0 <= i < num.len() implies text[a + i] == num[i] by {}
    assert forall|i: int| 0 <= i < set.len() implies text[c + i] == set[i] by {}
}

/// What a match found.
pub open spec fn found_groups(g: Option<Vec<Option<String>>>) -> Option<Seq<Option<Seq<char>>>> {
    match g {
        Some(v) => Some(group_views(v@)),
        None => None,
    }
}

/// `Regex::new` for one of the patterns above, all of which are well formed.
#[verifier::external_body]
pub(crate) fn compile(pattern: &str) -> (re: Regex)
    requires
        known(pattern@),
    ensures
        pattern_of(re) == pattern@,
{
    Regex::new(pattern).expect("pattern compiles")
}

/// `Regex::captures`: what it finds depends on the pattern and the text alone,
/// and each group is a part of the text. In lines of the log, in the plainest
/// lines of a deck list and in lines with a card id, the groups are the parts
/// that the line is made of, as the syntax of the patterns says.
#[verifier::external_body]
pub(crate) fn captures(re: &Regex, text: &str) -> (groups: Option<Vec<Option<String>>>)
    ensures
        match groups {
            None => captures_of(pattern_of(*re), text@) is None,
            Some(g) => {
                &&& captures_of(pattern_of(*re), text@) == Some(group_views(g@))
                &&& forall|i: int|
                    0 <= i < g@.len() ==> (#[trigger] g@[i] matches Some(s) ==> occurs(text@, s@))
            },
        },
        finds_parts(pattern_of(*re), text@, found_groups(groups)),
{
    re.captures(text).map(|c| c.iter().map(|g| g.map(|m| m.as_str().to_string())).collect())
}

/// `Regex::replace` with the empty text: it takes at most one part out of the
/// text, and which one depends on the pattern and the text alone. The pattern
/// for times takes a time and the white space behind it from the beginning of a
/// text, and nothing from a text that does not begin with a time. What it takes
/// to be a digit beyond ASCII is not said.
#[verifier::external_body]
pub(crate) fn remove_match(re: &Regex, text: &str) -> (r: String)
    ensures
        r@ == without_match(pattern_of(*re), text@),
        r@.len() <= text@.len(),
        pattern_of(*re) == TIMESTAMP_PATTERN@ ==> r@ == timeless(text@),
{
    re.replace(text, "").into_owned()
}

/// The group with this number, borrowed.
pub fn group_of(groups: &Vec<Option<String>>, i: usize) -> (r: Option<&String>)
    ensures
        match r {
            Some(s) => group(group_views(groups@), i as int) == Some(s@) && groups@[i as int]
                == Some(*s) && i < groups@.len(),
            None => group(group_views(groups@), i as int) is None,
        },
{
    if i < groups.len() {
        match &groups[i] {
            Some(s) => Some(s),
            None => None,
        }
    } else {
        None
    }
}

/// So many digits stand there.
pub open spec fn digits_of(s: Seq<char>, least: nat, most: nat) -> bool {
    least <= s.len() <= most && forall|i: int| 0 <= i < s.len() ==> '0' <= #[trigger] s[i] <= '9'
}

proof fn lemma_digit_run(s: Seq<char>, i: int, n: int)
    requires
        0 <= i <= n <= s.len(),
        forall|k: int| i <= k < n ==> is_digit(#[trigger] s[k]),
        n < s.len() ==> !is_digit(s[n]),
    ensures
        digit_run(s, i) == n - i,
    decreases n - i,
{
    if i < n {
        assert(is_digit(s[i]));
        lemma_digit_run(s, i + 1, n);
    }
}

/// A number with a character behind it is passed over.
proof fn lemma_number_end(
    front: Seq<char>,
    number: Seq<char>,
    c: char,
    rest: Seq<char>,
    least: nat,
    most: nat,
)
    requires
        digits_of(number, least, most),
        !is_digit(c),
    ensures
        number_end(front + number + seq![c] + rest, front.len() as int, least, most, c) == Some(
            (front + number + seq![c]).len() as int,
        ),
{
    let s = front + number + seq![c] + rest;
    let i = front.len() as int;
    let n = i + number.len();
    assert forall|k: int| i <= k < n implies is_digit(#[trigger] s[k]) by {
        assert(s[k] == number[k - i]);
    }
    assert(s[n] == c);
    lemma_digit_run(s, i, n);
}

/// A time in front of a text is taken off with the white space behind it: month,
/// day and year, then hour, minute and second, and the half of the day where it
/// is said.
pub proof fn law_time_taken_off(
    date: (Seq<char>, Seq<char>, Seq<char>),
    time: (Seq<char>, Seq<char>, Seq<char>),
    half: Seq<char>,
    rest: Seq<char>,
)
    requires
        digits_of(date.0, 1, 2),
        digits_of(date.1, 1, 2),
        digits_of(date.2, 4, 4),
        digits_of(time.0, 1, 2),
        digits_of(time.1, 2, 2),
        digits_of(time.2, 2, 2),
        half.len() == 0 || half == seq![' ', 'A', 'M'] || half == seq![' ', 'P', 'M'],
    ensures
        ({
            let t = date.0 + seq!['/'] + date.1 + seq!['/'] + date.2 + seq![' '] + time.0 + seq![
                ':',
            ] + time.1 + seq![':'] + time.2 + half + seq![':'];
            timeless(t + rest) == trimmed_start(rest)
        }),
{
    let nothing = Seq::<char>::empty();
    let a = date.0 + seq!['/'];
    let b = a + date.1 + seq!['/'];
    let c = b + date.2 + seq![' '];
    let d = c + time.0 + seq![':'];
    let e = d + time.1 + seq![':'];
    let t = e + time.2 + half + seq![':'];
    let s = t + rest;
    let after_e = time.2 + half + seq![':'] + rest;
    let after_d = time.1 + seq![':'] + after_e;
    let after_c = time.0 + seq![':'] + after_d;
    let after_b = date.2 + seq![' '] + after_c;
    let after_a = date.1 + seq!['/'] + after_b;
    assert(s =~= nothing + date.0 + seq!['/'] + after_a);
    assert(s =~= a + date.1 + seq!['/'] + after_b);
    assert(s =~= b + date.2 + seq![' '] + after_c);
    assert(s =~= c + time.0 + seq![':'] + after_d);
    assert(s =~= d + time.1 + seq![':'] + after_e);
    lemma_number_end(nothing, date.0, '/', after_a, 1, 2);
    assert(nothing + date.0 + seq!['/'] =~= a);
    lemma_number_end(a, date.1, '/', after_b, 1, 2);
    lemma_number_end(b, date.2, ' ', after_c, 4, 4);
    lemma_number_end(c, time.0, ':', after_d, 1, 2);
    lemma_number_end(d, time.1, ':', after_e, 2, 2);
    let i = e.len() as int;
    assert(s =~= e + time.2 + half + seq![':'] + rest);
    assert forall|k: int| i <= k < i + 2 implies is_digit(#[trigger] s[k]) by {
        assert(s[k] == time.2[k - i]);
    }
    assert(half.len() == 0 ==> s[i + 2] == ':');
    assert(half.len() == 3 ==> s[i + 2] == half[0] && s[i + 3] == half[1] && s[i + 4] == half[2]
        && s[i + 5] == ':');
    assert(half.len() == 0 || half.len() == 3);
    lemma_digit_run(s, i, i + 2);
    assert(time_end(s) == Some(t.len() as int));
    assert(s.skip(t.len() as int) =~= rest);
}

/// A text that does not begin with a digit has no time in front, and stays.
pub proof fn law_no_time(s: Seq<char>)
    requires
        s.len() == 0 || ((s[0] as u32) < 0x80 && !('0' <= s[0] <= '9')),
    ensures
        timeless(s) == s,
{
    lemma_digit_run(s, 0, 0);
}

} // verus!
