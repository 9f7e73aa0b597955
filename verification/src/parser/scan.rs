//! Finding the end of a JSON body that runs over many lines: brackets are
//! counted outside of strings.
use vstd::prelude::*;

verus! {

/// Where a scan stands.
pub ghost struct Scan {
    pub depth: int,
    pub in_string: bool,
    /// The character before was a backslash in a string.
    pub escape: bool,
    /// A bracket was opened.
    pub seen_open: bool,
}

/// A scan that begins.
pub open spec fn fresh() -> Scan {
    Scan { depth: 0, in_string: false, escape: false, seen_open: false }
}

/// After one more character.
pub open spec fn step(s: Scan, c: char) -> Scan {
    if s.escape {
        Scan { escape: false, ..s }
    } else if s.in_string {
        if c == '\\' {
            Scan { escape: true, ..s }
        } else if c == '"' {
            Scan { in_string: false, ..s }
        } else {
            s
        }
    } else if c == '"' {
        Scan { in_string: true, ..s }
    } else if c == '{' || c == '[' {
        Scan { depth: s.depth + 1, seen_open: true, ..s }
    } else if c == '}' || c == ']' {
        Scan { depth: s.depth - 1, ..s }
    } else {
        s
    }
}

/// The character closes the bracket that was opened first.
pub open spec fn closes(s: Scan, c: char) -> bool {
    !s.escape && !s.in_string && (c == '}' || c == ']') && s.seen_open && s.depth == 1
}

/// Scans a text up to the character that closes the body: where the scan then
/// stands, how many characters were taken, and whether the body was closed.
pub open spec fn scanned(s: Scan, text: Seq<char>) -> (Scan, int, bool)
    decreases text.len(),
{
    if text.len() == 0 {
        (s, 0, false)
    } else if closes(s, text[0]) {
        (step(s, text[0]), 1, true)
    } else {
        let (t, n, done) = scanned(step(s, text[0]), text.skip(1));
        (t, n + 1, done)
    }
}

/// A scan takes no more characters than there are, and all of them where it
/// does not reach the end of the body; the depth changes by at most one each.
pub proof fn lemma_scanned(s: Scan, text: Seq<char>)
    ensures
        0 <= scanned(s, text).1 <= text.len(),
        !scanned(s, text).2 ==> scanned(s, text).1 == text.len(),
        s.depth - text.len() <= scanned(s, text).0.depth <= s.depth + text.len(),
    decreases text.len(),
{
    if text.len() > 0 && !closes(s, text[0]) {
        lemma_scanned(step(s, text[0]), text.skip(1));
    }
}

/// A bracket that was seen stays seen.
pub proof fn lemma_stays_open(s: Scan, text: Seq<char>)
    requires
        s.seen_open,
    ensures
        scanned(s, text).0.seen_open,
    decreases text.len(),
{
    if text.len() > 0 && !closes(s, text[0]) {
        lemma_stays_open(step(s, text[0]), text.skip(1));
    }
}

/// Scanning two texts one after the other is scanning them as one: what the
/// first leaves open the second goes on with.
pub proof fn law_scan_in_parts(s: Scan, a: Seq<char>, b: Seq<char>)
    ensures
        scanned(s, a).2 ==> scanned(s, a + b) == scanned(s, a),
        !scanned(s, a).2 ==> scanned(s, a + b) == ({
            let (t, n, done) = scanned(scanned(s, a).0, b);
            (t, a.len() + n, done)
        }),
    decreases a.len(),
{
    if a.len() == 0 {
        assert(a + b =~= b);
    } else {
        assert((a + b)[0] == a[0]);
        assert((a + b).skip(1) =~= a.skip(1) + b);
        if !closes(s, a[0]) {
            law_scan_in_parts(step(s, a[0]), a.skip(1), b);
        }
    }
}

/// A line break between two tokens changes nothing: a body is closed at the
/// same place however it is broken into lines.
pub proof fn law_line_breaks(s: Scan, a: Seq<char>, b: Seq<char>)
    requires
        !scanned(s, a).2,
        !scanned(s, a).0.in_string,
        !scanned(s, a).0.escape,
    ensures
        scanned(s, a.push('\n') + b).2 == scanned(s, a + b).2,
        scanned(s, a.push('\n') + b).0 == scanned(s, a + b).0,
        scanned(s, a.push('\n') + b).1 == scanned(s, a + b).1 + 1,
{
    law_scan_in_parts(s, a, b);
    let t = scanned(s, a).0;
    law_scan_in_parts(s, a, seq!['\n'] + b);
    assert(a.push('\n') + b =~= a + (seq!['\n'] + b));
    assert((seq!['\n'] + b).skip(1) =~= b);
    assert((seq!['\n'] + b)[0] == '\n');
}

/// Brackets in a string do not count: within a string, text without a quote or
/// a backslash leaves the scan as it is.
pub proof fn law_strings_hide_brackets(s: Scan, text: Seq<char>)
    requires
        s.in_string,
        !s.escape,
        forall|i: int| 0 <= i < text.len() ==> #[trigger] text[i] != '"' && text[i] != '\\',
    ensures
        scanned(s, text) == (s, text.len() as int, false),
    decreases text.len(),
{
    if text.len() > 0 {
        assert(text[0] != '"' && text[0] != '\\');
        assert(step(s, text[0]) == s);
        let rest = text.skip(1);
        assert forall|i: int| 0 <= i < rest.len() implies #[trigger] rest[i] != '"' && rest[i]
            != '\\' by {
            assert(rest[i] == text[i + 1]);
        }
        law_strings_hide_brackets(s, rest);
    }
}

/// A piece of a JSON text, by its brackets and strings alone.
pub ghost enum Piece {
    /// Any character but a bracket and a quote.
    Other(char),
    /// A string: characters other than quote and backslash, and characters
    /// with a backslash before them.
    Quoted(Seq<(bool, char)>),
    /// Pieces between two brackets.
    Group(char, Seq<Piece>, char),
}

/// The text of what is in a string.
pub open spec fn quoted_text(units: Seq<(bool, char)>) -> Seq<char>
    decreases units.len(),
{
    if units.len() == 0 {
        seq![]
    } else if units[0].0 {
        seq!['\\', units[0].1] + quoted_text(units.skip(1))
    } else {
        seq![units[0].1] + quoted_text(units.skip(1))
    }
}

/// The text of a piece.
pub open spec fn piece_text(p: Piece) -> Seq<char>
    decreases p, 0int,
{
    match p {
        Piece::Other(c) => seq![c],
        Piece::Quoted(units) => seq!['"'] + quoted_text(units) + seq!['"'],
        Piece::Group(open, inner, close) => seq![open] + pieces_text(inner) + seq![close],
    }
}

/// The text of pieces one after the other.
pub open spec fn pieces_text(list: Seq<Piece>) -> Seq<char>
    decreases list, list.len(),
{
    if list.len() == 0 {
        seq![]
    } else {
        piece_text(list[0]) + pieces_text(list.skip(1))
    }
}

/// A quote or a backslash in a string has a backslash before it.
pub open spec fn plain_units(units: Seq<(bool, char)>) -> bool {
    forall|i: int|
        0 <= i < units.len() && !(#[trigger] units[i]).0 ==> units[i].1 != '"' && units[i].1
            != '\\'
}

/// The characters of the piece are where they belong.
pub open spec fn well_built(p: Piece) -> bool
    decreases p,
{
    match p {
        Piece::Other(c) => c != '"' && c != '{' && c != '}' && c != '[' && c != ']',
        Piece::Quoted(units) => plain_units(units),
        Piece::Group(open, inner, close) => {
            &&& open == '{' || open == '['
            &&& close == '}' || close == ']'
            &&& forall|i: int| 0 <= i < inner.len() ==> well_built(#[trigger] inner[i])
        },
    }
}

/// The characters in a string leave the scan in it.
proof fn lemma_quoted(s: Scan, units: Seq<(bool, char)>)
    requires
        s.in_string,
        !s.escape,
        plain_units(units),
    ensures
        scanned(s, quoted_text(units)) == (s, quoted_text(units).len() as int, false),
    decreases units.len(),
{
    if units.len() > 0 {
        let rest = units.skip(1);
        assert forall|i: int| 0 <= i < rest.len() && !(#[trigger] rest[i]).0 implies rest[i].1
            != '"' && rest[i].1 != '\\' by {
            assert(rest[i] == units[i + 1]);
        }
        lemma_quoted(s, rest);
        let text = quoted_text(units);
        let c = units[0].1;
        if units[0].0 {
            let t = Scan { escape: true, ..s };
            assert(step(s, '\\') == t);
            assert(step(t, c) == s);
            assert(text[0] == '\\' && text.skip(1)[0] == c);
            assert(text.skip(1).skip(1) =~= quoted_text(rest));
            assert(scanned(t, text.skip(1)) == (s, text.len() - 1, false));
        } else {
            assert(c != '"' && c != '\\');
            assert(step(s, c) == s);
            assert(text[0] == c);
            assert(text.skip(1) =~= quoted_text(rest));
        }
    }
}

/// Inside a body, a piece leaves the scan as it was.
proof fn lemma_piece(s: Scan, p: Piece)
    requires
        !s.in_string,
        !s.escape,
        s.seen_open,
        s.depth >= 1,
        well_built(p),
    ensures
        scanned(s, piece_text(p)) == (s, piece_text(p).len() as int, false),
    decreases p, 0int,
{
    reveal_with_fuel(well_built, 2);
    reveal_with_fuel(scanned, 2);
    let text = piece_text(p);
    match p {
        Piece::Other(c) => {
            assert(text[0] == c && text.skip(1) =~= seq![]);
            assert(step(s, c) == s);
            assert(scanned(s, seq![]) == (s, 0int, false));
        },
        Piece::Quoted(units) => {
            let t = Scan { in_string: true, ..s };
            lemma_quoted(t, units);
            let inner = quoted_text(units);
            law_scan_in_parts(t, inner, seq!['"']);
            assert(step(t, '"') == s);
            assert(seq!['"'].skip(1) =~= Seq::<char>::empty());
            assert(scanned(t, seq!['"']) == (s, 1int, false));
            assert(text[0] == '"');
            assert(text.skip(1) =~= inner + seq!['"']);
            assert(step(s, '"') == t);
        },
        Piece::Group(open, inner, close) => {
            let t = Scan { depth: s.depth + 1, ..s };
            lemma_pieces(t, inner);
            let body = pieces_text(inner);
            law_scan_in_parts(t, body, seq![close]);
            assert(step(t, close) == s);
            assert(seq![close].skip(1) =~= Seq::<char>::empty());
            assert(scanned(t, seq![close]) == (s, 1int, false));
            assert(text[0] == open);
            assert(text.skip(1) =~= body + seq![close]);
            assert(step(s, open) == t);
        },
    }
}

/// Inside a body, pieces leave the scan as it was.
pub proof fn lemma_pieces(s: Scan, list: Seq<Piece>)
    requires
        !s.in_string,
        !s.escape,
        s.seen_open,
        s.depth >= 1,
        forall|i: int| 0 <= i < list.len() ==> well_built(#[trigger] list[i]),
    ensures
        scanned(s, pieces_text(list)) == (s, pieces_text(list).len() as int, false),
    decreases list, list.len(),
{
    if list.len() > 0 {
        let rest = list.skip(1);
        assert forall|i: int| 0 <= i < rest.len() implies well_built(#[trigger] rest[i]) by {
            assert(rest[i] == list[i + 1]);
        }
        lemma_piece(s, list[0]);
        lemma_pieces(s, rest);
        law_scan_in_parts(s, piece_text(list[0]), pieces_text(rest));
    }
}

/// A body ends at the bracket that matches its first one, however deep the
/// brackets between them are nested and whatever strings they hold: the scan
/// takes the whole of it, whatever follows, and no beginning of it is a body.
pub proof fn law_body_ends_at_its_bracket(group: Piece, behind: Seq<char>)
    requires
        group is Group,
        well_built(group),
    ensures
        ({
            let body = piece_text(group);
            &&& scanned(fresh(), body + behind).2
            &&& scanned(fresh(), body + behind).1 == body.len()
            &&& scanned(fresh(), body).2
            &&& scanned(fresh(), body).1 == body.len()
            &&& forall|n: int|
                0 <= n < body.len() ==> !(#[trigger] scanned(fresh(), body.take(n))).2
        }),
{
    let body = piece_text(group);
    let t = Scan { depth: 1, in_string: false, escape: false, seen_open: true };
    match group {
        Piece::Group(open, inner, close) => {
            lemma_pieces(t, inner);
            let mid = pieces_text(inner);
            law_scan_in_parts(t, mid, seq![close]);
            assert(seq![close][0] == close);
            assert(closes(t, close));
            assert(scanned(t, seq![close]).1 == 1 && scanned(t, seq![close]).2);
            assert(body[0] == open);
            assert(body.skip(1) =~= mid + seq![close]);
            assert(step(fresh(), open) == t);
            assert(!closes(fresh(), open));
        },
        _ => {},
    }
    law_scan_in_parts(fresh(), body, behind);
    assert forall|n: int| 0 <= n < body.len() implies !(#[trigger] scanned(
        fresh(),
        body.take(n),
    )).2 by {
        let front = body.take(n);
        assert(body =~= front + body.skip(n));
        law_scan_in_parts(fresh(), front, body.skip(n));
        lemma_scanned(fresh(), front);
    }
}

/// What stands before the first bracket, neither a bracket nor in a string,
/// changes nothing.
pub proof fn law_lead_is_passed(lead: Seq<char>, behind: Seq<char>)
    requires
        forall|i: int|
            0 <= i < lead.len() ==> #[trigger] lead[i] != '"' && lead[i] != '{' && lead[i] != '}'
                && lead[i] != '[' && lead[i] != ']',
    ensures
        scanned(fresh(), lead + behind).2 == scanned(fresh(), behind).2,
        scanned(fresh(), lead + behind).1 == lead.len() + scanned(fresh(), behind).1,
        scanned(fresh(), lead + behind).0 == scanned(fresh(), behind).0,
    decreases lead.len(),
{
    if lead.len() == 0 {
        assert(lead + behind =~= behind);
    } else {
        let rest = lead.skip(1);
        assert forall|i: int| 0 <= i < rest.len() implies #[trigger] rest[i] != '"' && rest[i]
            != '{' && rest[i] != '}' && rest[i] != '[' && rest[i] != ']' by {
            assert(rest[i] == lead[i + 1]);
        }
        law_lead_is_passed(rest, behind);
        assert((lead + behind)[0] == lead[0]);
        assert((lead + behind).skip(1) =~= rest + behind);
        assert(step(fresh(), lead[0]) == fresh());
    }
}

/// Appends the characters of `line` to `buf` up to the one that closes the
/// body, and keeps count of brackets and quotes. Returns whether the body was
/// closed.
pub fn scan_json(
    line: &str,
    depth: &mut i32,
    in_string: &mut bool,
    escape: &mut bool,
    buf: &mut String,
    seen_open: &mut bool,
) -> (done: bool)
    requires
        *old(depth) + line@.len() <= i32::MAX,
        *old(depth) - line@.len() >= i32::MIN,
    ensures
        ({
            let s = Scan {
                depth: *old(depth) as int,
                in_string: *old(in_string),
                escape: *old(escape),
                seen_open: *old(seen_open),
            };
            let (t, n, closed) = scanned(s, line@);
            &&& done == closed
            &&& *final(depth) == t.depth
            &&& *final(in_string) == t.in_string
            &&& *final(escape) == t.escape
            &&& *final(seen_open) == t.seen_open
            &&& final(buf)@ == old(buf)@ + line@.take(n)
        }),
{
    let ghost s = Scan {
        depth: *depth as int,
        in_string: *in_string,
        escape: *escape,
        seen_open: *seen_open,
    };
    let ghost start = buf@;
    let ghost goal = scanned(s, line@);
    let chars = crate::text::chars_of(line);
    let mut i: usize = 0;
    assert(chars@.skip(0) =~= line@);
    assert(start + line@.take(0) =~= start);
    proof {
        lemma_scanned(s, line@);
    }
    while i < chars.len()
        invariant
            i <= chars@.len(),
            chars@ == line@,
            start == old(buf)@,
            s == (Scan {
                depth: *old(depth) as int,
                in_string: *old(in_string),
                escape: *old(escape),
                seen_open: *old(seen_open),
            }),
            s.depth + line@.len() <= i32::MAX,
            s.depth - line@.len() >= i32::MIN,
            s.depth - i <= *depth <= s.depth + i,
            buf@ == start + line@.take(i as int),
            goal == scanned(s, line@),
            goal == ({
                let (t, n, closed) = scanned(
                    Scan {
                        depth: *depth as int,
                        in_string: *in_string,
                        escape: *escape,
                        seen_open: *seen_open,
                    },
                    line@.skip(i as int),
                );
                (t, i + n, closed)
            }),
        decreases chars@.len() - i,
    {
        let ch = chars[i];
        let ghost now = Scan {
            depth: *depth as int,
            in_string: *in_string,
            escape: *escape,
            seen_open: *seen_open,
        };
        let ghost rest = line@.skip(i as int);
        proof {
            assert(rest[0] == ch);
            assert(rest.skip(1) =~= line@.skip(i + 1));
            assert(start + line@.take(i + 1) =~= (start + line@.take(i as int)).push(ch));
        }
        buf.push(ch);
        i += 1;
        if *escape {
            *escape = false;
        } else if *in_string {
            if ch == '\\' {
                *escape = true;
            } else if ch == '"' {
                *in_string = false;
            }
        } else if ch == '"' {
            *in_string = true;
        } else if ch == '{' || ch == '[' {
            *depth = *depth + 1;
            *seen_open = true;
        } else if ch == '}' || ch == ']' {
            *depth = *depth - 1;
            if *seen_open && *depth == 0 {
                assert(closes(now, ch));
                return true;
            }
        }
        assert(!closes(now, ch));
        assert(step(now, ch) == (Scan {
            depth: *depth as int,
            in_string: *in_string,
            escape: *escape,
            seen_open: *seen_open,
        }));
    }
    assert(line@.take(i as int) =~= line@);
    false
}

} // verus!
