//! Turns log lines into events.
//!
//! The log is irregular. A message begins with a header line, mostly behind
//! `[UnityCrossThreadLogger]` and a time of day; its JSON body begins on the
//! header line or on a later one and may run over many lines.
use regex::Regex;
use vstd::prelude::*;

use crate::json::{self, parsed};
use crate::patterns::{
    arrow_form,
    arrow_parts,
    between,
    body_at,
    body_form,
    captures,
    compile,
    digit_run,
    flow_form,
    flow_parts,
    group,
    group_of,
    group_views,
    kind_char,
    kinds,
    lemma_run_end,
    names,
    number_end,
    opt_text,
    pattern_of,
    player_char,
    players,
    remove_match,
    run_end,
    set_char,
    spaces,
    time_end,
    timeless,
    HEADER_PATTERN,
    MATCH_FLOW_PATTERN,
    TIMESTAMP_PATTERN,
};
use crate::text::{
    self,
    begins,
    is_digit,
    is_ws,
    lemma_trimmed_len,
    occurs,
    trimmed,
    trimmed_start,
    without_leading,
};

use super::events::{now, Direction, EventView, ParsedEvent};
use super::scan::{
    fresh,
    law_body_ends_at_its_bracket,
    law_scan_in_parts,
    lemma_pieces,
    lemma_scanned,
    lemma_stays_open,
    piece_text,
    pieces_text,
    scan_json,
    scanned,
    step,
    well_built,
    Piece,
    Scan,
};

verus! {

/// A header line: the kind of the message, its direction, and the part of the
/// body on the same line.
#[derive(Debug, Clone)]
pub struct Header {
    pub kind: String,
    pub direction: Direction,
    pub tail: Option<String>,
}

/// What a header line holds.
pub ghost struct HeaderView {
    pub kind: Seq<char>,
    pub direction: Direction,
    pub tail: Option<Seq<char>>,
}

impl View for Header {
    type V = HeaderView;

    open spec fn view(&self) -> HeaderView {
        HeaderView { kind: self.kind@, direction: self.direction, tail: opt_text(self.tail) }
    }
}

/// What an optional header holds.
pub open spec fn header_view(h: Option<Header>) -> Option<HeaderView> {
    match h {
        Some(h) => Some(h@),
        None => None,
    }
}

// ---------------------------------------------------------------------------
// Headers
// ---------------------------------------------------------------------------

/// The line without the name of the logger in front.
pub open spec fn after_logger(line: Seq<char>) -> Seq<char> {
    if begins(line, "[UnityCrossThreadLogger]"@) {
        line.skip("[UnityCrossThreadLogger]"@.len() as int)
    } else if begins(line, "[Client GRE]"@) {
        line.skip("[Client GRE]"@.len() as int)
    } else {
        line
    }
}

/// The message of a line: what follows the logger and the time of day.
pub open spec fn message_of(line: Seq<char>) -> Seq<char> {
    trimmed_start(timeless(trimmed_start(after_logger(line))))
}

/// The header that the groups of an arrow line give.
pub open spec fn arrow_header(groups: Seq<Option<Seq<char>>>) -> Option<HeaderView> {
    match (group(groups, 1), group(groups, 2)) {
        (Some(arrow), Some(kind)) => Some(
            HeaderView {
                kind,
                direction: if arrow == "==>"@ {
                    Direction::Request
                } else {
                    Direction::Response
                },
                tail: group(groups, 3),
            },
        ),
        _ => None,
    }
}

/// The header that the groups of a match line give.
pub open spec fn flow_header(groups: Seq<Option<Seq<char>>>) -> Option<HeaderView> {
    match group(groups, 1) {
        Some(kind) => Some(
            HeaderView { kind, direction: Direction::Note, tail: group(groups, 2) },
        ),
        None => None,
    }
}

/// The header of a line that begins with a marker: behind the marker, colons
/// and white space, a brace begins the body.
pub open spec fn marked(message: Seq<char>, marker: Seq<char>, kind: Seq<char>) -> HeaderView {
    let rest = trimmed(without_leading(message.skip(marker.len() as int), ':'));
    HeaderView {
        kind,
        direction: Direction::Note,
        tail: if begins(rest, "{"@) {
            Some(rest)
        } else {
            None
        },
    }
}

/// The header of a line that begins with one of the two markers.
pub open spec fn marker_header(message: Seq<char>) -> Option<HeaderView> {
    if begins(message, "GRE to Client"@) {
        Some(marked(message, "GRE to Client"@, "GreToClientEvent"@))
    } else if begins(message, "Client to GRE"@) {
        Some(marked(message, "Client to GRE"@, "ClientToGreMessage"@))
    } else {
        None
    }
}

/// The header that a message gives: that of an arrow line, or else of a line
/// from or to the match, or else of a line with a marker.
pub open spec fn header_in(message: Seq<char>) -> Option<HeaderView> {
    match arrow_parts(message) {
        Some((arrow, kind, body)) => Some(plain_header(arrow, kind, body)),
        None => match flow_parts(message) {
            Some((kind, body)) => Some(
                HeaderView { kind, direction: Direction::Note, tail: body },
            ),
            None => marker_header(message),
        },
    }
}

/// The header that a line holds.
pub open spec fn header_of(line: Seq<char>) -> Option<HeaderView> {
    header_in(message_of(line))
}

/// The text is the name of a logger, or nothing.
pub open spec fn is_logger(s: Seq<char>) -> bool {
    s == "[UnityCrossThreadLogger]"@ || s == "[Client GRE]"@ || s.len() == 0
}

/// The text is a time as the log writes it, with its colon, or nothing.
pub open spec fn is_time(s: Seq<char>) -> bool {
    s.len() == 0 || time_end(s) == Some(s.len() as int)
}

/// All characters are white space.
pub open spec fn is_blank(s: Seq<char>) -> bool {
    forall|i: int| 0 <= i < s.len() ==> is_ws(#[trigger] s[i])
}

/// The text begins neither with the name of a logger nor, behind white space,
/// with a time: none is taken off it.
pub open spec fn no_prefix(s: Seq<char>) -> bool {
    &&& !begins(s, "[UnityCrossThreadLogger]"@)
    &&& !begins(s, "[Client GRE]"@)
    &&& timeless(trimmed_start(s)) == trimmed_start(s)
}

/// The header of an arrow line.
pub open spec fn plain_header(
    arrow: Seq<char>,
    kind: Seq<char>,
    body: Option<Seq<char>>,
) -> HeaderView {
    HeaderView {
        kind,
        direction: if arrow == "==>"@ {
            Direction::Request
        } else {
            Direction::Response
        },
        tail: body,
    }
}

proof fn lemma_after_logger(logger: Seq<char>, rest: Seq<char>)
    requires
        is_logger(logger),
        logger.len() == 0 ==> !begins(rest, "[UnityCrossThreadLogger]"@) && !begins(
            rest,
            "[Client GRE]"@,
        ),
    ensures
        after_logger(logger + rest) == rest,
{
    let line = logger + rest;
    reveal_strlit("[UnityCrossThreadLogger]");
    reveal_strlit("[Client GRE]");
    if logger.len() == 0 {
        assert(line =~= rest);
    } else {
        assert(line.take(logger.len() as int) =~= logger);
        assert(line.skip(logger.len() as int) =~= rest);
        if logger == "[Client GRE]"@ && begins(line, "[UnityCrossThreadLogger]"@) {
            assert(line.take("[UnityCrossThreadLogger]"@.len() as int)[1] == line[1]);
            assert(line[1] == logger[1]);
        }
    }
}

/// Digits that end inside a text are as many in front of another one.
proof fn lemma_digit_run(a: Seq<char>, b: Seq<char>, i: int)
    requires
        0 <= i,
        i + digit_run(a, i) < a.len(),
    ensures
        digit_run(a + b, i) == digit_run(a, i),
    decreases a.len() - i,
{
    assert((a + b)[i] == a[i]);
    if is_digit(a[i]) {
        lemma_digit_run(a, b, i + 1);
    }
    assert(digit_run(a + b, i) == if is_digit(a[i]) {
        1 + digit_run(a + b, i + 1)
    } else {
        0
    });
}

proof fn lemma_number_end(a: Seq<char>, b: Seq<char>, i: int, least: nat, most: nat, c: char)
    requires
        0 <= i,
        number_end(a, i, least, most, c) is Some,
    ensures
        number_end(a + b, i, least, most, c) == number_end(a, i, least, most, c),
{
    lemma_digit_run(a, b, i);
    let n = digit_run(a, i);
    assert((a + b)[i + n] == a[i + n]);
}

/// A time is found in front of any text.
proof fn lemma_time_end(a: Seq<char>, b: Seq<char>)
    requires
        time_end(a) is Some,
    ensures
        time_end(a + b) == time_end(a),
        0 < time_end(a).unwrap() <= a.len(),
        is_digit(a[0]),
{
    let day = number_end(a, 0, 1, 2, '/').unwrap();
    let year = number_end(a, day, 1, 2, '/').unwrap();
    let hour = number_end(a, year, 4, 4, ' ').unwrap();
    let minute = number_end(a, hour, 1, 2, ':').unwrap();
    let second = number_end(a, minute, 2, 2, ':').unwrap();
    lemma_number_end(a, b, 0, 1, 2, '/');
    lemma_number_end(a, b, day, 1, 2, '/');
    lemma_number_end(a, b, year, 4, 4, ' ');
    lemma_number_end(a, b, hour, 1, 2, ':');
    lemma_number_end(a, b, minute, 2, 2, ':');
    lemma_digit_run(a, b, second);
    let end = second + 2;
    assert((a + b)[end] == a[end]);
    if a[end] != ':' {
        assert((a + b)[end + 1] == a[end + 1]);
        assert((a + b)[end + 2] == a[end + 2]);
        assert((a + b)[end + 3] == a[end + 3]);
    }
    assert(digit_run(a, 0) > 0);
}

proof fn lemma_blank_trimmed(gap: Seq<char>, s: Seq<char>)
    requires
        is_blank(gap),
    ensures
        trimmed_start(gap + s) == trimmed_start(s),
    decreases gap.len(),
{
    if gap.len() == 0 {
        assert(gap + s =~= s);
    } else {
        assert((gap + s)[0] == gap[0]);
        assert((gap + s).skip(1) =~= gap.skip(1) + s);
        lemma_blank_trimmed(gap.skip(1), s);
    }
}

proof fn lemma_blank_prefix(gap: Seq<char>, s: Seq<char>)
    requires
        is_blank(gap),
        no_prefix(s),
    ensures
        no_prefix(gap + s),
{
    let line = gap + s;
    lemma_blank_trimmed(gap, s);
    reveal_strlit("[UnityCrossThreadLogger]");
    reveal_strlit("[Client GRE]");
    if gap.len() == 0 {
        assert(line =~= s);
    } else {
        assert(line[0] == gap[0]);
        if begins(line, "[UnityCrossThreadLogger]"@) {
            assert(line.take("[UnityCrossThreadLogger]"@.len() as int)[0] == line[0]);
        }
        if begins(line, "[Client GRE]"@) {
            assert(line.take("[Client GRE]"@.len() as int)[0] == line[0]);
        }
    }
}

proof fn lemma_trimmed_twice(s: Seq<char>)
    ensures
        trimmed_start(trimmed_start(s)) == trimmed_start(s),
    decreases s.len(),
{
    if s.len() > 0 && is_ws(s[0]) {
        lemma_trimmed_twice(s.skip(1));
    }
}

/// What stands in front of a message changes nothing: a logger, a time and white
/// space are passed over.
pub proof fn law_prefixes_ignored(
    logger: Seq<char>,
    time: Seq<char>,
    gap: Seq<char>,
    s: Seq<char>,
)
    requires
        is_logger(logger),
        is_time(time),
        is_blank(gap),
        no_prefix(s),
    ensures
        message_of(logger + time + gap + s) == trimmed_start(s),
        message_of(s) == trimmed_start(s),
        header_of(logger + time + gap + s) == header_of(s),
{
    let rest = time + gap + s;
    let line = logger + time + gap + s;
    assert(line =~= logger + rest);
    lemma_trimmed_twice(s);
    lemma_blank_trimmed(gap, s);
    lemma_blank_prefix(gap, s);
    if time.len() == 0 {
        assert(rest =~= gap + s);
        lemma_after_logger(logger, rest);
    } else {
        assert(rest =~= time + (gap + s));
        lemma_time_end(time, gap + s);
        assert(rest[0] == time[0]);
        reveal_strlit("[UnityCrossThreadLogger]");
        reveal_strlit("[Client GRE]");
        if begins(rest, "[UnityCrossThreadLogger]"@) {
            assert(rest.take("[UnityCrossThreadLogger]"@.len() as int)[0] == rest[0]);
        }
        if begins(rest, "[Client GRE]"@) {
            assert(rest.take("[Client GRE]"@.len() as int)[0] == rest[0]);
        }
        lemma_after_logger(logger, rest);
        assert(trimmed_start(rest) == rest);
        assert(rest.skip(time.len() as int) =~= gap + s);
    }
}

/// A body behind one space, or the end of the line, is found there.
proof fn lemma_body_at(front: Seq<char>, body: Option<Seq<char>>)
    requires
        body_form(body),
    ensures
        body_at(front + between(" "@, body, seq![]), front.len() as int) == Some(body),
{
    let s = front + between(" "@, body, seq![]);
    let n = front.len() as int;
    reveal_strlit(" ");
    match body {
        Some(b) => {
            assert(s =~= front + " "@ + b);
            assert(s[n] == ' ');
            assert(s[n + 1] == b[0]);
            lemma_run_end(s, n, n + 1, spaces());
            assert(s.skip(n + 1) =~= b);
        },
        None => {
            assert(s =~= front);
            lemma_run_end(s, n, n, spaces());
        },
    }
}

/// A line with an arrow has the header that it says: the arrow gives the
/// direction, the argument in brackets is passed over, and the body begins
/// behind it or is not there.
pub proof fn law_arrow_lines(
    message: Seq<char>,
    arrow: Seq<char>,
    kind: Seq<char>,
    arg: Option<Seq<char>>,
    body: Option<Seq<char>>,
)
    requires
        arrow_form(message, arrow, kind, arg, body),
    ensures
        header_in(message) == Some(plain_header(arrow, kind, body)),
{
    reveal_strlit("==>");
    reveal_strlit("<==");
    reveal_strlit(" ");
    reveal_strlit("(");
    reveal_strlit(")");
    let given = between("("@, arg, ")"@);
    let tail = between(" "@, body, seq![]);
    let j = 4 + kind.len() as int;
    let front = arrow + " "@ + kind + given;
    assert(message =~= front + tail);
    assert(message.take(3) =~= arrow);
    assert(message[3] == ' ');
    assert forall|k: int| 0 <= k < kind.len() implies message[4 + k] == kind[k] by {}
    assert(kind_char(kind[0]));
    lemma_run_end(message, 3, 4, spaces());
    assert forall|k: int| 4 <= k < j implies kinds()(#[trigger] message[k]) by {
        assert(kind_char(kind[k - 4]));
    }
    if j < message.len() {
        match arg {
            Some(a) => {
                assert(given[0] == '(');
                assert(message[j] == given[0]);
            },
            None => {
                assert(given.len() == 0);
                assert(message[j] == tail[0]);
                assert(tail[0] == ' ');
            },
        }
    }
    lemma_run_end(message, 4, j, kinds());
    assert(message.subrange(4, j) =~= kind);
    match arg {
        Some(a) => {
            let rest = message.skip(j);
            assert(given =~= "("@ + a + ")"@);
            assert(rest =~= given + tail);
            assert forall|k: int| 0 <= k < a.len() + 1 implies #[trigger] rest[k] != ')' by {
                if k > 0 {
                    assert(rest[k] == a[k - 1]);
                    assert(a.contains(a[k - 1]));
                }
            }
            assert(rest[a.len() as int + 1] == ')');
            text::lemma_before(rest, ')', a.len() as int + 1);
        },
        None => {},
    }
    lemma_body_at(front, body);
}

/// A line from the match to a player, or the other way, has the header that it
/// says.
pub proof fn law_match_lines(
    message: Seq<char>,
    player: Seq<char>,
    from_match: bool,
    kind: Seq<char>,
    body: Option<Seq<char>>,
)
    requires
        flow_form(message, player, from_match, kind, body),
    ensures
        header_in(message) == Some(HeaderView { kind, direction: Direction::Note, tail: body }),
{
    reveal_strlit("==>");
    reveal_strlit("<==");
    reveal_strlit(" ");
    reveal_strlit(": ");
    reveal_strlit("Match to ");
    reveal_strlit(" to Match");
    let tail = between(" "@, body, seq![]);
    let n = player.len() as int;
    let p = n + 9;
    let front = (if from_match {
        "Match to "@ + player
    } else {
        player + " to Match"@
    }) + ": "@ + kind;
    assert(message =~= front + tail);
    assert(player_char(player[0]));
    assert(message[0] == if from_match {
        'M'
    } else {
        player[0]
    });
    if begins(message, "==>"@) {
        assert(message.take(3)[0] == message[0]);
    }
    if begins(message, "<=="@) {
        assert(message.take(3)[0] == message[0]);
    }
    assert(message[p] == ':');
    if from_match {
        assert(message.take(9) =~= "Match to "@);
        assert forall|k: int| 9 <= k < p implies players()(#[trigger] message[k]) by {
            assert(message[k] == player[k - 9]);
            assert(player_char(player[k - 9]));
        }
        lemma_run_end(message, 9, p, players());
    } else {
        assert forall|k: int| 0 <= k < n implies players()(#[trigger] message[k]) by {
            assert(message[k] == player[k]);
            assert(player_char(player[k]));
        }
        assert(message[n] == ' ');
        lemma_run_end(message, 0, n, players());
        assert(message.skip(n).take(9) =~= " to Match"@);
        if begins(message, "Match to "@) {
            assert(message.take(9)[1] == message[1]);
            if n > 1 {
                assert(players()(message[1]));
            }
        }
    }
    let i = p + 2;
    let j = i + kind.len() as int;
    assert(message[p + 1] == ' ');
    assert forall|k: int| 0 <= k < kind.len() implies message[i + k] == kind[k] by {}
    assert(set_char(kind[0]) || kind[0] == '_');
    lemma_run_end(message, p + 1, i, spaces());
    assert forall|k: int| i <= k < j implies names()(#[trigger] message[k]) by {
        assert(set_char(kind[k - i]) || kind[k - i] == '_');
    }
    if j < message.len() {
        assert(message[j] == tail[0]);
        assert(tail[0] == ' ');
    }
    lemma_run_end(message, i, j, names());
    assert(message.subrange(i, j) =~= kind);
    lemma_body_at(front, body);
}

/// A line with a marker has the header of the marker.
pub proof fn law_marker_lines(message: Seq<char>)
    requires
        begins(message, "GRE to Client"@) || begins(message, "Client to GRE"@),
    ensures
        header_in(message) == marker_header(message),
        header_in(message) is Some,
{
    reveal_strlit("==>");
    reveal_strlit("<==");
    reveal_strlit("Match to ");
    reveal_strlit(" to Match");
    reveal_strlit("GRE to Client");
    reveal_strlit("Client to GRE");
    let marker = message.take(13);
    assert forall|k: int| 0 <= k < 13 implies #[trigger] message[k] == marker[k] by {}
    if begins(message, "==>"@) {
        assert(message.take(3)[0] == message[0]);
    }
    if begins(message, "<=="@) {
        assert(message.take(3)[0] == message[0]);
    }
    if begins(message, "Match to "@) {
        assert(message.take(9)[0] == message[0]);
    }
    if begins(message, "GRE to Client"@) {
        lemma_run_end(message, 0, 3, players());
        if begins(message.skip(3), " to Match"@) {
            assert(message.skip(3).take(9)[4] == message[7]);
        }
    } else {
        lemma_run_end(message, 0, 1, players());
        if begins(message.skip(1), " to Match"@) {
            assert(message.skip(1).take(9)[0] == message[1]);
        }
    }
}

/// A message with no arrow, neither from nor to the match, and with no marker
/// has no header.
pub proof fn law_no_header(message: Seq<char>)
    requires
        !begins(message, "==>"@),
        !begins(message, "<=="@),
        !begins(message, "Match to "@),
        !occurs(message, " to Match:"@),
        !begins(message, "GRE to Client"@),
        !begins(message, "Client to GRE"@),
    ensures
        header_in(message) is None,
{
    lemma_no_match(message);
}

proof fn lemma_no_match(message: Seq<char>)
    requires
        !begins(message, "Match to "@),
        !occurs(message, " to Match:"@),
    ensures
        flow_parts(message) is None,
{
    reveal_strlit(" to Match");
    reveal_strlit(" to Match:");
    if flow_parts(message) is Some {
        let j = run_end(message, 0, players());
        let rest = message.skip(j);
        assert(rest.take(9) == " to Match"@);
        assert(message[j + 9] == ':');
        assert(message.subrange(j, j + 10) =~= " to Match:"@) by {
            assert forall|k: int| 0 <= k < 10 implies message[j + k] == " to Match:"@[k] by {
                if k < 9 {
                    assert(rest.take(9)[k] == rest[k]);
                    assert(" to Match"@[k] == " to Match:"@[k]);
                }
            }
        }
        assert(text::occurs_at(message, " to Match:"@, j));
    }
}

fn copy_group(groups: &Vec<Option<String>>, i: usize) -> (r: Option<String>)
    ensures
        opt_text(r) == group(group_views(groups@), i as int),
        r is Some ==> i < groups@.len() && groups@[i as int] == r,
{
    match group_of(groups, i) {
        Some(s) => Some(s.clone()),
        None => None,
    }
}

/// The header that the groups of an arrow line give.
pub fn header_from_arrow(groups: &Vec<Option<String>>) -> (r: Option<Header>)
    ensures
        header_view(r) == arrow_header(group_views(groups@)),
        r matches Some(h) ==> (h.tail is Some ==> 3 < groups@.len() && groups@[3] == h.tail),
{
    match (group_of(groups, 1), group_of(groups, 2)) {
        (Some(arrow), Some(kind)) => {
            let direction = if text::same(arrow.as_str(), "==>") {
                Direction::Request
            } else {
                Direction::Response
            };
            Some(Header { kind: kind.clone(), direction, tail: copy_group(groups, 3) })
        },
        _ => None,
    }
}

/// The header that the groups of a match line give.
pub fn header_from_flow(groups: &Vec<Option<String>>) -> (r: Option<Header>)
    ensures
        header_view(r) == flow_header(group_views(groups@)),
        r matches Some(h) ==> (h.tail is Some ==> 2 < groups@.len() && groups@[2] == h.tail),
{
    match group_of(groups, 1) {
        Some(kind) => Some(
            Header {
                kind: kind.clone(),
                direction: Direction::Note,
                tail: copy_group(groups, 2),
            },
        ),
        None => None,
    }
}

fn marked_header(message: &str, marker: &str, kind: &str) -> (r: Option<Header>)
    ensures
        header_view(r) == (if begins(message@, marker@) {
            Some(marked(message@, marker@, kind@))
        } else {
            None
        }),
        r matches Some(h) ==> (h.tail matches Some(t) ==> t@.len() <= message@.len()),
{
    match text::strip(message, marker) {
        Some(after) => {
            let after = text::drop_leading(after.as_str(), ':');
            proof {
                lemma_trimmed_len(after@);
            }
            let rest = text::trim(after.as_str());
            let tail = if text::has_prefix(rest.as_str(), "{") {
                Some(rest)
            } else {
                None
            };
            Some(Header { kind: text::owned(kind), direction: Direction::Note, tail })
        },
        None => None,
    }
}

/// The header of a line that begins with a marker.
pub fn header_from_marker(message: &str) -> (r: Option<Header>)
    ensures
        header_view(r) == marker_header(message@),
        r matches Some(h) ==> (h.tail matches Some(t) ==> t@.len() <= message@.len()),
{
    let first = marked_header(message, "GRE to Client", "GreToClientEvent");
    if first.is_some() {
        return first;
    }
    marked_header(message, "Client to GRE", "ClientToGreMessage")
}

proof fn lemma_occurs_len(s: Seq<char>, p: Seq<char>)
    requires
        occurs(s, p),
    ensures
        p.len() <= s.len(),
{
    let i = choose|i: int| text::occurs_at(s, p, i);
    assert(text::occurs_at(s, p, i));
}

/// The compiled patterns.
pub struct LogPatterns {
    timestamp: Regex,
    header: Regex,
    match_flow: Regex,
}

impl LogPatterns {
    /// Each pattern is the one that its name says.
    pub closed spec fn wf(&self) -> bool {
        &&& pattern_of(self.timestamp) == TIMESTAMP_PATTERN@
        &&& pattern_of(self.header) == HEADER_PATTERN@
        &&& pattern_of(self.match_flow) == MATCH_FLOW_PATTERN@
    }

    /// Compiles the patterns.
    pub fn new() -> (r: LogPatterns)
        ensures
            r.wf(),
    {
        LogPatterns {
            timestamp: compile(TIMESTAMP_PATTERN),
            header: compile(HEADER_PATTERN),
            match_flow: compile(MATCH_FLOW_PATTERN),
        }
    }

    /// The header that a line holds.
    pub fn parse_header(&self, line: &str) -> (r: Option<Header>)
        requires
            self.wf(),
        ensures
            header_view(r) == header_of(line@),
            r matches Some(h) ==> (h.tail matches Some(t) ==> t@.len() <= line@.len()),
    {
        let stripped = match text::strip(line, "[UnityCrossThreadLogger]") {
            Some(s) => s,
            None => match text::strip(line, "[Client GRE]") {
                Some(s) => s,
                None => text::owned(line),
            },
        };
        assert(stripped@ == after_logger(line@));
        let start = text::trim_start(stripped.as_str());
        let timeless = remove_match(&self.timestamp, start.as_str());
        let message = text::trim_start(timeless.as_str());
        proof {
            lemma_trimmed_len(stripped@);
            lemma_trimmed_len(timeless@);
            assert(message@ == message_of(line@));
            assert(message@.len() <= line@.len());
        }
        if text::chars_of(message.as_str()).len() == 0 {
            proof {
                reveal_strlit("==>");
                reveal_strlit("<==");
                reveal_strlit("GRE to Client");
                reveal_strlit("Client to GRE");
                reveal_strlit("Match to ");
            }
            return None;
        }
        let arrow = captures(&self.header, message.as_str());
        if let Some(groups) = arrow {
            let r = header_from_arrow(&groups);
            proof {
                if r is Some && r.unwrap().tail is Some {
                    let t = r.unwrap().tail.unwrap();
                    assert(groups@[3] == Some(t));
                    lemma_occurs_len(message@, t@);
                }
            }
            return r;
        }
        let flow = captures(&self.match_flow, message.as_str());
        if let Some(groups) = flow {
            let r = header_from_flow(&groups);
            proof {
                if r is Some && r.unwrap().tail is Some {
                    let t = r.unwrap().tail.unwrap();
                    assert(groups@[2] == Some(t));
                    lemma_occurs_len(message@, t@);
                }
            }
            return r;
        }
        header_from_marker(message.as_str())
    }
}

/// The header that a line holds.
pub fn parse_header(line: &str) -> (r: Option<Header>)
    ensures
        header_view(r) == header_of(line@),
{
    LogPatterns::new().parse_header(line)
}

// ---------------------------------------------------------------------------
// Events
// ---------------------------------------------------------------------------

/// Where an accumulator stands: it waits for a header, or for the body of a
/// message.
pub ghost enum AccView {
    Idle,
    Collecting { kind: Seq<char>, direction: Direction, scan: Scan, buf: Seq<char> },
}

/// The event with this body; nothing where the body is no JSON.
pub open spec fn event_from(
    kind: Seq<char>,
    direction: Direction,
    body: Seq<char>,
) -> Option<EventView> {
    match parsed(body) {
        Some(payload) => Some(EventView { kind, direction, payload }),
        None => None,
    }
}

/// After a line that may hold a header: the part of the body on the same line
/// is read at once.
pub open spec fn started(line: Seq<char>) -> (AccView, Option<EventView>) {
    match header_of(line) {
        None => (AccView::Idle, None),
        Some(h) => match h.tail {
            None => (
                AccView::Collecting {
                    kind: h.kind,
                    direction: h.direction,
                    scan: fresh(),
                    buf: seq![],
                },
                None,
            ),
            Some(tail) => {
                let (scan, n, closed) = scanned(fresh(), tail);
                if closed {
                    (AccView::Idle, event_from(h.kind, h.direction, tail.take(n)))
                } else {
                    (
                        AccView::Collecting {
                            kind: h.kind,
                            direction: h.direction,
                            scan,
                            buf: tail,
                        },
                        None,
                    )
                }
            },
        },
    }
}

/// After a line of the body.
pub open spec fn continued(
    kind: Seq<char>,
    direction: Direction,
    scan: Scan,
    buf: Seq<char>,
    line: Seq<char>,
) -> (AccView, Option<EventView>) {
    let (after, n, closed) = scanned(Scan { seen_open: true, ..scan }, line);
    if closed {
        (AccView::Idle, event_from(kind, direction, buf + line.take(n)))
    } else {
        (AccView::Collecting { kind, direction, scan: after, buf: (buf + line).push('\n') }, None)
    }
}

/// After one more line: a line of the body goes on with it, a blank line
/// before the body is passed over, and any other line begins anew.
pub open spec fn fed(acc: AccView, line: Seq<char>) -> (AccView, Option<EventView>) {
    match acc {
        AccView::Idle => started(line),
        AccView::Collecting { kind, direction, scan, buf } => if scan.seen_open || begins(
            trimmed_start(line),
            "{"@,
        ) {
            continued(kind, direction, scan, buf, line)
        } else if trimmed(line).len() == 0 {
            (acc, None)
        } else {
            started(line)
        },
    }
}

/// The brackets of so many more characters can be counted.
pub open spec fn has_room(acc: AccView, n: nat) -> bool {
    &&& n <= i32::MAX
    &&& acc matches AccView::Collecting { scan, .. } ==> scan.depth + n <= i32::MAX && scan.depth
        - n >= i32::MIN
}

/// The events as a list: one or none.
pub open spec fn as_list(e: Option<EventView>) -> Seq<EventView> {
    match e {
        Some(e) => seq![e],
        None => seq![],
    }
}

/// What a list of events holds.
pub open spec fn event_views(events: Seq<ParsedEvent>) -> Seq<EventView> {
    events.map_values(|e: ParsedEvent| e@)
}

enum State {
    Idle,
    Collecting {
        kind: String,
        direction: Direction,
        depth: i32,
        in_string: bool,
        escape: bool,
        buf: String,
        seen_open: bool,
    },
}

impl View for State {
    type V = AccView;

    closed spec fn view(&self) -> AccView {
        match self {
            State::Idle => AccView::Idle,
            State::Collecting {
                kind,
                direction,
                depth,
                in_string,
                escape,
                buf,
                seen_open,
            } => AccView::Collecting {
                kind: kind@,
                direction: *direction,
                scan: Scan {
                    depth: *depth as int,
                    in_string: *in_string,
                    escape: *escape,
                    seen_open: *seen_open,
                },
                buf: buf@,
            },
        }
    }
}

/// Collects the lines of a message until its body is complete.
pub struct Accumulator {
    patterns: LogPatterns,
    state: State,
}

impl View for Accumulator {
    type V = AccView;

    closed spec fn view(&self) -> AccView {
        self.state@
    }
}

fn push_event(
    kind: String,
    direction: Direction,
    body: &str,
    out: &mut Vec<ParsedEvent>,
)
    ensures
        event_views(final(out)@) == event_views(old(out)@) + as_list(
            event_from(kind@, direction, body@),
        ),
{
    let ghost was = out@;
    match json::parse(body) {
        Ok(payload) => {
            let e = ParsedEvent { timestamp: now(), kind, direction, payload };
            out.push(e);
            assert(event_views(out@) =~= event_views(was) + as_list(Some(e@)));
        },
        Err(_) => {
            assert(event_views(out@) =~= event_views(was) + as_list(None));
        },
    }
}

impl Accumulator {
    /// The patterns are in place.
    pub closed spec fn wf(&self) -> bool {
        self.patterns.wf()
    }

    /// An accumulator that waits for a header.
    pub fn new() -> (r: Accumulator)
        ensures
            r.wf(),
            r@ == AccView::Idle,
    {
        Accumulator { patterns: LogPatterns::new(), state: State::Idle }
    }

    /// Whether the brackets of the line can be counted.
    pub fn accepts(&self, line: &str) -> (r: bool)
        ensures
            r == has_room(self@, line@.len()),
    {
        let n = text::chars_of(line).len();
        if n > i32::MAX as usize {
            return false;
        }
        match &self.state {
            State::Idle => true,
            State::Collecting { depth, .. } => {
                let d: i64 = *depth as i64;
                d + n as i64 <= i32::MAX as i64 && d - n as i64 >= i32::MIN as i64
            },
        }
    }

    /// Takes one line of the log and returns the events that it completes.
    pub fn feed(&mut self, line: String) -> (out: Vec<ParsedEvent>)
        requires
            old(self).wf(),
            has_room(old(self)@, line@.len()),
        ensures
            final(self).wf(),
            final(self)@ == fed(old(self)@, line@).0,
            event_views(out@) == as_list(fed(old(self)@, line@).1),
    {
        let mut out: Vec<ParsedEvent> = Vec::new();
        assert(event_views(out@) =~= as_list(None));
        let mut state = State::Idle;
        std::mem::swap(&mut self.state, &mut state);
        match state {
            State::Idle => {
                self.state = self.start_or_skip(line.as_str(), &mut out);
            },
            State::Collecting {
                kind,
                direction,
                depth,
                in_string,
                escape,
                buf,
                seen_open,
            } => {
                let opens = text::has_prefix(text::trim_start(line.as_str()).as_str(), "{");
                if seen_open || opens {
                    self.state = consume_json(
                        line.as_str(),
                        kind,
                        direction,
                        depth,
                        in_string,
                        escape,
                        buf,
                        &mut out,
                    );
                } else if text::chars_of(text::trim(line.as_str()).as_str()).len() == 0 {
                    self.state = State::Collecting {
                        kind,
                        direction,
                        depth,
                        in_string,
                        escape,
                        buf,
                        seen_open,
                    };
                } else {
                    self.state = self.start_or_skip(line.as_str(), &mut out);
                }
            },
        }
        assert(event_views(Seq::<ParsedEvent>::empty()) + as_list(fed(old(self)@, line@).1)
            =~= as_list(fed(old(self)@, line@).1));
        out
    }

    fn start_or_skip(&self, line: &str, out: &mut Vec<ParsedEvent>) -> (r: State)
        requires
            self.wf(),
            line@.len() <= i32::MAX,
        ensures
            r@ == started(line@).0,
            event_views(final(out)@) == event_views(old(out)@) + as_list(started(line@).1),
    {
        let ghost was = out@;
        assert(event_views(was) + as_list(None) =~= event_views(was));
        match self.patterns.parse_header(line) {
            Some(header) => {
                let Header { kind, direction, tail } = header;
                let mut buf = String::new();
                match tail {
                    Some(tail) => {
                        let mut depth: i32 = 0;
                        let mut in_string = false;
                        let mut escape = false;
                        let mut seen_open = false;
                        let finished = scan_json(
                            tail.as_str(),
                            &mut depth,
                            &mut in_string,
                            &mut escape,
                            &mut buf,
                            &mut seen_open,
                        );
                        proof {
                            lemma_scanned(fresh(), tail@);
                            let n = scanned(fresh(), tail@).1;
                            assert(buf@ =~= tail@.take(n));
                            if !finished {
                                assert(tail@.take(n) =~= tail@);
                            }
                        }
                        if finished {
                            push_event(kind, direction, buf.as_str(), out);
                            return State::Idle;
                        }
                        State::Collecting {
                            kind,
                            direction,
                            depth,
                            in_string,
                            escape,
                            buf,
                            seen_open,
                        }
                    },
                    None => {
                        assert(buf@ =~= Seq::<char>::empty());
                        State::Collecting {
                            kind,
                            direction,
                            depth: 0,
                            in_string: false,
                            escape: false,
                            buf,
                            seen_open: false,
                        }
                    },
                }
            },
            None => State::Idle,
        }
    }
}

fn consume_json(
    line: &str,
    kind: String,
    direction: Direction,
    depth: i32,
    in_string: bool,
    escape: bool,
    buf: String,
    out: &mut Vec<ParsedEvent>,
) -> (r: State)
    requires
        depth + line@.len() <= i32::MAX,
        depth - line@.len() >= i32::MIN,
    ensures
        ({
            let scan = Scan { depth: depth as int, in_string, escape, seen_open: true };
            let (state, event) = continued(kind@, direction, scan, buf@, line@);
            &&& r@ == state
            &&& event_views(final(out)@) == event_views(old(out)@) + as_list(event)
        }),
{
    let ghost was = out@;
    let ghost scan = Scan { depth: depth as int, in_string, escape, seen_open: true };
    assert(event_views(was) + as_list(None) =~= event_views(was));
    let mut depth = depth;
    let mut in_string = in_string;
    let mut escape = escape;
    let mut buf = buf;
    let mut seen_open = true;
    let finished = scan_json(
        line,
        &mut depth,
        &mut in_string,
        &mut escape,
        &mut buf,
        &mut seen_open,
    );
    if finished {
        push_event(kind, direction, buf.as_str(), out);
        return State::Idle;
    }
    proof {
        lemma_scanned(scan, line@);
        assert(line@.take(line@.len() as int) =~= line@);
    }
    buf.push('\n');
    State::Collecting { kind, direction, depth, in_string, escape, buf, seen_open }
}

// ---------------------------------------------------------------------------
// Laws
// ---------------------------------------------------------------------------

/// Lines without a header are passed over while no body is awaited.
pub proof fn law_other_lines_pass(line: Seq<char>)
    requires
        header_of(line) is None,
    ensures
        fed(AccView::Idle, line) == (AccView::Idle, None::<EventView>),
{
}

/// A message whose body is on its line gives its event at once, whatever prefix
/// stands in front of it: the payload is what the body up to its closing bracket
/// denotes.
pub proof fn law_line_gives_event(
    logger: Seq<char>,
    time: Seq<char>,
    gap: Seq<char>,
    message: Seq<char>,
    kind: Seq<char>,
    direction: Direction,
    body: Seq<char>,
)
    requires
        is_logger(logger),
        is_time(time),
        is_blank(gap),
        no_prefix(message),
        header_of(message) == Some(HeaderView { kind, direction, tail: Some(body) }),
        scanned(fresh(), body).2,
    ensures
        fed(AccView::Idle, logger + time + gap + message) == (
            AccView::Idle,
            event_from(kind, direction, body.take(scanned(fresh(), body).1)),
        ),
{
    law_prefixes_ignored(logger, time, gap, message);
}

/// A header without a body on its line is remembered, and a body that begins on
/// the next line belongs to it.
pub proof fn law_header_awaits_body(
    logger: Seq<char>,
    time: Seq<char>,
    gap: Seq<char>,
    message: Seq<char>,
    kind: Seq<char>,
    direction: Direction,
    next: Seq<char>,
)
    requires
        is_logger(logger),
        is_time(time),
        is_blank(gap),
        no_prefix(message),
        header_of(message) == Some(HeaderView { kind, direction, tail: None }),
        begins(trimmed_start(next), "{"@),
    ensures
        fed(fed(AccView::Idle, logger + time + gap + message).0, next) == continued(
            kind,
            direction,
            fresh(),
            seq![],
            next,
        ),
{
    law_prefixes_ignored(logger, time, gap, message);
}

/// Digits are among the characters of a player's id.
proof fn lemma_digits_of_player(s: Seq<char>, i: int)
    requires
        0 <= i,
    ensures
        ({
            let n = i + digit_run(s, i);
            let j = run_end(s, i, players());
            n <= j && (n < j ==> n < s.len() && player_char(s[n]))
        }),
    decreases s.len() - i,
{
    if i < s.len() && players()(s[i]) && is_digit(s[i]) {
        lemma_digits_of_player(s, i + 1);
    } else if i < s.len() && players()(s[i]) {
        lemma_run_grows(s, i + 1, players());
    }
}

proof fn lemma_run_grows(s: Seq<char>, i: int, class: spec_fn(char) -> bool)
    ensures
        run_end(s, i, class) >= i,
    decreases s.len() - i,
{
    if 0 <= i < s.len() && class(s[i]) {
        lemma_run_grows(s, i + 1, class);
    }
}

/// An arrow line, one from or to the match and one with a marker begin with no
/// prefix, and stand for themselves.
pub proof fn law_headers_are_plain(message: Seq<char>)
    requires
        header_in(message) is Some,
    ensures
        no_prefix(message),
        message_of(message) == message,
        header_of(message) == header_in(message),
{
    reveal_strlit("==>");
    reveal_strlit("<==");
    reveal_strlit("Match to ");
    reveal_strlit("GRE to Client");
    reveal_strlit("Client to GRE");
    reveal_strlit("[UnityCrossThreadLogger]");
    reveal_strlit("[Client GRE]");
    if begins(message, "[UnityCrossThreadLogger]"@) {
        assert(message.take("[UnityCrossThreadLogger]"@.len() as int)[0] == message[0]);
    }
    if begins(message, "[Client GRE]"@) {
        assert(message.take("[Client GRE]"@.len() as int)[0] == message[0]);
    }
    if begins(message, "==>"@) || begins(message, "<=="@) {
        assert(message.take(3)[0] == message[0]);
    } else if begins(message, "Match to "@) {
        assert(message.take(9)[0] == message[0]);
    } else if flow_parts(message) is Some {
        reveal_strlit(" to Match");
        let j = run_end(message, 0, players());
        lemma_digits_of_player(message, 0);
        assert(message.skip(j).take(9)[0] == message[j]);
        assert(players()(message[0]));
    } else {
        assert(message.take(13)[0] == message[0]);
    }
}

/// A header and a body on the next line give one event, whose payload is what
/// the whole body denotes, however deep it is nested: it ends at the bracket that
/// matches its first one.
pub proof fn law_header_and_body(
    header: Seq<char>,
    kind: Seq<char>,
    direction: Direction,
    body: Piece,
    behind: Seq<char>,
)
    requires
        header_of(header) == Some(HeaderView { kind, direction, tail: None }),
        body matches Piece::Group(open, _, _) && open == '{',
        well_built(body),
    ensures
        fed(fed(AccView::Idle, header).0, piece_text(body) + behind) == (
            AccView::Idle,
            match parsed(piece_text(body)) {
                Some(payload) => Some(EventView { kind, direction, payload }),
                None => None,
            },
        ),
        fed(AccView::Idle, header).1 is None,
{
    let text = piece_text(body);
    let line = text + behind;
    reveal_strlit("{");
    match body {
        Piece::Group(open, inner, close) => {
            assert(text[0] == open);
        },
        _ => {},
    }
    assert(line[0] == '{');
    assert(trimmed_start(line) == line);
    assert(line.take(1) =~= "{"@);
    law_body_ends_at_its_bracket(body, behind);
    let opened = Scan { seen_open: true, ..fresh() };
    assert(step(opened, '{') == step(fresh(), '{'));
    assert(scanned(opened, line) == scanned(fresh(), line));
    assert(line.take(text.len() as int) =~= text);
    assert(Seq::<char>::empty() + text =~= text);
}

/// A message with its body on the same line gives one event with the whole
/// body.
pub proof fn law_body_on_the_line(
    line: Seq<char>,
    kind: Seq<char>,
    direction: Direction,
    body: Piece,
    behind: Seq<char>,
)
    requires
        header_of(line) == Some(
            HeaderView { kind, direction, tail: Some(piece_text(body) + behind) },
        ),
        body is Group,
        well_built(body),
    ensures
        fed(AccView::Idle, line) == (
            AccView::Idle,
            match parsed(piece_text(body)) {
                Some(payload) => Some(EventView { kind, direction, payload }),
                None => None,
            },
        ),
{
    law_body_ends_at_its_bracket(body, behind);
    let text = piece_text(body);
    assert((text + behind).take(text.len() as int) =~= text);
}

/// A body broken over two lines between two of its pieces is the same body,
/// with the line break in it.
pub proof fn law_body_over_two_lines(
    header: Seq<char>,
    kind: Seq<char>,
    direction: Direction,
    front: Seq<Piece>,
    back: Seq<Piece>,
    close: char,
    behind: Seq<char>,
)
    requires
        header_of(header) == Some(HeaderView { kind, direction, tail: None }),
        forall|i: int| 0 <= i < front.len() ==> well_built(#[trigger] front[i]),
        forall|i: int| 0 <= i < back.len() ==> well_built(#[trigger] back[i]),
        close == '}' || close == ']',
    ensures
        ({
            let first = seq!['{'] + pieces_text(front);
            let last = pieces_text(back) + seq![close];
            let waiting = fed(AccView::Idle, header).0;
            &&& fed(waiting, first).1 is None
            &&& fed(fed(waiting, first).0, last + behind) == (
                AccView::Idle,
                match parsed(first + seq!['\n'] + last) {
                    Some(payload) => Some(EventView { kind, direction, payload }),
                    None => None,
                },
            )
        }),
{
    let first = seq!['{'] + pieces_text(front);
    let last = pieces_text(back) + seq![close];
    reveal_strlit("{");
    assert(first[0] == '{');
    assert(trimmed_start(first) == first);
    assert(first.take(1) =~= "{"@);
    let opened = Scan { seen_open: true, ..fresh() };
    let inside = step(opened, '{');
    lemma_pieces(inside, front);
    lemma_pieces(inside, back);
    assert(first.skip(1) =~= pieces_text(front));
    assert(scanned(opened, first) == (inside, first.len() as int, false));
    law_scan_in_parts(inside, pieces_text(back), seq![close] + behind);
    assert(last + behind =~= pieces_text(back) + (seq![close] + behind));
    assert((seq![close] + behind)[0] == close);
    assert((last + behind).take(last.len() as int) =~= last);
    assert((Seq::<char>::empty() + first).push('\n') + last =~= first + seq!['\n'] + last);
}

/// A header whose body never comes does not hold up the next message: a line
/// that neither is blank nor begins a body is read as if nothing was awaited.
pub proof fn law_recovers(kind: Seq<char>, direction: Direction, line: Seq<char>)
    requires
        trimmed(line).len() > 0,
        !begins(trimmed_start(line), "{"@),
    ensures
        ({
            let waiting = AccView::Collecting { kind, direction, scan: fresh(), buf: seq![] };
            fed(waiting, line) == fed(AccView::Idle, line)
        }),
{
}

/// Blank lines between header and body change nothing.
pub proof fn law_blank_lines_pass(kind: Seq<char>, direction: Direction, line: Seq<char>)
    requires
        trimmed(line).len() == 0,
        !begins(trimmed_start(line), "{"@),
    ensures
        ({
            let waiting = AccView::Collecting { kind, direction, scan: fresh(), buf: seq![] };
            fed(waiting, line) == (waiting, None::<EventView>)
        }),
{
}

/// After several lines, with all events that they completed.
pub open spec fn fed_all(acc: AccView, lines: Seq<Seq<char>>) -> (AccView, Seq<EventView>)
    decreases lines.len(),
{
    if lines.len() == 0 {
        (acc, seq![])
    } else {
        let (after, event) = fed(acc, lines[0]);
        let (last, events) = fed_all(after, lines.skip(1));
        (last, as_list(event) + events)
    }
}

/// Scans lines one after the other: where the scan then stands, and whether
/// one of them closed the body.
pub open spec fn scanned_lines(scan: Scan, lines: Seq<Seq<char>>) -> (Scan, bool)
    decreases lines.len(),
{
    if lines.len() == 0 {
        (scan, false)
    } else {
        let (after, n, closed) = scanned(scan, lines[0]);
        if closed {
            (after, true)
        } else {
            scanned_lines(after, lines.skip(1))
        }
    }
}

/// The lines with a line break behind each.
pub open spec fn body_of(lines: Seq<Seq<char>>) -> Seq<char>
    decreases lines.len(),
{
    if lines.len() == 0 {
        seq![]
    } else {
        lines[0].push('\n') + body_of(lines.skip(1))
    }
}

/// A body may run over many lines: while none of them closes it, no event
/// comes, and what was collected is the text of all of them.
pub proof fn law_body_spans_lines(
    kind: Seq<char>,
    direction: Direction,
    scan: Scan,
    buf: Seq<char>,
    lines: Seq<Seq<char>>,
)
    requires
        scan.seen_open,
        !scanned_lines(scan, lines).1,
    ensures
        fed_all(AccView::Collecting { kind, direction, scan, buf }, lines) == (
            AccView::Collecting {
                kind,
                direction,
                scan: scanned_lines(scan, lines).0,
                buf: buf + body_of(lines),
            },
            Seq::<EventView>::empty(),
        ),
    decreases lines.len(),
{
    if lines.len() == 0 {
        assert(buf + body_of(lines) =~= buf);
    } else {
        let after = scanned(scan, lines[0]).0;
        lemma_stays_open(scan, lines[0]);
        let more = (buf + lines[0]).push('\n');
        law_body_spans_lines(kind, direction, after, more, lines.skip(1));
        assert(more + body_of(lines.skip(1)) =~= buf + body_of(lines));
        assert(as_list(None) + Seq::<EventView>::empty() =~= Seq::<EventView>::empty());
    }
}

/// The line that closes a body completes one event: its payload is what the
/// text of all lines of the body, up to the closing bracket, denotes.
pub proof fn law_body_gives_event(
    kind: Seq<char>,
    direction: Direction,
    scan: Scan,
    buf: Seq<char>,
    lines: Seq<Seq<char>>,
    last: Seq<char>,
)
    requires
        scan.seen_open,
        !scanned_lines(scan, lines).1,
        scanned(scanned_lines(scan, lines).0, last).2,
    ensures
        ({
            let waiting = AccView::Collecting { kind, direction, scan, buf };
            let n = scanned(scanned_lines(scan, lines).0, last).1;
            fed(fed_all(waiting, lines).0, last) == (
                AccView::Idle,
                event_from(kind, direction, buf + body_of(lines) + last.take(n)),
            )
        }),
{
    law_body_spans_lines(kind, direction, scan, buf, lines);
    lemma_lines_stay_open(scan, lines);
}

proof fn lemma_lines_stay_open(scan: Scan, lines: Seq<Seq<char>>)
    requires
        scan.seen_open,
    ensures
        scanned_lines(scan, lines).0.seen_open,
    decreases lines.len(),
{
    if lines.len() > 0 {
        lemma_stays_open(scan, lines[0]);
        if !scanned(scan, lines[0]).2 {
            lemma_lines_stay_open(scanned(scan, lines[0]).0, lines.skip(1));
        }
    }
}

/// The arrow says which way a message went: `==>` is a request and `<==` a
/// response; an argument in brackets is passed over, and what begins with a
/// brace behind that is the body.
pub proof fn law_directions(
    out: bool,
    kind: Seq<char>,
    arg: Option<Seq<char>>,
    body: Option<Seq<char>>,
)
    requires
        kind.len() > 0,
        forall|i: int|
            0 <= i < kind.len() ==> ('0' <= #[trigger] kind[i] <= '9' || 'A' <= kind[i] <= 'Z' || 'a'
                <= kind[i] <= 'z' || kind[i] == '_' || kind[i] == '.'),
        arg matches Some(a) ==> !a.contains(')'),
        body matches Some(b) ==> b.len() > 0 && b[0] == '{' && !b.contains('\n'),
    ensures
        ({
            let arrow = if out {
                seq!['=', '=', '>', ' ']
            } else {
                seq!['<', '=', '=', ' ']
            };
            let argument = match arg {
                Some(a) => seq!['('] + a + seq![')'],
                None => seq![],
            };
            let tail = match body {
                Some(b) => seq![' '] + b,
                None => seq![],
            };
            header_in(arrow + kind + argument + tail) == Some(
                HeaderView {
                    kind,
                    direction: if out {
                        Direction::Request
                    } else {
                        Direction::Response
                    },
                    tail: body,
                },
            )
        }),
{
    reveal_strlit("==>");
    reveal_strlit("<==");
    reveal_strlit(" ");
    reveal_strlit("(");
    reveal_strlit(")");
    let arrow = if out {
        seq!['=', '=', '>', ' ']
    } else {
        seq!['<', '=', '=', ' ']
    };
    let mark = if out {
        "==>"@
    } else {
        "<=="@
    };
    let argument = match arg {
        Some(a) => seq!['('] + a + seq![')'],
        None => seq![],
    };
    let tail = match body {
        Some(b) => seq![' '] + b,
        None => seq![],
    };
    assert("==>"@[0] == '=' && "<=="@[0] == '<');
    assert forall|i: int| 0 <= i < kind.len() implies kind_char(#[trigger] kind[i]) by {}
    assert(arrow =~= mark + " "@);
    assert(argument =~= between("("@, arg, ")"@));
    assert(tail =~= between(" "@, body, seq![]));
    law_arrow_lines(arrow + kind + argument + tail, mark, kind, arg, body);
}

/// A line of the rules engine is a note of its own kind in either direction: the
/// body is what begins with a brace behind the marker, its colons and white
/// space, and anything else there is none.
pub proof fn law_markers(n: nat, gap: Seq<char>, rest: Seq<char>, end: Seq<char>)
    requires
        is_blank(gap),
        is_blank(end),
        rest.len() > 0,
        !is_ws(rest[0]) && !is_ws(rest.last()),
        rest[0] != ':',
    ensures
        ({
            let behind = Seq::new(n, |i: int| ':') + gap + rest + end;
            let body = if rest[0] == '{' {
                Some(rest)
            } else {
                None
            };
            &&& header_in("GRE to Client"@ + behind) == Some(
                HeaderView { kind: "GreToClientEvent"@, direction: Direction::Note, tail: body },
            )
            &&& header_in("Client to GRE"@ + behind) == Some(
                HeaderView { kind: "ClientToGreMessage"@, direction: Direction::Note, tail: body },
            )
        }),
{
    reveal_strlit("{");
    reveal_strlit("GRE to Client");
    reveal_strlit("Client to GRE");
    let colons = Seq::new(n, |i: int| ':');
    let behind = colons + gap + rest + end;
    let a = "GRE to Client"@ + behind;
    let b = "Client to GRE"@ + behind;
    let s = gap + rest + end;
    assert(a.take("GRE to Client"@.len() as int) =~= "GRE to Client"@);
    assert(b.take("Client to GRE"@.len() as int) =~= "Client to GRE"@);
    assert(a.skip("GRE to Client"@.len() as int) =~= behind);
    assert(b.skip("Client to GRE"@.len() as int) =~= behind);
    law_marker_lines(a);
    law_marker_lines(b);
    assert(b[0] == 'C');
    assert(!begins(b, "GRE to Client"@)) by {
        if begins(b, "GRE to Client"@) {
            assert(b.take("GRE to Client"@.len() as int)[0] == b[0]);
        }
    }
    assert(behind =~= colons + s);
    assert(s[0] != ':') by {
        if gap.len() > 0 {
            assert(s[0] == gap[0]);
            assert(is_ws(gap[0]));
        } else {
            assert(s[0] == rest[0]);
        }
    }
    text::law_without_leading(n, ':', s);
    text::law_trimmed(gap, rest, end);
    if rest[0] == '{' {
        assert(rest.take(1) =~= "{"@);
    } else if begins(rest, "{"@) {
        assert(rest.take(1)[0] == rest[0]);
    }
}

/// A body that begins on the line of its header and ends on the next gives one
/// event with all of it.
pub proof fn law_body_from_the_line(
    line: Seq<char>,
    kind: Seq<char>,
    direction: Direction,
    front: Seq<Piece>,
    back: Seq<Piece>,
    close: char,
    behind: Seq<char>,
)
    requires
        header_of(line) == Some(
            HeaderView { kind, direction, tail: Some(seq!['{'] + pieces_text(front)) },
        ),
        forall|i: int| 0 <= i < front.len() ==> well_built(#[trigger] front[i]),
        forall|i: int| 0 <= i < back.len() ==> well_built(#[trigger] back[i]),
        close == '}' || close == ']',
    ensures
        ({
            let first = seq!['{'] + pieces_text(front);
            let last = pieces_text(back) + seq![close];
            &&& fed(AccView::Idle, line).1 is None
            &&& fed(fed(AccView::Idle, line).0, last + behind) == (
                AccView::Idle,
                match parsed(first + last) {
                    Some(payload) => Some(EventView { kind, direction, payload }),
                    None => None,
                },
            )
        }),
{
    let first = seq!['{'] + pieces_text(front);
    let last = pieces_text(back) + seq![close];
    let inside = step(fresh(), '{');
    lemma_pieces(inside, front);
    lemma_pieces(inside, back);
    assert(first[0] == '{');
    assert(first.skip(1) =~= pieces_text(front));
    assert(scanned(fresh(), first) == (inside, first.len() as int, false));
    law_scan_in_parts(inside, pieces_text(back), seq![close] + behind);
    assert(last + behind =~= pieces_text(back) + (seq![close] + behind));
    assert((seq![close] + behind)[0] == close);
    assert((last + behind).take(last.len() as int) =~= last);
}

} // verus!
