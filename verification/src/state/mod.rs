//! What events do: the live view of the match, the rows that are stored, and
//! the updates that are sent out.
pub mod handlers;

use std::collections::HashMap;
use vstd::prelude::*;
use vstd::string::StringExecFns;

use crate::cards::Cmc;
use crate::json::{self, parsed, reads_back, rendered, value_view};
use crate::parser::events::{rfc3339, rfc3339_of, Direction, ParsedEvent, Timestamp};
use crate::patterns::opt_text;
use crate::text::{self, begins, occurs};

verus! {

// ---------------------------------------------------------------------------
// The live match
// ---------------------------------------------------------------------------

/// A card on the table.
#[derive(Debug)]
pub struct LiveCard {
    pub arena_id: u32,
    pub name: String,
    pub remaining: u32,
    pub original: u32,
    pub cmc: Cmc,
}

/// What a card on the table holds.
pub ghost struct LiveCardView {
    pub arena_id: u32,
    pub name: Seq<char>,
    pub remaining: u32,
    pub original: u32,
    pub cmc: Cmc,
}

impl View for LiveCard {
    type V = LiveCardView;

    open spec fn view(&self) -> LiveCardView {
        LiveCardView {
            arena_id: self.arena_id,
            name: self.name@,
            remaining: self.remaining,
            original: self.original,
            cmc: self.cmc,
        }
    }
}

/// What a list of cards on the table holds.
pub open spec fn live_cards(list: Seq<LiveCard>) -> Seq<LiveCardView> {
    list.map_values(|c: LiveCard| c@)
}

impl LiveCard {
    /// A copy of the card.
    pub fn copy(&self) -> (r: LiveCard)
        ensures
            r@ == self@,
    {
        LiveCard {
            arena_id: self.arena_id,
            name: self.name.clone(),
            remaining: self.remaining,
            original: self.original,
            cmc: self.cmc,
        }
    }
}

/// The match that is being played.
#[derive(Debug)]
pub struct LiveMatch {
    pub match_id: Option<String>,
    pub started_at: Option<Timestamp>,
    pub deck_id: Option<String>,
    pub deck_name: Option<String>,
    pub library: Vec<LiveCard>,
    pub played: Vec<LiveCard>,
    pub opponent_revealed: Vec<LiveCard>,
    pub player_life: Option<i32>,
    pub opponent_life: Option<i32>,
    pub turn: Option<u32>,
    pub opponent_screen_name: Option<String>,
}

/// What the match that is being played holds.
pub ghost struct LiveMatchView {
    pub match_id: Option<Seq<char>>,
    pub started_at: Option<Timestamp>,
    pub deck_id: Option<Seq<char>>,
    pub deck_name: Option<Seq<char>>,
    pub library: Seq<LiveCardView>,
    pub played: Seq<LiveCardView>,
    pub opponent_revealed: Seq<LiveCardView>,
    pub player_life: Option<i32>,
    pub opponent_life: Option<i32>,
    pub turn: Option<u32>,
    pub opponent_screen_name: Option<Seq<char>>,
}

impl View for LiveMatch {
    type V = LiveMatchView;

    open spec fn view(&self) -> LiveMatchView {
        LiveMatchView {
            match_id: opt_text(self.match_id),
            started_at: self.started_at,
            deck_id: opt_text(self.deck_id),
            deck_name: opt_text(self.deck_name),
            library: live_cards(self.library@),
            played: live_cards(self.played@),
            opponent_revealed: live_cards(self.opponent_revealed@),
            player_life: self.player_life,
            opponent_life: self.opponent_life,
            turn: self.turn,
            opponent_screen_name: opt_text(self.opponent_screen_name),
        }
    }
}

fn copy_cards(list: &Vec<LiveCard>) -> (r: Vec<LiveCard>)
    ensures
        live_cards(r@) == live_cards(list@),
{
    let mut r: Vec<LiveCard> = Vec::new();
    let mut i: usize = 0;
    while i < list.len()
        invariant
            i <= list@.len(),
            r@.len() == i,
            forall|k: int| 0 <= k < i ==> (#[trigger] r@[k])@ == list@[k]@,
        decreases list@.len() - i,
    {
        r.push(list[i].copy());
        i += 1;
    }
    assert(live_cards(r@) =~= live_cards(list@));
    r
}

/// A copy of a text that may be absent.
pub fn copy_text(s: &Option<String>) -> (r: Option<String>)
    ensures
        opt_text(r) == opt_text(*s),
{
    match s {
        Some(t) => Some(t.clone()),
        None => None,
    }
}

/// What a match holds at its start.
pub open spec fn new_match(
    match_id: Option<Seq<char>>,
    opponent: Option<Seq<char>>,
    at: Timestamp,
) -> LiveMatchView {
    LiveMatchView {
        match_id,
        started_at: Some(at),
        deck_id: None,
        deck_name: None,
        library: seq![],
        played: seq![],
        opponent_revealed: seq![],
        player_life: None,
        opponent_life: None,
        turn: None,
        opponent_screen_name: opponent,
    }
}

impl LiveMatch {
    /// A match at its start.
    pub fn started(
        match_id: Option<String>,
        opponent: Option<String>,
        at: Timestamp,
    ) -> (r: LiveMatch)
        ensures
            r@ == new_match(opt_text(match_id), opt_text(opponent), at),
    {
        let r = LiveMatch {
            match_id,
            started_at: Some(at),
            deck_id: None,
            deck_name: None,
            library: Vec::new(),
            played: Vec::new(),
            opponent_revealed: Vec::new(),
            player_life: None,
            opponent_life: None,
            turn: None,
            opponent_screen_name: opponent,
        };
        assert(live_cards(r.library@) =~= Seq::<LiveCardView>::empty());
        assert(live_cards(r.played@) =~= Seq::<LiveCardView>::empty());
        assert(live_cards(r.opponent_revealed@) =~= Seq::<LiveCardView>::empty());
        r
    }

    /// A copy of the match.
    pub fn copy(&self) -> (r: LiveMatch)
        ensures
            r@ == self@,
    {
        LiveMatch {
            match_id: copy_text(&self.match_id),
            started_at: self.started_at,
            deck_id: copy_text(&self.deck_id),
            deck_name: copy_text(&self.deck_name),
            library: copy_cards(&self.library),
            played: copy_cards(&self.played),
            opponent_revealed: copy_cards(&self.opponent_revealed),
            player_life: self.player_life,
            opponent_life: self.opponent_life,
            turn: self.turn,
            opponent_screen_name: copy_text(&self.opponent_screen_name),
        }
    }
}

/// A deck with the number of copies of each card.
#[derive(Debug, Clone)]
pub struct DeckSummary {
    pub deck_id: String,
    pub name: String,
    pub format: Option<String>,
    pub mainboard: HashMap<u32, u32>,
    pub sideboard: HashMap<u32, u32>,
}

// ---------------------------------------------------------------------------
// Events
// ---------------------------------------------------------------------------

/// Which handler an event goes to.
#[derive(Debug, Clone, Copy, PartialEq, Eq, Structural)]
pub enum Route {
    Decks,
    /// The collection, and cards that are handed out.
    Inventory,
    StartHook,
    /// Boosters, prizes and other cards that are handed out.
    Grants,
    MatchRoom,
    GameState,
    Draft,
    /// No handler: the event is only stored.
    Other,
}

/// The kind names something that hands out cards.
pub open spec fn hands_out(kind: Seq<char>) -> bool {
    ||| occurs(kind, "Booster"@)
    ||| occurs(kind, "Prize"@)
    ||| occurs(kind, "Reward"@)
    ||| occurs(kind, "Grant"@)
    ||| occurs(kind, "PackOpen"@)
    ||| occurs(kind, "MassOpen"@)
}

/// The handler for a kind of event.
pub open spec fn routed(kind: Seq<char>) -> Route {
    if begins(kind, "Deck"@) {
        Route::Decks
    } else if begins(kind, "Inventory"@) || begins(kind, "PlayerInventory"@) || begins(
        kind,
        "Wallet"@,
    ) {
        Route::Inventory
    } else if kind == "StartHook"@ {
        Route::StartHook
    } else if hands_out(kind) {
        Route::Grants
    } else if kind == "MatchGameRoomStateChangedEvent"@ {
        Route::MatchRoom
    } else if kind == "GreToClientEvent"@ {
        Route::GameState
    } else if begins(kind, "Draft"@) || begins(kind, "BotDraft"@) {
        Route::Draft
    } else {
        Route::Other
    }
}

/// The handler for a kind of event.
pub fn route(kind: &str) -> (r: Route)
    ensures
        r == routed(kind@),
{
    if text::has_prefix(kind, "Deck") {
        Route::Decks
    } else if text::has_prefix(kind, "Inventory") || text::has_prefix(kind, "PlayerInventory")
        || text::has_prefix(kind, "Wallet") {
        Route::Inventory
    } else if text::same(kind, "StartHook") {
        Route::StartHook
    } else if text::has(kind, "Booster") || text::has(kind, "Prize") || text::has(kind, "Reward")
        || text::has(kind, "Grant") || text::has(kind, "PackOpen") || text::has(kind, "MassOpen") {
        Route::Grants
    } else if text::same(kind, "MatchGameRoomStateChangedEvent") {
        Route::MatchRoom
    } else if text::same(kind, "GreToClientEvent") {
        Route::GameState
    } else if text::has_prefix(kind, "Draft") || text::has_prefix(kind, "BotDraft") {
        Route::Draft
    } else {
        Route::Other
    }
}

/// What is sent out when something changed.
#[derive(Debug)]
pub enum LiveUpdate {
    /// The match that is being played, or none.
    Match(Option<LiveMatch>),
    /// An event came.
    EventTick { kind: String },
    CollectionUpdated,
    DecksUpdated,
}

/// What an update holds.
pub ghost enum UpdateView {
    Match(Option<LiveMatchView>),
    EventTick(Seq<char>),
    CollectionUpdated,
    DecksUpdated,
}

/// What an optional match holds.
pub open spec fn opt_match(m: Option<LiveMatch>) -> Option<LiveMatchView> {
    match m {
        Some(m) => Some(m@),
        None => None,
    }
}

impl View for LiveUpdate {
    type V = UpdateView;

    open spec fn view(&self) -> UpdateView {
        match self {
            LiveUpdate::Match(m) => UpdateView::Match(opt_match(*m)),
            LiveUpdate::EventTick { kind } => UpdateView::EventTick(kind@),
            LiveUpdate::CollectionUpdated => UpdateView::CollectionUpdated,
            LiveUpdate::DecksUpdated => UpdateView::DecksUpdated,
        }
    }
}

/// What a list of updates holds.
pub open spec fn update_views(list: Seq<LiveUpdate>) -> Seq<UpdateView> {
    list.map_values(|u: LiveUpdate| u@)
}

/// The updates after an event was handled: what its handler changed, then the
/// event itself.
pub open spec fn updates_after(
    kind: Seq<char>,
    current: Option<LiveMatchView>,
) -> Seq<UpdateView> {
    let changed = match routed(kind) {
        Route::Decks => seq![UpdateView::DecksUpdated],
        Route::Inventory => seq![UpdateView::CollectionUpdated],
        Route::StartHook => seq![UpdateView::DecksUpdated, UpdateView::CollectionUpdated],
        Route::Grants => seq![UpdateView::CollectionUpdated],
        Route::MatchRoom => seq![UpdateView::Match(current)],
        Route::GameState => seq![UpdateView::Match(current)],
        Route::Draft => seq![],
        Route::Other => seq![],
    };
    changed.push(UpdateView::EventTick(kind))
}

/// The updates after an event of this kind was handled.
pub fn updates(kind: &str, current: &Option<LiveMatch>) -> (r: Vec<LiveUpdate>)
    ensures
        update_views(r@) == updates_after(kind@, opt_match(*current)),
{
    let mut r: Vec<LiveUpdate> = Vec::new();
    let snapshot = match current {
        Some(m) => Some(m.copy()),
        None => None,
    };
    match route(kind) {
        Route::Decks => {
            r.push(LiveUpdate::DecksUpdated);
        },
        Route::Inventory => {
            r.push(LiveUpdate::CollectionUpdated);
        },
        Route::StartHook => {
            r.push(LiveUpdate::DecksUpdated);
            r.push(LiveUpdate::CollectionUpdated);
        },
        Route::Grants => {
            r.push(LiveUpdate::CollectionUpdated);
        },
        Route::MatchRoom => {
            r.push(LiveUpdate::Match(snapshot));
        },
        Route::GameState => {
            r.push(LiveUpdate::Match(snapshot));
        },
        Route::Draft => {},
        Route::Other => {},
    }
    let mut name = String::new();
    name.append(kind);
    assert(name@ =~= kind@);
    r.push(LiveUpdate::EventTick { kind: name });
    assert(update_views(r@) =~= updates_after(kind@, opt_match(*current)));
    r
}

/// Every event is announced, last of all.
pub proof fn law_every_event_ticks(kind: Seq<char>, current: Option<LiveMatchView>)
    ensures
        updates_after(kind, current).last() == UpdateView::EventTick(kind),
{
}

/// An event as it is stored.
#[derive(Debug)]
pub struct RawEvent {
    pub timestamp: String,
    pub kind: String,
    pub direction: &'static str,
    pub payload: String,
}

/// Why an event cannot be stored.
#[derive(Debug, Clone, Copy, PartialEq, Eq, Structural)]
pub enum RawEventError {
    /// The payload cannot be written as JSON.
    Payload,
    /// The time cannot be written.
    Time,
}

/// The word for a direction.
pub open spec fn direction_word(d: Direction) -> Seq<char> {
    match d {
        Direction::Request => "request"@,
        Direction::Response => "response"@,
        Direction::Note => "note"@,
    }
}

/// The word for a direction.
pub fn direction_name(d: Direction) -> (r: &'static str)
    ensures
        r@ == direction_word(d),
{
    match d {
        Direction::Request => "request",
        Direction::Response => "response",
        Direction::Note => "note",
    }
}

/// An event as it is stored: its time and payload as text. A payload in which
/// all numbers are integers, no object has the key that marks raw text, and
/// nothing is nested deeper than is read, is read back from there as it was.
pub fn raw_event(event: &ParsedEvent) -> (r: Result<RawEvent, RawEventError>)
    ensures
        ({
            let payload = rendered(value_view(event.payload));
            let time = rfc3339_of(event.timestamp.secs, event.timestamp.nanos);
            match r {
                Ok(raw) => {
                    &&& payload == Some(raw.payload@)
                    &&& time == Some(raw.timestamp@)
                    &&& raw.kind@ == event.kind@
                    &&& raw.direction@ == direction_word(event.direction)
                    &&& reads_back(value_view(event.payload)) ==> parsed(raw.payload@) == Some(
                        value_view(event.payload),
                    )
                },
                Err(RawEventError::Payload) => payload is None,
                Err(RawEventError::Time) => payload is Some && time is None,
            }
        }),
{
    let payload = match json::render(&event.payload) {
        Ok(s) => s,
        Err(_) => {
            return Err(RawEventError::Payload);
        },
    };
    match rfc3339(event.timestamp.secs, event.timestamp.nanos) {
        Some(timestamp) => Ok(
            RawEvent {
                timestamp,
                kind: event.kind.clone(),
                direction: direction_name(event.direction),
                payload,
            },
        ),
        None => Err(RawEventError::Time),
    }
}

/// Where an event goes is said by how its kind begins, for decks, the inventory
/// and drafts, by a word in it, for cards that are handed out, or by the whole of
/// it.
pub proof fn law_routes(rest: Seq<char>)
    ensures
        routed("Deck"@ + rest) == Route::Decks,
        routed("Inventory"@ + rest) == Route::Inventory,
        routed("PlayerInventory"@ + rest) == Route::Inventory,
        routed("Wallet"@ + rest) == Route::Inventory,
        routed("StartHook"@) == Route::StartHook,
{
    reveal_strlit("Deck");
    reveal_strlit("Inventory");
    reveal_strlit("PlayerInventory");
    reveal_strlit("Wallet");
    reveal_strlit("StartHook");
    lemma_front("Deck"@, rest);
    lemma_front("Inventory"@, rest);
    lemma_front("PlayerInventory"@, rest);
    lemma_front("Wallet"@, rest);
    lemma_not_front("Inventory"@ + rest, "Deck"@);
    lemma_not_front("PlayerInventory"@ + rest, "Deck"@);
    lemma_not_front("Wallet"@ + rest, "Deck"@);
    let hook = "StartHook"@;
    lemma_not_front(hook, "Deck"@);
    lemma_not_front(hook, "Inventory"@);
    lemma_not_front(hook, "PlayerInventory"@);
    lemma_not_front(hook, "Wallet"@);
}

proof fn lemma_front(word: Seq<char>, rest: Seq<char>)
    ensures
        begins(word + rest, word),
{
    assert((word + rest).take(word.len() as int) =~= word);
}

proof fn lemma_not_front(s: Seq<char>, word: Seq<char>)
    requires
        word.len() > 0,
        s.len() > 0,
        s[0] != word[0],
    ensures
        !begins(s, word),
{
    if begins(s, word) {
        assert(s.take(word.len() as int)[0] == s[0]);
    }
}

/// A kind that goes to no handler before and holds a word for handing out cards
/// goes there, wherever the word stands; drafts, the match room and game states
/// go to theirs where no such word stands in them; anything else is only stored.
pub proof fn law_later_routes(kind: Seq<char>, front: Seq<char>, word: Seq<char>, back: Seq<char>)
    requires
        kind.len() > 0,
        kind[0] != 'D' && kind[0] != 'I' && kind[0] != 'P' && kind[0] != 'W' && kind[0] != 'S',
    ensures
        kind == front + word + back && (word == "Booster"@ || word == "Prize"@ || word == "Reward"@
            || word == "Grant"@ || word == "PackOpen"@ || word == "MassOpen"@) ==> routed(kind)
            == Route::Grants,
        !hands_out(kind) && kind == "MatchGameRoomStateChangedEvent"@ ==> routed(kind)
            == Route::MatchRoom,
        !hands_out(kind) && kind == "GreToClientEvent"@ ==> routed(kind) == Route::GameState,
        !hands_out(kind) && kind[0] != 'B' && kind[0] != 'M' && kind[0] != 'G' ==> routed(kind)
            == Route::Other,
{
    reveal_strlit("Deck");
    reveal_strlit("Inventory");
    reveal_strlit("PlayerInventory");
    reveal_strlit("Wallet");
    reveal_strlit("StartHook");
    reveal_strlit("Draft");
    reveal_strlit("BotDraft");
    reveal_strlit("MatchGameRoomStateChangedEvent");
    reveal_strlit("GreToClientEvent");
    lemma_not_front(kind, "Deck"@);
    lemma_not_front(kind, "Inventory"@);
    lemma_not_front(kind, "PlayerInventory"@);
    lemma_not_front(kind, "Wallet"@);
    lemma_not_front(kind, "Draft"@);
    if kind[0] != 'B' {
        lemma_not_front(kind, "BotDraft"@);
    }
    if kind == front + word + back {
        let i = front.len() as int;
        assert(kind.subrange(i, i + word.len()) =~= word);
        assert(text::occurs_at(kind, word, i));
    }
}

/// Events of the kinds that the game sends go where they belong.
pub proof fn law_known_kinds(rest: Seq<char>)
    ensures
        routed("MatchGameRoomStateChangedEvent"@) == Route::MatchRoom,
        routed("GreToClientEvent"@) == Route::GameState,
        !hands_out("Draft"@ + rest) ==> routed("Draft"@ + rest) == Route::Draft,
        !hands_out("BotDraft"@ + rest) ==> routed("BotDraft"@ + rest) == Route::Draft,
{
    reveal_strlit("Deck");
    reveal_strlit("Inventory");
    reveal_strlit("PlayerInventory");
    reveal_strlit("Wallet");
    reveal_strlit("StartHook");
    reveal_strlit("Draft");
    reveal_strlit("BotDraft");
    reveal_strlit("MatchGameRoomStateChangedEvent");
    reveal_strlit("GreToClientEvent");
    lemma_front("Draft"@, rest);
    lemma_front("BotDraft"@, rest);
    let d = "Draft"@ + rest;
    let b = "BotDraft"@ + rest;
    if begins(d, "Deck"@) {
        assert(d.take(4)[1] == d[1]);
    }
    lemma_not_front(d, "Inventory"@);
    lemma_not_front(d, "PlayerInventory"@);
    lemma_not_front(d, "Wallet"@);
    lemma_not_front(b, "Deck"@);
    lemma_not_front(b, "Inventory"@);
    lemma_not_front(b, "PlayerInventory"@);
    lemma_not_front(b, "Wallet"@);
    assert(d[0] != "StartHook"@[0] && b[0] != "StartHook"@[0]);
    assert(d[0] != "GreToClientEvent"@[0] && d[0] != "MatchGameRoomStateChangedEvent"@[0]);
    assert(b[0] != "GreToClientEvent"@[0] && b[0] != "MatchGameRoomStateChangedEvent"@[0]);
    let m = "MatchGameRoomStateChangedEvent"@;
    let g = "GreToClientEvent"@;
    lemma_hands_out_nothing(m);
    lemma_hands_out_nothing(g);
    law_later_routes(m, m, m, m);
    law_later_routes(g, g, g, g);
}

/// Neither of the two kinds holds a word for handing out cards.
proof fn lemma_hands_out_nothing(kind: Seq<char>)
    requires
        kind == "MatchGameRoomStateChangedEvent"@ || kind == "GreToClientEvent"@,
    ensures
        !hands_out(kind),
{
    reveal_strlit("MatchGameRoomStateChangedEvent");
    reveal_strlit("GreToClientEvent");
    reveal_strlit("Booster");
    reveal_strlit("Prize");
    reveal_strlit("Reward");
    reveal_strlit("Grant");
    reveal_strlit("PackOpen");
    reveal_strlit("MassOpen");
    lemma_absent(kind, "Booster"@);
    lemma_absent(kind, "Prize"@);
    lemma_absent(kind, "Reward"@);
    lemma_absent(kind, "Grant"@);
    lemma_absent(kind, "PackOpen"@);
    lemma_absent(kind, "MassOpen"@);
}

/// A word whose first two characters stand nowhere side by side does not occur.
proof fn lemma_absent(s: Seq<char>, word: Seq<char>)
    requires
        word.len() >= 4,
        forall|i: int|
            0 <= i < s.len() - 3 ==> !(#[trigger] s[i] == word[0] && s[i + 1] == word[1] && s[i + 2]
                == word[2] && s[i + 3] == word[3]),
    ensures
        !occurs(s, word),
{
    if occurs(s, word) {
        let i = choose|i: int| text::occurs_at(s, word, i);
        assert(text::occurs_at(s, word, i));
        let part = s.subrange(i, i + word.len());
        assert(part[0] == s[i] && part[1] == s[i + 1] && part[2] == s[i + 2] && part[3] == s[i
            + 3]);
    }
}

/// What is announced after an event: changed decks after decks and at the start,
/// a changed collection after the inventory, after cards handed out and at the
/// start, the match after the match room and game states, and the event itself,
/// once and last.
pub proof fn law_announced(kind: Seq<char>, current: Option<LiveMatchView>)
    ensures
        ({
            let list = updates_after(kind, current);
            let to = routed(kind);
            &&& list.contains(UpdateView::DecksUpdated) <==> to == Route::Decks || to
                == Route::StartHook
            &&& list.contains(UpdateView::CollectionUpdated) <==> to == Route::Inventory || to
                == Route::Grants || to == Route::StartHook
            &&& list.contains(UpdateView::Match(current)) <==> to == Route::MatchRoom || to
                == Route::GameState
            &&& forall|i: int|
                0 <= i < list.len() ==> ((#[trigger] list[i]) is EventTick <==> i == list.len() - 1)
            &&& forall|i: int|
                0 <= i < list.len() ==> ((#[trigger] list[i]) matches UpdateView::Match(m) ==> m
                    == current)
        }),
{
    let list = updates_after(kind, current);
    match routed(kind) {
        Route::Decks => {
            assert(list[0] == UpdateView::DecksUpdated);
        },
        Route::Inventory | Route::Grants => {
            assert(list[0] == UpdateView::CollectionUpdated);
        },
        Route::StartHook => {
            assert(list[0] == UpdateView::DecksUpdated);
            assert(list[1] == UpdateView::CollectionUpdated);
        },
        Route::MatchRoom | Route::GameState => {
            assert(list[0] == UpdateView::Match(current));
        },
        _ => {},
    }
}

/// Each direction has a word of its own.
pub proof fn law_direction_words(a: Direction, b: Direction)
    ensures
        direction_word(a) == direction_word(b) <==> a == b,
        direction_word(Direction::Request) == seq!['r', 'e', 'q', 'u', 'e', 's', 't'],
        direction_word(Direction::Response) == seq!['r', 'e', 's', 'p', 'o', 'n', 's', 'e'],
        direction_word(Direction::Note) == seq!['n', 'o', 't', 'e'],
{
    reveal_strlit("request");
    reveal_strlit("response");
    reveal_strlit("note");
    assert("request"@ =~= seq!['r', 'e', 'q', 'u', 'e', 's', 't']);
    assert("response"@ =~= seq!['r', 'e', 's', 'p', 'o', 'n', 's', 'e']);
    assert("note"@ =~= seq!['n', 'o', 't', 'e']);
    assert("request"@.len() == 7 && "response"@.len() == 8 && "note"@.len() == 4);
}

/// A match begins with nothing on the table, no life totals and no turn: all that
/// is known is its id, its opponent and when it began.
pub proof fn law_match_begins(match_id: Option<Seq<char>>, opponent: Option<Seq<char>>, at: Timestamp)
    ensures
        ({
            let m = new_match(match_id, opponent, at);
            &&& m.match_id == match_id
            &&& m.opponent_screen_name == opponent
            &&& m.started_at == Some(at)
            &&& m.library.len() == 0 && m.played.len() == 0 && m.opponent_revealed.len() == 0
            &&& m.player_life is None && m.opponent_life is None && m.turn is None
            &&& m.deck_id is None && m.deck_name is None
        }),
{
}

} // verus!
