//! Finding cards by name.
use vstd::prelude::*;

use crate::cards::{Card, CardDb, Cmc};
use crate::patterns::opt_text;
use crate::state::copy_text;
use crate::text::{
    self,
    begins,
    byte_len,
    lemma_text_less_irreflexive,
    lemma_text_less_total,
    lemma_text_less_transitive,
    lower,
    occurs,
    text_less,
    trimmed,
};

use super::entries::{copy_pairs, local_image, localize, opt_pairs};

verus! {

/// How many cards are found where the request does not say.
pub const DEFAULT_HITS: usize = 20;

/// How many cards are found at most.
pub const MAX_HITS: usize = 50;

/// A request for cards.
#[derive(Debug)]
pub struct CardSearchQuery {
    pub q: String,
    pub limit: Option<usize>,
}

/// A card that was found.
#[derive(Debug)]
pub struct CardSearchResult {
    pub arena_id: u32,
    pub name: String,
    pub mana_cost: Option<String>,
    pub cmc: Option<Cmc>,
    pub type_line: Option<String>,
    pub rarity: Option<String>,
    pub set: Option<String>,
    pub image_small: Option<String>,
    pub legalities: Option<Vec<(String, String)>>,
    pub owned: u32,
}

/// What is looked for: the request without white space at its ends, in lower
/// case.
pub open spec fn sought(q: Seq<char>) -> Seq<char> {
    lower(trimmed(q))
}

/// How many cards a request gets at most.
pub open spec fn hit_limit(limit: Option<usize>) -> usize {
    let n = match limit {
        Some(n) => n,
        None => DEFAULT_HITS,
    };
    if n < MAX_HITS {
        n
    } else {
        MAX_HITS
    }
}

/// The name holds what is looked for.
pub open spec fn named_like(name: Seq<char>, q: Seq<char>) -> bool {
    occurs(lower(name), q)
}

/// The first name comes before the second: names that begin with what is
/// looked for come first, and else the names are in their own order.
pub open spec fn ahead(a: Seq<char>, b: Seq<char>, q: Seq<char>) -> bool {
    let pa = begins(lower(a), q);
    let pb = begins(lower(b), q);
    (pa && !pb) || (pa == pb && text_less(a, b))
}

/// The card has a name that holds what is looked for, and is the one with the
/// largest id among the cards with this name.
pub open spec fn newest(db: Map<u32, Card>, q: Seq<char>, c: Card) -> bool {
    &&& db.contains_key(c.arena_id)
    &&& db[c.arena_id] == c
    &&& named_like(c.name@, q)
    &&& forall|id: u32| #[trigger]
        db.contains_key(id) && db[id].name@ == c.name@ ==> id <= c.arena_id
}

/// One of the cards has this name.
pub open spec fn has_name(r: Seq<&Card>, name: Seq<char>) -> bool {
    exists|k: int| 0 <= k < r.len() && (#[trigger] r[k]).name@ == name
}

/// The cards that are found: of each name the newest, in order, and none is
/// left out but behind a full list.
pub open spec fn hits(db: Map<u32, Card>, q: Seq<char>, limit: nat, r: Seq<&Card>) -> bool {
    &&& r.len() <= limit
    &&& forall|k: int| 0 <= k < r.len() ==> newest(db, q, *#[trigger] r[k])
    &&& forall|k: int, l: int|
        0 <= k < l < r.len() ==> ahead((#[trigger] r[k]).name@, (#[trigger] r[l]).name@, q)
    &&& forall|id: u32| #[trigger]
        db.contains_key(id) && named_like(db[id].name@, q) ==> has_name(r, db[id].name@) || (
        r.len() == limit && forall|k: int|
            0 <= k < r.len() ==> ahead((#[trigger] r[k]).name@, db[id].name@, q))
}

proof fn lemma_ahead(q: Seq<char>)
    ensures
        forall|a: Seq<char>| !#[trigger] ahead(a, a, q),
        forall|a: Seq<char>, b: Seq<char>, c: Seq<char>| #[trigger]
            ahead(a, b, q) && #[trigger] ahead(b, c, q) ==> ahead(a, c, q),
        forall|a: Seq<char>, b: Seq<char>|
            a != b && !(#[trigger] ahead(a, b, q)) ==> ahead(b, a, q),
{
    assert forall|a: Seq<char>| !#[trigger] ahead(a, a, q) by {
        lemma_text_less_irreflexive(a);
    }
    assert forall|a: Seq<char>, b: Seq<char>, c: Seq<char>| #[trigger]
        ahead(a, b, q) && #[trigger] ahead(b, c, q) implies ahead(a, c, q) by {
        if text_less(a, b) && text_less(b, c) {
            lemma_text_less_transitive(a, b, c);
        }
    }
    assert forall|a: Seq<char>, b: Seq<char>| a != b && !(#[trigger] ahead(a, b, q)) implies ahead(
        b,
        a,
        q,
    ) by {
        lemma_text_less_total(a, b);
    }
}

fn is_ahead(a: &str, b: &str, q: &str) -> (r: bool)
    ensures
        r == ahead(a@, b@, q@),
{
    let pa = text::has_prefix(text::to_lower(a).as_str(), q);
    let pb = text::has_prefix(text::to_lower(b).as_str(), q);
    if pa != pb {
        pa
    } else {
        text::less(a, b)
    }
}

/// The best card of its name among those at the first positions.
spec fn best_at(cards: Seq<Card>, n: int, q: Seq<char>, i: int) -> bool {
    &&& 0 <= i < n
    &&& named_like(cards[i].name@, q)
    &&& forall|j: int|
        0 <= j < n && (#[trigger] cards[j]).name@ == cards[i].name@ ==> cards[j].arena_id
            <= cards[i].arena_id
}

/// One of the positions has a card with this name.
spec fn covers(cards: Seq<Card>, r: Seq<usize>, name: Seq<char>) -> bool {
    exists|k: int| 0 <= k < r.len() && cards[#[trigger] r[k] as int].name@ == name
}

spec fn all_ahead(cards: Seq<Card>, r: Seq<usize>, q: Seq<char>, name: Seq<char>) -> bool {
    forall|k: int| 0 <= k < r.len() ==> ahead(cards[#[trigger] r[k] as int].name@, name, q)
}

/// The positions of the cards that are found among those at the first
/// positions.
spec fn ranked(cards: Seq<Card>, n: int, q: Seq<char>, limit: nat, r: Seq<usize>) -> bool {
    &&& r.len() <= limit
    &&& forall|k: int| 0 <= k < r.len() ==> best_at(cards, n, q, #[trigger] r[k] as int)
    &&& forall|k: int, l: int|
        0 <= k < l < r.len() ==> ahead(
            cards[#[trigger] r[k] as int].name@,
            cards[#[trigger] r[l] as int].name@,
            q,
        )
    &&& forall|j: int|
        0 <= j < n && named_like((#[trigger] cards[j]).name@, q) ==> covers(
            cards,
            r,
            cards[j].name@,
        ) || (r.len() == limit && all_ahead(cards, r, q, cards[j].name@))
}

/// A card whose name does not hold what is looked for changes nothing.
proof fn lemma_pass(cards: Seq<Card>, n: int, q: Seq<char>, limit: nat, r: Seq<usize>)
    requires
        0 <= n < cards.len(),
        ranked(cards, n, q, limit, r),
        !named_like(cards[n].name@, q),
    ensures
        ranked(cards, n + 1, q, limit, r),
{
    assert forall|k: int| 0 <= k < r.len() implies best_at(
        cards,
        n + 1,
        q,
        #[trigger] r[k] as int,
    ) by {
        assert(best_at(cards, n, q, r[k] as int));
    }
}

/// A card behind a full list changes nothing.
proof fn lemma_behind(cards: Seq<Card>, n: int, q: Seq<char>, limit: nat, r: Seq<usize>)
    requires
        0 <= n < cards.len(),
        ranked(cards, n, q, limit, r),
        r.len() == limit,
        all_ahead(cards, r, q, cards[n].name@),
    ensures
        ranked(cards, n + 1, q, limit, r),
{
    lemma_ahead(q);
    assert forall|k: int| 0 <= k < r.len() implies best_at(
        cards,
        n + 1,
        q,
        #[trigger] r[k] as int,
    ) by {
        assert(best_at(cards, n, q, r[k] as int));
        assert(ahead(cards[r[k] as int].name@, cards[n].name@, q));
    }
}

/// A card with a name that is in the list takes the place where its id is the
/// larger one.
proof fn lemma_same_name(
    cards: Seq<Card>,
    n: int,
    q: Seq<char>,
    limit: nat,
    r: Seq<usize>,
    p: int,
    s: Seq<usize>,
)
    requires
        0 <= n < cards.len(),
        n <= usize::MAX,
        ranked(cards, n, q, limit, r),
        named_like(cards[n].name@, q),
        0 <= p < r.len(),
        cards[r[p] as int].name@ == cards[n].name@,
        s == if cards[n].arena_id > cards[r[p] as int].arena_id {
            r.update(p, n as usize)
        } else {
            r
        },
    ensures
        ranked(cards, n + 1, q, limit, s),
{
    lemma_ahead(q);
    assert forall|k: int| 0 <= k < s.len() implies cards[#[trigger] s[k] as int].name@
        == cards[r[k] as int].name@ by {}
    assert forall|k: int| 0 <= k < s.len() implies best_at(
        cards,
        n + 1,
        q,
        #[trigger] s[k] as int,
    ) by {
        assert(best_at(cards, n, q, r[k] as int));
        if k < p {
            assert(ahead(cards[r[k] as int].name@, cards[r[p] as int].name@, q));
        } else if k > p {
            assert(ahead(cards[r[p] as int].name@, cards[r[k] as int].name@, q));
        }
    }
    assert forall|k: int, l: int| 0 <= k < l < s.len() implies ahead(
        cards[#[trigger] s[k] as int].name@,
        cards[#[trigger] s[l] as int].name@,
        q,
    ) by {
        assert(ahead(cards[r[k] as int].name@, cards[r[l] as int].name@, q));
    }
    assert forall|j: int| 0 <= j < n + 1 && named_like((#[trigger] cards[j]).name@, q) implies covers(
        cards,
        s,
        cards[j].name@,
    ) || (s.len() == limit && all_ahead(cards, s, q, cards[j].name@)) by {
        if j == n {
            assert(cards[s[p] as int].name@ == cards[n].name@);
        } else if covers(cards, r, cards[j].name@) {
            let k = choose|k: int|
                0 <= k < r.len() && cards[#[trigger] r[k] as int].name@ == cards[j].name@;
            assert(cards[s[k] as int].name@ == cards[j].name@);
        } else {
            assert(all_ahead(cards, r, q, cards[j].name@));
            assert forall|k: int| 0 <= k < s.len() implies ahead(
                cards[#[trigger] s[k] as int].name@,
                cards[j].name@,
                q,
            ) by {
                assert(ahead(cards[r[k] as int].name@, cards[j].name@, q));
            }
        }
    }
}

/// A card with a new name goes in at its place, and the last one out where the
/// list was full.
proof fn lemma_new_name(
    cards: Seq<Card>,
    n: int,
    q: Seq<char>,
    limit: nat,
    r: Seq<usize>,
    p: int,
    s: Seq<usize>,
)
    requires
        0 <= n < cards.len(),
        n <= usize::MAX,
        ranked(cards, n, q, limit, r),
        named_like(cards[n].name@, q),
        0 <= p <= r.len(),
        p < r.len() || r.len() < limit,
        forall|k: int| 0 <= k < p ==> ahead(cards[#[trigger] r[k] as int].name@, cards[n].name@, q),
        forall|k: int|
            p <= k < r.len() ==> ahead(cards[n].name@, cards[#[trigger] r[k] as int].name@, q),
        s == if r.len() == limit {
            r.insert(p, n as usize).drop_last()
        } else {
            r.insert(p, n as usize)
        },
    ensures
        ranked(cards, n + 1, q, limit, s),
{
    lemma_ahead(q);
    let name = cards[n].name@;
    assert(!covers(cards, r, name)) by {
        if covers(cards, r, name) {
            let k = choose|k: int| 0 <= k < r.len() && cards[#[trigger] r[k] as int].name@ == name;
            assert(ahead(name, name, q));
        }
    }
    assert forall|j: int| 0 <= j < n implies (#[trigger] cards[j]).name@ != name by {
        if cards[j].name@ == name {
            assert(all_ahead(cards, r, q, name));
            if p < r.len() {
                assert(ahead(name, cards[r[p] as int].name@, q));
                assert(ahead(cards[r[p] as int].name@, name, q));
            }
        }
    }
    assert forall|k: int| 0 <= k < s.len() implies best_at(
        cards,
        n + 1,
        q,
        #[trigger] s[k] as int,
    ) by {
        if k < p {
            assert(best_at(cards, n, q, r[k] as int));
            assert(ahead(cards[r[k] as int].name@, name, q));
        } else if k > p {
            assert(s[k] == r[k - 1]);
            assert(best_at(cards, n, q, r[k - 1] as int));
            assert(ahead(name, cards[r[k - 1] as int].name@, q));
        }
    }
    assert forall|k: int, l: int| 0 <= k < l < s.len() implies ahead(
        cards[#[trigger] s[k] as int].name@,
        cards[#[trigger] s[l] as int].name@,
        q,
    ) by {
        if l < p {
            assert(s[k] == r[k] && s[l] == r[l]);
        } else if l == p {
            assert(s[k] == r[k]);
        } else if k < p {
            assert(s[k] == r[k] && s[l] == r[l - 1]);
        } else if k == p {
            assert(s[l] == r[l - 1]);
        } else {
            assert(s[k] == r[k - 1] && s[l] == r[l - 1]);
        }
    }
    assert forall|j: int| 0 <= j < n + 1 && named_like((#[trigger] cards[j]).name@, q) implies covers(
        cards,
        s,
        cards[j].name@,
    ) || (s.len() == limit && all_ahead(cards, s, q, cards[j].name@)) by {
        let other = cards[j].name@;
        if j == n {
            assert(cards[s[p] as int].name@ == name);
        } else if covers(cards, r, other) {
            let k = choose|k: int| 0 <= k < r.len() && cards[#[trigger] r[k] as int].name@ == other;
            if k < p {
                assert(s[k] == r[k]);
                assert(cards[s[k] as int].name@ == other);
            } else if k + 1 < s.len() {
                assert(s[k + 1] == r[k]);
                assert(cards[s[k + 1] as int].name@ == other);
            } else {
                assert forall|l: int| 0 <= l < s.len() implies ahead(
                    cards[#[trigger] s[l] as int].name@,
                    other,
                    q,
                ) by {
                    if l < p {
                        assert(s[l] == r[l]);
                        assert(ahead(cards[r[l] as int].name@, name, q));
                        assert(ahead(name, cards[r[k] as int].name@, q));
                    } else if l == p {
                        assert(ahead(name, cards[r[k] as int].name@, q));
                    } else {
                        assert(s[l] == r[l - 1]);
                        assert(ahead(cards[r[l - 1] as int].name@, cards[r[k] as int].name@, q));
                    }
                }
            }
        } else {
            assert(all_ahead(cards, r, q, other));
            assert forall|l: int| 0 <= l < s.len() implies ahead(
                cards[#[trigger] s[l] as int].name@,
                other,
                q,
            ) by {
                if l < p {
                    assert(s[l] == r[l]);
                } else if l == p {
                    assert(ahead(name, cards[r[p] as int].name@, q));
                    assert(ahead(cards[r[p] as int].name@, other, q));
                } else {
                    assert(s[l] == r[l - 1]);
                }
            }
        }
    }
}

/// Where a name goes: behind every name that comes before it.
fn place(cards: &Vec<Card>, r: &Vec<usize>, name: &str, q: &str) -> (p: usize)
    requires
        forall|k: int| 0 <= k < r@.len() ==> (#[trigger] r@[k]) < cards@.len(),
    ensures
        p <= r@.len(),
        forall|k: int|
            0 <= k < p ==> ahead(cards@[#[trigger] r@[k] as int].name@, name@, q@),
        p < r@.len() ==> !ahead(cards@[r@[p as int] as int].name@, name@, q@),
{
    let mut p: usize = 0;
    while p < r.len()
        invariant
            p <= r@.len(),
            forall|k: int| 0 <= k < r@.len() ==> (#[trigger] r@[k]) < cards@.len(),
            forall|k: int|
                0 <= k < p ==> ahead(cards@[#[trigger] r@[k] as int].name@, name@, q@),
        decreases r@.len() - p,
    {
        if !is_ahead(cards[r[p]].name.as_str(), name, q) {
            return p;
        }
        p += 1;
    }
    p
}

/// The list with one more card.
fn take_card(cards: &Vec<Card>, n: usize, q: &str, limit: usize, r: &mut Vec<usize>)
    requires
        n < cards@.len(),
        ranked(cards@, n as int, q@, limit as nat, old(r)@),
        named_like(cards@[n as int].name@, q@),
    ensures
        ranked(cards@, n + 1, q@, limit as nat, final(r)@),
{
    let ghost was = r@;
    proof {
        lemma_ahead(q@);
        assert forall|k: int| 0 <= k < was.len() implies (#[trigger] was[k]) < cards@.len() by {
            assert(best_at(cards@, n as int, q@, was[k] as int));
        }
    }
    let p: usize = place(cards, r, cards[n].name.as_str(), q);
    let ghost name = cards@[n as int].name@;
    if p < r.len() {
        if text::same(cards[r[p]].name.as_str(), cards[n].name.as_str()) {
            if cards[n].arena_id > cards[r[p]].arena_id {
                r.set(p, n);
            }
            proof {
                lemma_same_name(cards@, n as int, q@, limit as nat, was, p as int, r@);
            }
            return;
        }
        assert forall|k: int| p <= k < was.len() implies ahead(
            name,
            cards@[#[trigger] was[k] as int].name@,
            q@,
        ) by {
            if k > p {
                assert(ahead(
                    cards@[was[p as int] as int].name@,
                    cards@[was[k] as int].name@,
                    q@,
                ));
            }
        }
    } else if r.len() == limit {
        proof {
            lemma_behind(cards@, n as int, q@, limit as nat, was);
        }
        return;
    }
    let full = r.len() == limit;
    r.insert(p, n);
    if full {
        let _last: Option<usize> = r.pop();
    }
    proof {
        lemma_new_name(cards@, n as int, q@, limit as nat, was, p as int, r@);
    }
}

/// The cards whose names hold what is looked for, which is at least two bytes
/// long.
pub fn search_cards<'a>(cards: &'a CardDb, query: &CardSearchQuery) -> (r: Vec<&'a Card>)
    requires
        cards.wf(),
    ensures
        byte_len(sought(query.q@)) < 2 ==> r@.len() == 0,
        byte_len(sought(query.q@)) >= 2 ==> hits(
            cards@,
            sought(query.q@),
            hit_limit(query.limit) as nat,
            r@,
        ),
{
    let trimmed_q = text::trim(query.q.as_str());
    let q = text::to_lower(trimmed_q.as_str());
    let mut r: Vec<&'a Card> = Vec::new();
    if !text::has_two_bytes(&text::chars_of(q.as_str())) {
        return r;
    }
    let asked: usize = match query.limit {
        Some(n) => n,
        None => DEFAULT_HITS,
    };
    let limit: usize = if asked < MAX_HITS {
        asked
    } else {
        MAX_HITS
    };
    let list = cards.iter();
    let mut found: Vec<usize> = Vec::new();
    let mut i: usize = 0;
    while i < list.len()
        invariant
            i <= list@.len(),
            ranked(list@, i as int, q@, limit as nat, found@),
        decreases list@.len() - i,
    {
        if text::has(text::to_lower(list[i].name.as_str()).as_str(), q.as_str()) {
            take_card(list, i, q.as_str(), limit, &mut found);
        } else {
            proof {
                lemma_pass(list@, i as int, q@, limit as nat, found@);
            }
        }
        i += 1;
    }
    let mut k: usize = 0;
    proof {
        assert forall|k: int| 0 <= k < found@.len() implies (#[trigger] found@[k])
            < list@.len() by {
            assert(best_at(list@, list@.len() as int, q@, found@[k] as int));
        }
    }
    while k < found.len()
        invariant
            k <= found@.len(),
            r@.len() == k,
            forall|j: int| 0 <= j < found@.len() ==> (#[trigger] found@[j]) < list@.len(),
            forall|j: int| 0 <= j < k ==> *(#[trigger] r@[j]) == list@[found@[j] as int],
        decreases found@.len() - k,
    {
        r.push(&list[found[k]]);
        k += 1;
    }
    proof {
        lemma_hits(cards, q@, limit as nat, found@, r@);
    }
    r
}

proof fn lemma_hits(cards: &CardDb, q: Seq<char>, limit: nat, found: Seq<usize>, r: Seq<&Card>)
    requires
        cards.wf(),
        ranked(cards.listed(), cards.listed().len() as int, q, limit, found),
        r.len() == found.len(),
        forall|j: int|
            0 <= j < r.len() ==> *(#[trigger] r[j]) == cards.listed()[found[j] as int],
    ensures
        hits(cards@, q, limit, r),
{
    let list = cards.listed();
    let db = cards@;
    cards.lemma_listed();
    assert forall|k: int| 0 <= k < r.len() implies newest(db, q, *#[trigger] r[k]) by {
        assert(best_at(list, list.len() as int, q, found[k] as int));
        let c = list[found[k] as int];
        assert forall|id: u32| #[trigger] db.contains_key(id) && db[id].name@ == c.name@ implies id
            <= c.arena_id by {
            let j = choose|j: int| 0 <= j < list.len() && list[j] == db[id];
            assert(list[j].name@ == c.name@);
        }
    }
    assert forall|k: int, l: int| 0 <= k < l < r.len() implies ahead(
        (#[trigger] r[k]).name@,
        (#[trigger] r[l]).name@,
        q,
    ) by {
        assert(ahead(list[found[k] as int].name@, list[found[l] as int].name@, q));
    }
    assert forall|id: u32| #[trigger]
        db.contains_key(id) && named_like(db[id].name@, q) implies has_name(r, db[id].name@) || (
    r.len() == limit && forall|k: int|
        0 <= k < r.len() ==> ahead((#[trigger] r[k]).name@, db[id].name@, q)) by {
        let j = choose|j: int| 0 <= j < list.len() && list[j] == db[id];
        let name = list[j].name@;
        if covers(list, found, name) {
            let k = choose|k: int|
                0 <= k < found.len() && list[#[trigger] found[k] as int].name@ == name;
            assert(r[k].name@ == name);
        } else {
            assert(all_ahead(list, found, q, name));
            assert forall|k: int| 0 <= k < r.len() implies ahead(
                (#[trigger] r[k]).name@,
                db[id].name@,
                q,
            ) by {
                assert(ahead(list[found[k] as int].name@, name, q));
            }
        }
    }
}

/// No card is found twice, and no two under one name.
pub proof fn law_one_hit_a_name(
    db: Map<u32, Card>,
    q: Seq<char>,
    limit: nat,
    r: Seq<&Card>,
    i: int,
    j: int,
)
    requires
        hits(db, q, limit, r),
        0 <= i < j < r.len(),
    ensures
        r[i].name@ != r[j].name@,
        r[i].arena_id != r[j].arena_id,
{
    lemma_ahead(q);
    assert(ahead(r[i].name@, r[j].name@, q));
    assert(newest(db, q, *r[i]) && newest(db, q, *r[j]));
}

/// Names that begin with what is looked for come before the others.
pub proof fn law_prefixes_first(
    db: Map<u32, Card>,
    q: Seq<char>,
    limit: nat,
    r: Seq<&Card>,
    i: int,
    j: int,
)
    requires
        hits(db, q, limit, r),
        0 <= i < j < r.len(),
        begins(lower(r[j].name@), q),
    ensures
        begins(lower(r[i].name@), q),
{
    assert(ahead(r[i].name@, r[j].name@, q));
}

/// A card that was found, with how many copies are owned.
pub fn search_result(c: &Card, owned: u32) -> (r: CardSearchResult)
    ensures
        r.arena_id == c.arena_id,
        r.name@ == c.name@,
        opt_text(r.mana_cost) == opt_text(c.mana_cost),
        r.cmc == c.cmc,
        opt_text(r.type_line) == opt_text(c.type_line),
        opt_text(r.rarity) == opt_text(c.rarity),
        opt_text(r.set) == opt_text(c.set),
        opt_text(r.image_small) == local_image(c.image_small),
        opt_pairs(r.legalities) == opt_pairs(c.legalities),
        r.owned == owned,
{
    CardSearchResult {
        arena_id: c.arena_id,
        name: c.name.clone(),
        mana_cost: copy_text(&c.mana_cost),
        cmc: c.cmc,
        type_line: copy_text(&c.type_line),
        rarity: copy_text(&c.rarity),
        set: copy_text(&c.set),
        image_small: localize(&c.image_small),
        legalities: copy_pairs(&c.legalities),
        owned,
    }
}

/// The text stands somewhere in the other.
pub open spec fn stands_in(q: Seq<char>, s: Seq<char>) -> bool {
    exists|i: int| 0 <= i <= s.len() - q.len() && #[trigger] s.subrange(i, i + q.len()) == q
}

/// What is found is what was looked for: each card is one of the database, its
/// name in lower case holds the text, and no newer card has its name.
pub proof fn law_hits_match(
    db: Map<u32, Card>,
    q: Seq<char>,
    limit: nat,
    r: Seq<&Card>,
    k: int,
    id: u32,
)
    requires
        hits(db, q, limit, r),
        0 <= k < r.len(),
    ensures
        db.contains_key(r[k].arena_id) && db[r[k].arena_id] == *r[k],
        stands_in(q, lower(r[k].name@)),
        id > r[k].arena_id && db.contains_key(id) ==> db[id].name@ != r[k].name@,
{
    assert(newest(db, q, *r[k]));
    let s = lower(r[k].name@);
    let i = choose|i: int| text::occurs_at(s, q, i);
    assert(s.subrange(i, i + q.len()) == q);
}

/// Nothing is left out where there is room: every name of the database that
/// holds the text is found.
pub proof fn law_every_match_found(
    db: Map<u32, Card>,
    q: Seq<char>,
    limit: nat,
    r: Seq<&Card>,
    id: u32,
)
    requires
        hits(db, q, limit, r),
        r.len() < limit,
        db.contains_key(id),
        stands_in(q, lower(db[id].name@)),
    ensures
        exists|k: int| 0 <= k < r.len() && (#[trigger] r[k]).name@ == db[id].name@,
{
    let s = lower(db[id].name@);
    let i = choose|i: int|
        0 <= i <= s.len() - q.len() && #[trigger] s.subrange(i, i + q.len()) == q;
    assert(text::occurs_at(s, q, i));
    assert(named_like(db[id].name@, q));
    assert(has_name(r, db[id].name@));
}

/// What is found comes in order: names that begin with the text first, and else
/// by name.
pub proof fn law_hits_ordered(
    db: Map<u32, Card>,
    q: Seq<char>,
    limit: nat,
    r: Seq<&Card>,
    i: int,
    j: int,
)
    requires
        hits(db, q, limit, r),
        0 <= i < j < r.len(),
        begins(lower(r[i].name@), q) == begins(lower(r[j].name@), q),
    ensures
        text_less(r[i].name@, r[j].name@),
{
    assert(ahead(r[i].name@, r[j].name@, q));
}

/// How many cards are found: as many as were asked for, fifty at most, and
/// twenty where that was not said.
pub proof fn law_hit_limit(n: usize)
    ensures
        n <= 50 ==> hit_limit(Some(n)) == n,
        n > 50 ==> hit_limit(Some(n)) == 50,
        hit_limit(None) == 20,
{
}

/// Neither white space around the request nor the case of its letters counts.
pub proof fn law_sought(front: Seq<char>, q: Seq<char>, back: Seq<char>, other: Seq<char>)
    requires
        text::blank(front),
        text::blank(back),
        q.len() > 0,
        !text::is_ws(q[0]) && !text::is_ws(q.last()),
        text::all_ascii(q),
        text::all_ascii(other),
        crate::cards::same_but_case(q, other),
    ensures
        sought(front + q + back) == sought(q),
        sought(other) == sought(q),
        sought(q).len() == q.len(),
        forall|i: int| 0 <= i < q.len() ==> !('A' <= #[trigger] sought(q)[i] <= 'Z'),
{
    let none = Seq::<char>::empty();
    text::law_trimmed(front, q, back);
    text::law_trimmed(none, q, none);
    assert(none + q + none =~= q);
    crate::cards::lemma_same_but_case(q, other);
    assert(q[0] == q[0]);
    assert(q[q.len() - 1] == q.last());
    assert(!text::is_ws(other[0]) && !text::is_ws(other.last()));
    text::law_trimmed(none, other, none);
    assert(none + other + none =~= other);
    assert forall|i: int| 0 <= i < q.len() implies !('A' <= #[trigger] sought(q)[i] <= 'Z') by {
        let c = q[i];
        if 'A' <= c <= 'Z' {
            assert(c as u8 == c as u32);
            assert((c as u8 + 32) as char as u32 == c as u32 + 32);
        }
    }
}

/// What is left out of a full list comes behind all that is in it.
pub proof fn law_left_out(
    db: Map<u32, Card>,
    q: Seq<char>,
    limit: nat,
    r: Seq<&Card>,
    id: u32,
    k: int,
)
    requires
        hits(db, q, limit, r),
        0 <= k < r.len(),
        db.contains_key(id),
        stands_in(q, lower(db[id].name@)),
        forall|j: int| 0 <= j < r.len() ==> (#[trigger] r[j]).name@ != db[id].name@,
    ensures
        r.len() == limit,
        begins(lower(db[id].name@), q) ==> begins(lower(r[k].name@), q),
        begins(lower(db[id].name@), q) == begins(lower(r[k].name@), q) ==> text_less(
            r[k].name@,
            db[id].name@,
        ),
{
    let s = lower(db[id].name@);
    let i = choose|i: int|
        0 <= i <= s.len() - q.len() && #[trigger] s.subrange(i, i + q.len()) == q;
    assert(text::occurs_at(s, q, i));
    assert(named_like(db[id].name@, q));
    assert(!has_name(r, db[id].name@));
    assert(ahead(r[k].name@, db[id].name@, q));
}

} // verus!
