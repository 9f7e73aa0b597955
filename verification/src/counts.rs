//! Adding up quantities by card.
use std::collections::HashMap;
use vstd::prelude::*;

verus! {

broadcast use vstd::std_specs::hash::group_hash_axioms;

/// How many copies of a card a list of cards and quantities holds.
pub open spec fn total(list: Seq<(u32, u32)>, id: u32) -> nat
    decreases list.len(),
{
    if list.len() == 0 {
        0
    } else {
        total(list.drop_last(), id) + if list.last().0 == id {
            list.last().1 as nat
        } else {
            0nat
        }
    }
}

/// Some entry of the list is for this card.
pub open spec fn lists(list: Seq<(u32, u32)>, id: u32) -> bool {
    exists|i: int| 0 <= i < list.len() && (#[trigger] list[i]).0 == id
}

/// No card has more copies than 32 bits hold.
pub open spec fn countable(list: Seq<(u32, u32)>) -> bool {
    forall|id: u32| #[trigger] total(list, id) <= u32::MAX
}

/// The map holds the number of copies of each card of the list, and no other
/// card.
pub open spec fn adds_up(m: Map<u32, u32>, list: Seq<(u32, u32)>) -> bool {
    &&& forall|id: u32| #[trigger] m.contains_key(id) <==> lists(list, id)
    &&& forall|id: u32| #[trigger] m.contains_key(id) ==> m[id] == total(list, id)
}

proof fn lemma_total_grows(list: Seq<(u32, u32)>, n: int, id: u32)
    requires
        0 <= n <= list.len(),
    ensures
        total(list.take(n), id) <= total(list, id),
    decreases list.len() - n,
{
    if n < list.len() {
        lemma_total_grows(list.drop_last(), n, id);
        assert(list.drop_last().take(n) =~= list.take(n));
    } else {
        assert(list.take(n) =~= list);
    }
}

proof fn lemma_not_listed(list: Seq<(u32, u32)>, id: u32)
    requires
        !lists(list, id),
    ensures
        total(list, id) == 0,
    decreases list.len(),
{
    if list.len() > 0 {
        assert(list[list.len() - 1].0 != id);
        assert forall|i: int| 0 <= i < list.len() - 1 implies (#[trigger] list.drop_last()[i]).0
            != id by {
            assert(list[i].0 != id);
        }
        lemma_not_listed(list.drop_last(), id);
    }
}

/// Two lists one after the other hold the copies of both.
pub proof fn law_totals_add(a: Seq<(u32, u32)>, b: Seq<(u32, u32)>, id: u32)
    ensures
        total(a + b, id) == total(a, id) + total(b, id),
    decreases b.len(),
{
    if b.len() == 0 {
        assert(a + b =~= a);
    } else {
        assert((a + b).drop_last() =~= a + b.drop_last());
        law_totals_add(a, b.drop_last(), id);
    }
}

/// Adds up a list, where no card has more copies than 32 bits hold.
pub fn checked_tally(list: &Vec<(u32, u32)>) -> (r: Option<HashMap<u32, u32>>)
    ensures
        match r {
            Some(m) => countable(list@) && adds_up(m@, list@),
            None => !countable(list@),
        },
{
    let mut m: HashMap<u32, u32> = HashMap::new();
    let mut i: usize = 0;
    assert(list@.take(0) =~= Seq::<(u32, u32)>::empty());
    while i < list.len()
        invariant
            i <= list@.len(),
            adds_up(m@, list@.take(i as int)),
            countable(list@.take(i as int)),
        decreases list@.len() - i,
    {
        let (id, qty) = list[i];
        let ghost a = list@.take(i as int);
        let ghost b = list@.take(i + 1);
        proof {
            assert(b.drop_last() =~= a);
            assert(b.last() == (id, qty));
            if !lists(a, id) {
                lemma_not_listed(a, id);
            }
        }
        let have: u32 = match m.get(&id) {
            Some(v) => *v,
            None => 0,
        };
        assert(have == total(a, id));
        let ghost was = m@;
        match have.checked_add(qty) {
            Some(sum) => {
                m.insert(id, sum);
            },
            None => {
                proof {
                    lemma_total_grows(list@, i + 1, id);
                    assert(total(b, id) > u32::MAX);
                    assert(!countable(list@));
                }
                return None;
            },
        }
        proof {
            assert forall|x: u32| #[trigger] total(b, x) <= u32::MAX by {
                assert(total(a, x) <= u32::MAX);
            }
            assert forall|x: u32| #[trigger] m@.contains_key(x) <==> lists(b, x) by {
                if lists(a, x) {
                    let k = choose|k: int| 0 <= k < a.len() && (#[trigger] a[k]).0 == x;
                    assert(b[k].0 == x);
                }
                if lists(b, x) && x != id {
                    let k = choose|k: int| 0 <= k < b.len() && (#[trigger] b[k]).0 == x;
                    assert(a[k].0 == x);
                }
                if x == id {
                    assert(b[i as int].0 == x);
                }
                assert(was.contains_key(x) <==> lists(a, x));
            }
            assert forall|x: u32| #[trigger] m@.contains_key(x) implies m@[x] == total(b, x) by {
                if x != id {
                    assert(was.contains_key(x));
                }
            }
        }
        i += 1;
    }
    assert(list@.take(i as int) =~= list@);
    Some(m)
}

/// Adds up a list.
pub fn tally(list: &Vec<(u32, u32)>) -> (m: HashMap<u32, u32>)
    requires
        countable(list@),
    ensures
        adds_up(m@, list@),
{
    match checked_tally(list) {
        Some(m) => m,
        None => HashMap::new(),
    }
}

/// The list holds each card of `list` once, with the number of its copies, in
/// the order of their ids.
pub open spec fn merged(out: Seq<(u32, u32)>, list: Seq<(u32, u32)>) -> bool {
    &&& forall|i: int, j: int| 0 <= i < j < out.len() ==> (#[trigger] out[i]).0 < (#[trigger] out[j]).0
    &&& forall|i: int|
        0 <= i < out.len() ==> lists(list, (#[trigger] out[i]).0) && out[i].1 == total(
            list,
            out[i].0,
        )
    &&& forall|id: u32| lists(list, id) ==> #[trigger] lists(out, id)
}

/// Merges the entries of a list that are for one card.
pub fn dedupe(list: &Vec<(u32, u32)>) -> (out: Vec<(u32, u32)>)
    requires
        countable(list@),
    ensures
        merged(out@, list@),
{
    let mut out: Vec<(u32, u32)> = Vec::new();
    let mut i: usize = 0;
    assert(list@.take(0) =~= Seq::<(u32, u32)>::empty());
    while i < list.len()
        invariant
            i <= list@.len(),
            countable(list@),
            merged(out@, list@.take(i as int)),
        decreases list@.len() - i,
    {
        let (id, qty) = list[i];
        let ghost a = list@.take(i as int);
        let ghost b = list@.take(i + 1);
        let ghost was = out@;
        proof {
            assert(b.drop_last() =~= a);
            assert(b.last() == (id, qty));
            lemma_total_grows(list@, i + 1, id);
            assert(total(list@, id) <= u32::MAX);
            if !lists(a, id) {
                lemma_not_listed(a, id);
            }
        }
        let mut p: usize = 0;
        while p < out.len() && out[p].0 < id
            invariant
                p <= out@.len(),
                out@ == was,
                forall|k: int| 0 <= k < p ==> (#[trigger] out@[k]).0 < id,
            decreases out@.len() - p,
        {
            p += 1;
        }
        if p < out.len() && out[p].0 == id {
            let have: u32 = out[p].1;
            assert(was[p as int].1 == total(a, id));
            out.set(p, (id, have + qty));
            proof {
                assert forall|k: int| 0 <= k < out@.len() implies lists(
                    b,
                    (#[trigger] out@[k]).0,
                ) && out@[k].1 == total(b, out@[k].0) by {
                    assert(lists(a, was[k].0) && was[k].1 == total(a, was[k].0));
                    lemma_lists_more(a, b, was[k].0);
                }
                assert forall|x: u32| lists(b, x) implies #[trigger] lists(out@, x) by {
                    if x == id {
                        assert(out@[p as int].0 == x);
                    } else {
                        lemma_lists_less(a, b, x);
                        assert(lists(was, x));
                        let k = choose|k: int| 0 <= k < was.len() && (#[trigger] was[k]).0 == x;
                        assert(out@[k].0 == x);
                    }
                }
            }
        } else {
            out.insert(p, (id, qty));
            proof {
                assert(!lists(a, id)) by {
                    if lists(a, id) {
                        assert(lists(was, id));
                        let k = choose|k: int| 0 <= k < was.len() && (#[trigger] was[k]).0 == id;
                        if k < p {
                            assert(was[k].0 < id);
                        } else if k > p {
                            assert(was[p as int].0 < was[k].0);
                        }
                    }
                }
                lemma_not_listed(a, id);
                assert forall|k: int| 0 <= k < out@.len() implies lists(
                    b,
                    (#[trigger] out@[k]).0,
                ) && out@[k].1 == total(b, out@[k].0) by {
                    if k == p {
                        assert(b[i as int].0 == id);
                    } else {
                        let j = if k < p {
                            k
                        } else {
                            k - 1
                        };
                        assert(out@[k] == was[j]);
                        assert(lists(a, was[j].0) && was[j].1 == total(a, was[j].0));
                        lemma_lists_more(a, b, was[j].0);
                        assert(was[j].0 != id);
                    }
                }
                assert forall|x: u32| lists(b, x) implies #[trigger] lists(out@, x) by {
                    if x == id {
                        assert(out@[p as int].0 == x);
                    } else {
                        lemma_lists_less(a, b, x);
                        assert(lists(was, x));
                        let k = choose|k: int| 0 <= k < was.len() && (#[trigger] was[k]).0 == x;
                        assert(out@[if k < p {
                            k
                        } else {
                            k + 1
                        }].0 == x);
                    }
                }
                assert forall|k: int, l: int| 0 <= k < l < out@.len() implies (
                #[trigger] out@[k]).0 < (#[trigger] out@[l]).0 by {
                    let x = if k < p {
                        k
                    } else {
                        k - 1
                    };
                    let y = if l < p {
                        l
                    } else {
                        l - 1
                    };
                    if k == p {
                        assert(out@[l] == was[y]);
                        if p < y {
                            assert(was[p as int].0 < was[y].0);
                        }
                    } else if l == p {
                        assert(out@[k] == was[k]);
                    } else {
                        assert(out@[k] == was[x] && out@[l] == was[y]);
                    }
                }
            }
        }
        i += 1;
    }
    assert(list@.take(i as int) =~= list@);
    out
}

proof fn lemma_lists_more(a: Seq<(u32, u32)>, b: Seq<(u32, u32)>, x: u32)
    requires
        b.len() == a.len() + 1,
        b.drop_last() == a,
        lists(a, x),
    ensures
        lists(b, x),
{
    let k = choose|k: int| 0 <= k < a.len() && (#[trigger] a[k]).0 == x;
    assert(b[k] == a[k]);
}

proof fn lemma_lists_less(a: Seq<(u32, u32)>, b: Seq<(u32, u32)>, x: u32)
    requires
        b.len() == a.len() + 1,
        b.drop_last() == a,
        lists(b, x),
        b.last().0 != x,
    ensures
        lists(a, x),
{
    let k = choose|k: int| 0 <= k < b.len() && (#[trigger] b[k]).0 == x;
    assert(b[k] == a[k]);
}

/// Whether no card of a list has more copies than 32 bits hold.
pub fn is_countable(list: &Vec<(u32, u32)>) -> (r: bool)
    ensures
        r == countable(list@),
{
    checked_tally(list).is_some()
}

/// One more entry adds its quantity to the copies of its card, and to no other;
/// an empty list holds none.
pub proof fn law_entries_add_up(list: Seq<(u32, u32)>, entry: (u32, u32), id: u32)
    ensures
        total(list.push(entry), id) == total(list, id) + if entry.0 == id {
            entry.1 as nat
        } else {
            0
        },
        total(Seq::<(u32, u32)>::empty(), id) == 0,
{
    assert(list.push(entry).drop_last() =~= list);
}

/// A map that holds a list has an entry for each of its cards, and it counts
/// every copy: a list of one entry gives one, and a second entry for the card adds
/// to it.
pub proof fn law_counted_once(m: Map<u32, u32>, a: (u32, u32), b: (u32, u32))
    requires
        adds_up(m, seq![a, b]),
        countable(seq![a, b]),
    ensures
        m.contains_key(a.0) && m.contains_key(b.0),
        a.0 == b.0 ==> m[a.0] == a.1 + b.1,
        a.0 != b.0 ==> m[a.0] == a.1 && m[b.0] == b.1,
        forall|id: u32| #[trigger] m.contains_key(id) ==> id == a.0 || id == b.0,
{
    let list = seq![a, b];
    assert(list[0].0 == a.0 && list[1].0 == b.0);
    assert(list.drop_last() =~= seq![a]);
    assert(seq![a].drop_last() =~= Seq::<(u32, u32)>::empty());
    reveal_with_fuel(total, 3);
    assert(lists(list, a.0) && lists(list, b.0));
    assert(total(list, a.0) <= u32::MAX);
}

/// A merged list holds as many copies of every card as the list it was made
/// from, and each card once.
pub proof fn law_merged(out: Seq<(u32, u32)>, list: Seq<(u32, u32)>, id: u32)
    requires
        merged(out, list),
    ensures
        total(out, id) == total(list, id),
        forall|i: int, j: int| 0 <= i < j < out.len() ==> (#[trigger] out[i]).0 != (#[trigger] out[j]).0,
{
    if lists(out, id) {
        let i = choose|i: int| 0 <= i < out.len() && (#[trigger] out[i]).0 == id;
        lemma_total_of_one(out, i);
    } else {
        lemma_not_listed(out, id);
        if lists(list, id) {
            assert(lists(out, id));
        }
        lemma_not_listed(list, id);
    }
}

proof fn lemma_total_of_one(list: Seq<(u32, u32)>, i: int)
    requires
        0 <= i < list.len(),
        forall|j: int, k: int|
            0 <= j < k < list.len() ==> (#[trigger] list[j]).0 < (#[trigger] list[k]).0,
    ensures
        total(list, list[i].0) == list[i].1,
    decreases list.len(),
{
    let rest = list.drop_last();
    if i < rest.len() {
        assert(rest[i] == list[i]);
        assert(list[i].0 < list[list.len() - 1].0);
        lemma_total_of_one(rest, i);
    } else {
        if lists(rest, list[i].0) {
            let j = choose|j: int| 0 <= j < rest.len() && (#[trigger] rest[j]).0 == list[i].0;
            assert(list[j].0 < list[i].0);
        }
        lemma_not_listed(rest, list[i].0);
    }
}

} // verus!
