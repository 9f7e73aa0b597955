//! A stable order by mana value and name.
use vstd::prelude::*;

use crate::text::{self, lemma_text_less_irreflexive, lemma_text_less_total, lemma_text_less_transitive, text_less};

use super::rng::{is_order, law_order_covers};

verus! {

/// The key `a` comes before the key `b`: by the number, then by the text.
pub open spec fn key_less(a: (u8, Seq<char>), b: (u8, Seq<char>)) -> bool {
    a.0 < b.0 || (a.0 == b.0 && text_less(a.1, b.1))
}

/// The item at `a` comes before the item at `b`: by their keys, and where
/// these are equal by their positions.
pub open spec fn comes_first(keys: Seq<(u8, Seq<char>)>, a: int, b: int) -> bool {
    key_less(keys[a], keys[b]) || (keys[a] == keys[b] && a < b)
}

/// `order` brings the keys into their order and keeps that of equal keys.
pub open spec fn sorts(order: Seq<int>, keys: Seq<(u8, Seq<char>)>) -> bool {
    &&& is_order(order, keys.len())
    &&& forall|i: int, j: int|
        0 <= i < j < order.len() ==> comes_first(keys, #[trigger] order[i], #[trigger] order[j])
}

/// The views of keys.
pub open spec fn key_views(keys: Seq<(u8, String)>) -> Seq<(u8, Seq<char>)> {
    keys.map_values(|k: (u8, String)| (k.0, k.1@))
}

/// The positions in a list of machine integers.
pub open spec fn ints(list: Seq<usize>) -> Seq<int> {
    list.map_values(|i: usize| i as int)
}

proof fn lemma_comes_first_transitive(keys: Seq<(u8, Seq<char>)>, a: int, b: int, c: int)
    requires
        comes_first(keys, a, b),
        comes_first(keys, b, c),
    ensures
        comes_first(keys, a, c),
{
    if keys[a].0 == keys[b].0 && keys[b].0 == keys[c].0 {
        if text_less(keys[a].1, keys[b].1) && text_less(keys[b].1, keys[c].1) {
            lemma_text_less_transitive(keys[a].1, keys[b].1, keys[c].1);
        }
    }
}

/// Of two items exactly one comes before the other.
pub proof fn law_one_comes_first(
    keys: Seq<(u8, Seq<char>)>,
    a: int,
    b: int,
)
    requires
        a != b,
    ensures
        comes_first(keys, a, b) <==> !comes_first(keys, b, a),
{
    lemma_text_less_total(keys[a].1, keys[b].1);
    lemma_text_less_irreflexive(keys[a].1);
    if text_less(keys[a].1, keys[b].1) && text_less(keys[b].1, keys[a].1) {
        lemma_text_less_transitive(keys[a].1, keys[b].1, keys[a].1);
    }
}

/// There is only one order that sorts.
pub proof fn law_sorted_once(keys: Seq<(u8, Seq<char>)>, a: Seq<int>, b: Seq<int>)
    requires
        sorts(a, keys),
        sorts(b, keys),
    ensures
        a == b,
{
    lemma_same_prefix(keys, a, b, keys.len() as int);
    assert(a =~= b);
}

proof fn lemma_same_prefix(keys: Seq<(u8, Seq<char>)>, a: Seq<int>, b: Seq<int>, n: int)
    requires
        sorts(a, keys),
        sorts(b, keys),
        0 <= n <= keys.len(),
    ensures
        forall|i: int| 0 <= i < n ==> #[trigger] a[i] == b[i],
    decreases n,
{
    if n > 0 {
        lemma_same_prefix(keys, a, b, n - 1);
        let k = n - 1;
        if a[k] != b[k] {
            law_order_covers(b, keys.len(), a[k]);
            law_order_covers(a, keys.len(), b[k]);
            let i = choose|i: int| 0 <= i < keys.len() && #[trigger] b[i] == a[k];
            let j = choose|j: int| 0 <= j < keys.len() && #[trigger] a[j] == b[k];
            if i < k {
                assert(a[i] == b[i]);
                assert(a[i] != a[k]);
            }
            if j < k {
                assert(a[j] == b[j]);
                assert(b[j] != b[k]);
            }
            assert(comes_first(keys, b[k], b[i]));
            assert(comes_first(keys, a[k], a[j]));
            law_one_comes_first(keys, a[k], b[k]);
        }
    }
}

/// The positions of the items in the order of their keys.
pub fn sort_positions(keys: &Vec<(u8, String)>) -> (order: Vec<usize>)
    ensures
        sorts(ints(order@), key_views(keys@)),
{
    let ghost views = key_views(keys@);
    let mut order: Vec<usize> = Vec::new();
    let mut k: usize = 0;
    while k < keys.len()
        invariant
            k <= keys@.len(),
            views == key_views(keys@),
            order@.len() == k,
            forall|i: int| 0 <= i < k ==> (#[trigger] order@[i]) < k,
            forall|i: int, j: int|
                0 <= i < j < k ==> comes_first(
                    views,
                    (#[trigger] order@[i]) as int,
                    (#[trigger] order@[j]) as int,
                ),
        decreases keys@.len() - k,
    {
        let mut p: usize = k;
        while p > 0 && before(keys, k, order[p - 1])
            invariant
                p <= k < keys@.len(),
                views == key_views(keys@),
                order@.len() == k,
                forall|i: int| 0 <= i < k ==> (#[trigger] order@[i]) < k,
                forall|i: int| p <= i < k ==> key_less(views[k as int], views[(#[trigger] order@[i]) as int]),
            decreases p,
        {
            p -= 1;
        }
        let ghost was = order@;
        order.insert(p, k);
        proof {
            if p > 0 {
                law_one_comes_first(views, was[p - 1] as int, k as int);
            }
            assert forall|i: int| 0 <= i < p implies comes_first(
                views,
                (#[trigger] was[i]) as int,
                k as int,
            ) by {
                if i < p - 1 {
                    lemma_comes_first_transitive(
                        views,
                        was[i] as int,
                        was[p - 1] as int,
                        k as int,
                    );
                }
            }
            assert forall|i: int, j: int| 0 <= i < j < k + 1 implies comes_first(
                views,
                (#[trigger] order@[i]) as int,
                (#[trigger] order@[j]) as int,
            ) by {
                let a = if i < p {
                    i
                } else {
                    i - 1
                };
                let b = if j < p {
                    j
                } else {
                    j - 1
                };
                if i != p && j != p {
                    assert(order@[i] == was[a] && order@[j] == was[b]);
                } else if j == p {
                    assert(order@[i] == was[i]);
                } else {
                    assert(order@[j] == was[j - 1]);
                }
            }
            assert forall|i: int| 0 <= i < k + 1 implies (#[trigger] order@[i]) < k + 1 by {
                if i < p {
                    assert(order@[i] == was[i]);
                } else if i > p {
                    assert(order@[i] == was[i - 1]);
                }
            }
        }
        k += 1;
    }
    proof {
        let o = ints(order@);
        assert forall|i: int, j: int| 0 <= i < j < o.len() implies comes_first(
            views,
            #[trigger] o[i],
            #[trigger] o[j],
        ) && o[i] != o[j] by {
            assert(comes_first(views, order@[i] as int, order@[j] as int));
            lemma_text_less_irreflexive(views[o[i]].1);
        }
        assert forall|i: int| 0 <= i < o.len() implies 0 <= #[trigger] o[i] < o.len() by {
            assert(order@[i] < k);
        }
    }
    order
}

fn before(keys: &Vec<(u8, String)>, a: usize, b: usize) -> (r: bool)
    requires
        a < keys@.len(),
        b < keys@.len(),
    ensures
        r == key_less(key_views(keys@)[a as int], key_views(keys@)[b as int]),
{
    keys[a].0 < keys[b].0 || (keys[a].0 == keys[b].0 && text::less(
        keys[a].1.as_str(),
        keys[b].1.as_str(),
    ))
}

} // verus!
