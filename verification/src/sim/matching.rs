//! Paying colored pips from lands: a matching in a bipartite graph, grown one
//! pip at a time along augmenting paths.
use vstd::prelude::*;
use vstd::set_lib::{lemma_int_range, lemma_len_subset, lemma_map_size, set_int_range};

use super::mana::ColorMask;

verus! {

/// `f` sends each pip to a land of its own that makes one of its colors.
pub open spec fn assigns(f: Seq<int>, pips: Seq<ColorMask>, lands: Seq<ColorMask>) -> bool {
    &&& f.len() == pips.len()
    &&& forall|p: int|
        0 <= p < f.len() ==> 0 <= #[trigger] f[p] < lands.len() && pips[p].meets(lands[f[p]])
    &&& forall|p: int, q: int| 0 <= p < q < f.len() ==> f[p] != f[q]
}

/// Every pip can have a land of its own that makes one of its colors.
pub open spec fn coverable(pips: Seq<ColorMask>, lands: Seq<ColorMask>) -> bool {
    exists|f: Seq<int>| assigns(f, pips, lands)
}

/// Each matched land can pay its pip.
pub open spec fn fits(
    m: Seq<Option<usize>>,
    pips: Seq<ColorMask>,
    lands: Seq<ColorMask>,
) -> bool {
    &&& m.len() == lands.len()
    &&& forall|l: int|
        0 <= l < m.len() ==> (#[trigger] m[l] matches Some(p) ==> p < pips.len()
            && pips[p as int].meets(lands[l]))
}

/// No two lands outside `seen` are matched to one pip.
pub open spec fn apart(m: Seq<Option<usize>>, seen: Seq<bool>) -> bool {
    forall|k: int, l: int|
        0 <= k < l < m.len() && !seen[k] && !seen[l] && #[trigger] m[k] is Some ==> m[k]
            != #[trigger] m[l]
}

/// Some land outside `seen` is matched to the pip `p`.
pub open spec fn held(m: Seq<Option<usize>>, seen: Seq<bool>, p: usize) -> bool {
    exists|l: int| 0 <= l < m.len() && !seen[l] && #[trigger] m[l] == Some(p)
}

/// Some land is matched to the pip `p`.
pub open spec fn matched(m: Seq<Option<usize>>, p: usize) -> bool {
    exists|l: int| 0 <= l < m.len() && #[trigger] m[l] == Some(p)
}

/// Every land that can pay the pip `p` has been seen.
pub open spec fn exhausted(
    pips: Seq<ColorMask>,
    lands: Seq<ColorMask>,
    seen: Seq<bool>,
    p: int,
) -> bool {
    forall|l: int| 0 <= l < lands.len() && pips[p].meets(#[trigger] lands[l]) ==> seen[l]
}

/// What was seen stays seen.
pub open spec fn within(a: Seq<bool>, b: Seq<bool>) -> bool {
    a.len() == b.len() && forall|l: int| 0 <= l < a.len() && #[trigger] a[l] ==> b[l]
}

/// How many lands have not been seen.
pub open spec fn unseen(seen: Seq<bool>) -> nat
    decreases seen.len(),
{
    if seen.len() == 0 {
        0
    } else {
        unseen(seen.drop_last()) + if seen.last() {
            0nat
        } else {
            1nat
        }
    }
}

proof fn lemma_unseen_shrinks(a: Seq<bool>, b: Seq<bool>)
    requires
        within(a, b),
    ensures
        unseen(b) <= unseen(a),
        (exists|l: int| 0 <= l < a.len() && !a[l] && b[l]) ==> unseen(b) < unseen(a),
    decreases a.len(),
{
    if a.len() > 0 {
        let x = a.drop_last();
        let y = b.drop_last();
        assert forall|l: int| 0 <= l < x.len() && #[trigger] x[l] implies y[l] by {
            assert(a[l]);
        }
        lemma_unseen_shrinks(x, y);
        assert(a.last() ==> b.last()) by {
            assert(a[a.len() - 1] ==> b[a.len() - 1]);
        }
        if exists|l: int| 0 <= l < a.len() && !a[l] && b[l] {
            let l = choose|l: int| 0 <= l < a.len() && !a[l] && b[l];
            if l < x.len() {
                assert(!x[l] && y[l]);
            }
        }
    }
}

/// After the inner search freed the land `li`, giving that land to `pi`
/// completes the outer search.
proof fn lemma_handover(
    start: Seq<bool>,
    m0: Seq<Option<usize>>,
    now: Seq<bool>,
    m1: Seq<Option<usize>>,
    li: int,
    other: usize,
    pi: usize,
)
    requires
        start.len() == m0.len() == now.len() == m1.len(),
        0 <= li < m0.len(),
        within(start, now),
        !start[li],
        now[li],
        m0[li] == Some(other),
        apart(m0, start),
        !held(m0, start, pi),
        apart(m1, now),
        forall|l: int| 0 <= l < m0.len() && now[l] ==> #[trigger] m1[l] == m0[l],
        forall|p: usize| held(m1, now, p) <==> p == other || held(m0, now, p),
    ensures
        apart(m1.update(li, Some(pi)), start),
        forall|p: usize|
            held(m1.update(li, Some(pi)), start, p) <==> p == pi || held(m0, start, p),
{
    let m2 = m1.update(li, Some(pi));
    // Where a pip of the new matching sat in the one before.
    assert forall|l: int|
        0 <= l < m2.len() && !start[l] && l != li && #[trigger] m2[l] is Some implies held(
        m0,
        start,
        m2[l].unwrap(),
    ) by {
        let p = m2[l].unwrap();
        if now[l] {
            assert(m1[l] == m0[l]);
            assert(m0[l] == Some(p));
        } else {
            assert(m1[l] == Some(p));
            assert(held(m1, now, p));
            if p == other {
                assert(m0[li] == Some(p) && !start[li]);
            } else {
                let k = choose|k: int| 0 <= k < m0.len() && !now[k] && #[trigger] m0[k] == Some(p);
                assert(!start[k]);
            }
        }
    }
    assert(apart(m2, start)) by {
        assert forall|k: int, l: int|
            0 <= k < l < m2.len() && !start[k] && !start[l] && #[trigger] m2[k] is Some implies m2[k]
            != #[trigger] m2[l] by {
            if m2[k] == m2[l] {
                let p = m2[k].unwrap();
                if k == li {
                    assert(m2[l] == Some(p));
                } else if l == li {
                    assert(m2[k] == Some(p));
                } else if now[k] && now[l] {
                    assert(m0[k] == m1[k] && m0[l] == m1[l]);
                } else if !now[k] && !now[l] {
                    assert(m1[k] != m1[l]);
                } else {
                    let (s, u) = if now[k] {
                        (k, l)
                    } else {
                        (l, k)
                    };
                    assert(m1[s] == m0[s] && m0[s] == Some(p));
                    assert(m1[u] == Some(p));
                    assert(held(m1, now, p));
                    if p == other {
                        assert(m0[li] == Some(p) && !start[li]);
                        if s < li {
                            assert(m0[s] != m0[li]);
                        } else {
                            assert(m0[li] != m0[s]);
                        }
                    } else {
                        let j = choose|j: int|
                            0 <= j < m0.len() && !now[j] && #[trigger] m0[j] == Some(p);
                        assert(!start[j]);
                        if s < j {
                            assert(m0[s] != m0[j]);
                        } else {
                            assert(m0[j] != m0[s]);
                        }
                    }
                }
            }
        }
    }
    assert forall|p: usize| p == pi || held(m0, start, p) implies held(m2, start, p) by {
        if p == pi {
            assert(m2[li] == Some(p));
        } else {
            let l = choose|l: int| 0 <= l < m0.len() && !start[l] && #[trigger] m0[l] == Some(p);
            if l == li {
                assert(held(m1, now, p));
                let k = choose|k: int| 0 <= k < m1.len() && !now[k] && #[trigger] m1[k] == Some(p);
                assert(m2[k] == Some(p) && !start[k]);
            } else if now[l] {
                assert(m1[l] == m0[l]);
                assert(m2[l] == Some(p));
            } else {
                assert(held(m0, now, p));
                assert(held(m1, now, p));
                let k = choose|k: int| 0 <= k < m1.len() && !now[k] && #[trigger] m1[k] == Some(p);
                assert(m2[k] == Some(p) && !start[k]);
            }
        }
    }
}

/// Looks for an augmenting path that gives the pip `pi` a land not yet
/// visited, moving other pips to other unvisited lands where that helps.
pub fn augment(
    pi: usize,
    pips: &Vec<ColorMask>,
    lands: &[ColorMask],
    visited: &mut Vec<bool>,
    land_match: &mut Vec<Option<usize>>,
) -> (found: bool)
    requires
        pi < pips@.len(),
        old(visited)@.len() == lands@.len(),
        fits(old(land_match)@, pips@, lands@),
        apart(old(land_match)@, old(visited)@),
        !held(old(land_match)@, old(visited)@, pi),
    ensures
        within(old(visited)@, final(visited)@),
        fits(final(land_match)@, pips@, lands@),
        found ==> {
            &&& forall|l: int|
                0 <= l < lands@.len() && old(visited)@[l] ==> #[trigger] final(land_match)@[l]
                    == old(land_match)@[l]
            &&& apart(final(land_match)@, old(visited)@)
            &&& forall|p: usize|
                held(final(land_match)@, old(visited)@, p) <==> p == pi || held(
                    old(land_match)@,
                    old(visited)@,
                    p,
                )
        },
        !found ==> {
            &&& final(land_match)@ == old(land_match)@
            &&& exhausted(pips@, lands@, final(visited)@, pi as int)
            &&& forall|l: int|
                0 <= l < lands@.len() && #[trigger] final(visited)@[l] && !old(visited)@[l] ==> {
                    &&& old(land_match)@[l] is Some
                    &&& exhausted(
                        pips@,
                        lands@,
                        final(visited)@,
                        old(land_match)@[l].unwrap() as int,
                    )
                }
        },
    decreases unseen(old(visited)@),
{
    let ghost start = visited@;
    let ghost m0 = land_match@;
    let mut li: usize = 0;
    while li < lands.len()
        invariant
            li <= lands@.len(),
            pi < pips@.len(),
            start == old(visited)@,
            m0 == old(land_match)@,
            start.len() == lands@.len(),
            land_match@ == m0,
            fits(m0, pips@, lands@),
            apart(m0, start),
            !held(m0, start, pi),
            within(start, visited@),
            forall|l: int| 0 <= l < li && pips@[pi as int].meets(#[trigger] lands@[l]) ==> visited@[l],
            forall|l: int|
                0 <= l < lands@.len() && #[trigger] visited@[l] && !start[l] ==> {
                    &&& m0[l] is Some
                    &&& exhausted(pips@, lands@, visited@, m0[l].unwrap() as int)
                },
        decreases lands@.len() - li,
    {
        if visited[li] || !pips[pi].intersects(lands[li]) {
            li += 1;
            continue;
        }
        let ghost before = visited@;
        assert(!start[li as int]) by {
            if start[li as int] {
                assert(visited@[li as int]);
            }
        }
        visited.set(li, true);
        let ghost now = visited@;
        assert(within(start, now)) by {
            assert forall|l: int| 0 <= l < start.len() && #[trigger] start[l] implies now[l] by {
                assert(before[l]);
            }
        }
        match land_match[li] {
            None => {
                land_match.set(li, Some(pi));
                proof {
                    let m1 = land_match@;
                    assert forall|k: int, l: int|
                        0 <= k < l < m1.len() && !start[k] && !start[l] && #[trigger] m1[k] is Some implies m1[k]
                        != #[trigger] m1[l] by {
                        if k != li && l != li {
                            assert(m0[k] != m0[l]);
                        } else if k == li {
                            if m1[l] == Some(pi) {
                                assert(m0[l] == Some(pi));
                            }
                        } else {
                            if m1[k] == Some(pi) {
                                assert(m0[k] == Some(pi));
                            }
                        }
                    }
                    assert forall|p: usize|
                        held(m1, start, p) <==> p == pi || held(m0, start, p) by {
                        if held(m1, start, p) {
                            let l = choose|l: int|
                                0 <= l < m1.len() && !start[l] && #[trigger] m1[l] == Some(p);
                            if l != li {
                                assert(m0[l] == Some(p));
                            }
                        }
                        if p == pi {
                            assert(m1[li as int] == Some(p));
                        } else if held(m0, start, p) {
                            let l = choose|l: int|
                                0 <= l < m0.len() && !start[l] && #[trigger] m0[l] == Some(p);
                            assert(m1[l] == Some(p));
                        }
                    }
                }
                return true;
            },
            Some(other) => {
                proof {
                    assert(now[li as int] && !start[li as int]);
                    lemma_unseen_shrinks(start, now);
                    assert(apart(m0, now)) by {
                        assert forall|k: int, l: int|
                            0 <= k < l < m0.len() && !now[k] && !now[l] && #[trigger] m0[k] is Some implies m0[k]
                            != #[trigger] m0[l] by {
                            assert(!start[k] && !start[l]);
                        }
                    }
                    assert(!held(m0, now, other)) by {
                        if held(m0, now, other) {
                            let l = choose|l: int|
                                0 <= l < m0.len() && !now[l] && #[trigger] m0[l] == Some(other);
                            assert(!start[l]);
                            assert(m0[li as int] == Some(other));
                            if l < li {
                                assert(m0[l] != m0[li as int]);
                            } else {
                                assert(m0[li as int] != m0[l]);
                            }
                        }
                    }
                }
                if augment(other, pips, lands, visited, land_match) {
                    let ghost m1 = land_match@;
                    land_match.set(li, Some(pi));
                    proof {
                        lemma_handover(start, m0, now, m1, li as int, other, pi);
                        assert(within(start, visited@)) by {
                            assert forall|l: int|
                                0 <= l < start.len() && #[trigger] start[l] implies visited@[l] by {
                                assert(now[l]);
                            }
                        }
                        assert forall|l: int| 0 <= l < lands@.len() && start[l] implies #[trigger] land_match@[l]
                            == m0[l] by {
                            assert(now[l]);
                            assert(m1[l] == m0[l]);
                        }
                        assert(fits(land_match@, pips@, lands@)) by {
                            assert forall|l: int| 0 <= l < land_match@.len() implies (
                            #[trigger] land_match@[l] matches Some(p) ==> p < pips@.len()
                                && pips@[p as int].meets(lands@[l])) by {
                                if l != li {
                                    assert(land_match@[l] == m1[l]);
                                }
                            }
                        }
                    }
                    return true;
                }
                proof {
                    let after = visited@;
                    assert(within(start, after)) by {
                        assert forall|l: int| 0 <= l < start.len() && #[trigger] start[l] implies after[l] by {
                            assert(now[l]);
                        }
                    }
                    assert forall|l: int|
                        0 <= l < li && pips@[pi as int].meets(#[trigger] lands@[l]) implies after[l] by {
                        assert(before[l]);
                        assert(now[l]);
                    }
                    assert forall|l: int|
                        0 <= l < lands@.len() && #[trigger] after[l] && !start[l] implies {
                        &&& m0[l] is Some
                        &&& exhausted(pips@, lands@, after, m0[l].unwrap() as int)
                    } by {
                        if l == li {
                        } else if now[l] {
                            assert(before[l]);
                            let p = m0[l].unwrap() as int;
                            assert forall|k: int|
                                0 <= k < lands@.len() && pips@[p].meets(#[trigger] lands@[k]) implies after[k] by {
                                assert(before[k]);
                                assert(now[k]);
                            }
                        }
                    }
                }
            },
        }
        assert(visited@[li as int]) by {
            assert(now[li as int]);
        }
        li += 1;
    }
    false
}

/// A pip whose search failed makes covering all pips impossible: the pips met
/// in the search outnumber the lands that can pay them.
pub proof fn lemma_stuck(
    pips: Seq<ColorMask>,
    lands: Seq<ColorMask>,
    m: Seq<Option<usize>>,
    seen: Seq<bool>,
    pi: usize,
)
    requires
        pi < pips.len(),
        seen.len() == lands.len(),
        fits(m, pips, lands),
        forall|k: int, l: int|
            0 <= k < l < m.len() && #[trigger] m[k] is Some ==> m[k] != #[trigger] m[l],
        forall|l: int| 0 <= l < m.len() ==> #[trigger] m[l] != Some(pi),
        exhausted(pips, lands, seen, pi as int),
        forall|l: int|
            0 <= l < lands.len() && #[trigger] seen[l] ==> m[l] is Some && exhausted(
                pips,
                lands,
                seen,
                m[l].unwrap() as int,
            ),
    ensures
        !coverable(pips, lands),
{
    if coverable(pips, lands) {
        let f = choose|f: Seq<int>| assigns(f, pips, lands);
        let v = Set::new(|l: int| 0 <= l < lands.len() && seen[l]);
        lemma_int_range(0, lands.len() as int);
        lemma_len_subset(v, set_int_range(0, lands.len() as int));
        let x = v.insert(-1);
        let h = |l: int|
            if l == -1 {
                f[pi as int]
            } else {
                f[m[l].unwrap() as int]
            };
        let y = x.map(h);
        assert forall|k: int, l: int|
            x.contains(k) && x.contains(l) && #[trigger] h(k) == #[trigger] h(l) implies k == l by {
            let p: int = if k == -1 {
                pi as int
            } else {
                m[k].unwrap() as int
            };
            let q: int = if l == -1 {
                pi as int
            } else {
                m[l].unwrap() as int
            };
            if k != -1 {
                assert(seen[k] && m[k] is Some);
            }
            if l != -1 {
                assert(seen[l] && m[l] is Some);
            }
            assert(0 <= p < pips.len() && 0 <= q < pips.len());
            if p < q {
                assert(f[p] != f[q]);
            } else if q < p {
                assert(f[q] != f[p]);
            }
            assert(p == q);
            if k != l && k != -1 && l != -1 {
                if k < l {
                    assert(m[k] != m[l]);
                } else {
                    assert(m[l] != m[k]);
                }
            }
        }
        lemma_map_size(x, y, h);
        assert(y.subset_of(v)) by {
            assert forall|b: int| y.contains(b) implies v.contains(b) by {
                let k = choose|k: int| x.contains(k) && b == h(k);
                let p: int = if k == -1 {
                    pi as int
                } else {
                    m[k].unwrap() as int
                };
                if k != -1 {
                    assert(seen[k] && m[k] is Some);
                }
                assert(0 <= f[p] < lands.len() && pips[p].meets(lands[f[p]]));
                assert(exhausted(pips, lands, seen, p));
            }
        }
        lemma_len_subset(y, v);
        assert(false);
    }
}

/// A matching that holds every pip is an assignment.
pub proof fn lemma_complete(
    pips: Seq<ColorMask>,
    lands: Seq<ColorMask>,
    m: Seq<Option<usize>>,
)
    requires
        fits(m, pips, lands),
        forall|p: usize| p < pips.len() ==> #[trigger] matched(m, p),
        pips.len() <= usize::MAX,
    ensures
        coverable(pips, lands),
{
    let f = Seq::new(
        pips.len(),
        |p: int| choose|l: int| 0 <= l < m.len() && #[trigger] m[l] == Some(p as usize),
    );
    assert forall|p: int| 0 <= p < f.len() implies 0 <= #[trigger] f[p] < m.len() && m[f[p]] == Some(
        p as usize,
    ) by {
        let q = p as usize;
        assert(matched(m, q));
    }
    assert forall|p: int| 0 <= p < f.len() implies 0 <= #[trigger] f[p] < lands.len()
        && pips[p].meets(lands[f[p]]) by {
        assert(m[f[p]] == Some(p as usize));
    }
    assert(assigns(f, pips, lands));
}

} // verus!
