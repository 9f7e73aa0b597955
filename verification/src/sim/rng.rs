//! The seeded generator behind every shuffle of the simulation.
use rand::rngs::StdRng;
use rand::seq::SliceRandom;
use rand::SeedableRng;
use vstd::prelude::*;
use vstd::set_lib::{lemma_int_range, lemma_subset_equality, set_int_range};

verus! {

/// The generator `rand::rngs::StdRng`, whose state is opaque here.
#[verifier::external_type_specification]
#[verifier::external_body]
pub struct ExStdRng(StdRng);

/// The order into which `SliceRandom::shuffle` brings `n` items when it is
/// driven by a `StdRng` that was seeded with `seed` and has since shuffled
/// lists of the lengths `earlier`, one after the other, and nothing else.
pub uninterp spec fn shuffle_order(seed: u64, earlier: Seq<nat>, n: nat) -> Seq<int>;

/// `order` holds each position below `n` once.
pub open spec fn is_order(order: Seq<int>, n: nat) -> bool {
    &&& order.len() == n
    &&& forall|i: int| 0 <= i < n ==> 0 <= #[trigger] order[i] < n
    &&& forall|i: int, j: int| 0 <= i < j < n ==> order[i] != order[j]
}

/// The order that a shuffle gives: the named one, which every shuffle shows to
/// be an order. A name for anything else would stand for the items as they are,
/// so this is an order before any shuffle was made.
pub open spec fn order_given(seed: u64, earlier: Seq<nat>, n: nat) -> Seq<int> {
    let order = shuffle_order(seed, earlier, n);
    if is_order(order, n) {
        order
    } else {
        Seq::new(n, |i: int| i)
    }
}

/// What a shuffle gives is an order.
pub proof fn law_shuffles_are_orders(seed: u64, earlier: Seq<nat>, n: nat)
    ensures
        is_order(order_given(seed, earlier, n), n),
{
}

/// The items of `list` in the order that `order` gives their positions.
pub open spec fn arranged<T>(list: Seq<T>, order: Seq<int>) -> Seq<T> {
    Seq::new(order.len(), |i: int| list[order[i]])
}

/// Arranging a list anew keeps its items.
pub proof fn law_arranged_keeps<T>(list: Seq<T>, order: Seq<int>)
    requires
        is_order(order, list.len()),
    ensures
        arranged(list, order).to_multiset() == list.to_multiset(),
    decreases list.len(),
{
    broadcast use vstd::seq_lib::group_to_multiset_ensures;

    let n = list.len() as int;
    if n == 0 {
        assert(arranged(list, order) =~= list);
    } else {
        let k = order[n - 1];
        let rest = list.remove(k);
        let fewer = Seq::new(
            (n - 1) as nat,
            |i: int|
                if order[i] < k {
                    order[i]
                } else {
                    order[i] - 1
                },
        );
        assert forall|i: int| 0 <= i < n - 1 implies order[i] != k by {
            assert(order[i] != order[n - 1]);
        }
        assert forall|i: int, j: int| 0 <= i < j < n - 1 implies fewer[i] != fewer[j] by {
            assert(order[i] != order[j]);
        }
        law_arranged_keeps(rest, fewer);
        assert(arranged(rest, fewer) =~= arranged(list, order).drop_last());
        assert(arranged(list, order) =~= arranged(list, order).drop_last().push(list[k]));
        assert(list =~= rest.insert(k, list[k]));
        vstd::seq_lib::to_multiset_insert(rest, k, list[k]);
    }
}

/// An order holds every position.
pub proof fn law_order_covers(order: Seq<int>, n: nat, x: int)
    requires
        is_order(order, n),
        0 <= x < n,
    ensures
        exists|i: int| 0 <= i < n && #[trigger] order[i] == x,
{
    let all = set_int_range(0, n as int);
    lemma_int_range(0, n as int);
    assert(order.no_duplicates()) by {
        assert forall|i: int, j: int| 0 <= i < order.len() && 0 <= j < order.len() && i != j implies order[i]
            != order[j] by {
            if i < j {
                assert(order[i] != order[j]);
            } else {
                assert(order[j] != order[i]);
            }
        }
    }
    order.unique_seq_to_set();
    assert(order.to_set().subset_of(all)) by {
        assert forall|y: int| order.to_set().contains(y) implies all.contains(y) by {
            let i = choose|i: int| 0 <= i < order.len() && order[i] == y;
            assert(0 <= order[i] < n);
        }
    }
    lemma_subset_equality(order.to_set(), all);
    assert(all.contains(x));
    assert(order.contains(x));
}

/// A seeded generator that only shuffles.
pub struct SimRng {
    rng: StdRng,
    seed: u64,
    earlier: Ghost<Seq<nat>>,
}

impl SimRng {
    /// What the generator was seeded with.
    pub closed spec fn seed(&self) -> u64 {
        self.seed
    }

    /// The lengths of the lists that were shuffled since.
    pub closed spec fn earlier(&self) -> Seq<nat> {
        self.earlier@
    }

    /// A new generator.
    pub fn seed_from_u64(seed: u64) -> (r: SimRng)
        ensures
            r.seed() == seed,
            r.earlier() == Seq::<nat>::empty(),
    {
        seeded(seed)
    }

    /// `SliceRandom::shuffle` with this generator: it swaps items, so the
    /// list holds the same ones in another order; the order depends on the
    /// seed, on the lengths of the earlier shuffles and on the length of the
    /// list alone.
    #[verifier::external_body]
    pub(crate) fn shuffle(&mut self, list: &mut Vec<u16>)
        ensures
            final(self).seed() == old(self).seed(),
            final(self).earlier() == old(self).earlier().push(old(list)@.len()),
            is_order(
                shuffle_order(old(self).seed(), old(self).earlier(), old(list)@.len()),
                old(list)@.len(),
            ) && final(list)@ == arranged(
                old(list)@,
                shuffle_order(old(self).seed(), old(self).earlier(), old(list)@.len()),
            ),
    {
        list.shuffle(&mut self.rng)
    }
}

/// `StdRng::seed_from_u64`: the generator that this seed gives, before any
/// shuffle.
#[verifier::external_body]
fn seeded(seed: u64) -> (r: SimRng)
    ensures
        r.seed() == seed,
        r.earlier() == Seq::<nat>::empty(),
{
    SimRng { rng: StdRng::seed_from_u64(seed), seed, earlier: Ghost(Seq::empty()) }
}

} // verus!
