//! Chance: the draws that a search makes, and orders drawn from a seed.

use rand::seq::SliceRandom;
use rand::{Rng, SeedableRng};
use vstd::prelude::*;

verus! {

/// The generator of the current thread.
#[verifier::external_type_specification]
#[verifier::external_body]
pub struct ExThreadRng(rand::rngs::ThreadRng);

/// `rand::Rng::gen_range` on the generator of the thread and the range from 0
/// up to, not counting, `bound`: a number of that range. Which one is a matter
/// of chance, and nothing is claimed of how likely each is. The outside function
/// panics on an empty range.
#[verifier::external_body]
pub(crate) fn draw_below(rng: &mut rand::rngs::ThreadRng, bound: usize) -> (r: usize)
    requires
        bound > 0,
    ensures
        r < bound,
{
    rng.gen_range(0..bound)
}

/// The order that `rand::seq::SliceRandom::shuffle` gives a sequence with the
/// generator `rand::rngs::StdRng` that starts from a seed.
pub uninterp spec fn seeded_order(items: Seq<usize>, seed: u64) -> Seq<usize>;

/// `rand::seq::SliceRandom::shuffle` with the generator that
/// `rand::SeedableRng::seed_from_u64` makes of the seed. It exchanges items
/// only, and the generator depends on nothing but its seed. Another version of
/// the generator may give another order. That all orders are equally likely is
/// not claimed.
#[verifier::external_body]
fn shuffle_seeded(items: &mut Vec<usize>, seed: u64)
    ensures
        final(items)@ == seeded_order(old(items)@, seed),
        final(items)@.to_multiset() == old(items)@.to_multiset(),
{
    items.shuffle(&mut rand::rngs::StdRng::seed_from_u64(seed));
}

/// Whether `p` holds each position below `n` once.
pub open spec fn is_permutation(p: Seq<int>, n: int) -> bool {
    &&& p.len() == n
    &&& forall|i: int| 0 <= i < n ==> 0 <= #[trigger] p[i] < n
    &&& p.no_duplicates()
}

/// `items` in the order that `p` gives: at position `i` the item at `p[i]`.
pub open spec fn rearranged<A>(items: Seq<A>, p: Seq<int>) -> Seq<A> {
    Seq::new(p.len(), |i: int| items[p[i]])
}

/// Whether `b` holds the items of `a` in some order.
pub open spec fn is_reordering<A>(a: Seq<A>, b: Seq<A>) -> bool {
    exists|p: Seq<int>| #[trigger] is_permutation(p, a.len() as int) && b == rearranged(a, p)
}

/// The positions below `n` in order.
pub open spec fn positions(n: nat) -> Seq<usize> {
    Seq::new(n, |i: int| i as usize)
}

/// The same positions as integers.
pub open spec fn as_ints(s: Seq<usize>) -> Seq<int> {
    s.map_values(|i: usize| i as int)
}

/// The order of `n` items that a seed gives.
pub open spec fn seeded_positions(n: nat, seed: u64) -> Seq<int> {
    as_ints(seeded_order(positions(n), seed))
}

fn count_up(n: usize) -> (r: Vec<usize>)
    ensures
        r@ == positions(n as nat),
{
    let mut r: Vec<usize> = Vec::new();
    for i in 0..n
        invariant
            r@ == positions(i as nat),
    {
        r.push(i);
        assert(r@ =~= positions((i + 1) as nat));
    }
    r
}

/// The positions below `n` in the order that a seed gives.
pub fn seeded_permutation(n: usize, seed: u64) -> (r: Vec<usize>)
    ensures
        as_ints(r@) == seeded_positions(n as nat, seed),
        is_permutation(as_ints(r@), n as int),
{
    let mut r = count_up(n);
    let ghost start = r@;
    shuffle_seeded(&mut r, seed);
    proof {
        start.to_multiset_ensures();
        r@.to_multiset_ensures();
        assert(r@.len() == n);
        assert(start.no_duplicates());
        start.lemma_multiset_has_no_duplicates();
        r@.lemma_multiset_has_no_duplicates_conv();
        let p = as_ints(r@);
        assert forall|i: int| 0 <= i < n implies 0 <= #[trigger] p[i] < n by {
            assert(r@.contains(r@[i]));
            assert(r@.to_multiset().count(r@[i]) > 0);
            assert(start.to_multiset().count(r@[i]) > 0);
            assert(start.contains(r@[i]));
        }
        assert(p.no_duplicates());
    }
    r
}

/// The positions below `n` in an order drawn by chance.
pub fn drawn_permutation(n: usize, rng: &mut rand::rngs::ThreadRng) -> (r: Vec<usize>)
    ensures
        is_permutation(as_ints(r@), n as int),
{
    let mut r = count_up(n);
    let mut i: usize = n;
    while i > 1
        invariant
            i <= n,
            is_permutation(as_ints(r@), n as int),
        decreases i,
    {
        i -= 1;
        let j: usize = draw_below(rng, i + 1);
        let ghost p = as_ints(r@);
        assert(p[i as int] == r@[i as int] && p[j as int] == r@[j as int]);
        let a: usize = r[i];
        let b: usize = r[j];
        r.set(i, b);
        r.set(j, a);
        assert(as_ints(r@) =~= p.update(i as int, p[j as int]).update(j as int, p[i as int]));
    }
    r
}

/// What is put in another order holds the same items, each as often as before.
pub proof fn lemma_reordering_keeps_the_items<A>(a: Seq<A>, b: Seq<A>)
    requires
        is_reordering(a, b),
    ensures
        b.len() == a.len(),
        b.to_multiset() == a.to_multiset(),
    decreases a.len(),
{
    let p = choose|p: Seq<int>| #[trigger] is_permutation(p, a.len() as int) && b == rearranged(a, p);
    if a.len() == 0 {
        assert(a =~= b);
    } else {
        // Take the last item out of both.
        let last = a.len() - 1;
        lemma_permutation_reaches(p, a.len() as int, last);
        let at = choose|i: int| 0 <= i < p.len() && p[i] == last;
        let q = p.remove(at);
        let d = a.drop_last();
        let e = b.remove(at);
        assert(is_permutation(q, last)) by {
            assert forall|i: int| 0 <= i < last implies 0 <= #[trigger] q[i] < last by {
                let j = if i < at { i } else { i + 1 };
                assert(q[i] == p[j]);
                assert(0 <= p[j] < a.len());
                assert(p[j] != p[at]);
            }
            assert forall|i: int, j: int| 0 <= i < q.len() && 0 <= j < q.len() && i != j implies q[i] != q[j] by {
                let x = if i < at { i } else { i + 1 };
                let y = if j < at { j } else { j + 1 };
                assert(q[i] == p[x] && q[j] == p[y]);
            }
        }
        assert forall|i: int| 0 <= i < e.len() implies #[trigger] e[i] == rearranged(d, q)[i] by {
            let j = if i < at { i } else { i + 1 };
            assert(e[i] == b[j]);
            assert(q[i] == p[j]);
        }
        assert(e =~= rearranged(d, q));
        assert(is_permutation(q, d.len() as int) && e == rearranged(d, q));
        lemma_reordering_keeps_the_items(d, e);
        assert(b[at] == a[last]);
        assert(e.insert(at, b[at]) =~= b);
        assert(d.push(a[last]) =~= a);
        vstd::seq_lib::to_multiset_insert(e, at, b[at]);
        vstd::seq_lib::to_multiset_build(d, a[last]);
    }
}

proof fn lemma_permutation_reaches(p: Seq<int>, n: int, k: int)
    requires
        is_permutation(p, n),
        0 <= k < n,
    ensures
        exists|i: int| 0 <= i < p.len() && p[i] == k,
{
    if forall|i: int| 0 <= i < p.len() ==> p[i] != k {
        p.unique_seq_to_set();
        vstd::set_lib::lemma_int_range(0, n);
        let range = vstd::set_lib::set_int_range(0, n);
        let s = p.to_set();
        assert forall|x: int| #[trigger] s.contains(x) implies range.remove(k).contains(x) by {
            let i = choose|i: int| 0 <= i < p.len() && p[i] == x;
            assert(0 <= p[i] < n);
        }
        vstd::set_lib::lemma_len_subset(s, range.remove(k));
    }
}

} // verus!
