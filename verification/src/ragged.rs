//! Sequences made of pieces of given lengths.

use vstd::prelude::*;

verus! {

/// The sum of the first `k` counts.
pub open spec fn total(counts: Seq<u32>, k: int) -> int
    decreases k,
{
    if k <= 0 {
        0
    } else {
        total(counts, k - 1) + counts[k - 1]
    }
}

/// The sum of all counts.
pub open spec fn sum(counts: Seq<u32>) -> int {
    total(counts, counts.len() as int)
}

/// The piece `p` of a sequence that is cut into pieces of the given lengths.
pub open spec fn piece<T>(plane: Seq<T>, counts: Seq<u32>, p: int) -> Seq<T> {
    plane.subrange(total(counts, p), total(counts, p + 1))
}

/// The sequences `f(0)` to `f(n - 1)`, one behind the other.
pub open spec fn join<T>(f: spec_fn(int) -> Seq<T>, n: int) -> Seq<T>
    decreases n,
{
    if n <= 0 {
        Seq::empty()
    } else {
        join(f, n - 1) + f(n - 1)
    }
}

/// Sums do not decrease, and grow by each count.
pub proof fn lemma_total_monotonic(counts: Seq<u32>, a: int, b: int)
    requires
        0 <= a <= b,
    ensures
        0 <= total(counts, a) <= total(counts, b),
        a < b ==> total(counts, a) + counts[a] <= total(counts, b),
    decreases b,
{
    if a < b {
        lemma_total_monotonic(counts, a, b - 1);
    } else if a > 0 {
        lemma_total_monotonic(counts, a - 1, a - 1);
    }
}

/// A sum depends on its counts alone.
pub proof fn lemma_total_same(a: Seq<u32>, b: Seq<u32>, k: int)
    requires
        forall|i: int| 0 <= i < k ==> a[i] == b[i],
    ensures
        total(a, k) == total(b, k),
    decreases k,
{
    if k > 0 {
        lemma_total_same(a, b, k - 1);
    }
}

/// Bounded counts have a bounded sum.
pub proof fn lemma_total_bound(counts: Seq<u32>, k: int)
    requires
        0 <= k,
    ensures
        0 <= total(counts, k) <= 0xffff_ffff * k,
    decreases k,
{
    if k > 0 {
        lemma_total_bound(counts, k - 1);
    }
}

/// The sum of a slice of the counts.
pub proof fn lemma_total_slice(counts: Seq<u32>, a: int, b: int, k: int)
    requires
        0 <= a <= b <= counts.len(),
        0 <= k <= b - a,
    ensures
        total(counts.subrange(a, b), k) == total(counts, a + k) - total(counts, a),
    decreases k,
{
    if k > 0 {
        lemma_total_slice(counts, a, b, k - 1);
        assert(counts.subrange(a, b)[k - 1] == counts[a + k - 1]);
    }
}

/// Joining depends on the joined pieces alone.
pub proof fn lemma_join_same<T>(f: spec_fn(int) -> Seq<T>, g: spec_fn(int) -> Seq<T>, n: int)
    requires
        forall|i: int| #![trigger f(i)] 0 <= i < n ==> f(i) == g(i),
    ensures
        join(f, n) == join(g, n),
    decreases n,
{
    if n > 0 {
        lemma_join_same(f, g, n - 1);
    }
}

/// A join is as long as the counts say.
pub proof fn lemma_join_len<T>(f: spec_fn(int) -> Seq<T>, counts: Seq<u32>, n: int)
    requires
        0 <= n,
        forall|i: int| #![trigger f(i)] 0 <= i < n ==> f(i).len() == counts[i],
    ensures
        join(f, n).len() == total(counts, n),
    decreases n,
{
    if n > 0 {
        lemma_join_len(f, counts, n - 1);
    }
}

/// Cutting undoes joining.
pub proof fn lemma_piece_of_join<T>(f: spec_fn(int) -> Seq<T>, counts: Seq<u32>, n: int, p: int)
    requires
        0 <= p < n,
        forall|i: int| #![trigger f(i)] 0 <= i < n ==> f(i).len() == counts[i],
    ensures
        join(f, n).len() == total(counts, n),
        0 <= total(counts, p) <= total(counts, p + 1) <= total(counts, n),
        piece(join(f, n), counts, p) == f(p),
    decreases n,
{
    lemma_join_len(f, counts, n);
    lemma_total_monotonic(counts, p, p + 1);
    lemma_total_monotonic(counts, p + 1, n);
    if p == n - 1 {
        lemma_join_len(f, counts, n - 1);
        assert(piece(join(f, n), counts, p) =~= f(p));
    } else {
        lemma_piece_of_join(f, counts, n - 1, p);
        assert(piece(join(f, n), counts, p) =~= piece(join(f, n - 1), counts, p));
    }
}

/// Joining undoes cutting.
pub proof fn lemma_join_of_pieces<T>(plane: Seq<T>, counts: Seq<u32>, n: int)
    requires
        0 <= n,
        total(counts, n) <= plane.len(),
    ensures
        join(|p: int| piece(plane, counts, p), n) == plane.take(total(counts, n)),
    decreases n,
{
    let f = |p: int| piece(plane, counts, p);
    if n > 0 {
        lemma_total_monotonic(counts, n - 1, n);
        lemma_join_of_pieces(plane, counts, n - 1);
        assert(plane.take(total(counts, n - 1)) + f(n - 1) =~= plane.take(total(counts, n)));
    } else {
        assert(plane.take(0) =~= Seq::empty());
    }
}

/// The sequence `s` with `q` applied to each item.
pub open spec fn mapped<T>(s: Seq<T>, q: spec_fn(T) -> T) -> Seq<T> {
    Seq::new(s.len(), |i: int| q(s[i]))
}

/// Applying a function to a join applies it to the pieces.
pub proof fn lemma_join_mapped<T>(f: spec_fn(int) -> Seq<T>, q: spec_fn(T) -> T, n: int)
    ensures
        join(|i: int| mapped(f(i), q), n) == mapped(join(f, n), q),
    decreases n,
{
    let g = |i: int| mapped(f(i), q);
    if n > 0 {
        lemma_join_mapped(f, q, n - 1);
        assert(mapped(join(f, n - 1), q) + g(n - 1) =~= mapped(join(f, n), q));
    } else {
        assert(mapped(join(f, n), q) =~= Seq::empty());
    }
}

} // verus!
