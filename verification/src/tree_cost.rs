//! No prefix code is shorter than that of Huffman's tree.
//!
//! A code gives each symbol a length, and the shares of the code space that its
//! codes take, half as much for each bit, fit into the whole. Of all such
//! lengths, those of the tree give the fewest bits.

use crate::tree::{
    ahead, apart, bears, behind, code_lengths, covers, depths, grown, height, is_distinct, is_open,
    joined, law_code_lengths, leaves, lemma_below, lemma_depths_any, lemma_grown, lemma_joined,
    lemma_leaves, lightest, no_lens, Stem, Tree,
};
use vstd::arithmetic::power2::*;
use vstd::prelude::*;

verus! {

/// The sum of the first `k`.
pub open spec fn total(s: Seq<int>, k: int) -> int
    decreases k,
{
    if k <= 0 {
        0
    } else {
        total(s, k - 1) + s[k - 1]
    }
}

/// What codes of the given lengths take of a space of `2^m` codes of `m` bits.
pub open spec fn shares(lens: Seq<int>, m: int) -> Seq<int> {
    Seq::new(lens.len(), |i: int| pow2((m - lens[i]) as nat) as int)
}

/// The bits of each symbol: how often it occurs, times the length of its code.
pub open spec fn bits_of(weights: Seq<int>, lens: Seq<int>) -> Seq<int> {
    Seq::new(lens.len(), |i: int| weights[i] * lens[i])
}

/// Lengths of at most `m` bits whose codes fit into the code space.
pub open spec fn fits_space(lens: Seq<int>, m: int) -> bool {
    &&& forall|i: int| 0 <= i < lens.len() ==> 0 <= #[trigger] lens[i] <= m
    &&& total(shares(lens, m), lens.len() as int) <= pow2(m as nat)
}

proof fn lemma_total_same(s: Seq<int>, t: Seq<int>, k: int)
    requires
        forall|i: int| 0 <= i < k ==> s[i] == t[i],
    ensures
        total(s, k) == total(t, k),
    decreases k,
{
    if k > 0 {
        lemma_total_same(s, t, k - 1);
    }
}

proof fn lemma_total_update(s: Seq<int>, a: int, x: int, k: int)
    requires
        0 <= a < k <= s.len(),
    ensures
        total(s.update(a, x), k) == total(s, k) - s[a] + x,
    decreases k,
{
    if k - 1 == a {
        lemma_total_same(s, s.update(a, x), a);
    } else {
        lemma_total_update(s, a, x, k - 1);
    }
}

proof fn lemma_total_remove(s: Seq<int>, a: int, k: int)
    requires
        0 <= a < k <= s.len(),
    ensures
        total(s.remove(a), k - 1) == total(s, k) - s[a],
    decreases k,
{
    if k - 1 == a {
        lemma_total_same(s, s.remove(a), a);
    } else {
        lemma_total_remove(s, a, k - 1);
        assert(s.remove(a)[k - 2] == s[k - 1]);
    }
}

proof fn lemma_total_push(s: Seq<int>, x: int)
    ensures
        total(s.push(x), s.len() as int + 1) == total(s, s.len() as int) + x,
{
    lemma_total_same(s, s.push(x), s.len() as int);
}

proof fn lemma_total_scaled(s: Seq<int>, t: Seq<int>, g: int, k: int)
    requires
        forall|i: int| 0 <= i < k ==> #[trigger] s[i] == g * t[i],
    ensures
        total(s, k) == g * total(t, k),
    decreases k,
{
    if k > 0 {
        lemma_total_scaled(s, t, g, k - 1);
        let x = total(t, k - 1);
        let y = t[k - 1];
        assert(s[k - 1] == g * y);
        assert(g * (x + y) == g * x + g * y) by (nonlinear_arith);
    } else {
        assert(g * 0 == 0) by (nonlinear_arith);
    }
}

/// A place of the greatest among the first `k` that are not at `a`.
proof fn lemma_greatest(s: Seq<int>, a: int, k: int) -> (j: int)
    requires
        0 <= a < k <= s.len(),
        k >= 2,
    ensures
        0 <= j < k,
        j != a,
        forall|i: int| 0 <= i < k && i != a ==> #[trigger] s[i] <= s[j],
    decreases k,
{
    if k == 2 {
        1 - a
    } else if a == k - 1 {
        let b = lemma_greatest(s, k - 2, k - 1);
        if s[k - 2] > s[b] {
            k - 2
        } else {
            b
        }
    } else {
        let j = lemma_greatest(s, a, k - 1);
        if s[k - 1] > s[j] {
            k - 1
        } else {
            j
        }
    }
}

/// Two lengths change places.
pub open spec fn swapped(lens: Seq<int>, a: int, b: int) -> Seq<int> {
    lens.update(a, lens[b]).update(b, lens[a])
}

/// A longer code for a lighter symbol costs no more, and takes the same space.
proof fn lemma_swap(weights: Seq<int>, lens: Seq<int>, m: int, a: int, b: int)
    requires
        weights.len() == lens.len(),
        0 <= a < lens.len(),
        0 <= b < lens.len(),
        fits_space(lens, m),
        weights[a] <= weights[b],
        lens[a] <= lens[b],
    ensures
        fits_space(swapped(lens, a, b), m),
        total(bits_of(weights, swapped(lens, a, b)), lens.len() as int) <= total(
            bits_of(weights, lens),
            lens.len() as int,
        ),
{
    let n = lens.len() as int;
    let mid = lens.update(a, lens[b]);
    let new = swapped(lens, a, b);
    let (x, y) = (lens[a], lens[b]);
    let (v, w) = (weights[a], weights[b]);
    if a == b {
        assert(new =~= lens);
    } else {
        let s = shares(lens, m);
        assert(shares(mid, m) =~= s.update(a, s[b]));
        assert(shares(new, m) =~= shares(mid, m).update(b, s[a]));
        lemma_total_update(s, a, s[b], n);
        lemma_total_update(shares(mid, m), b, s[a], n);
        let c = bits_of(weights, lens);
        assert(bits_of(weights, mid) =~= c.update(a, v * y));
        assert(bits_of(weights, new) =~= bits_of(weights, mid).update(b, w * x));
        lemma_total_update(c, a, v * y, n);
        lemma_total_update(bits_of(weights, mid), b, w * x, n);
        assert(v * y + w * x <= v * x + w * y) by (nonlinear_arith)
            requires
                v <= w,
                x <= y,
        ;
    }
}

/// Where the code at `a` is the longest, it can be cut to the next longest, and
/// there are two codes of that length, which is at least one bit.
proof fn lemma_cut(weights: Seq<int>, lens: Seq<int>, m: int, a: int, b: int)
    requires
        weights.len() == lens.len(),
        0 <= a < lens.len(),
        0 <= b < lens.len(),
        a != b,
        fits_space(lens, m),
        weights[a] >= 0,
        lens[b] <= lens[a],
        forall|i: int| 0 <= i < lens.len() && i != a ==> #[trigger] lens[i] <= lens[b],
    ensures
        lens[b] >= 1,
        fits_space(lens.update(a, lens[b]), m),
        total(bits_of(weights, lens.update(a, lens[b])), lens.len() as int) <= total(
            bits_of(weights, lens),
            lens.len() as int,
        ),
{
    let n = lens.len() as int;
    let (x, y) = (lens[a], lens[b]);
    let new = lens.update(a, y);
    let s = shares(lens, m);
    let rest = lens.remove(a);
    assert(forall|i: int| 0 <= i < rest.len() ==> 0 <= #[trigger] rest[i] <= y) by {
        assert forall|i: int| 0 <= i < rest.len() implies 0 <= #[trigger] rest[i] <= y by {
            assert(rest[i] == lens[behind(a, i)]);
        }
    }
    assert(shares(rest, m) =~= s.remove(a));
    lemma_total_remove(s, a, n);
    let g = pow2((m - y) as nat) as int;
    let part = shares(rest, y);
    assert forall|i: int| 0 <= i < n - 1 implies #[trigger] shares(rest, m)[i] == g * part[i] by {
        lemma_pow2_adds((m - y) as nat, (y - rest[i]) as nat);
    }
    lemma_total_scaled(shares(rest, m), part, g, n - 1);
    let q = total(part, n - 1);
    let p = pow2(y as nat) as int;
    lemma_pow2_adds((m - y) as nat, y as nat);
    lemma_pow2_pos((m - x) as nat);
    lemma_pow2_pos((m - y) as nat);
    assert(q < p) by (nonlinear_arith)
        requires
            g * q < g * p,
            g > 0,
    ;
    assert(g * q + g <= g * p) by (nonlinear_arith)
        requires
            q + 1 <= p,
            g > 0,
    ;
    assert(shares(new, m) =~= s.update(a, g));
    lemma_total_update(s, a, g, n);
    let v = weights[a];
    assert(bits_of(weights, new) =~= bits_of(weights, lens).update(a, v * y));
    lemma_total_update(bits_of(weights, lens), a, v * y, n);
    assert(v * y <= v * x) by (nonlinear_arith)
        requires
            v >= 0,
            y <= x,
    ;
    if y == 0 {
        lemma_one_share(rest, ahead(a, b), n - 1);
        assert(rest[ahead(a, b)] == y);
        lemma2_to64();
    }
}

/// Codes of no bits take the whole space each.
proof fn lemma_one_share(lens: Seq<int>, b: int, k: int)
    requires
        0 <= b < k <= lens.len(),
        lens[b] == 0,
    ensures
        total(shares(lens, 0), k) >= 1,
    decreases k,
{
    lemma2_to64();
    lemma_shares_positive(lens, 0, k - 1);
    lemma_pow2_pos((0 - lens[k - 1]) as nat);
    if b < k - 1 {
        lemma_one_share(lens, b, k - 1);
    }
}

proof fn lemma_shares_positive(lens: Seq<int>, m: int, k: int)
    requires
        0 <= k <= lens.len(),
    ensures
        total(shares(lens, m), k) >= 0,
    decreases k,
{
    if k > 0 {
        lemma_shares_positive(lens, m, k - 1);
    }
}

/// The weights of the trees.
pub open spec fn weights_of(s: Seq<Stem>) -> Seq<int> {
    Seq::new(s.len(), |i: int| s[i].weight)
}

/// The bits that joining all trees adds: each join adds one bit to each symbol
/// below it.
pub open spec fn join_bits(s: Seq<Stem>) -> int
    decreases s.len(),
    via join_bits_decreases
{
    if s.len() <= 1 {
        0
    } else {
        joined(s)[s.len() - 2].weight + join_bits(joined(s))
    }
}

#[via_fn]
proof fn join_bits_decreases(s: Seq<Stem>) {
    if s.len() > 1 {
        let (a, c) = lemma_joined(s);
    }
}

/// Two codes of equal length at `a` and `b` become one that is a bit shorter.
proof fn lemma_merge(s: Seq<Stem>, lens: Seq<int>, m: int, a: int, c: int) -> (r: Seq<int>)
    requires
        s.len() >= 2,
        lens.len() == s.len(),
        fits_space(lens, m),
        a == lightest(s, s.len() as int),
        c == lightest(s.remove(a), s.len() - 1),
        0 <= a < s.len(),
        0 <= c < s.len() - 1,
        lens[a] == lens[behind(a, c)],
        lens[a] >= 1,
    ensures
        r.len() == joined(s).len(),
        fits_space(r, m),
        total(bits_of(weights_of(joined(s)), r), r.len() as int) + joined(s)[s.len() - 2].weight
            == total(bits_of(weights_of(s), lens), lens.len() as int),
{
    let n = s.len() as int;
    let y = lens[a];
    let w = weights_of(s);
    let b = behind(a, c);
    let t = joined(s);
    let v = weights_of(t);
    let r = lens.remove(a).remove(c).push(y - 1);
    let sh = shares(lens, m);
    assert(lens.remove(a)[c] == lens[b]);
    assert(shares(r, m) =~= sh.remove(a).remove(c).push(pow2((m - y + 1) as nat) as int));
    lemma_total_remove(sh, a, n);
    lemma_total_remove(sh.remove(a), c, n - 1);
    assert(sh.remove(a)[c] == sh[b]);
    lemma_total_push(sh.remove(a).remove(c), pow2((m - y + 1) as nat) as int);
    lemma_pow2_unfold((m - y + 1) as nat);
    let x = w[a] + w[b];
    assert(s.remove(a)[c] == s[b]);
    assert(v =~= w.remove(a).remove(c).push(x));
    let bits = bits_of(w, lens);
    assert(bits_of(v, r) =~= bits.remove(a).remove(c).push(x * (y - 1)));
    lemma_total_remove(bits, a, n);
    lemma_total_remove(bits.remove(a), c, n - 1);
    assert(bits.remove(a)[c] == bits[b]);
    lemma_total_push(bits.remove(a).remove(c), x * (y - 1));
    let (wa, wb) = (w[a], w[b]);
    assert((wa + wb) * (y - 1) + (wa + wb) == wa * y + wb * y) by (nonlinear_arith);
    assert forall|i: int| 0 <= i < r.len() implies 0 <= #[trigger] r[i] <= m by {
        if i < n - 2 {
            assert(r[i] == lens[behind(a, behind(c, i))]);
        }
    }
    r
}

/// No lengths whose codes fit cost less than joining all trees does.
proof fn lemma_no_better(s: Seq<Stem>, lens: Seq<int>, m: int)
    requires
        s.len() >= 1,
        lens.len() == s.len(),
        forall|i: int| 0 <= i < s.len() ==> (#[trigger] s[i]).weight >= 0,
        fits_space(lens, m),
    ensures
        join_bits(s) <= total(bits_of(weights_of(s), lens), lens.len() as int),
    decreases s.len(),
{
    let n = s.len() as int;
    let w = weights_of(s);
    if n == 1 {
        let (x, y) = (w[0], lens[0]);
        assert(total(bits_of(w, lens), 1) == total(bits_of(w, lens), 0) + x * y);
        assert(0 <= x * y) by (nonlinear_arith)
            requires
                x >= 0,
                y >= 0,
        ;
    } else {
        let (a, c) = lemma_joined(s);
        let b = behind(a, c);
        let other = lemma_greatest(lens, a, n);
        let far = if lens[other] > lens[a] {
            other
        } else {
            a
        };
        lemma_swap(w, lens, m, a, far);
        let one = swapped(lens, a, far);
        let next = lemma_greatest(one, a, n);
        lemma_swap(w, one, m, b, next);
        let two = swapped(one, b, next);
        assert forall|i: int| 0 <= i < n && i != a implies #[trigger] two[i] <= two[b] by {
            assert(one[i] <= one[next]);
            assert(one[b] <= one[next]);
        }
        assert(two[b] <= two[a]) by {
            assert(two[b] == one[next]);
            assert(lens[next] <= lens[other]);
        }
        lemma_cut(w, two, m, a, b);
        let three = two.update(a, two[b]);
        let r = lemma_merge(s, three, m, a, c);
        assert forall|i: int| 0 <= i < joined(s).len() implies (#[trigger] joined(s)[i]).weight >= 0 by {
            if i < n - 2 {
                assert(joined(s)[i] == s[behind(a, behind(c, i))]);
            }
        }
        lemma_no_better(joined(s), r, m);
    }
}

// ----------------------------------------------------------------------
// The bits of a tree
// ----------------------------------------------------------------------
/// How often the symbols of a tree occur.
pub open spec fn mass(t: Tree, freqs: Seq<int>) -> int
    decreases t,
{
    match t {
        Tree::Leaf(k) => freqs[k as int],
        Tree::Node(a, b) => mass(*a, freqs) + mass(*b, freqs),
    }
}

/// The bits of the symbols of a tree whose root has depth `d`.
pub open spec fn path_bits(t: Tree, freqs: Seq<int>, d: int) -> int
    decreases t,
{
    match t {
        Tree::Leaf(k) => freqs[k as int] * d,
        Tree::Node(a, b) => path_bits(*a, freqs, d + 1) + path_bits(*b, freqs, d + 1),
    }
}

/// A deeper root adds as many bits to each symbol.
proof fn lemma_deeper(t: Tree, freqs: Seq<int>, d: int)
    ensures
        path_bits(t, freqs, d) == path_bits(t, freqs, 0) + d * mass(t, freqs),
    decreases t,
{
    match t {
        Tree::Leaf(k) => {
            let x = freqs[k as int];
            assert(x * d == x * 0 + d * x) by (nonlinear_arith);
        },
        Tree::Node(a, b) => {
            lemma_deeper(*a, freqs, d + 1);
            lemma_deeper(*b, freqs, d + 1);
            lemma_deeper(*a, freqs, 1);
            lemma_deeper(*b, freqs, 1);
            let (x, y) = (mass(*a, freqs), mass(*b, freqs));
            assert((d + 1) * x + (d + 1) * y == x + y + d * (x + y)) by (nonlinear_arith);
            assert(1 * x + 1 * y == x + y);
        },
    }
}

/// The bits of each tree.
pub open spec fn stem_bits(s: Seq<Stem>, freqs: Seq<int>) -> Seq<int> {
    Seq::new(s.len(), |i: int| path_bits(s[i].tree, freqs, 0))
}

/// Each tree weighs as much as its symbols occur.
pub open spec fn is_weighed(s: Seq<Stem>, freqs: Seq<int>) -> bool {
    forall|i: int| 0 <= i < s.len() ==> (#[trigger] s[i]).weight == mass(s[i].tree, freqs)
}

/// The bits of the grown tree are those of the trees and those of the joins.
proof fn lemma_grown_bits(s: Seq<Stem>, freqs: Seq<int>)
    requires
        s.len() >= 1,
        is_weighed(s, freqs),
    ensures
        grown(s).len() == 1,
        path_bits(grown(s)[0].tree, freqs, 0) == total(stem_bits(s, freqs), s.len() as int)
            + join_bits(s),
    decreases s.len(),
{
    let n = s.len() as int;
    let bits = stem_bits(s, freqs);
    if n == 1 {
        assert(total(bits, 1) == total(bits, 0) + bits[0]);
    } else {
        let (a, c) = lemma_joined(s);
        let b = behind(a, c);
        let t = joined(s);
        let new = t[n - 2].tree;
        assert(s[a].weight == mass(s[a].tree, freqs) && s[b].weight == mass(s[b].tree, freqs));
        assert forall|i: int| 0 <= i < t.len() implies (#[trigger] t[i]).weight == mass(
            t[i].tree,
            freqs,
        ) by {
            if i < n - 2 {
                assert(t[i] == s[behind(a, behind(c, i))]);
            }
        }
        lemma_grown_bits(t, freqs);
        lemma_deeper(s[a].tree, freqs, 1);
        lemma_deeper(s[b].tree, freqs, 1);
        assert(path_bits(new, freqs, 0) == bits[a] + bits[b] + s[a].weight + s[b].weight);
        assert(stem_bits(t, freqs) =~= bits.remove(a).remove(c).push(path_bits(new, freqs, 0)));
        lemma_total_remove(bits, a, n);
        lemma_total_remove(bits.remove(a), c, n - 1);
        assert(bits.remove(a)[c] == bits[b]);
        lemma_total_push(bits.remove(a).remove(c), path_bits(new, freqs, 0));
    }
}

/// How often each symbol occurs.
pub open spec fn freqs_of(freqs: Seq<u128>) -> Seq<int> {
    Seq::new(freqs.len(), |k: int| freqs[k] as int)
}

/// Lengths as numbers.
pub open spec fn lens_of(lens: Seq<u8>) -> Seq<int> {
    Seq::new(lens.len(), |k: int| lens[k] as int)
}

/// The bits that symbols with the given lengths take in all.
pub open spec fn message_bits(freqs: Seq<u128>, lens: Seq<int>) -> int {
    total(bits_of(freqs_of(freqs), lens), lens.len() as int)
}

/// The depths of a tree add its bits.
proof fn lemma_depth_bits(t: Tree, d: int, lens: Seq<u8>, freqs: Seq<u128>)
    requires
        1 <= d,
        d + height(t) <= 58,
        is_distinct(t),
        is_open(t, lens),
        lens.len() == freqs.len(),
    ensures
        message_bits(freqs, lens_of(depths(t, d, lens))) == message_bits(freqs, lens_of(lens))
            + path_bits(t, freqs_of(freqs), d),
    decreases t,
{
    let f = freqs_of(freqs);
    match t {
        Tree::Leaf(k) => {
            let i = k as int;
            assert(bears(t, i));
            let before = bits_of(f, lens_of(lens));
            assert(f[i] * 0 == 0) by (nonlinear_arith);
            assert(bits_of(f, lens_of(depths(t, d, lens))) =~= before.update(i, f[i] * d));
            lemma_total_update(before, i, f[i] * d, lens.len() as int);
        },
        Tree::Node(a, b) => {
            lemma_below(*a, height(*a));
            lemma_below(*b, height(*b));
            lemma_halves_open(*a, *b, d + 1, lens);
            lemma_depth_bits(*a, d + 1, lens, freqs);
            lemma_depth_bits(*b, d + 1, depths(*a, d + 1, lens), freqs);
        },
    }
}

/// The halves of a tree get their lengths one after the other.
proof fn lemma_halves_open(a: Tree, b: Tree, d: int, lens: Seq<u8>)
    requires
        apart(a, b),
        is_open(Tree::Node(Box::new(a), Box::new(b)), lens),
    ensures
        is_open(a, lens),
        is_open(b, depths(a, d, lens)),
        depths(a, d, lens).len() == lens.len(),
{
    let t = Tree::Node(Box::new(a), Box::new(b));
    let mid = depths(a, d, lens);
    assert forall|k: int| #[trigger] bears(a, k) implies 0 <= k < lens.len() && lens[k] == 0 by {
        assert(bears(t, k));
    }
    lemma_depths_any(a, d, lens);
    assert forall|k: int| #[trigger] bears(b, k) implies 0 <= k < mid.len() && mid[k] == 0 by {
        assert(bears(t, k));
        assert(!bears(a, k));
        assert(mid[k] == lens[k]);
    }
}

/// The lengths of the first `k` symbols, without those that do not occur.
pub open spec fn coded_lens(freqs: Seq<u128>, lens: Seq<int>, k: int) -> Seq<int>
    decreases k,
{
    if k <= 0 {
        Seq::empty()
    } else if freqs[k - 1] > 0 {
        coded_lens(freqs, lens, k - 1).push(lens[k - 1])
    } else {
        coded_lens(freqs, lens, k - 1)
    }
}

/// Symbols that do not occur take no bits.
proof fn lemma_coded_bits(freqs: Seq<u128>, lens: Seq<int>, k: int)
    requires
        0 <= k <= freqs.len(),
        freqs.len() <= usize::MAX,
        lens.len() == freqs.len(),
    ensures
        coded_lens(freqs, lens, k).len() == leaves(freqs, k).len(),
        total(bits_of(freqs_of(freqs), lens), k) == total(
            bits_of(weights_of(leaves(freqs, k)), coded_lens(freqs, lens, k)),
            leaves(freqs, k).len() as int,
        ),
        is_weighed(leaves(freqs, k), freqs_of(freqs)),
        total(stem_bits(leaves(freqs, k), freqs_of(freqs)), leaves(freqs, k).len() as int) == 0,
    decreases k,
{
    if k > 0 {
        lemma_coded_bits(freqs, lens, k - 1);
        let f = freqs_of(freqs);
        let (s, c) = (leaves(freqs, k - 1), coded_lens(freqs, lens, k - 1));
        let (x, y) = (f[k - 1], lens[k - 1]);
        if freqs[k - 1] > 0 {
            let before = bits_of(weights_of(s), c);
            assert(bits_of(weights_of(leaves(freqs, k)), c.push(y)) =~= before.push(x * y));
            lemma_total_push(before, x * y);
            assert(x * 0 == 0) by (nonlinear_arith);
            assert(stem_bits(leaves(freqs, k), f) =~= stem_bits(s, f).push(0));
            lemma_total_push(stem_bits(s, f), 0);
        } else {
            assert(x * y == 0) by (nonlinear_arith)
                requires
                    x == 0,
            ;
        }
    }
}

/// The code lengths are optimal: where the tree has at most 58 levels, no code
/// takes fewer bits. A code gives each symbol that occurs a length of at least
/// one bit, and its codes fit into the code space.
pub proof fn law_code_lengths_optimal(freqs: Seq<u128>, lens: Seq<int>, m: int)
    requires
        freqs.len() <= 0x1_0001,
        lens.len() == freqs.len(),
        leaves(freqs, freqs.len() as int).len() > 0 ==> height(
            grown(leaves(freqs, freqs.len() as int))[0].tree,
        ) <= 58,
        forall|k: int| 0 <= k < freqs.len() && freqs[k] > 0 ==> #[trigger] lens[k] >= 1,
        fits_space(coded_lens(freqs, lens, freqs.len() as int), m),
    ensures
        message_bits(freqs, lens_of(code_lengths(freqs))) <= message_bits(freqs, lens),
{
    let n = freqs.len() as int;
    let s = leaves(freqs, n);
    let f = freqs_of(freqs);
    let blank = no_lens(freqs.len());
    lemma_leaves(freqs, n);
    lemma_coded_bits(freqs, lens, n);
    lemma_blank_bits(freqs, n);
    if s.len() == 0 {
        assert(grown(s) == s);
    } else {
        lemma_grown(s);
        lemma_grown_bits(s, f);
        let t = grown(s)[0].tree;
        let got = code_lengths(freqs);
        assert(got == depths(t, 0, blank));
        assert forall|k: int| #[trigger] bears(t, k) implies 0 <= k < blank.len() && blank[k] == 0 by {
            assert(bears(grown(s)[0].tree, k));
            assert(covers(grown(s), k));
            assert(covers(s, k));
        }
        assert(is_distinct(t));
        lemma_no_better(s, coded_lens(freqs, lens, n), m);
        match t {
            Tree::Leaf(k) => {
                let i = k as int;
                assert(bears(t, i));
                let before = bits_of(f, lens_of(blank));
                assert(bits_of(f, lens_of(got)) =~= before.update(i, f[i] * 1));
                lemma_total_update(before, i, f[i] * 1, n);
                assert(before[i] == 0) by {
                    assert(f[i] * 0 == 0) by (nonlinear_arith);
                }
                assert(s.len() == 1 && t == s[0].tree);
                let c = coded_lens(freqs, lens, n);
                lemma_coded_positive(freqs, lens, n);
                let bits = bits_of(weights_of(s), c);
                assert(total(bits, 1) == total(bits, 0) + s[0].weight * c[0]);
                let (x, y) = (s[0].weight, c[0]);
                assert(x * 1 <= x * y) by (nonlinear_arith)
                    requires
                        x >= 0,
                        y >= 1,
                ;
            },
            Tree::Node(a, b) => {
                lemma_below(*a, height(*a));
                lemma_below(*b, height(*b));
                lemma_halves_open(*a, *b, 1, blank);
                lemma_depth_bits(*a, 1, blank, freqs);
                lemma_depth_bits(*b, 1, depths(*a, 1, blank), freqs);
            },
        }
    }
}

/// What the symbols that have a length take of the code space.
pub open spec fn taken(lens: Seq<u8>) -> Seq<int> {
    Seq::new(
        lens.len(),
        |k: int|
            if lens[k] > 0 {
                pow2((58 - lens[k]) as nat) as int
            } else {
                0
            },
    )
}

/// A tree fills the part of the code space that its root takes.
proof fn lemma_depth_shares(t: Tree, d: int, lens: Seq<u8>)
    requires
        1 <= d,
        d + height(t) <= 58,
        is_distinct(t),
        is_open(t, lens),
    ensures
        total(taken(depths(t, d, lens)), lens.len() as int) == total(taken(lens), lens.len() as int)
            + pow2((58 - d) as nat),
    decreases t,
{
    match t {
        Tree::Leaf(k) => {
            let i = k as int;
            assert(bears(t, i));
            let x = pow2((58 - d) as nat) as int;
            assert(taken(depths(t, d, lens)) =~= taken(lens).update(i, x));
            lemma_total_update(taken(lens), i, x, lens.len() as int);
        },
        Tree::Node(a, b) => {
            lemma_below(*a, height(*a));
            lemma_below(*b, height(*b));
            lemma_halves_open(*a, *b, d + 1, lens);
            lemma_depth_shares(*a, d + 1, lens);
            lemma_depth_shares(*b, d + 1, depths(*a, d + 1, lens));
            lemma_pow2_unfold((58 - d) as nat);
        },
    }
}

/// Symbols without a length take nothing of the code space.
proof fn lemma_coded_shares(freqs: Seq<u128>, lens: Seq<u8>, k: int)
    requires
        0 <= k <= freqs.len(),
        lens.len() == freqs.len(),
        forall|i: int| 0 <= i < freqs.len() ==> (freqs[i] > 0) == (#[trigger] lens[i] > 0),
    ensures
        total(taken(lens), k) == total(
            shares(coded_lens(freqs, lens_of(lens), k), 58),
            coded_lens(freqs, lens_of(lens), k).len() as int,
        ),
    decreases k,
{
    if k > 0 {
        lemma_coded_shares(freqs, lens, k - 1);
        let before = coded_lens(freqs, lens_of(lens), k - 1);
        let x = pow2((58 - lens[k - 1]) as nat) as int;
        assert((freqs[k - 1] > 0) == (lens[k - 1] > 0));
        if freqs[k - 1] > 0 {
            assert(shares(before.push(lens[k - 1] as int), 58) =~= shares(before, 58).push(x));
            lemma_total_push(shares(before, 58), x);
        }
    }
}

proof fn lemma_coded_bound(freqs: Seq<u128>, lens: Seq<int>, m: int, k: int)
    requires
        0 <= k <= freqs.len(),
        lens.len() == freqs.len(),
        forall|i: int| 0 <= i < freqs.len() ==> 0 <= #[trigger] lens[i] <= m,
    ensures
        forall|j: int|
            0 <= j < coded_lens(freqs, lens, k).len() ==> 0 <= #[trigger] coded_lens(
                freqs,
                lens,
                k,
            )[j] <= m,
    decreases k,
{
    if k > 0 {
        lemma_coded_bound(freqs, lens, m, k - 1);
        let (c, before) = (coded_lens(freqs, lens, k), coded_lens(freqs, lens, k - 1));
        assert forall|j: int| 0 <= j < c.len() implies 0 <= #[trigger] c[j] <= m by {
            if j < before.len() {
                assert(c[j] == before[j]);
            }
        }
    }
}

/// The code lengths of at least two symbols are themselves among those that
/// they are compared with: their codes fit into the code space.
pub proof fn law_code_lengths_fit(freqs: Seq<u128>)
    requires
        2 <= freqs.len() <= 0x1_0001,
        leaves(freqs, freqs.len() as int).len() >= 2,
        height(grown(leaves(freqs, freqs.len() as int))[0].tree) <= 58,
    ensures
        fits_space(coded_lens(freqs, lens_of(code_lengths(freqs)), freqs.len() as int), 58),
{
    let n = freqs.len() as int;
    let s = leaves(freqs, n);
    let blank = no_lens(freqs.len());
    let got = code_lengths(freqs);
    law_code_lengths(freqs);
    lemma_leaves(freqs, n);
    lemma_grown(s);
    let t = grown(s)[0].tree;
    assert(got == depths(t, 0, blank));
    assert forall|k: int| #[trigger] bears(t, k) implies 0 <= k < blank.len() && blank[k] == 0 by {
        assert(bears(grown(s)[0].tree, k));
        assert(covers(grown(s), k));
        assert(covers(s, k));
    }
    if let Tree::Node(a, b) = t {
        lemma_below(*a, height(*a));
        lemma_below(*b, height(*b));
        assert(is_distinct(t));
        lemma_halves_open(*a, *b, 1, blank);
        lemma_depth_shares(*a, 1, blank);
        lemma_depth_shares(*b, 1, depths(*a, 1, blank));
        lemma_pow2_unfold(58);
        lemma_blank_taken(freqs.len(), n);
    }
    lemma_coded_shares(freqs, got, n);
    lemma_coded_bound(freqs, lens_of(got), 58, n);
}

proof fn lemma_blank_taken(n: nat, k: int)
    requires
        0 <= k <= n,
    ensures
        total(taken(no_lens(n)), k) == 0,
    decreases k,
{
    if k > 0 {
        lemma_blank_taken(n, k - 1);
    }
}

proof fn lemma_coded_positive(freqs: Seq<u128>, lens: Seq<int>, k: int)
    requires
        0 <= k <= freqs.len(),
        lens.len() == freqs.len(),
        forall|i: int| 0 <= i < freqs.len() && freqs[i] > 0 ==> #[trigger] lens[i] >= 1,
    ensures
        forall|j: int|
            0 <= j < coded_lens(freqs, lens, k).len() ==> #[trigger] coded_lens(freqs, lens, k)[j] >= 1,
    decreases k,
{
    if k > 0 {
        lemma_coded_positive(freqs, lens, k - 1);
        let (c, before) = (coded_lens(freqs, lens, k), coded_lens(freqs, lens, k - 1));
        assert forall|j: int| 0 <= j < c.len() implies #[trigger] c[j] >= 1 by {
            if j < before.len() {
                assert(c[j] == before[j]);
            } else {
                assert(lens[k - 1] >= 1);
            }
        }
    }
}

proof fn lemma_blank_bits(freqs: Seq<u128>, k: int)
    requires
        0 <= k <= freqs.len(),
    ensures
        total(bits_of(freqs_of(freqs), lens_of(no_lens(freqs.len()))), k) == 0,
    decreases k,
{
    if k > 0 {
        lemma_blank_bits(freqs, k - 1);
        let x = freqs[k - 1] as int;
        assert(x * 0 == 0) by (nonlinear_arith);
    }
}

} // verus!
