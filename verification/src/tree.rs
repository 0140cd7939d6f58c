//! Prefix code lengths from frequencies, by Huffman's algorithm.
//!
//! The two lightest trees are joined until one is left. Of equal weights, the
//! tree that was made first counts as lighter. Where the tree has more than 58
//! levels, the frequencies are halved and the tree is made again.

use crate::code::{code_count, code_end, first_code, is_complete_code, symbols_below};
use vstd::multiset::Multiset;
use vstd::prelude::*;
use vstd::seq_lib::*;

verus! {

/// A binary tree whose leaves are symbols.
pub enum Tree {
    Leaf(usize),
    Node(Box<Tree>, Box<Tree>),
}

/// A tree with its weight.
#[verifier::ext_equal]
pub struct Stem {
    pub weight: int,
    pub tree: Tree,
}

/// The place of the first of the lightest among the first `k`.
pub open spec fn lightest(s: Seq<Stem>, k: int) -> int
    decreases k,
{
    if k <= 1 {
        0
    } else {
        let a = lightest(s, k - 1);
        if s[k - 1].weight < s[a].weight {
            k - 1
        } else {
            a
        }
    }
}

/// The trees with the two lightest joined.
pub open spec fn joined(s: Seq<Stem>) -> Seq<Stem> {
    let a = lightest(s, s.len() as int);
    let rest = s.remove(a);
    let b = lightest(rest, rest.len() as int);
    rest.remove(b).push(
        Stem {
            weight: s[a].weight + rest[b].weight,
            tree: Tree::Node(Box::new(s[a].tree), Box::new(rest[b].tree)),
        },
    )
}

/// The trees when all are joined.
pub open spec fn grown(s: Seq<Stem>) -> Seq<Stem>
    decreases s.len(),
    via grown_decreases
{
    if s.len() <= 1 {
        s
    } else {
        grown(joined(s))
    }
}

#[via_fn]
proof fn grown_decreases(s: Seq<Stem>) {
    if s.len() > 1 {
        lemma_lightest(s, s.len() as int);
        lemma_lightest(
            s.remove(lightest(s, s.len() as int)),
            s.remove(lightest(s, s.len() as int)).len() as int,
        );
    }
}

/// The lightest is one of the trees, none is lighter, and those before it are
/// heavier.
pub proof fn lemma_lightest(s: Seq<Stem>, k: int)
    requires
        1 <= k <= s.len(),
    ensures
        0 <= lightest(s, k) < k,
        forall|i: int| 0 <= i < k ==> s[lightest(s, k)].weight <= (#[trigger] s[i]).weight,
        forall|i: int|
            0 <= i < lightest(s, k) ==> s[lightest(s, k)].weight < (#[trigger] s[i]).weight,
    decreases k,
{
    if k > 1 {
        lemma_lightest(s, k - 1);
    }
}

/// A leaf for each of the first `k` symbols that has a frequency.
pub open spec fn leaves(freqs: Seq<u128>, k: int) -> Seq<Stem>
    decreases k,
{
    if k <= 0 {
        Seq::empty()
    } else if freqs[k - 1] > 0 {
        leaves(freqs, k - 1).push(
            Stem { weight: freqs[k - 1] as int, tree: Tree::Leaf((k - 1) as usize) },
        )
    } else {
        leaves(freqs, k - 1)
    }
}

/// The number of levels of a tree below its root.
pub open spec fn height(t: Tree) -> int
    decreases t,
{
    match t {
        Tree::Leaf(_) => 0,
        Tree::Node(a, b) => if height(*a) < height(*b) {
            height(*b) + 1
        } else {
            height(*a) + 1
        },
    }
}

/// The lengths with those of the leaves of a tree at depth `d`.
pub open spec fn depths(t: Tree, d: int, lens: Seq<u8>) -> Seq<u8>
    decreases t,
{
    match t {
        Tree::Leaf(k) => lens.update(
            k as int,
            if d < 1 {
                1
            } else {
                d as u8
            },
        ),
        Tree::Node(a, b) => depths(*b, d + 1, depths(*a, d + 1, lens)),
    }
}

/// Half of a frequency, rounded up.
pub open spec fn half_freq(w: u128) -> u128 {
    (w / 2 + w % 2) as u128
}

/// The frequencies, halved.
pub open spec fn half_freqs(freqs: Seq<u128>) -> Seq<u128> {
    Seq::new(freqs.len(), |i: int| half_freq(freqs[i]))
}

/// Zero lengths.
pub open spec fn no_lens(n: nat) -> Seq<u8> {
    Seq::new(n, |i: int| 0u8)
}

/// The sum of the first `k` frequencies.
pub open spec fn freq_sum(freqs: Seq<u128>, k: int) -> int
    decreases k,
{
    if k <= 0 {
        0
    } else {
        freq_sum(freqs, k - 1) + freqs[k - 1]
    }
}

/// The code lengths for the given frequencies: 0 for a symbol that does not
/// occur.
pub open spec fn code_lengths(freqs: Seq<u128>) -> Seq<u8>
    decreases freq_sum(freqs, freqs.len() as int),
    via code_lengths_decreases
{
    let s = grown(leaves(freqs, freqs.len() as int));
    if s.len() == 0 {
        no_lens(freqs.len())
    } else if height(s[0].tree) <= 58 || half_freqs(freqs) == freqs {
        depths(s[0].tree, 0, no_lens(freqs.len()))
    } else {
        code_lengths(half_freqs(freqs))
    }
}

#[via_fn]
proof fn code_lengths_decreases(freqs: Seq<u128>) {
    if half_freqs(freqs) != freqs {
        lemma_half_sum(freqs, freqs.len() as int);
    }
}

proof fn lemma_half_sum(freqs: Seq<u128>, k: int)
    requires
        0 <= k <= freqs.len(),
    ensures
        0 <= freq_sum(half_freqs(freqs), k) <= freq_sum(freqs, k),
        (exists|i: int| 0 <= i < k && half_freqs(freqs)[i] != #[trigger] freqs[i]) ==> freq_sum(
            half_freqs(freqs),
            k,
        ) < freq_sum(freqs, k),
        k == freqs.len() && half_freqs(freqs) != freqs ==> freq_sum(half_freqs(freqs), k) < freq_sum(
            freqs,
            k,
        ),
    decreases k,
{
    let h = half_freqs(freqs);
    if k > 0 {
        lemma_half_sum(freqs, k - 1);
    }
    if k == freqs.len() && h != freqs {
        if forall|i: int| 0 <= i < k ==> h[i] == #[trigger] freqs[i] {
            assert(h =~= freqs);
        }
    }
}

// ----------------------------------------------------------------------
// Trees
// ----------------------------------------------------------------------
/// Symbol `k` is a leaf of the tree.
pub open spec fn bears(t: Tree, k: int) -> bool
    decreases t,
{
    match t {
        Tree::Leaf(j) => j == k,
        Tree::Node(a, b) => bears(*a, k) || bears(*b, k),
    }
}

/// No symbol is a leaf of both trees.
pub open spec fn apart(a: Tree, b: Tree) -> bool {
    forall|k: int| !(#[trigger] bears(a, k) && bears(b, k))
}

/// No symbol is a leaf twice.
pub open spec fn is_distinct(t: Tree) -> bool
    decreases t,
{
    match t {
        Tree::Leaf(_) => true,
        Tree::Node(a, b) => is_distinct(*a) && is_distinct(*b) && apart(*a, *b),
    }
}

/// The number of leaves at depth `d`.
pub open spec fn leaves_at(t: Tree, d: int) -> int
    decreases t,
{
    match t {
        Tree::Leaf(_) => if d == 0 {
            1
        } else {
            0
        },
        Tree::Node(a, b) => leaves_at(*a, d - 1) + leaves_at(*b, d - 1),
    }
}

/// The number of joins at depth `d`.
pub open spec fn joins_at(t: Tree, d: int) -> int
    decreases t,
{
    match t {
        Tree::Leaf(_) => 0,
        Tree::Node(a, b) => (if d == 0 {
            1int
        } else {
            0int
        }) + joins_at(*a, d - 1) + joins_at(*b, d - 1),
    }
}

proof fn lemma_none_above(t: Tree, d: int)
    requires
        d < 0,
    ensures
        leaves_at(t, d) == 0,
        joins_at(t, d) == 0,
    decreases t,
{
    if let Tree::Node(a, b) = t {
        lemma_none_above(*a, d - 1);
        lemma_none_above(*b, d - 1);
    }
}

proof fn lemma_root(t: Tree)
    ensures
        leaves_at(t, 0) + joins_at(t, 0) == 1,
        t is Node ==> joins_at(t, 0) == 1,
{
    if let Tree::Node(a, b) = t {
        lemma_none_above(*a, -1);
        lemma_none_above(*b, -1);
    }
}

/// Every join has two trees below it.
proof fn lemma_levels(t: Tree, d: int)
    requires
        d >= 1,
    ensures
        leaves_at(t, d) + joins_at(t, d) == 2 * joins_at(t, d - 1),
    decreases t,
{
    if let Tree::Node(a, b) = t {
        if d == 1 {
            lemma_root(*a);
            lemma_root(*b);
            lemma_none_above(*a, -1);
            lemma_none_above(*b, -1);
        } else {
            lemma_levels(*a, d - 1);
            lemma_levels(*b, d - 1);
        }
    }
}

/// There is nothing below the lowest level.
pub proof fn lemma_below(t: Tree, d: int)
    requires
        d >= height(t),
    ensures
        joins_at(t, d) == 0,
        height(t) >= 0,
    decreases t,
{
    if let Tree::Node(a, b) = t {
        lemma_below(*a, d - 1);
        lemma_below(*b, d - 1);
    }
}

/// All symbols of a tree are below `n` and have no length yet.
pub open spec fn is_open(t: Tree, lens: Seq<u8>) -> bool {
    forall|k: int| #[trigger] bears(t, k) ==> 0 <= k < lens.len() && lens[k] == 0
}

/// Only the lengths of the leaves of a tree change.
pub proof fn lemma_depths_any(t: Tree, d: int, lens: Seq<u8>)
    requires
        forall|k: int| #[trigger] bears(t, k) ==> 0 <= k < lens.len(),
    ensures
        depths(t, d, lens).len() == lens.len(),
        forall|k: int|
            0 <= k < lens.len() && !bears(t, k) ==> #[trigger] depths(t, d, lens)[k] == lens[k],
    decreases t,
{
    if let Tree::Leaf(k) = t {
        assert(bears(t, k as int));
    }
    if let Tree::Node(a, b) = t {
        let mid = depths(*a, d + 1, lens);
        assert forall|k: int| #[trigger] bears(*a, k) implies 0 <= k < lens.len() by {
            assert(bears(t, k));
        }
        assert forall|k: int| #[trigger] bears(*b, k) implies 0 <= k < lens.len() by {
            assert(bears(t, k));
        }
        lemma_depths_any(*a, d + 1, lens);
        lemma_depths_any(*b, d + 1, mid);
        assert forall|k: int| 0 <= k < lens.len() && !bears(t, k) implies #[trigger] depths(
            t,
            d,
            lens,
        )[k] == lens[k] by {
            assert(!bears(*a, k) && !bears(*b, k));
            assert(mid[k] == lens[k]);
            assert(depths(*b, d + 1, mid)[k] == mid[k]);
        }
    }
}

/// Every leaf of a tree gets a length, at most that of the lowest level.
proof fn lemma_depths_range(t: Tree, d: int, lens: Seq<u8>)
    requires
        0 <= d,
        d + height(t) <= 58,
        forall|k: int| #[trigger] bears(t, k) ==> 0 <= k < lens.len(),
    ensures
        forall|k: int| #[trigger] bears(t, k) ==> 1 <= depths(t, d, lens)[k] <= 58,
    decreases t,
{
    if let Tree::Node(a, b) = t {
        let mid = depths(*a, d + 1, lens);
        lemma_below(*a, height(*a));
        lemma_below(*b, height(*b));
        assert forall|k: int| #[trigger] bears(*a, k) implies 0 <= k < lens.len() by {
            assert(bears(t, k));
        }
        assert forall|k: int| #[trigger] bears(*b, k) implies 0 <= k < lens.len() by {
            assert(bears(t, k));
        }
        lemma_depths_any(*a, d + 1, lens);
        lemma_depths_any(*b, d + 1, mid);
        lemma_depths_range(*a, d + 1, lens);
        lemma_depths_range(*b, d + 1, mid);
        assert forall|k: int| #[trigger] bears(t, k) implies 1 <= depths(t, d, lens)[k] <= 58 by {
            if !bears(*b, k) {
                assert(bears(*a, k));
                assert(depths(*b, d + 1, mid)[k] == mid[k]);
            }
        }
    }
}

/// Giving a symbol a length adds it to the codes of that length.
proof fn lemma_count_update(lens: Seq<u8>, k: int, x: u8, l: int, n: int)
    requires
        0 <= k < lens.len(),
        0 <= n <= lens.len(),
        lens[k] == 0,
        l >= 1,
    ensures
        symbols_below(lens.update(k, x), l, n).len() == symbols_below(lens, l, n).len() + (if k < n
            && x == l {
            1int
        } else {
            0int
        }),
    decreases n,
{
    if n > 0 {
        lemma_count_update(lens, k, x, l, n - 1);
    }
}

/// The leaves of a tree are counted by their depths.
proof fn lemma_depths_count(t: Tree, d: int, lens: Seq<u8>, l: int)
    requires
        1 <= d,
        d + height(t) <= 58,
        1 <= l <= 58,
        is_distinct(t),
        is_open(t, lens),
    ensures
        code_count(depths(t, d, lens), l) == code_count(lens, l) + leaves_at(t, l - d),
    decreases t,
{
    match t {
        Tree::Leaf(k) => {
            assert(bears(t, k as int));
            lemma_count_update(lens, k as int, d as u8, l, lens.len() as int);
        },
        Tree::Node(a, b) => {
            let mid = depths(*a, d + 1, lens);
            lemma_below(*a, height(*a));
            lemma_below(*b, height(*b));
            assert forall|k: int| #[trigger] bears(*a, k) implies 0 <= k < lens.len() && lens[k] == 0 by {
                assert(bears(t, k));
            }
            lemma_depths_any(*a, d + 1, lens);
            assert forall|k: int| #[trigger] bears(*b, k) implies 0 <= k < mid.len() && mid[k] == 0 by {
                assert(bears(t, k));
                assert(!bears(*a, k));
                assert(mid[k] == lens[k]);
            }
            lemma_depths_count(*a, d + 1, lens, l);
            lemma_depths_count(*b, d + 1, mid, l);
        },
    }
}

proof fn lemma_no_lens_count(n: nat, l: int, k: int)
    requires
        l >= 1,
        0 <= k <= n,
    ensures
        symbols_below(no_lens(n), l, k).len() == 0,
    decreases k,
{
    if k > 0 {
        lemma_no_lens_count(n, l, k - 1);
    }
}

/// The number of codes of each length of a tree.
proof fn lemma_tree_counts(t: Tree, n: nat, l: int)
    requires
        t is Node,
        height(t) <= 58,
        is_distinct(t),
        is_open(t, no_lens(n)),
        1 <= l <= 58,
    ensures
        code_count(depths(t, 0, no_lens(n)), l) == leaves_at(t, l),
{
    if let Tree::Node(a, b) = t {
        let lens = no_lens(n);
        let mid = depths(*a, 1, lens);
        lemma_below(*a, height(*a));
        lemma_below(*b, height(*b));
        assert forall|k: int| #[trigger] bears(*a, k) implies 0 <= k < lens.len() && lens[k] == 0 by {
            assert(bears(t, k));
        }
        lemma_depths_any(*a, 1, lens);
        assert forall|k: int| #[trigger] bears(*b, k) implies 0 <= k < mid.len() && mid[k] == 0 by {
            assert(bears(t, k));
            assert(!bears(*a, k));
            assert(mid[k] == lens[k]);
        }
        lemma_depths_count(*a, 1, lens, l);
        lemma_depths_count(*b, 1, mid, l);
        lemma_no_lens_count(n, l, n as int);
    }
}

/// The codes of a tree begin, at each length, with the number of joins there.
proof fn lemma_tree_first(t: Tree, n: nat, l: int)
    requires
        t is Node,
        height(t) <= 58,
        is_distinct(t),
        is_open(t, no_lens(n)),
        0 <= l <= 58,
    ensures
        first_code(depths(t, 0, no_lens(n)), l) == joins_at(t, l),
    decreases 58 - l,
{
    if l == 58 {
        lemma_below(t, 58);
    } else {
        lemma_tree_first(t, n, l + 1);
        lemma_tree_counts(t, n, l + 1);
        lemma_levels(t, l + 1);
    }
}

/// The lengths of a tree give a complete code.
pub proof fn law_tree_code(t: Tree, n: nat)
    requires
        t is Node,
        height(t) <= 58,
        is_distinct(t),
        is_open(t, no_lens(n)),
    ensures
        is_complete_code(depths(t, 0, no_lens(n))),
{
    let lens = depths(t, 0, no_lens(n));
    lemma_tree_first(t, n, 0);
    lemma_root(t);
    assert forall|l: int| 1 <= l <= 58 implies #[trigger] code_end(lens, l) == 2 * first_code(
        lens,
        l - 1,
    ) by {
        lemma_tree_first(t, n, l);
        lemma_tree_first(t, n, l - 1);
        lemma_tree_counts(t, n, l);
        lemma_levels(t, l);
    }
}

// ----------------------------------------------------------------------
// Forests
// ----------------------------------------------------------------------
/// Symbol `k` is a leaf of one of the trees.
pub open spec fn covers(s: Seq<Stem>, k: int) -> bool {
    exists|i: int| 0 <= i < s.len() && #[trigger] bears(s[i].tree, k)
}

/// No symbol is a leaf twice in all trees.
pub open spec fn all_apart(s: Seq<Stem>) -> bool {
    &&& forall|i: int| 0 <= i < s.len() ==> is_distinct((#[trigger] s[i]).tree)
    &&& forall|i: int, j: int|
        #![trigger s[i], s[j]]
        0 <= i < s.len() && 0 <= j < s.len() && i != j ==> apart(s[i].tree, s[j].tree)
}

/// The place that place `i` had before the item at `a` was taken out.
pub open spec fn behind(a: int, i: int) -> int {
    if i < a {
        i
    } else {
        i + 1
    }
}

/// The place that place `i` has after the item at `a` was taken out.
pub open spec fn ahead(a: int, i: int) -> int {
    if i < a {
        i
    } else {
        i - 1
    }
}

/// Where the trees that are joined stand: `a` is the lightest, and `c` the
/// lightest of the others, counted without `a`.
pub open spec fn join_places(s: Seq<Stem>, a: int, c: int) -> bool {
    let n = s.len();
    &&& 0 <= a < n
    &&& 0 <= c < n - 1
    &&& joined(s).len() == n - 1
    &&& joined(s)[n - 2] == (Stem {
        weight: s[a].weight + s[behind(a, c)].weight,
        tree: Tree::Node(Box::new(s[a].tree), Box::new(s[behind(a, c)].tree)),
    })
    &&& forall|i: int|
        0 <= i < n - 2 ==> #[trigger] joined(s)[i] == s[behind(a, behind(c, i))]
}

/// No tree is lighter than those that are joined.
pub open spec fn join_weights(s: Seq<Stem>, a: int, c: int) -> bool {
    &&& forall|i: int| 0 <= i < s.len() ==> s[a].weight <= (#[trigger] s[i]).weight
    &&& forall|i: int|
        0 <= i < s.len() && i != a ==> s[behind(a, c)].weight <= (#[trigger] s[i]).weight
}

pub proof fn lemma_joined(s: Seq<Stem>) -> (r: (int, int))
    requires
        s.len() >= 2,
    ensures
        join_places(s, r.0, r.1),
        join_weights(s, r.0, r.1),
        r.0 == lightest(s, s.len() as int),
        r.1 == lightest(s.remove(r.0), s.len() - 1),
{
    let n = s.len() as int;
    let a = lightest(s, n);
    lemma_lightest(s, n);
    let rest = s.remove(a);
    let c = lightest(rest, n - 1);
    lemma_lightest(rest, n - 1);
    let left = rest.remove(c);
    assert(rest[c] == s[behind(a, c)]);
    assert forall|i: int| 0 <= i < n && i != a implies s[behind(a, c)].weight <= (
    #[trigger] s[i]).weight by {
        assert(rest[ahead(a, i)] == s[i]);
    }
    assert forall|i: int| 0 <= i < n - 2 implies #[trigger] joined(s)[i] == s[behind(
        a,
        behind(c, i),
    )] by {
        assert(joined(s)[i] == left[i]);
        assert(left[i] == rest[behind(c, i)]);
    }
    (a, c)
}

/// Joining keeps the trees apart.
proof fn lemma_joined_apart(s: Seq<Stem>)
    requires
        s.len() >= 2,
        all_apart(s),
    ensures
        all_apart(joined(s)),
{
    let (a, c) = lemma_joined(s);
    let b = behind(a, c);
    let t = joined(s);
    let n = s.len() as int;
    let new = t[n - 2].tree;
    assert(apart(s[a].tree, s[b].tree));
    assert(is_distinct(s[a].tree) && is_distinct(s[b].tree));
    assert forall|i: int| 0 <= i < t.len() implies is_distinct((#[trigger] t[i]).tree) by {
        if i < n - 2 {
            assert(t[i] == s[behind(a, behind(c, i))]);
        }
    }
    assert forall|i: int| 0 <= i < n - 2 implies apart((#[trigger] t[i]).tree, new) && apart(
        new,
        t[i].tree,
    ) by {
        let j = behind(a, behind(c, i));
        assert(t[i] == s[j]);
        lemma_apart_node(s[j].tree, s[a].tree, s[b].tree);
    }
    assert forall|i: int, j: int|
        #![trigger t[i], t[j]]
        0 <= i < t.len() && 0 <= j < t.len() && i != j implies apart(t[i].tree, t[j].tree) by {
        if i < n - 2 && j < n - 2 {
            assert(t[i] == s[behind(a, behind(c, i))]);
            assert(t[j] == s[behind(a, behind(c, j))]);
        }
    }
}

proof fn lemma_apart_node(x: Tree, a: Tree, b: Tree)
    requires
        apart(x, a),
        apart(x, b),
    ensures
        apart(x, Tree::Node(Box::new(a), Box::new(b))),
        apart(Tree::Node(Box::new(a), Box::new(b)), x),
{
    let new = Tree::Node(Box::new(a), Box::new(b));
    assert forall|k: int| !(#[trigger] bears(x, k) && bears(new, k)) by {
        assert(bears(new, k) == (bears(a, k) || bears(b, k)));
    }
    assert forall|k: int| !(#[trigger] bears(new, k) && bears(x, k)) by {
        assert(!(bears(x, k) && bears(new, k)));
    }
}

/// Joining keeps the symbols.
proof fn lemma_joined_covers(s: Seq<Stem>, k: int)
    requires
        s.len() >= 2,
    ensures
        covers(joined(s), k) == covers(s, k),
{
    let (a, c) = lemma_joined(s);
    let b = behind(a, c);
    let t = joined(s);
    let n = s.len() as int;
    assert(bears(t[n - 2].tree, k) == (bears(s[a].tree, k) || bears(s[b].tree, k)));
    if covers(t, k) {
        let i = choose|i: int| 0 <= i < t.len() && #[trigger] bears(t[i].tree, k);
        if i < n - 2 {
            assert(t[i] == s[behind(a, behind(c, i))]);
            assert(bears(s[behind(a, behind(c, i))].tree, k));
        } else if bears(s[a].tree, k) {
        } else {
            assert(bears(s[b].tree, k));
        }
        assert(covers(s, k));
    }
    if covers(s, k) {
        let j = choose|j: int| 0 <= j < n && #[trigger] bears(s[j].tree, k);
        if j == a || j == b {
            assert(bears(t[n - 2].tree, k));
        } else {
            let i = ahead(c, ahead(a, j));
            assert(t[i] == s[behind(a, behind(c, i))]);
            assert(bears(t[i].tree, k));
        }
        assert(covers(t, k));
    }
}

/// Growing keeps the symbols, keeps them apart, and leaves one tree.
pub proof fn lemma_grown(s: Seq<Stem>)
    requires
        s.len() >= 1,
        all_apart(s),
    ensures
        grown(s).len() == 1,
        all_apart(grown(s)),
        forall|k: int| #[trigger] covers(grown(s), k) == covers(s, k),
        s.len() >= 2 ==> grown(s)[0].tree is Node,
    decreases s.len(),
{
    if s.len() >= 2 {
        lemma_joined_apart(s);
        let (a, c) = lemma_joined(s);
        lemma_grown(joined(s));
        assert forall|k: int| #[trigger] covers(grown(s), k) == covers(s, k) by {
            lemma_joined_covers(s, k);
        }
        if s.len() == 2 {
            assert(grown(joined(s)) == joined(s));
        }
    }
}

/// The leaves are the symbols that occur.
pub proof fn lemma_leaves(freqs: Seq<u128>, n: int)
    requires
        0 <= n <= freqs.len(),
        freqs.len() <= usize::MAX,
    ensures
        all_apart(leaves(freqs, n)),
        leaves(freqs, n).len() <= n,
        forall|k: int| #[trigger] covers(leaves(freqs, n), k) == (0 <= k < n && freqs[k] > 0),
        forall|i: int|
            0 <= i < leaves(freqs, n).len() ==> {
                let x = #[trigger] leaves(freqs, n)[i];
                &&& x.tree is Leaf
                &&& 0 <= x.tree->Leaf_0 < n
                &&& x.weight == freqs[x.tree->Leaf_0 as int]
            },
    decreases n,
{
    let s = leaves(freqs, n);
    if n > 0 {
        let before = leaves(freqs, n - 1);
        lemma_leaves(freqs, n - 1);
        if freqs[n - 1] > 0 {
            let m = before.len() as int;
            assert(s[m].tree == Tree::Leaf((n - 1) as usize));
            assert forall|i: int| 0 <= i < m implies s[i] == before[i] by {}
            assert forall|i: int, j: int|
                #![trigger s[i], s[j]]
                0 <= i < s.len() && 0 <= j < s.len() && i != j implies apart(s[i].tree, s[j].tree) by {
                assert forall|k: int| !(#[trigger] bears(s[i].tree, k) && bears(s[j].tree, k)) by {
                    if i == m {
                        assert(s[j] == before[j]);
                    } else if j == m {
                        assert(s[i] == before[i]);
                    } else {
                        assert(apart(before[i].tree, before[j].tree));
                    }
                }
            }
            assert forall|k: int| #[trigger] covers(s, k) == (0 <= k < n && freqs[k] > 0) by {
                assert(covers(before, k) == (0 <= k < n - 1 && freqs[k] > 0));
                if covers(s, k) {
                    let i = choose|i: int| 0 <= i < s.len() && #[trigger] bears(s[i].tree, k);
                    if i < m {
                        assert(bears(before[i].tree, k));
                    }
                }
                if covers(before, k) {
                    let i = choose|i: int| 0 <= i < m && #[trigger] bears(before[i].tree, k);
                    assert(bears(s[i].tree, k));
                }
                if k == n - 1 {
                    assert(bears(s[m].tree, k));
                }
            }
        } else {
            assert forall|k: int| #[trigger] covers(s, k) == (0 <= k < n && freqs[k] > 0) by {
                assert(covers(before, k) == (0 <= k < n - 1 && freqs[k] > 0));
            }
        }
    }
}

// ----------------------------------------------------------------------
// Trees of equal weights are low
// ----------------------------------------------------------------------
/// The number of leaves.
pub open spec fn size(t: Tree) -> int
    decreases t,
{
    match t {
        Tree::Leaf(_) => 1,
        Tree::Node(a, b) => size(*a) + size(*b),
    }
}

/// No tree that was joined has more than twice the leaves of the other.
pub open spec fn is_steady(t: Tree) -> bool
    decreases t,
{
    match t {
        Tree::Leaf(_) => true,
        Tree::Node(a, b) => is_steady(*a) && is_steady(*b) && size(*a) <= 2 * size(*b) && size(*b)
            <= 2 * size(*a),
    }
}

/// Trees that weigh as much as they have leaves, and none more than twice as
/// much as another.
pub open spec fn is_even(s: Seq<Stem>) -> bool {
    &&& forall|i: int|
        0 <= i < s.len() ==> is_steady((#[trigger] s[i]).tree) && s[i].weight == size(s[i].tree)
            && s[i].weight >= 1
    &&& forall|i: int, j: int|
        #![trigger s[i], s[j]]
        0 <= i < s.len() && 0 <= j < s.len() ==> s[i].weight <= 2 * s[j].weight
}

/// The sum of the weights of the first `k`.
pub open spec fn stem_sum(s: Seq<Stem>, k: int) -> int
    decreases k,
{
    if k <= 0 {
        0
    } else {
        stem_sum(s, k - 1) + s[k - 1].weight
    }
}

proof fn lemma_sum_same(s: Seq<Stem>, t: Seq<Stem>, k: int)
    requires
        forall|i: int| 0 <= i < k ==> s[i] == t[i],
    ensures
        stem_sum(s, k) == stem_sum(t, k),
    decreases k,
{
    if k > 0 {
        lemma_sum_same(s, t, k - 1);
    }
}

proof fn lemma_sum_remove(s: Seq<Stem>, a: int, k: int)
    requires
        0 <= a < k <= s.len(),
    ensures
        stem_sum(s.remove(a), k - 1) == stem_sum(s, k) - s[a].weight,
    decreases k,
{
    if k - 1 == a {
        lemma_sum_same(s, s.remove(a), a);
    } else {
        lemma_sum_remove(s, a, k - 1);
        assert(s.remove(a)[k - 2] == s[k - 1]);
    }
}

/// Joining keeps the sum of the weights.
proof fn lemma_joined_sum(s: Seq<Stem>)
    requires
        s.len() >= 2,
    ensures
        stem_sum(joined(s), s.len() - 1) == stem_sum(s, s.len() as int),
{
    let n = s.len() as int;
    let a = lightest(s, n);
    lemma_lightest(s, n);
    let rest = s.remove(a);
    let b = lightest(rest, n - 1);
    lemma_lightest(rest, n - 1);
    lemma_sum_remove(s, a, n);
    lemma_sum_remove(rest, b, n - 1);
    lemma_sum_same(rest.remove(b), joined(s), n - 2);
}

proof fn lemma_joined_even(s: Seq<Stem>)
    requires
        s.len() >= 2,
        is_even(s),
    ensures
        is_even(joined(s)),
{
    let (a, c) = lemma_joined(s);
    let b = behind(a, c);
    let t = joined(s);
    let n = s.len() as int;
    assert(s[a].weight <= 2 * s[b].weight && s[b].weight <= 2 * s[a].weight);
    assert forall|i: int| 0 <= i < t.len() implies is_steady((#[trigger] t[i]).tree) && t[i].weight
        == size(t[i].tree) && t[i].weight >= 1 by {
        if i < n - 2 {
            assert(t[i] == s[behind(a, behind(c, i))]);
        }
    }
    assert forall|i: int, j: int|
        #![trigger t[i], t[j]]
        0 <= i < t.len() && 0 <= j < t.len() implies t[i].weight <= 2 * t[j].weight by {
        let x = behind(a, behind(c, i));
        let y = behind(a, behind(c, j));
        if i < n - 2 {
            assert(t[i] == s[x]);
            assert(s[x].weight <= 2 * s[a].weight);
        }
        if j < n - 2 {
            assert(t[j] == s[y]);
            assert(s[b].weight <= s[y].weight);
        }
        if i < n - 2 && j < n - 2 {
            assert(s[x].weight <= 2 * s[y].weight);
        }
    }
}

proof fn lemma_grown_even(s: Seq<Stem>)
    requires
        s.len() >= 1,
        is_even(s),
    ensures
        grown(s).len() == 1,
        is_even(grown(s)),
        grown(s)[0].weight == stem_sum(s, s.len() as int),
    decreases s.len(),
{
    if s.len() >= 2 {
        let (a, c) = lemma_joined(s);
        lemma_joined_even(s);
        lemma_joined_sum(s);
        lemma_grown_even(joined(s));
    } else {
        assert(stem_sum(s, 1) == stem_sum(s, 0) + s[0].weight);
    }
}

/// `b` to the power `n`.
pub open spec fn power_of(b: int, n: nat) -> int
    decreases n,
{
    if n == 0 {
        1
    } else {
        b * power_of(b, (n - 1) as nat)
    }
}

/// A steady tree with many levels has many leaves: half as many more for each
/// level.
proof fn lemma_steady(t: Tree)
    requires
        is_steady(t),
    ensures
        size(t) >= 1,
        height(t) >= 0,
        power_of(3, height(t) as nat) <= size(t) * power_of(2, height(t) as nat),
    decreases t,
{
    if let Tree::Node(a, b) = t {
        lemma_steady(*a);
        lemma_steady(*b);
        let (high, low) = if height(*a) < height(*b) {
            (*b, *a)
        } else {
            (*a, *b)
        };
        let h = height(high) as nat;
        let p2 = power_of(2, h);
        let p3 = power_of(3, h);
        lemma_power_of_positive(h);
        let x = size(high);
        let y = size(t);
        assert(2 * y >= 3 * x);
        assert(3 * p3 <= y * (2 * p2)) by (nonlinear_arith)
            requires
                p3 <= x * p2,
                2 * y >= 3 * x,
                p2 >= 1,
        ;
    }
}

proof fn lemma_power_of_positive(h: nat)
    ensures
        power_of(2, h) >= 1,
    decreases h,
{
    if h > 0 {
        lemma_power_of_positive((h - 1) as nat);
    }
}

proof fn lemma_powers_apart(h: nat)
    requires
        h >= 28,
    ensures
        power_of(3, h) > 0x1_0001 * power_of(2, h),
    decreases h,
{
    if h == 28 {
        reveal_with_fuel(power_of, 29);
    } else {
        lemma_powers_apart((h - 1) as nat);
        lemma_power_of_positive((h - 1) as nat);
    }
}

/// Equal frequencies give a low tree.
proof fn lemma_equal_freqs(freqs: Seq<u128>)
    requires
        freqs.len() <= 0x1_0001,
        half_freqs(freqs) == freqs,
        leaves(freqs, freqs.len() as int).len() >= 1,
    ensures
        height(grown(leaves(freqs, freqs.len() as int))[0].tree) <= 58,
{
    let n = freqs.len() as int;
    let s = leaves(freqs, n);
    assert forall|i: int| 0 <= i < n implies #[trigger] freqs[i] <= 1 by {
        assert(half_freqs(freqs)[i] == freqs[i]);
    }
    lemma_leaf_weights(freqs, n);
    lemma_leaves(freqs, n);
    lemma_grown_even(s);
    let t = grown(s)[0].tree;
    lemma_steady(t);
    let h = height(t);
    if h >= 28 {
        lemma_powers_apart(h as nat);
        lemma_power_of_positive(h as nat);
        let p2 = power_of(2, h as nat);
        let x = size(t);
        assert(x * p2 <= 0x1_0001 * p2) by (nonlinear_arith)
            requires
                x <= 0x1_0001,
                p2 >= 1,
        ;
    }
}

proof fn lemma_leaf_weights(freqs: Seq<u128>, n: int)
    requires
        0 <= n <= freqs.len(),
        forall|i: int| 0 <= i < freqs.len() ==> #[trigger] freqs[i] <= 1,
    ensures
        is_even(leaves(freqs, n)),
        forall|i: int| 0 <= i < leaves(freqs, n).len() ==> (#[trigger] leaves(freqs, n)[i]).weight == 1,
        stem_sum(leaves(freqs, n), leaves(freqs, n).len() as int) == leaves(freqs, n).len(),
    decreases n,
{
    if n > 0 {
        lemma_leaf_weights(freqs, n - 1);
        let s = leaves(freqs, n);
        let before = leaves(freqs, n - 1);
        if freqs[n - 1] > 0 {
            lemma_sum_same(before, s, before.len() as int);
        }
    }
}

/// The code lengths of at least two symbols make a complete code, and each
/// symbol that occurs has one of 1 to 58 bits.
pub proof fn law_code_lengths(freqs: Seq<u128>)
    requires
        2 <= freqs.len() <= 0x1_0001,
        leaves(freqs, freqs.len() as int).len() >= 2,
    ensures
        code_lengths(freqs).len() == freqs.len(),
        is_complete_code(code_lengths(freqs)),
        forall|k: int|
            0 <= k < freqs.len() ==> (if freqs[k] > 0 {
                1 <= #[trigger] code_lengths(freqs)[k] <= 58
            } else {
                code_lengths(freqs)[k] == 0
            }),
    decreases freq_sum(freqs, freqs.len() as int),
{
    let n = freqs.len() as int;
    let s = leaves(freqs, n);
    lemma_leaves(freqs, n);
    lemma_grown(s);
    let t = grown(s)[0].tree;
    if height(t) <= 58 || half_freqs(freqs) == freqs {
        if half_freqs(freqs) == freqs {
            lemma_equal_freqs(freqs);
        }
        let blank = no_lens(freqs.len());
        assert(is_distinct(t));
        assert forall|k: int| #[trigger] bears(t, k) == (0 <= k < n && freqs[k] > 0) by {
            assert(covers(grown(s), k) == covers(s, k));
            if covers(grown(s), k) {
                let i = choose|i: int| 0 <= i < grown(s).len() && #[trigger] bears(grown(s)[i].tree, k);
                assert(i == 0);
            }
        }
        law_tree_code(t, freqs.len());
        lemma_depths_range(t, 0, blank);
        lemma_depths_any(t, 0, blank);
        assert forall|k: int| 0 <= k < n implies (if freqs[k] > 0 {
            1 <= #[trigger] code_lengths(freqs)[k] <= 58
        } else {
            code_lengths(freqs)[k] == 0
        }) by {
            assert(bears(t, k) == (freqs[k] > 0));
            if freqs[k] == 0 {
                assert(depths(t, 0, blank)[k] == blank[k]);
            }
        }
    } else {
        lemma_half_sum(freqs, n);
        lemma_half_leaves(freqs, n);
        law_code_lengths(half_freqs(freqs));
        assert forall|k: int| 0 <= k < n implies (half_freqs(freqs)[k] > 0) == (freqs[k] > 0) by {}
    }
}

proof fn lemma_half_leaves(freqs: Seq<u128>, n: int)
    requires
        0 <= n <= freqs.len(),
    ensures
        leaves(half_freqs(freqs), n).len() == leaves(freqs, n).len(),
    decreases n,
{
    if n > 0 {
        lemma_half_leaves(freqs, n - 1);
    }
}

// ----------------------------------------------------------------------
// A heap of trees
// ----------------------------------------------------------------------
/// A tree with its weight, and its number in the order in which trees are
/// made.
pub struct Item {
    pub weight: u128,
    pub order: usize,
    pub tree: Tree,
}

/// `a` does not come behind `b`.
pub open spec fn comes_first(a: Item, b: Item) -> bool {
    a.weight < b.weight || (a.weight == b.weight && a.order <= b.order)
}

/// A heap: a binary tree of items in which no item comes behind those below
/// it, and in which the way to the right is short.
pub enum Heap {
    Empty,
    Full(Box<HeapNode>),
}

pub struct HeapNode {
    /// The number of items on the way to the right.
    pub rank: usize,
    pub item: Item,
    pub left: Heap,
    pub right: Heap,
}

/// The items of a heap.
pub open spec fn items(h: Heap) -> Multiset<Item>
    decreases h,
{
    match h {
        Heap::Empty => Multiset::empty(),
        Heap::Full(n) => items(n.left).add(items(n.right)).insert(n.item),
    }
}

/// No item comes behind those below it.
pub open spec fn is_heap(h: Heap) -> bool
    decreases h,
{
    match h {
        Heap::Empty => true,
        Heap::Full(n) => {
            &&& is_heap(n.left)
            &&& is_heap(n.right)
            &&& forall|x: Item| #[trigger] items(n.left).count(x) > 0 ==> comes_first(n.item, x)
            &&& forall|x: Item| #[trigger] items(n.right).count(x) > 0 ==> comes_first(n.item, x)
        },
    }
}

/// The item on top comes first of all.
proof fn lemma_top(n: HeapNode)
    requires
        is_heap(Heap::Full(Box::new(n))),
    ensures
        forall|x: Item|
            #[trigger] items(Heap::Full(Box::new(n))).count(x) > 0 ==> comes_first(n.item, x),
{
    let h = Heap::Full(Box::new(n));
    assert forall|x: Item| #[trigger] items(h).count(x) > 0 implies comes_first(n.item, x) by {
        assert(items(h) == items(n.left).add(items(n.right)).insert(n.item));
        if x != n.item {
            assert(items(h).count(x) == items(n.left).count(x) + items(n.right).count(x));
        }
    }
}

/// The rank of a heap. It decides on which side heaps are merged, and nothing
/// else.
fn rank_of(h: &Heap) -> (r: usize)
    ensures
        r == match h {
            Heap::Empty => 0,
            Heap::Full(n) => n.rank,
        },
{
    match h {
        Heap::Empty => 0,
        Heap::Full(n) => n.rank,
    }
}

/// A heap of an item and two heaps that it comes before.
fn make_heap(item: Item, a: Heap, b: Heap) -> (r: Heap)
    requires
        is_heap(a),
        is_heap(b),
        forall|x: Item| #[trigger] items(a).count(x) > 0 ==> comes_first(item, x),
        forall|x: Item| #[trigger] items(b).count(x) > 0 ==> comes_first(item, x),
    ensures
        is_heap(r),
        items(r) == items(a).add(items(b)).insert(item),
{
    let ra: usize = rank_of(&a);
    let rb: usize = rank_of(&b);
    if ra < rb {
        let rank: usize = if ra < usize::MAX {
            ra + 1
        } else {
            ra
        };
        assert(items(b).add(items(a)) =~= items(a).add(items(b)));
        Heap::Full(Box::new(HeapNode { rank, item, left: b, right: a }))
    } else {
        let rank: usize = if rb < usize::MAX {
            rb + 1
        } else {
            rb
        };
        Heap::Full(Box::new(HeapNode { rank, item, left: a, right: b }))
    }
}

/// The number of items of a heap.
pub open spec fn heap_size(h: Heap) -> nat
    decreases h,
{
    match h {
        Heap::Empty => 0,
        Heap::Full(n) => 1 + heap_size(n.left) + heap_size(n.right),
    }
}

/// A heap of the items of two heaps.
fn merge(a: Heap, b: Heap) -> (r: Heap)
    requires
        is_heap(a),
        is_heap(b),
    ensures
        is_heap(r),
        items(r) == items(a).add(items(b)),
    decreases heap_size(a) + heap_size(b),
{
    let ghost (ia, ib) = (items(a), items(b));
    match (a, b) {
        (Heap::Empty, b) => {
            assert(Multiset::<Item>::empty().add(ib) =~= ib);
            b
        },
        (a, Heap::Empty) => {
            assert(ia.add(Multiset::<Item>::empty()) =~= ia);
            a
        },
        (Heap::Full(x), Heap::Full(y)) => {
            let x: HeapNode = *x;
            let y: HeapNode = *y;
            proof {
                lemma_top(x);
                lemma_top(y);
            }
            if x.item.weight < y.item.weight || (x.item.weight == y.item.weight && x.item.order
                <= y.item.order) {
                let ghost (il, ir, top) = (items(x.left), items(x.right), x.item);
                let right: Heap = merge(x.right, Heap::Full(Box::new(y)));
                let r: Heap = make_heap(x.item, x.left, right);
                assert(items(r) =~= ia.add(ib));
                r
            } else {
                let ghost (il, ir, top) = (items(y.left), items(y.right), y.item);
                let right: Heap = merge(Heap::Full(Box::new(x)), y.right);
                let r: Heap = make_heap(y.item, y.left, right);
                assert(items(r) =~= ia.add(ib));
                r
            }
        },
    }
}

/// A heap with one more item.
fn push_item(h: Heap, item: Item) -> (r: Heap)
    requires
        is_heap(h),
    ensures
        is_heap(r),
        items(r) == items(h).insert(item),
{
    let one: Heap = make_heap(item, Heap::Empty, Heap::Empty);
    let ghost x = items(h);
    let r: Heap = merge(h, one);
    assert(items(r) =~= x.insert(item));
    r
}

/// Take the item that comes first out of a heap.
fn pop_item(h: Heap) -> (r: Option<(Item, Heap)>)
    requires
        is_heap(h),
    ensures
        r is None <==> items(h).len() == 0,
        r matches Some((x, rest)) ==> {
            &&& is_heap(rest)
            &&& items(h).count(x) > 0
            &&& items(rest) == items(h).remove(x)
            &&& forall|y: Item| #[trigger] items(h).count(y) > 0 ==> comes_first(x, y)
        },
{
    let ghost all = items(h);
    match h {
        Heap::Empty => None,
        Heap::Full(n) => {
            let n: HeapNode = *n;
            proof {
                lemma_top(n);
                assert(all.count(n.item) > 0);
                assert(all.len() > 0);
            }
            let rest: Heap = merge(n.left, n.right);
            assert(items(rest) =~= all.remove(n.item));
            Some((n.item, rest))
        },
    }
}

/// The trees that a list of items stands for.
pub open spec fn stems(s: Seq<Item>) -> Seq<Stem> {
    Seq::new(s.len(), |i: int| Stem { weight: s[i].weight as int, tree: s[i].tree })
}

/// The items stand in the order in which they were made, and were made before
/// `next`.
pub open spec fn in_order(s: Seq<Item>, next: int) -> bool {
    &&& forall|i: int| 0 <= i < s.len() ==> (#[trigger] s[i]).order < next
    &&& forall|i: int, j: int|
        #![trigger s[i], s[j]]
        0 <= i < j < s.len() ==> s[i].order < s[j].order
}

/// The item that comes first is the first of the lightest.
proof fn lemma_first_item(s: Seq<Item>, next: int, x: Item)
    requires
        in_order(s, next),
        s.to_multiset().count(x) > 0,
        forall|y: Item| #[trigger] s.to_multiset().count(y) > 0 ==> comes_first(x, y),
    ensures
        s.len() > 0,
        0 <= lightest(stems(s), s.len() as int) < s.len(),
        s[lightest(stems(s), s.len() as int)] == x,
{
    broadcast use group_to_multiset_ensures;

    assert(s.contains(x));
    let n = s.len() as int;
    let i = choose|i: int| 0 <= i < n && s[i] == x;
    let t = stems(s);
    let a = lightest(t, n);
    lemma_lightest(t, n);
    assert(s.to_multiset().count(s[a]) > 0) by {
        assert(s.contains(s[a]));
    }
    assert(comes_first(x, s[a]));
    assert(t[a].weight <= t[i].weight);
    if i < a {
        assert(t[a].weight < t[i].weight);
    }
    if a < i {
        assert(s[a].order < s[i].order);
    }
}

/// Taking an item out keeps the order.
proof fn lemma_take(s: Seq<Item>, next: int, a: int)
    requires
        in_order(s, next),
        0 <= a < s.len(),
    ensures
        in_order(s.remove(a), next),
        stems(s.remove(a)) == stems(s).remove(a),
        s.remove(a).to_multiset() == s.to_multiset().remove(s[a]),
{
    broadcast use group_to_multiset_ensures;

    let t = s.remove(a);
    assert forall|i: int| 0 <= i < t.len() implies (#[trigger] t[i]).order < next by {
        assert(t[i] == s[behind(a, i)]);
    }
    assert forall|i: int, j: int| #![trigger t[i], t[j]] 0 <= i < j < t.len() implies t[i].order
        < t[j].order by {
        assert(t[i] == s[behind(a, i)]);
        assert(t[j] == s[behind(a, j)]);
    }
    assert(stems(t) =~= stems(s).remove(a));
}

/// Weights that can be added without overflow.
pub open spec fn is_bounded(s: Seq<Stem>) -> bool {
    &&& forall|i: int| 0 <= i < s.len() ==> (#[trigger] s[i]).weight >= 0
    &&& stem_sum(s, s.len() as int) <= u128::MAX
}

/// Two weights are at most the sum of all.
proof fn lemma_two_weights(s: Seq<Stem>)
    requires
        s.len() >= 2,
        is_bounded(s),
    ensures
        ({
            let a = lightest(s, s.len() as int);
            let c = lightest(s.remove(a), s.len() - 1);
            0 <= s[a].weight + s.remove(a)[c].weight <= u128::MAX
        }),
        is_bounded(joined(s)),
{
    let n = s.len() as int;
    let (a, c) = lemma_joined(s);
    let rest = s.remove(a);
    lemma_lightest(rest, n - 1);
    lemma_joined_sum(s);
    lemma_sum_remove(s, a, n);
    lemma_sum_remove(rest, c, n - 1);
    assert(rest[c] == s[behind(a, c)]);
    assert forall|i: int| 0 <= i < n - 2 implies (#[trigger] rest.remove(c)[i]).weight >= 0 by {
        assert(rest.remove(c)[i] == s[behind(a, behind(c, i))]);
    }
    lemma_sum_nonnegative(rest.remove(c), n - 2);
    assert forall|i: int| 0 <= i < joined(s).len() implies (#[trigger] joined(s)[i]).weight >= 0 by {
        if i < n - 2 {
            assert(joined(s)[i] == s[behind(a, behind(c, i))]);
        }
    }
}

proof fn lemma_sum_nonnegative(s: Seq<Stem>, k: int)
    requires
        0 <= k <= s.len(),
        forall|i: int| 0 <= i < s.len() ==> (#[trigger] s[i]).weight >= 0,
    ensures
        0 <= stem_sum(s, k),
    decreases k,
{
    if k > 0 {
        lemma_sum_nonnegative(s, k - 1);
    }
}

/// Join all trees of a heap.
fn grow(h: Heap, count: usize, next: usize, Ghost(live): Ghost<Seq<Item>>) -> (r: Tree)
    requires
        is_heap(h),
        items(h) == live.to_multiset(),
        in_order(live, next as int),
        live.len() == count,
        count >= 1,
        next + count <= usize::MAX,
        is_bounded(stems(live)),
    ensures
        grown(stems(live)).len() == 1,
        r == grown(stems(live))[0].tree,
{
    broadcast use group_to_multiset_ensures;

    let ghost all = grown(stems(live));
    let ghost mut live = live;
    let mut h: Heap = h;
    let mut n: usize = count;
    let mut next: usize = next;
    while n > 1
        invariant
            is_heap(h),
            items(h) == live.to_multiset(),
            in_order(live, next as int),
            live.len() == n,
            n >= 1,
            next + n <= usize::MAX,
            is_bounded(stems(live)),
            all == grown(stems(live)),
        decreases n,
    {
        broadcast use group_to_multiset_ensures;

        let ghost s = stems(live);
        let ghost before = live;
        proof {
            lemma_two_weights(s);
        }
        if let Some((x, rest)) = pop_item(h) {
            let ghost a = lightest(s, n as int);
            proof {
                lemma_first_item(live, next as int, x);
                lemma_take(live, next as int, a);
                live = live.remove(a);
            }
            if let Some((y, rest)) = pop_item(rest) {
                let ghost c = lightest(stems(live), n - 1);
                proof {
                    lemma_first_item(live, next as int, y);
                    lemma_take(live, next as int, c);
                    live = live.remove(c);
                    assert(s[a].weight == x.weight && stems(before.remove(a))[c].weight == y.weight);
                }
                let item: Item = Item {
                    weight: x.weight + y.weight,
                    order: next,
                    tree: Tree::Node(Box::new(x.tree), Box::new(y.tree)),
                };
                let ghost made = item;
                h = push_item(rest, item);
                proof {
                    let kept = live;
                    live = live.push(made);
                    assert(in_order(live, next + 1));
                    assert(stems(live) =~= joined(s));
                }
                next = next + 1;
            } else {
                assert(live.len() > 0);
                return Tree::Leaf(0);
            }
        } else {
            assert(live.len() > 0);
            return Tree::Leaf(0);
        }
        n = n - 1;
    }
    if let Some((x, _rest)) = pop_item(h) {
        proof {
            lemma_first_item(live, next as int, x);
        }
        return x.tree;
    }
    Tree::Leaf(0)
}

/// Give the leaves of a tree their depths; false where one is too deep.
fn put_depths(t: &Tree, d: u8, lens: &mut Vec<u8>) -> (r: bool)
    requires
        d <= 58,
        forall|k: int| #[trigger] bears(*t, k) ==> 0 <= k < old(lens)@.len(),
    ensures
        final(lens)@.len() == old(lens)@.len(),
        r == (d + height(*t) <= 58),
        r ==> final(lens)@ == depths(*t, d as int, old(lens)@),
    decreases t,
{
    match t {
        Tree::Leaf(k) => {
            assert(bears(*t, *k as int));
            lens.set(
                *k,
                if d < 1 {
                    1
                } else {
                    d
                },
            );
            true
        },
        Tree::Node(a, b) => {
            proof {
                lemma_below(**a, height(**a));
                lemma_below(**b, height(**b));
                assert forall|k: int| #[trigger] bears(**a, k) implies 0 <= k < lens@.len() by {
                    assert(bears(*t, k));
                }
                assert forall|k: int| #[trigger] bears(**b, k) implies 0 <= k < lens@.len() by {
                    assert(bears(*t, k));
                }
            }
            if d == 58 {
                return false;
            }
            put_depths(a, d + 1, lens) && put_depths(b, d + 1, lens)
        },
    }
}

/// The leaves for some frequencies, in a heap.
fn plant(freqs: &Vec<u128>) -> (r: (Heap, usize, Ghost<Seq<Item>>))
    requires
        freqs@.len() <= 0x1_0001,
    ensures
        is_heap(r.0),
        items(r.0) == r.2@.to_multiset(),
        in_order(r.2@, freqs@.len() as int),
        r.2@.len() == r.1,
        r.1 <= freqs@.len(),
        stems(r.2@) == leaves(freqs@, freqs@.len() as int),
{
    broadcast use group_to_multiset_ensures;

    let mut h: Heap = Heap::Empty;
    let ghost mut live = Seq::<Item>::empty();
    let mut n: usize = 0;
    let mut k: usize = 0;
    assert(items(h) =~= live.to_multiset());
    assert(stems(live) =~= leaves(freqs@, 0));
    while k < freqs.len()
        invariant
            k <= freqs@.len(),
            freqs@.len() <= 0x1_0001,
            n <= k,
            is_heap(h),
            items(h) == live.to_multiset(),
            in_order(live, k as int),
            live.len() == n,
            stems(live) == leaves(freqs@, k as int),
        decreases freqs@.len() - k,
    {
        broadcast use group_to_multiset_ensures;

        if freqs[k] > 0 {
            let item: Item = Item { weight: freqs[k], order: k, tree: Tree::Leaf(k) };
            let ghost made = item;
            h = push_item(h, item);
            proof {
                let kept = live;
                live = live.push(made);
                assert(stems(live) =~= stems(kept).push(
                    Stem { weight: made.weight as int, tree: made.tree },
                ));
            }
            n = n + 1;
        }
        k = k + 1;
    }
    (h, n, Ghost(live))
}

/// The sum of the weights of the leaves is that of the frequencies.
proof fn lemma_leaf_sum(freqs: Seq<u128>, n: int)
    requires
        0 <= n <= freqs.len(),
    ensures
        stem_sum(leaves(freqs, n), leaves(freqs, n).len() as int) == freq_sum(freqs, n),
        forall|i: int| 0 <= i < leaves(freqs, n).len() ==> (#[trigger] leaves(freqs, n)[i]).weight >= 0,
    decreases n,
{
    if n > 0 {
        lemma_leaf_sum(freqs, n - 1);
        if freqs[n - 1] > 0 {
            lemma_sum_same(
                leaves(freqs, n - 1),
                leaves(freqs, n),
                leaves(freqs, n - 1).len() as int,
            );
        }
    }
}

/// Halve the frequencies; the second result says whether any changed.
fn halve(freqs: &Vec<u128>) -> (r: (Vec<u128>, bool))
    ensures
        r.0@ == half_freqs(freqs@),
        r.1 == (half_freqs(freqs@) != freqs@),
{
    let mut out: Vec<u128> = Vec::new();
    let mut changed: bool = false;
    let mut i: usize = 0;
    while i < freqs.len()
        invariant
            i <= freqs@.len(),
            out@.len() == i,
            forall|j: int| 0 <= j < i ==> #[trigger] out@[j] == half_freqs(freqs@)[j],
            changed ==> half_freqs(freqs@) != freqs@,
            !changed ==> forall|j: int| 0 <= j < i ==> half_freqs(freqs@)[j] == #[trigger] freqs@[j],
        decreases freqs@.len() - i,
    {
        let w: u128 = freqs[i];
        let h: u128 = w / 2 + w % 2;
        if h != w {
            assert(half_freqs(freqs@)[i as int] != freqs@[i as int]);
            changed = true;
        }
        out.push(h);
        i = i + 1;
    }
    assert(out@ =~= half_freqs(freqs@));
    if !changed {
        assert(half_freqs(freqs@) =~= freqs@);
    }
    (out, changed)
}

/// The code lengths for the given frequencies, at most 58 bits; 0 for a symbol
/// that does not occur.
pub fn build_code_lengths(freqs: Vec<u128>) -> (r: Vec<u8>)
    requires
        freqs@.len() <= 0x1_0001,
        freq_sum(freqs@, freqs@.len() as int) <= u128::MAX,
    ensures
        r@ == code_lengths(freqs@),
        r@.len() == freqs@.len(),
{
    let ghost want = code_lengths(freqs@);
    let ghost start = freqs@;
    let n: usize = freqs.len();
    let mut fs: Vec<u128> = freqs;
    loop
        invariant
            n == fs@.len(),
            start == freqs@,
            n == start.len(),
            n <= 0x1_0001,
            freq_sum(fs@, n as int) <= u128::MAX,
            want == code_lengths(fs@),
            want == code_lengths(start),
        decreases freq_sum(fs@, n as int),
    {
        proof {
            lemma_freq_sum(fs@, n as int);
            lemma_leaves(fs@, n as int);
            lemma_leaf_sum(fs@, n as int);
        }
        let (h, count, live) = plant(&fs);
        let mut lens: Vec<u8> = vec![0u8; n];
        assert(lens@ =~= no_lens(n as nat));
        if count == 0 {
            assert(leaves(fs@, n as int).len() == 0);
            assert(grown(leaves(fs@, n as int)).len() == 0);
            return lens;
        }
        proof {
            lemma_grown(leaves(fs@, n as int));
        }
        let t: Tree = grow(h, count, n, live);
        proof {
            let s = leaves(fs@, n as int);
            assert forall|k: int| #[trigger] bears(t, k) implies 0 <= k < n by {
                assert(bears(grown(s)[0].tree, k));
                assert(covers(grown(s), k));
                assert(covers(s, k));
            }
            lemma_below(t, height(t));
        }
        let fine: bool = put_depths(&t, 0, &mut lens);
        if fine {
            proof {
                assert forall|k: int| #[trigger] bears(t, k) implies 0 <= k < no_lens(n as nat).len() by {}
                lemma_depths_any(t, 0, no_lens(n as nat));
            }
            return lens;
        }
        let (next, changed) = halve(&fs);
        proof {
            lemma_half_sum(fs@, n as int);
            if !changed {
                lemma_equal_freqs(fs@);
            }
        }
        fs = next;
    }
}

proof fn lemma_freq_sum(freqs: Seq<u128>, k: int)
    requires
        0 <= k <= freqs.len(),
    ensures
        0 <= freq_sum(freqs, k),
    decreases k,
{
    if k > 0 {
        lemma_freq_sum(freqs, k - 1);
    }
}

} // verus!
