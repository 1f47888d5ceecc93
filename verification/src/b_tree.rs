//! A B-tree of `i64` keys with an even branching factor `2 t`.
//!
//! Every node keeps its keys in ascending order; an inner node with `m`
//! keys has `m + 1` children, and the keys of the `j`-th child lie
//! between the `j-1`-th and `j`-th key of the node. A full node (one with
//! `2 t - 1` keys) is split around its middle key before it is descended
//! into, so no recursion step ever meets a full node. The view is the
//! multiset of stored keys; equal keys may be stored several times.

use vstd::multiset::Multiset;
use vstd::prelude::*;
use vstd::seq_lib::lemma_multiset_commutative;

verus! {

/// One node: the keys and, unless the node is a leaf, one subtree between
/// and around them.
#[derive(Debug)]
struct Node {
    keys: Vec<i64>,
    children: Vec<Node>,
}


impl Node {
    /// A node over the given keys and subtrees; absent parts start empty,
    /// with room reserved for a full node of the given order.
    fn new(degree: usize, keys: Option<Vec<i64>>, children: Option<Vec<Node>>) -> (n: Node)
        requires
            degree >= 1,
        ensures
            n.keys@ == (match keys {
                Some(k) => k@,
                None => Seq::<i64>::empty(),
            }),
            n.children@ == (match children {
                Some(c) => c@,
                None => Seq::<Node>::empty(),
            }),
    {
        let keys = match keys {
            Some(k) => k,
            None => Vec::with_capacity(degree - 1),
        };
        let children = match children {
            Some(c) => c,
            None => Vec::with_capacity(degree),
        };
        Node { keys, children }
    }

    /// Whether this node has no subtrees.
    fn is_leaf(&self) -> (r: bool)
        ensures
            r == (self.children@.len() == 0),
    {
        self.children.len() == 0
    }
}

/// The keys of the subtrees `s[i..]`, as a multiset.
spec fn seq_keys(s: Seq<Node>, i: int) -> Multiset<i64>
    decreases s, s.len() - i,
{
    if i < 0 || i >= s.len() {
        Multiset::empty()
    } else {
        node_keys(s[i]).add(seq_keys(s, i + 1))
    }
}

/// All keys of the subtree rooted at `n`, as a multiset.
spec fn node_keys(n: Node) -> Multiset<i64>
    decreases n,
{
    n.keys@.to_multiset().add(seq_keys(n.children@, 0))
}

/// `seq_keys` over a suffix splits off its first subtree.
proof fn lemma_seq_keys_unfold(s: Seq<Node>, i: int)
    requires
        0 <= i < s.len(),
    ensures
        seq_keys(s, i) == node_keys(s[i]).add(seq_keys(s, i + 1)),
{
}

/// The keys of `s[i..]` depend only on the entries `s[i..]`.
proof fn lemma_seq_keys_congruent(s1: Seq<Node>, s2: Seq<Node>, i1: int, i2: int)
    requires
        0 <= i1 <= s1.len(),
        0 <= i2 <= s2.len(),
        s1.len() - i1 == s2.len() - i2,
        forall|d: int| 0 <= d < s1.len() - i1 ==> #[trigger] s1[i1 + d] == s2[i2 + d],
    ensures
        seq_keys(s1, i1) == seq_keys(s2, i2),
    decreases s1.len() - i1,
{
    if i1 < s1.len() {
        assert(s1[i1 + 0] == s2[i2 + 0]);
        assert forall|d: int| 0 <= d < s1.len() - (i1 + 1) implies #[trigger] s1[i1 + 1
            + d] == s2[i2 + 1 + d] by {
            assert(s1[i1 + (d + 1)] == s2[i2 + (d + 1)]);
        }
        lemma_seq_keys_congruent(s1, s2, i1 + 1, i2 + 1);
    }
}

/// Replacing the subtree at `j` replaces exactly its contribution.
proof fn lemma_seq_keys_update(s: Seq<Node>, i: int, j: int, n: Node)
    requires
        0 <= i <= s.len(),
        i <= j < s.len(),
    ensures
        seq_keys(s.update(j, n), i).add(node_keys(s[j])) == seq_keys(s, i).add(
            node_keys(n),
        ),
    decreases s.len() - i,
{
    broadcast use vstd::multiset::group_multiset_axioms;

    if i == j {
        lemma_seq_keys_congruent(s, s.update(j, n), i + 1, i + 1);
        assert(seq_keys(s.update(j, n), i).add(node_keys(s[j])) =~= seq_keys(s, i)
            .add(node_keys(n)));
    } else {
        lemma_seq_keys_update(s, i + 1, j, n);
        assert(s.update(j, n)[i] == s[i]);
        lemma_seq_keys_unfold(s, i);
        lemma_seq_keys_unfold(s.update(j, n), i);
        assert forall|k: i64|
            seq_keys(s.update(j, n), i).add(node_keys(s[j])).count(k) == seq_keys(
            s,
            i,
        ).add(node_keys(n)).count(k) by {
            assert(seq_keys(s.update(j, n), i + 1).add(node_keys(s[j])).count(k)
                == seq_keys(s, i + 1).add(node_keys(n)).count(k));
        }
        assert(seq_keys(s.update(j, n), i).add(node_keys(s[j])) =~= seq_keys(s, i)
            .add(node_keys(n)));
    }
}

/// The height of the subtrees `s[i..]`: the tallest of them, 0 when none.
spec fn seq_height(s: Seq<Node>, i: int) -> nat
    decreases s, s.len() - i,
{
    if i < 0 || i >= s.len() {
        0
    } else {
        let rest = seq_height(s, i + 1);
        if node_height(s[i]) >= rest {
            node_height(s[i])
        } else {
            rest
        }
    }
}

/// The height of the subtree rooted at `n`; a leaf has height 1.
spec fn node_height(n: Node) -> nat
    decreases n,
{
    1 + seq_height(n.children@, 0)
}

/// Every subtree in `s[i..]` is lower than the suffix's height bound.
proof fn lemma_seq_height_index(s: Seq<Node>, i: int, j: int)
    requires
        0 <= i <= j < s.len(),
    ensures
        node_height(s[j]) <= seq_height(s, i),
    decreases j - i,
{
    if i < j {
        lemma_seq_height_index(s, i + 1, j);
    }
}

/// A suffix of subtrees each no taller than `h` has height at most `h`.
proof fn lemma_seq_height_bound(s: Seq<Node>, i: int, h: nat)
    requires
        0 <= i <= s.len(),
        forall|j: int| i <= j < s.len() ==> node_height(#[trigger] s[j]) <= h,
    ensures
        seq_height(s, i) <= h,
    decreases s.len() - i,
{
    if i < s.len() {
        lemma_seq_height_bound(s, i + 1, h);
    }
}

/// Inserting a value anywhere in a sequence adds it to the multiset.
proof fn lemma_insert_to_multiset(s: Seq<i64>, i: int, x: i64)
    requires
        0 <= i <= s.len(),
    ensures
        s.insert(i, x).to_multiset() == s.to_multiset().insert(x),
    decreases s.len(),
{
    broadcast use vstd::multiset::group_multiset_axioms;

    if i == s.len() {
        s.to_multiset_ensures();
        assert(s.insert(i, x) =~= s.push(x));
    } else {
        s.drop_last().to_multiset_ensures();
        s.drop_last().insert(i, x).to_multiset_ensures();
        s.to_multiset_ensures();
        lemma_insert_to_multiset(s.drop_last(), i, x);
        assert(s =~= s.drop_last().push(s.last()));
        assert(s.insert(i, x) =~= s.drop_last().insert(i, x).push(s.last()));
        assert(s.insert(i, x).to_multiset() =~= s.to_multiset().insert(x));
    }
}

/// Splitting a suffix of subtrees at `mid` splits its key multiset.
proof fn lemma_seq_keys_prefix(s: Seq<Node>, i: int, mid: int)
    requires
        0 <= i <= mid <= s.len(),
    ensures
        seq_keys(s, i) == seq_keys(s.subrange(i, mid), 0).add(seq_keys(s, mid)),
    decreases mid - i,
{
    broadcast use vstd::multiset::group_multiset_axioms;

    if i == mid {
        assert(s.subrange(i, mid) =~= Seq::<Node>::empty());
        assert(seq_keys(s.subrange(i, mid), 0) == Multiset::<i64>::empty());
        assert(seq_keys(s, i) =~= seq_keys(s.subrange(i, mid), 0).add(
            seq_keys(s, mid),
        ));
    } else {
        lemma_seq_keys_prefix(s, i + 1, mid);
        let pre = s.subrange(i, mid);
        assert forall|d: int| 0 <= d < s.len() - (i + 1) && d < mid - i - 1 implies #[trigger] s[i
            + 1 + d] == pre.subrange(1, mid - i)[0 + d] by {}
        assert forall|d: int|
            0 <= d < s.subrange(i + 1, mid).len() implies #[trigger] s.subrange(
            i + 1,
            mid,
        )[0 + d] == pre.subrange(1, mid - i)[0 + d] by {
            assert(s.subrange(i + 1, mid)[d] == s[i + 1 + d]);
            assert(pre.subrange(1, mid - i)[d] == s[i + 1 + d]);
        }
        lemma_seq_keys_congruent(s.subrange(i + 1, mid), pre.subrange(1, mid - i), 0, 0);
        assert(seq_keys(pre, 0) == node_keys(pre[0]).add(seq_keys(pre, 1)));
        lemma_seq_keys_congruent(pre, pre.subrange(1, mid - i), 1, 0);
        assert(pre[0] == s[i]);
        assert(seq_keys(s, i) =~= seq_keys(pre, 0).add(seq_keys(s, mid)));
    }
}

/// The keys of a suffix, seen from `mid` onward, are those of the tail.
proof fn lemma_seq_keys_suffix(s: Seq<Node>, mid: int)
    requires
        0 <= mid <= s.len(),
    ensures
        seq_keys(s, mid) == seq_keys(s.subrange(mid, s.len() as int), 0),
{
    lemma_seq_keys_congruent(s, s.subrange(mid, s.len() as int), mid, 0);
}

/// An inner node has one more child than keys, here and below.
spec fn shape_wf(n: Node) -> bool
    decreases n,
{
    &&& (n.children@.len() == 0 || n.children@.len() == n.keys@.len() + 1)
    &&& seq_shape_wf(n.children@, 0)
}

/// The subtrees `s[i..]` all have inner-node arity.
spec fn seq_shape_wf(s: Seq<Node>, i: int) -> bool
    decreases s, s.len() - i,
{
    if i < 0 || i >= s.len() {
        true
    } else {
        shape_wf(s[i]) && seq_shape_wf(s, i + 1)
    }
}

/// The same, carried over to an equal suffix.
proof fn lemma_seq_shape_congruent(s1: Seq<Node>, s2: Seq<Node>, i1: int, i2: int)
    requires
        0 <= i1 <= s1.len(),
        0 <= i2 <= s2.len(),
        s1.len() - i1 == s2.len() - i2,
        forall|d: int| 0 <= d < s1.len() - i1 ==> #[trigger] s1[i1 + d] == s2[i2 + d],
        seq_shape_wf(s1, i1),
    ensures
        seq_shape_wf(s2, i2),
    decreases s1.len() - i1,
{
    if i1 < s1.len() {
        assert(s1[i1 + 0] == s2[i2 + 0]);
        assert forall|d: int| 0 <= d < s1.len() - (i1 + 1) implies #[trigger] s1[i1 + 1
            + d] == s2[i2 + 1 + d] by {
            assert(s1[i1 + (d + 1)] == s2[i2 + (d + 1)]);
        }
        lemma_seq_shape_congruent(s1, s2, i1 + 1, i2 + 1);
    }
}

/// Every subtree of a suffix with inner-node arity has it as well.
proof fn lemma_seq_shape_index(s: Seq<Node>, i: int, j: int)
    requires
        seq_shape_wf(s, i),
        0 <= i <= j < s.len(),
    ensures
        shape_wf(s[j]),
    decreases j - i,
{
    if i < j {
        lemma_seq_shape_index(s, i + 1, j);
    }
}

/// A suffix of subtrees each with inner-node arity has it as a whole.
proof fn lemma_seq_shape_from_forall(s: Seq<Node>, i: int)
    requires
        0 <= i <= s.len(),
        forall|j: int| i <= j < s.len() ==> shape_wf(#[trigger] s[j]),
    ensures
        seq_shape_wf(s, i),
    decreases s.len() - i,
{
    if i < s.len() {
        lemma_seq_shape_from_forall(s, i + 1);
    }
}

/// Arity survives replacing one subtree by one with arity.
proof fn lemma_seq_shape_update(s: Seq<Node>, i: int, j: int, n: Node)
    requires
        seq_shape_wf(s, i),
        shape_wf(n),
        0 <= i <= s.len(),
        i <= j < s.len(),
    ensures
        seq_shape_wf(s.update(j, n), i),
    decreases s.len() - i,
{
    if i < s.len() {
        if i == j {
            lemma_seq_shape_congruent(s, s.update(j, n), i + 1, i + 1);
        } else {
            lemma_seq_shape_update(s, i + 1, j, n);
            assert(s.update(j, n)[i] == s[i]);
        }
    }
}

/// No node of the subtree holds more than `cap` keys.
spec fn node_capped(n: Node, cap: int) -> bool
    decreases n,
{
    n.keys@.len() <= cap && seq_capped(n.children@, 0, cap)
}

/// The subtrees `s[i..]` all keep to the key capacity.
spec fn seq_capped(s: Seq<Node>, i: int, cap: int) -> bool
    decreases s, s.len() - i,
{
    if i < 0 || i >= s.len() {
        true
    } else {
        node_capped(s[i], cap) && seq_capped(s, i + 1, cap)
    }
}

/// Every subtree of a capacity-keeping suffix keeps the capacity.
proof fn lemma_seq_capped_index(s: Seq<Node>, i: int, j: int, cap: int)
    requires
        seq_capped(s, i, cap),
        0 <= i <= j < s.len(),
    ensures
        node_capped(s[j], cap),
    decreases j - i,
{
    if i < j {
        lemma_seq_capped_index(s, i + 1, j, cap);
    }
}

/// A suffix of subtrees each keeping the capacity keeps it as a whole.
proof fn lemma_seq_capped_from_forall(s: Seq<Node>, i: int, cap: int)
    requires
        0 <= i <= s.len(),
        forall|j: int| i <= j < s.len() ==> node_capped(#[trigger] s[j], cap),
    ensures
        seq_capped(s, i, cap),
    decreases s.len() - i,
{
    if i < s.len() {
        lemma_seq_capped_from_forall(s, i + 1, cap);
    }
}

/// The keys of a sequence ascend (not necessarily strictly).
spec fn sorted(keys: Seq<i64>) -> bool {
    forall|i: int, j: int| 0 <= i <= j < keys.len() ==> #[trigger] keys[i] <= #[trigger] keys[j]
}

/// Keys ascend and each child's keys lie between the neighbouring keys,
/// here and below.
spec fn node_ordered(n: Node) -> bool
    decreases n,
{
    &&& sorted(n.keys@)
    &&& (forall|j: int, k: i64|
        0 <= j < n.children@.len() && #[trigger] node_keys(n.children@[j]).count(k)
            > 0 ==> (j == 0 || n.keys@[j - 1] <= k) && (j == n.keys@.len() || k
            <= n.keys@[j]))
    &&& seq_ordered(n.children@, 0)
}

/// The subtrees `s[i..]` are all ordered.
spec fn seq_ordered(s: Seq<Node>, i: int) -> bool
    decreases s, s.len() - i,
{
    if i < 0 || i >= s.len() {
        true
    } else {
        node_ordered(s[i]) && seq_ordered(s, i + 1)
    }
}

/// Order of a suffix carries over to an equal suffix.
proof fn lemma_seq_ordered_congruent(s1: Seq<Node>, s2: Seq<Node>, i1: int, i2: int)
    requires
        0 <= i1 <= s1.len(),
        0 <= i2 <= s2.len(),
        s1.len() - i1 == s2.len() - i2,
        forall|d: int| 0 <= d < s1.len() - i1 ==> #[trigger] s1[i1 + d] == s2[i2 + d],
        seq_ordered(s1, i1),
    ensures
        seq_ordered(s2, i2),
    decreases s1.len() - i1,
{
    if i1 < s1.len() {
        assert(s1[i1 + 0] == s2[i2 + 0]);
        assert forall|d: int| 0 <= d < s1.len() - (i1 + 1) implies #[trigger] s1[i1 + 1
            + d] == s2[i2 + 1 + d] by {
            assert(s1[i1 + (d + 1)] == s2[i2 + (d + 1)]);
        }
        lemma_seq_ordered_congruent(s1, s2, i1 + 1, i2 + 1);
    }
}

/// Every subtree of an ordered suffix is ordered.
proof fn lemma_seq_ordered_index(s: Seq<Node>, i: int, j: int)
    requires
        seq_ordered(s, i),
        0 <= i <= j < s.len(),
    ensures
        node_ordered(s[j]),
    decreases j - i,
{
    if i < j {
        lemma_seq_ordered_index(s, i + 1, j);
    }
}

/// A suffix of ordered subtrees is ordered as a whole.
proof fn lemma_seq_ordered_from_forall(s: Seq<Node>, i: int)
    requires
        0 <= i <= s.len(),
        forall|j: int| i <= j < s.len() ==> node_ordered(#[trigger] s[j]),
    ensures
        seq_ordered(s, i),
    decreases s.len() - i,
{
    if i < s.len() {
        lemma_seq_ordered_from_forall(s, i + 1);
    }
}

/// A key counted among the subtrees `s[i..]` is counted in one of them.
proof fn lemma_seq_keys_member(s: Seq<Node>, i: int, k: i64)
    requires
        0 <= i <= s.len(),
        seq_keys(s, i).count(k) > 0,
    ensures
        exists|j: int|
            i <= j < s.len() && node_keys(#[trigger] s[j]).count(k) > 0,
    decreases s.len() - i,
{
    broadcast use vstd::multiset::group_multiset_axioms;

    if i < s.len() {
        if node_keys(s[i]).count(k) > 0 {
        } else {
            lemma_seq_keys_member(s, i + 1, k);
        }
    }
}

/// Splitting a full child around its middle key keeps the parent ordered:
/// `n1` is `n0` with the child at `ci` replaced by its two halves and the
/// middle key spliced between them.
#[verifier::rlimit(100)]
proof fn lemma_split_preserves_order(
    n0: Node,
    n1: Node,
    ci: int,
    m: int,
    lnode: Node,
    rnode: Node,
)
    requires
        node_ordered(n0),
        n0.children@.len() == n0.keys@.len() + 1,
        0 <= ci < n0.children@.len(),
        0 <= m < n0.children@[ci].keys@.len(),
        lnode.keys@ == n0.children@[ci].keys@.subrange(0, m),
        rnode.keys@ == n0.children@[ci].keys@.subrange(
            m + 1,
            n0.children@[ci].keys@.len() as int,
        ),
        n0.children@[ci].children@.len() == 0 || n0.children@[ci].children@.len()
            == n0.children@[ci].keys@.len() + 1,
        n0.children@[ci].children@.len() == 0 ==> lnode.children@.len() == 0
            && rnode.children@.len() == 0,
        n0.children@[ci].children@.len() > 0 ==> lnode.children@
            == n0.children@[ci].children@.subrange(0, m + 1) && rnode.children@
            == n0.children@[ci].children@.subrange(
            m + 1,
            n0.children@[ci].children@.len() as int,
        ),
        n1.keys@ == n0.keys@.insert(ci, n0.children@[ci].keys@[m]),
        n1.children@ == n0.children@.update(ci, lnode).insert(ci + 1, rnode),
        node_keys(n0.children@[ci]) == node_keys(lnode).add(node_keys(rnode))
            .insert(n0.children@[ci].keys@[m]),
    ensures
        node_ordered(n1),
{
    broadcast use vstd::multiset::group_multiset_axioms;

    let pkeys0 = n0.keys@;
    let pch0 = n0.children@;
    let c0 = pch0[ci];
    let middle_key = c0.keys@[m];
    lemma_seq_ordered_index(pch0, 0, ci);
    assert(node_ordered(c0));
    c0.keys@.to_multiset_ensures();
    assert(c0.keys@.contains(middle_key));
    assert(node_keys(c0).count(middle_key) > 0);
    assert(ci == 0 || pkeys0[ci - 1] <= middle_key);
    assert(ci == pkeys0.len() || middle_key <= pkeys0[ci]);
    assert(n1.keys@ =~= pkeys0.subrange(0, ci) + seq![middle_key] + pkeys0.subrange(
        ci,
        pkeys0.len() as int,
    ));
    assert(sorted(n1.keys@)) by {
        assert forall|x: int, y: int|
            0 <= x <= y < n1.keys@.len() implies #[trigger] n1.keys@[x]
            <= #[trigger] n1.keys@[y] by {
            if x < ci && y > ci {
                assert(pkeys0[x] <= pkeys0[ci - 1] || ci == 0);
            }
        }
    }
    assert(sorted(lnode.keys@));
    assert(sorted(rnode.keys@));
    assert forall|j: int|
        0 <= j < lnode.children@.len() implies node_ordered(
        #[trigger] lnode.children@[j],
    ) by {
        assert(lnode.children@[j] == c0.children@[j]);
        lemma_seq_ordered_index(c0.children@, 0, j);
    }
    lemma_seq_ordered_from_forall(lnode.children@, 0);
    assert forall|j: int|
        0 <= j < rnode.children@.len() implies node_ordered(
        #[trigger] rnode.children@[j],
    ) by {
        assert(rnode.children@[j] == c0.children@[m + 1 + j]);
        lemma_seq_ordered_index(c0.children@, 0, m + 1 + j);
    }
    lemma_seq_ordered_from_forall(rnode.children@, 0);
    assert forall|j: int, k: i64|
        0 <= j < lnode.children@.len() && #[trigger] node_keys(lnode.children@[j])
            .count(k) > 0 implies (j == 0 || lnode.keys@[j - 1] <= k) && (j
        == lnode.keys@.len() || k <= lnode.keys@[j]) by {
        assert(lnode.children@[j] == c0.children@[j]);
    }
    assert(node_ordered(lnode));
    assert forall|j: int, k: i64|
        0 <= j < rnode.children@.len() && #[trigger] node_keys(rnode.children@[j])
            .count(k) > 0 implies (j == 0 || rnode.keys@[j - 1] <= k) && (j
        == rnode.keys@.len() || k <= rnode.keys@[j]) by {
        assert(rnode.children@[j] == c0.children@[m + 1 + j]);
        assert(node_keys(c0.children@[m + 1 + j]).count(k) > 0);
    }
    assert(node_ordered(rnode));
    assert forall|k: i64| node_keys(lnode).count(k) > 0 implies k <= middle_key
        && node_keys(c0).count(k) > 0 by {
        if lnode.keys@.to_multiset().count(k) > 0 {
            lnode.keys@.to_multiset_ensures();
            let idx = choose|idx: int|
                0 <= idx < lnode.keys@.len() && lnode.keys@[idx] == k;
            assert(c0.keys@[idx] == k);
        } else {
            lemma_seq_keys_member(lnode.children@, 0, k);
            let j = choose|j: int|
                0 <= j < lnode.children@.len() && node_keys(
                    #[trigger] lnode.children@[j],
                ).count(k) > 0;
            assert(lnode.children@[j] == c0.children@[j]);
            assert(node_keys(c0.children@[j]).count(k) > 0);
            assert(k <= c0.keys@[j]);
        }
    }
    assert forall|k: i64| node_keys(rnode).count(k) > 0 implies k >= middle_key
        && node_keys(c0).count(k) > 0 by {
        if rnode.keys@.to_multiset().count(k) > 0 {
            rnode.keys@.to_multiset_ensures();
            let idx = choose|idx: int|
                0 <= idx < rnode.keys@.len() && rnode.keys@[idx] == k;
            assert(c0.keys@[m + 1 + idx] == k);
        } else {
            lemma_seq_keys_member(rnode.children@, 0, k);
            let j = choose|j: int|
                0 <= j < rnode.children@.len() && node_keys(
                    #[trigger] rnode.children@[j],
                ).count(k) > 0;
            assert(rnode.children@[j] == c0.children@[m + 1 + j]);
            assert(node_keys(c0.children@[m + 1 + j]).count(k) > 0);
            assert(c0.keys@[m + j] >= c0.keys@[m]);
        }
    }
    assert forall|j: int, k: i64|
        0 <= j < n1.children@.len() && #[trigger] node_keys(n1.children@[j]).count(
        k,
    ) > 0 implies (j == 0 || n1.keys@[j - 1] <= k) && (j == n1.keys@.len() || k
        <= n1.keys@[j]) by {
        if j < ci {
            assert(n1.children@[j] == pch0[j]);
            assert(node_keys(pch0[j]).count(k) > 0);
        } else if j == ci {
            assert(node_keys(c0).count(k) > 0);
            assert(node_keys(pch0[ci]).count(k) > 0);
        } else if j == ci + 1 {
            assert(node_keys(c0).count(k) > 0);
            assert(node_keys(pch0[ci]).count(k) > 0);
        } else {
            assert(n1.children@[j] == pch0[j - 1]);
            assert(node_keys(pch0[j - 1]).count(k) > 0);
        }
    }
    assert forall|j: int|
        0 <= j < n1.children@.len() implies node_ordered(
        #[trigger] n1.children@[j],
    ) by {
        if j < ci {
            assert(n1.children@[j] == pch0[j]);
            lemma_seq_ordered_index(pch0, 0, j);
        } else if j == ci {
        } else if j == ci + 1 {
        } else {
            assert(n1.children@[j] == pch0[j - 1]);
            lemma_seq_ordered_index(pch0, 0, j - 1);
        }
    }
    lemma_seq_ordered_from_forall(n1.children@, 0);
    assert(node_ordered(n1));
}

/// Inserting `key` into the child at `ci` keeps the parent ordered, as
/// long as `key` lies between the keys around that child.
proof fn lemma_child_insert_preserves_order(
    mid: Node,
    n1: Node,
    ci: int,
    childf: Node,
    key: i64,
)
    requires
        node_ordered(mid),
        0 <= ci < mid.children@.len(),
        ci == 0 || mid.keys@[ci - 1] <= key,
        ci == mid.keys@.len() || key <= mid.keys@[ci],
        node_ordered(childf),
        node_keys(childf) == node_keys(mid.children@[ci]).insert(key),
        n1.keys@ == mid.keys@,
        n1.children@ == mid.children@.update(ci, childf),
    ensures
        node_ordered(n1),
{
    broadcast use vstd::multiset::group_multiset_axioms;

    assert forall|j: int, k: i64|
        0 <= j < n1.children@.len() && #[trigger] node_keys(n1.children@[j]).count(
        k,
    ) > 0 implies (j == 0 || n1.keys@[j - 1] <= k) && (j == n1.keys@.len() || k
        <= n1.keys@[j]) by {
        if j == ci {
            if k != key {
                assert(node_keys(mid.children@[j]).count(k) > 0);
            }
        } else {
            assert(n1.children@[j] == mid.children@[j]);
            assert(node_keys(mid.children@[j]).count(k) > 0);
        }
    }
    assert forall|j: int|
        0 <= j < n1.children@.len() implies node_ordered(
        #[trigger] n1.children@[j],
    ) by {
        if j != ci {
            assert(n1.children@[j] == mid.children@[j]);
            lemma_seq_ordered_index(mid.children@, 0, j);
        }
    }
    lemma_seq_ordered_from_forall(n1.children@, 0);
    assert(node_ordered(n1));
}

/// The branching parameters: an order (`degree`), the key capacity of a
/// node and the index of the middle key a split promotes.
#[derive(Debug)]
struct BTreeProps {
    degree: usize,
    max_keys: usize,
    min_keys_index: usize,
}

/// The derived fields agree with the order.
spec fn props_wf(p: BTreeProps) -> bool {
    &&& p.degree >= 2
    &&& p.max_keys == p.degree - 1
    &&& p.min_keys_index == (p.degree - 1) as int / 2
}

impl BTreeProps {
    /// Computes the capacity and split point for the given order.
    fn new(degree: usize) -> (p: Self)
        requires
            degree >= 2,
        ensures
            props_wf(p),
            p.degree == degree,
    {
        BTreeProps {
            degree,
            max_keys: degree - 1,
            min_keys_index: (degree - 1) / 2,
        }
    }

    /// Whether the node already holds as many keys as a node may.
    fn is_maxed_out(&self, node: &Node) -> (r: bool)
        ensures
            r == (node.keys@.len() == self.max_keys),
    {
        node.keys.len() == self.max_keys
    }

    /// Splits the full child at `child_index` around its middle key: the
    /// middle key moves up into `parent`, the halves become neighbouring
    /// children. The stored key multiset does not change.
    #[verifier::rlimit(100)]
    fn split_child(&self, parent: &mut Node, child_index: usize)
        requires
            props_wf(*self),
            shape_wf(*old(parent)),
            node_capped(*old(parent), self.max_keys as int),
            old(parent).keys@.len() < self.max_keys,
            old(parent).children@.len() == old(parent).keys@.len() + 1,
            child_index < old(parent).children@.len(),
            old(parent).children@[child_index as int].keys@.len() == self.max_keys,
        ensures
            shape_wf(*final(parent)),
            node_capped(*final(parent), self.max_keys as int),
            node_keys(*final(parent)) == node_keys(*old(parent)),
            final(parent).keys@.len() == old(parent).keys@.len() + 1,
            final(parent).children@.len() == old(parent).children@.len() + 1,
            final(parent).children@[child_index as int].keys@.len()
                == self.min_keys_index,
            final(parent).children@[child_index as int + 1].keys@.len()
                == self.max_keys - self.min_keys_index - 1,
            node_height(*final(parent)) <= node_height(*old(parent)),
            forall|j: int|
                0 <= j < final(parent).children@.len() ==> node_height(
                    #[trigger] final(parent).children@[j],
                ) < node_height(*old(parent)),
            node_ordered(*old(parent)) ==> node_ordered(*final(parent)),
            final(parent).keys@ == old(parent).keys@.insert(
                child_index as int,
                old(parent).children@[child_index as int].keys@[
                    self.min_keys_index as int
                ],
            ),
    {
        proof {
            lemma_seq_shape_index(old(parent).children@, 0, child_index as int);
        }
        let ghost pkeys0 = parent.keys@;
        let ghost pch0 = parent.children@;
        let n0 = parent.children.len();
        let mut child = parent.children.remove(child_index);
        let ghost c0 = child;
        let middle_key = child.keys[self.min_keys_index];
        let mut right_keys = child.keys.split_off(self.min_keys_index);
        let promoted = right_keys.remove(0);
        proof {
            assert(promoted == middle_key);
        }
        let right_children: Option<Vec<Node>> = if child.is_leaf() {
            None
        } else {
            Some(child.children.split_off(self.min_keys_index + 1))
        };
        let right_node = Node::new(self.degree, Some(right_keys), right_children);
        let ghost lnode = child;
        let ghost rnode = right_node;
        parent.keys.insert(child_index, middle_key);
        parent.children.insert(child_index, child);
        parent.children.insert(child_index + 1, right_node);
        proof {
            broadcast use vstd::multiset::group_multiset_axioms;

            let ci = child_index as int;
            let m = self.min_keys_index as int;
            // the two halves carry the old child's keys around the middle
            assert(lnode.keys@ =~= c0.keys@.subrange(0, m));
            assert(rnode.keys@ =~= c0.keys@.subrange(m + 1, c0.keys@.len() as int));
            assert(c0.keys@ =~= lnode.keys@ + seq![middle_key] + rnode.keys@);
            lemma_multiset_commutative(lnode.keys@ + seq![middle_key], rnode.keys@);
            lemma_multiset_commutative(lnode.keys@, seq![middle_key]);
            // and the old child's subtrees, shared out around the middle
            if c0.children@.len() > 0 {
                assert(lnode.children@ =~= c0.children@.subrange(0, m + 1));
                assert(rnode.children@ =~= c0.children@.subrange(
                    m + 1,
                    c0.children@.len() as int,
                ));
                assert(shape_wf(c0));
                assert(c0.children@.len() == c0.keys@.len() + 1);
                lemma_seq_keys_prefix(c0.children@, 0, m + 1);
                lemma_seq_keys_suffix(c0.children@, m + 1);
                assert forall|j: int|
                    0 <= j < lnode.children@.len() implies shape_wf(
                    #[trigger] lnode.children@[j],
                ) by {
                    assert(lnode.children@[j] == c0.children@[j]);
                    lemma_seq_shape_index(c0.children@, 0, j);
                }
                lemma_seq_shape_from_forall(lnode.children@, 0);
                assert forall|j: int|
                    0 <= j < rnode.children@.len() implies shape_wf(
                    #[trigger] rnode.children@[j],
                ) by {
                    assert(rnode.children@[j] == c0.children@[m + 1 + j]);
                    lemma_seq_shape_index(c0.children@, 0, m + 1 + j);
                }
                lemma_seq_shape_from_forall(rnode.children@, 0);
                assert(shape_wf(lnode));
                assert(shape_wf(rnode));
            } else {
                assert(shape_wf(lnode));
                assert(shape_wf(rnode));
            }
            assert(node_keys(c0) == node_keys(lnode).add(node_keys(rnode)).insert(
                middle_key,
            )) by {
                assert(seq_keys(c0.children@, 0) == seq_keys(lnode.children@, 0).add(
                    seq_keys(rnode.children@, 0),
                ));
                assert(seq![middle_key] =~= Seq::<i64>::empty().push(middle_key));
                Seq::<i64>::empty().to_multiset_ensures();
                assert(seq![middle_key].to_multiset() == Multiset::<i64>::empty()
                    .insert(middle_key));
                assert(c0.keys@.to_multiset() =~= lnode.keys@.to_multiset().add(
                    rnode.keys@.to_multiset(),
                ).insert(middle_key));
                assert(node_keys(c0) =~= node_keys(lnode).add(node_keys(rnode))
                    .insert(middle_key));
            }
            // the parent's children: the halves replace the old child
            assert(parent.children@ =~= pch0.update(ci, lnode).insert(ci + 1, rnode));
            assert(parent.keys@ =~= pkeys0.insert(ci, middle_key));
            lemma_insert_to_multiset(pkeys0, ci, middle_key);
            let upd = pch0.update(ci, lnode);
            lemma_seq_keys_update(pch0, 0, ci, lnode);
            // inserting the right half adds exactly its keys
            assert(parent.children@ =~= upd.subrange(0, ci + 1) + seq![rnode]
                + upd.subrange(ci + 1, upd.len() as int));
            lemma_seq_keys_prefix(
                parent.children@,
                0,
                ci + 1,
            );
            lemma_seq_keys_suffix(parent.children@, ci + 1);
            lemma_seq_keys_prefix(upd, 0, ci + 1);
            lemma_seq_keys_suffix(upd, ci + 1);
            assert(parent.children@.subrange(0, ci + 1) =~= upd.subrange(0, ci + 1));
            assert(parent.children@.subrange(
                ci + 1,
                parent.children@.len() as int,
            ) =~= seq![rnode] + upd.subrange(ci + 1, upd.len() as int));
            lemma_seq_keys_unfold(
                parent.children@.subrange(ci + 1, parent.children@.len() as int),
                0,
            );
            lemma_seq_keys_congruent(
                parent.children@.subrange(ci + 1, parent.children@.len() as int),
                upd.subrange(ci + 1, upd.len() as int),
                1,
                0,
            );
            assert(seq_keys(parent.children@, 0) =~= seq_keys(upd, 0).add(node_keys(
                rnode,
            )));
            assert forall|k: i64|
                node_keys(*parent).count(k) == node_keys(*old(parent)).count(
                k,
            ) by {
                assert(c0 == pch0[ci]);
                assert(seq_keys(upd, 0).add(node_keys(pch0[ci])).count(k)
                    == seq_keys(pch0, 0).add(node_keys(lnode)).count(k));
                assert(node_keys(c0).count(k) == node_keys(lnode).add(node_keys(
                    rnode,
                )).insert(middle_key).count(k));
                assert(parent.keys@.to_multiset().count(k) == pkeys0.to_multiset()
                    .insert(middle_key).count(k));
                assert(seq_keys(parent.children@, 0).count(k) == seq_keys(upd, 0)
                    .add(node_keys(rnode)).count(k));
            }
            assert(node_keys(*parent) =~= node_keys(*old(parent)));
            // arity of the parent and all of its children
            assert(seq_shape_wf(pch0, 0));
            assert forall|j: int|
                0 <= j < parent.children@.len() implies shape_wf(
                #[trigger] parent.children@[j],
            ) by {
                if j < ci {
                    assert(parent.children@[j] == pch0[j]);
                    lemma_seq_shape_index(pch0, 0, j);
                } else if j == ci {
                } else if j == ci + 1 {
                } else {
                    assert(parent.children@[j] == pch0[j - 1]);
                    lemma_seq_shape_index(pch0, 0, j - 1);
                }
            }
            lemma_seq_shape_from_forall(parent.children@, 0);
            assert(shape_wf(*parent));
            // heights: the halves stay within the old child's height, so
            // every child of the new parent sits below the old parent
            assert forall|j: int|
                0 <= j < lnode.children@.len() implies node_height(
                #[trigger] lnode.children@[j],
            ) <= seq_height(c0.children@, 0) by {
                assert(lnode.children@[j] == c0.children@[j]);
                lemma_seq_height_index(c0.children@, 0, j);
            }
            lemma_seq_height_bound(lnode.children@, 0, seq_height(c0.children@, 0));
            assert(node_height(lnode) <= node_height(c0));
            assert forall|j: int|
                0 <= j < rnode.children@.len() implies node_height(
                #[trigger] rnode.children@[j],
            ) <= seq_height(c0.children@, 0) by {
                assert(rnode.children@[j] == c0.children@[m + 1 + j]);
                lemma_seq_height_index(c0.children@, 0, m + 1 + j);
            }
            lemma_seq_height_bound(rnode.children@, 0, seq_height(c0.children@, 0));
            assert(node_height(rnode) <= node_height(c0));
            assert(c0 == pch0[ci]);
            lemma_seq_height_index(pch0, 0, ci);
            assert(node_height(c0) <= seq_height(pch0, 0));
            assert forall|j: int|
                0 <= j < parent.children@.len() implies node_height(
                #[trigger] parent.children@[j],
            ) < node_height(*old(parent)) by {
                if j < ci {
                    assert(parent.children@[j] == pch0[j]);
                    lemma_seq_height_index(pch0, 0, j);
                } else if j == ci {
                } else if j == ci + 1 {
                } else {
                    assert(parent.children@[j] == pch0[j - 1]);
                    lemma_seq_height_index(pch0, 0, j - 1);
                }
            }
            lemma_seq_height_bound(parent.children@, 0, seq_height(pch0, 0));
            assert(node_height(*parent) <= node_height(*old(parent)));
            // key capacity: the halves hold fewer keys than the old child,
            // the parent gains exactly one key
            assert(node_capped(c0, self.max_keys as int)) by {
                lemma_seq_capped_index(pch0, 0, ci, self.max_keys as int);
            }
            assert forall|j: int|
                0 <= j < lnode.children@.len() implies node_capped(
                #[trigger] lnode.children@[j],
                self.max_keys as int,
            ) by {
                assert(lnode.children@[j] == c0.children@[j]);
                lemma_seq_capped_index(c0.children@, 0, j, self.max_keys as int);
            }
            lemma_seq_capped_from_forall(lnode.children@, 0, self.max_keys as int);
            assert forall|j: int|
                0 <= j < rnode.children@.len() implies node_capped(
                #[trigger] rnode.children@[j],
                self.max_keys as int,
            ) by {
                assert(rnode.children@[j] == c0.children@[m + 1 + j]);
                lemma_seq_capped_index(
                    c0.children@,
                    0,
                    m + 1 + j,
                    self.max_keys as int,
                );
            }
            lemma_seq_capped_from_forall(rnode.children@, 0, self.max_keys as int);
            assert(node_capped(lnode, self.max_keys as int));
            assert(node_capped(rnode, self.max_keys as int));
            assert forall|j: int|
                0 <= j < parent.children@.len() implies node_capped(
                #[trigger] parent.children@[j],
                self.max_keys as int,
            ) by {
                if j < ci {
                    assert(parent.children@[j] == pch0[j]);
                    lemma_seq_capped_index(pch0, 0, j, self.max_keys as int);
                } else if j == ci {
                } else if j == ci + 1 {
                } else {
                    assert(parent.children@[j] == pch0[j - 1]);
                    lemma_seq_capped_index(pch0, 0, j - 1, self.max_keys as int);
                }
            }
            lemma_seq_capped_from_forall(parent.children@, 0, self.max_keys as int);
            assert(node_capped(*parent, self.max_keys as int));
            if node_ordered(*old(parent)) {
                lemma_split_preserves_order(
                    *old(parent),
                    *parent,
                    ci,
                    m,
                    lnode,
                    rnode,
                );
            }
        }
    }
}

impl BTreeProps {
    /// Inserts `key` below a non-full node, splitting any full child on
    /// the way down so the descent never meets a full node.
    #[verifier::rlimit(100)]
    #[verifier::spinoff_prover]
    fn insert_non_full(&self, node: &mut Node, key: i64)
        requires
            props_wf(*self),
            shape_wf(*old(node)),
            node_ordered(*old(node)),
            node_capped(*old(node), self.max_keys as int),
            old(node).keys@.len() < self.max_keys || (old(node).children@.len() > 0
                && forall|j: int|
                0 <= j < old(node).children@.len()
                    ==> #[trigger] old(node).children@[j].keys@.len() < self.max_keys),
        ensures
            shape_wf(*final(node)),
            node_ordered(*final(node)),
            node_capped(*final(node), self.max_keys as int),
            node_keys(*final(node)) == node_keys(*old(node)).insert(key),
        decreases node_height(*old(node)),
    {
        broadcast use vstd::multiset::group_multiset_axioms;

        let mut index: usize = node.keys.len();
        while index >= 1 && node.keys[index - 1] > key
            invariant
                index <= node.keys@.len(),
                *node == *old(node),
                forall|q: int|
                    index <= q < node.keys@.len() ==> #[trigger] node.keys@[q] > key,
            decreases index,
        {
            index = index - 1;
        }
        proof {
            assert(index == 0 || old(node).keys@[index as int - 1] <= key);
        }
        if node.is_leaf() {
            // a leaf: the key goes straight into this node; a full leaf is
            // never descended into, so there is room
            proof {
                assert(node.keys@.len() < self.max_keys);
            }
            let ghost keys0 = node.keys@;
            node.keys.insert(index, key);
            proof {
                assert(node_capped(*node, self.max_keys as int));
                lemma_insert_to_multiset(keys0, index as int, key);
                assert(node_keys(*node) =~= node_keys(*old(node)).insert(key));
                assert(node.keys@ =~= keys0.subrange(0, index as int) + seq![key]
                    + keys0.subrange(index as int, keys0.len() as int));
                assert(sorted(node.keys@)) by {
                    assert forall|x: int, y: int|
                        0 <= x <= y < node.keys@.len() implies #[trigger] node.keys@[x]
                        <= #[trigger] node.keys@[y] by {
                        if x < index && y > index {
                            assert(keys0[x] <= keys0[index as int - 1] || index
                                == 0);
                        }
                    }
                }
                assert(node_ordered(*node));
            }
        } else {
            let mut ci = index;
            proof {
                assert(node.children@.len() == node.keys@.len() + 1);
            }
            if self.is_maxed_out(&node.children[ci]) {
                proof {
                    assert(node.keys@.len() < self.max_keys);
                }
                self.split_child(node, ci);
                let klen = node.keys.len();
                proof {
                    assert(ci < klen);
                }
                if node.keys[ci] < key {
                    ci = ci + 1;
                }
            }
            let ghost mid = *node;
            proof {
                assert(node_keys(mid) == node_keys(*old(node)));
                assert(shape_wf(mid));
                assert(node_ordered(mid));
                assert(node_capped(mid, self.max_keys as int));
                assert(mid.children@[ci as int].keys@.len() < self.max_keys) by {
                    if mid == *old(node) {
                        lemma_seq_capped_index(
                            mid.children@,
                            0,
                            ci as int,
                            self.max_keys as int,
                        );
                    }
                }
                assert(ci == 0 || mid.keys@[ci as int - 1] <= key);
                assert(ci == mid.keys@.len() || key <= mid.keys@[ci as int]) by {
                    if mid != *old(node) && ci < mid.keys@.len() {
                        if ci > index {
                            assert(mid.keys@[ci as int] == old(node).keys@[ci as int
                                - 1]);
                        }
                    }
                }
                assert(ci < mid.children@.len());
                lemma_seq_ordered_index(mid.children@, 0, ci as int);
                assert forall|j: int|
                    0 <= j < mid.children@.len() implies node_height(
                    #[trigger] mid.children@[j],
                ) < node_height(*old(node)) by {
                    if mid == *old(node) {
                        lemma_seq_height_index(mid.children@, 0, j);
                    }
                }
                lemma_seq_shape_index(mid.children@, 0, ci as int);
                lemma_seq_capped_index(mid.children@, 0, ci as int, self.max_keys as int);
            }
            let mut child = node.children.remove(ci);
            self.insert_non_full(&mut child, key);
            let ghost childf = child;
            node.children.insert(ci, child);
            proof {
                assert(node.children@ =~= mid.children@.update(ci as int, childf));
                lemma_seq_keys_update(mid.children@, 0, ci as int, childf);
                lemma_seq_shape_update(mid.children@, 0, ci as int, childf);
                lemma_seq_shape_congruent(
                    mid.children@.update(ci as int, childf),
                    node.children@,
                    0,
                    0,
                );
                assert forall|k: i64|
                    node_keys(*node).count(k) == node_keys(*old(node)).insert(
                    key,
                ).count(k) by {
                    assert(seq_keys(node.children@, 0).add(node_keys(
                        mid.children@[ci as int],
                    )).count(k) == seq_keys(mid.children@, 0).add(node_keys(childf))
                        .count(k));
                    assert(node_keys(childf).count(k) == node_keys(
                        mid.children@[ci as int],
                    ).insert(key).count(k));
                }
                assert(node_keys(*node) =~= node_keys(*old(node)).insert(key));
                assert(shape_wf(*node));
                assert forall|j: int|
                    0 <= j < node.children@.len() implies node_capped(
                    #[trigger] node.children@[j],
                    self.max_keys as int,
                ) by {
                    if j != ci {
                        assert(node.children@[j] == mid.children@[j]);
                        lemma_seq_capped_index(mid.children@, 0, j, self.max_keys as int);
                    }
                }
                lemma_seq_capped_from_forall(node.children@, 0, self.max_keys as int);
                assert(node_capped(*node, self.max_keys as int));
                // the child gained only `key`, which lies between the
                // neighbouring keys of this node
                lemma_child_insert_preserves_order(mid, *node, ci as int, childf, key);
            }
        }
    }
}

/// The B-tree itself: a root node and the branching parameters; the view
/// is the multiset of stored keys.
#[derive(Debug)]
pub struct BTree {
    root: Node,
    props: BTreeProps,
}

impl View for BTree {
    type V = Multiset<i64>;

    closed spec fn view(&self) -> Multiset<i64> {
        node_keys(self.root)
    }
}

impl BTree {
    /// The branching parameters fit the order; every node holds at most
    /// `2 t - 1` ascending keys and, unless it is a leaf, one more child
    /// than keys, with the children's key ranges separated by its keys.
    pub closed spec fn well_formed(self) -> bool {
        &&& props_wf(self.props)
        &&& shape_wf(self.root)
        &&& node_ordered(self.root)
        &&& node_capped(self.root, self.props.max_keys as int)
    }

    /// Returns an empty tree of minimum degree `t`: nodes hold at most
    /// `2 t - 1` keys.
    pub fn new(t: usize) -> (b: Self)
        requires
            1 <= t,
            t <= usize::MAX / 2,
        ensures
            b.well_formed(),
            b@ == Multiset::<i64>::empty(),
    {
        broadcast use vstd::multiset::group_multiset_axioms;

        let degree = 2 * t;
        let props = BTreeProps::new(degree);
        let b = BTree { root: Node::new(degree, None, None), props };
        proof {
            b.root.keys@.to_multiset_ensures();
            assert(b@ =~= Multiset::<i64>::empty());
        }
        b
    }

    /// Adds `key` to the tree, splitting the root first when it is full;
    /// a key equal to a stored one is stored once more.
    pub fn insert(&mut self, key: i64)
        requires
            old(self).well_formed(),
        ensures
            final(self).well_formed(),
            final(self)@ == old(self)@.insert(key),
    {
        broadcast use vstd::multiset::group_multiset_axioms;

        if self.props.is_maxed_out(&self.root) {
            let ghost r0 = self.root;
            let mut new_root = Node::new(self.props.degree, None, None);
            core::mem::swap(&mut new_root, &mut self.root);
            self.root.children.insert(0, new_root);
            proof {
                self.root.keys@.to_multiset_ensures();
                assert(self.root.children@ =~= seq![r0]);
                lemma_seq_keys_unfold(self.root.children@, 0);
                assert(node_keys(self.root) =~= node_keys(r0));
                assert(seq_shape_wf(self.root.children@, 1));
                assert(shape_wf(self.root));
                assert(seq_ordered(self.root.children@, 1));
                assert(node_ordered(self.root));
                assert(node_capped(r0, self.props.max_keys as int));
                assert(seq_capped(self.root.children@, 1, self.props.max_keys as int));
                assert(node_capped(self.root, self.props.max_keys as int));
            }
            self.props.split_child(&mut self.root, 0);
            proof {
                // the root now holds one key; when even that fills it (the
                // smallest order), its two fresh halves are not full
                if self.root.keys@.len() >= self.props.max_keys {
                    assert(self.root.keys@.len() == 1);
                    assert(self.props.max_keys == 1);
                    assert(self.props.min_keys_index == 0);
                    assert(self.root.children@.len() == 2);
                    assert(self.root.children@[0].keys@.len() == 0);
                    assert(self.root.children@[1].keys@.len() == 0);
                    assert forall|j: int|
                        0 <= j < self.root.children@.len()
                            implies #[trigger] self.root.children@[j].keys@.len()
                        < self.props.max_keys by {
                        assert(j == 0 || j == 1);
                    }
                }
            }
        }
        self.props.insert_non_full(&mut self.root, key);
    }

    /// The stored keys in ascending order: children interleaved with keys
    /// in symmetric order, giving exactly the tree's key multiset.
    pub fn traverse(&self) -> (out: Vec<i64>)
        requires
            self.well_formed(),
        ensures
            out@.to_multiset() == self@,
            forall|x: int, y: int| 0 <= x <= y < out@.len() ==> out@[x] <= out@[y],
    {
        broadcast use vstd::multiset::group_multiset_axioms;

        let mut out: Vec<i64> = Vec::new();
        proof {
            out@.to_multiset_ensures();
            assert(out@.to_multiset() =~= Multiset::<i64>::empty());
        }
        collect_keys(&self.root, &mut out);
        proof {
            assert(out@.to_multiset() =~= self@);
        }
        out
    }

    /// Looks `key` up: answers exactly whether it is stored.
    pub fn search(&self, key: i64) -> (found: bool)
        requires
            self.well_formed(),
        ensures
            found == (self@.count(key) > 0),
    {
        broadcast use vstd::multiset::group_multiset_axioms;

        let mut current: &Node = &self.root;
        loop
            invariant
                shape_wf(*current),
                node_ordered(*current),
                node_keys(*current).count(key) == node_keys(self.root).count(key),
            decreases node_height(*current),
        {
            let mut index: usize = current.keys.len();
            while index >= 1 && current.keys[index - 1] > key
                invariant
                    index <= current.keys@.len(),
                    forall|q: int|
                        index <= q < current.keys@.len() ==> #[trigger] current.keys@[q]
                            > key,
                decreases index,
            {
                index = index - 1;
            }
            if index >= 1 && current.keys[index - 1] == key {
                proof {
                    current.keys@.to_multiset_ensures();
                    assert(current.keys@.contains(key));
                }
                return true;
            } else if current.is_leaf() {
                proof {
                    current.keys@.to_multiset_ensures();
                    assert(current.keys@.to_multiset().count(key) == 0) by {
                        if current.keys@.contains(key) {
                            let q = choose|q: int|
                                0 <= q < current.keys@.len() && current.keys@[q]
                                    == key;
                            if q < index {
                                assert(current.keys@[q] <= current.keys@[
                                    index as int - 1
                                ]);
                            }
                        }
                    }
                    assert(node_keys(*current).count(key) == 0);
                }
                return false;
            } else {
                proof {
                    assert(current.children@.len() == current.keys@.len() + 1);
                    current.keys@.to_multiset_ensures();
                    assert(current.keys@.to_multiset().count(key) == 0) by {
                        if current.keys@.contains(key) {
                            let q = choose|q: int|
                                0 <= q < current.keys@.len() && current.keys@[q]
                                    == key;
                            if q < index {
                                assert(current.keys@[q] <= current.keys@[
                                    index as int - 1
                                ]);
                            }
                        }
                    }
                    assert forall|w: int|
                        0 <= w < current.children@.len() && w != index implies #[trigger] node_keys(
                        current.children@[w],
                    ).count(key) == 0 by {
                        if node_keys(current.children@[w]).count(key) > 0 {
                            if w < index {
                                assert(key <= current.keys@[w]);
                                assert(current.keys@[w] <= current.keys@[
                                    index as int - 1
                                ]);
                            } else {
                                assert(current.keys@[w - 1] <= key);
                                assert(current.keys@[index as int] <= current.keys@[
                                    w - 1
                                ]);
                            }
                        }
                    }
                    lemma_seq_count_single(current.children@, 0, index as int, key);
                    assert(node_keys(current.children@[index as int]).count(key)
                        == node_keys(*current).count(key));
                    lemma_seq_height_index(current.children@, 0, index as int);
                    lemma_seq_shape_index(current.children@, 0, index as int);
                    lemma_seq_ordered_index(current.children@, 0, index as int);
                }
                current = &current.children[index];
            }
        }
    }
}

/// The count of `k` among the subtrees `s[i..]` is the count in `s[j]`
/// alone when every other subtree in that range is free of `k`.
proof fn lemma_seq_count_single(s: Seq<Node>, i: int, j: int, k: i64)
    requires
        0 <= i <= s.len(),
        forall|m: int|
            i <= m < s.len() && m != j ==> #[trigger] node_keys(s[m]).count(k) == 0,
    ensures
        seq_keys(s, i).count(k) == if i <= j < s.len() {
            node_keys(s[j]).count(k)
        } else {
            0
        },
    decreases s.len() - i,
{
    broadcast use vstd::multiset::group_multiset_axioms;

    if i < s.len() {
        lemma_seq_count_single(s, i + 1, j, k);
        assert(seq_keys(s, i) == node_keys(s[i]).add(seq_keys(s, i + 1)));
        if i == j {
            assert(seq_keys(s, i + 1).count(k) == 0);
        } else {
            assert(node_keys(s[i]).count(k) == 0);
        }
    } else {
        assert(seq_keys(s, i) == Multiset::<i64>::empty());
    }
}

/// Appends every key of the subtree to `out`, children interleaved with
/// keys in symmetric order.
fn collect_keys(node: &Node, out: &mut Vec<i64>)
    requires
        shape_wf(*node),
        node_ordered(*node),
        sorted(old(out)@),
        forall|a: int, k: i64|
            #![trigger old(out)@[a], node_keys(*node).count(k)]
            0 <= a < old(out)@.len() && node_keys(*node).count(k) > 0
                ==> old(out)@[a] <= k,
    ensures
        final(out)@.to_multiset() == old(out)@.to_multiset().add(node_keys(*node)),
        sorted(final(out)@),
    decreases *node,
{
    broadcast use vstd::multiset::group_multiset_axioms;

    let ghost base = out@.to_multiset();
    let n = node.keys.len();
    proof {
        assert(node.keys@.subrange(0, n as int) =~= node.keys@);
    }
    proof {
        assert forall|a: int, k: i64|
            #![trigger out@[a], seq_keys(node.children@, 0).count(k)]
            #![trigger out@[a], node.keys@.subrange(0, n as int).to_multiset().count(k)]
            0 <= a < out@.len() && (seq_keys(node.children@, 0).count(k) > 0
                || node.keys@.subrange(0, n as int).to_multiset().count(k) > 0)
            implies out@[a] <= k by {
            assert(node_keys(*node).count(k) > 0);
        }
    }
    let mut i: usize = 0;
    while i < n
        invariant
            i <= n,
            n == node.keys@.len(),
            shape_wf(*node),
            node_ordered(*node),
            sorted(out@),
            out@.to_multiset().add(seq_keys(node.children@, i as int)).add(
                node.keys@.subrange(i as int, n as int).to_multiset(),
            ) == base.add(node_keys(*node)),
            forall|a: int, k: i64|
                #![trigger out@[a], seq_keys(node.children@, i as int).count(k)]
                #![trigger out@[a], node.keys@.subrange(i as int, n as int).to_multiset().count(k)]
                0 <= a < out@.len() && (seq_keys(node.children@, i as int).count(k)
                    > 0 || node.keys@.subrange(i as int, n as int).to_multiset()
                    .count(k) > 0) ==> out@[a] <= k,
        decreases n - i,
    {
        let ghost head = out@;
        proof {
            node.keys@.subrange(i as int, n as int).to_multiset_ensures();
            assert(node.keys@.subrange(i as int, n as int)[0] == node.keys@[i as int]);
            assert(node.keys@.subrange(i as int, n as int).contains(
                node.keys@[i as int],
            ));
        }
        if node.children.len() > 0 {
            proof {
                lemma_seq_shape_index(node.children@, 0, i as int);
                lemma_seq_ordered_index(node.children@, 0, i as int);
                lemma_seq_keys_unfold(node.children@, i as int);
                assert forall|a: int, k: i64|
                    #![trigger out@[a], node_keys(node.children@[i as int]).count(k)]
                    0 <= a < out@.len() && node_keys(node.children@[i as int])
                        .count(k) > 0 implies out@[a] <= k by {
                    assert(seq_keys(node.children@, i as int).count(k) > 0);
                }
            }
            collect_keys(&node.children[i], out);
            proof {
                // every entry so far is at most every key still to come
                head.to_multiset_ensures();
                out@.to_multiset_ensures();
                assert forall|a: int, k: i64|
                    #![trigger out@[a], seq_keys(node.children@, i as int + 1).count(k)]
                    #![trigger out@[a], node.keys@.subrange(i as int, n as int).to_multiset().count(k)]
                    0 <= a < out@.len() && (seq_keys(node.children@, i as int + 1)
                        .count(k) > 0 || node.keys@.subrange(i as int, n as int)
                        .to_multiset().count(k) > 0) implies out@[a] <= k by {
                    let v = out@[a];
                    assert(out@.contains(v));
                    assert(out@.to_multiset().count(v) > 0);
                    // the key to come is at least this node's `i`-th key
                    if seq_keys(node.children@, i as int + 1).count(k) > 0 {
                        lemma_seq_keys_member(node.children@, i as int + 1, k);
                        let j = choose|j: int|
                            i + 1 <= j < node.children@.len() && node_keys(
                                #[trigger] node.children@[j],
                            ).count(k) > 0;
                        assert(node.keys@[j - 1] <= k);
                        assert(node.keys@[i as int] <= node.keys@[j - 1]);
                    } else {
                        let idx = choose|idx: int|
                            0 <= idx < n - i && #[trigger] node.keys@.subrange(
                                i as int,
                                n as int,
                            )[idx] == k;
                        assert(node.keys@[i + idx] == k);
                        assert(node.keys@[i as int] <= node.keys@[i + idx]);
                    }
                    if head.to_multiset().count(v) > 0 {
                        assert(head.contains(v));
                        let b = choose|b: int| 0 <= b < head.len() && head[b] == v;
                        assert(seq_keys(node.children@, i as int).count(k) > 0
                            || node.keys@.subrange(i as int, n as int).to_multiset()
                            .count(k) > 0);
                        assert(head[b] <= k);
                    } else {
                        assert(node_keys(node.children@[i as int]).count(v) > 0);
                        assert(v <= node.keys@[i as int]);
                    }
                }
            }
        }
        let ghost mid = out@.to_multiset();
        let ghost pre_push = out@;
        proof {
            out@.to_multiset_ensures();
            // the `i`-th key follows everything emitted so far
            assert forall|a: int| 0 <= a < out@.len() implies out@[a]
                <= node.keys@[i as int] by {
                if node.children@.len() == 0 {
                    assert(node.keys@.subrange(i as int, n as int).to_multiset()
                        .count(node.keys@[i as int]) > 0);
                } else {
                    assert(node.keys@.subrange(i as int, n as int).to_multiset()
                        .count(node.keys@[i as int]) > 0);
                }
            }
        }
        out.push(node.keys[i]);
        proof {
            assert(out@.to_multiset() == mid.insert(node.keys@[i as int]));
            assert(sorted(out@)) by {
                assert forall|x: int, y: int|
                    0 <= x <= y < out@.len() implies #[trigger] out@[x]
                    <= #[trigger] out@[y] by {
                    if y < out@.len() - 1 {
                        assert(pre_push[x] <= pre_push[y]);
                    } else if x < y {
                        assert(pre_push[x] <= node.keys@[i as int]);
                    }
                }
            }
            assert(node.keys@.subrange(i as int, n as int) =~= seq![
                node.keys@[i as int],
            ] + node.keys@.subrange(i as int + 1, n as int));
            lemma_multiset_commutative(
                seq![node.keys@[i as int]],
                node.keys@.subrange(i as int + 1, n as int),
            );
            assert(seq![node.keys@[i as int]] =~= Seq::<i64>::empty().push(
                node.keys@[i as int],
            ));
            Seq::<i64>::empty().to_multiset_ensures();
            assert(out@.to_multiset().add(seq_keys(node.children@, i as int + 1))
                .add(node.keys@.subrange(i as int + 1, n as int).to_multiset())
                =~= base.add(node_keys(*node)));
            // and it stays below every key still to come
            assert forall|a: int, k: i64|
                #![trigger out@[a], seq_keys(node.children@, i as int + 1).count(k)]
                #![trigger out@[a], node.keys@.subrange(i as int + 1, n as int).to_multiset().count(k)]
                0 <= a < out@.len() && (seq_keys(node.children@, i as int + 1)
                    .count(k) > 0 || node.keys@.subrange(i as int + 1, n as int)
                    .to_multiset().count(k) > 0) implies out@[a] <= k by {
                assert(node.keys@[i as int] <= k) by {
                    if seq_keys(node.children@, i as int + 1).count(k) > 0 {
                        lemma_seq_keys_member(node.children@, i as int + 1, k);
                        let j = choose|j: int|
                            i + 1 <= j < node.children@.len() && node_keys(
                                #[trigger] node.children@[j],
                            ).count(k) > 0;
                        assert(node.keys@[j - 1] <= k);
                        assert(node.keys@[i as int] <= node.keys@[j - 1]);
                    } else {
                        node.keys@.subrange(i as int + 1, n as int)
                            .to_multiset_ensures();
                        let idx = choose|idx: int|
                            0 <= idx < n - i - 1 && #[trigger] node.keys@.subrange(
                                i as int + 1,
                                n as int,
                            )[idx] == k;
                        assert(node.keys@[i + 1 + idx] == k);
                        assert(node.keys@[i as int] <= node.keys@[i + 1 + idx]);
                    }
                }
                if a < out@.len() - 1 {
                    assert(node.keys@.subrange(i as int, n as int).to_multiset()
                        .count(k) > 0 || seq_keys(node.children@, i as int).count(
                        k,
                    ) > 0) by {
                        node.keys@.subrange(i as int, n as int).to_multiset_ensures();
                        node.keys@.subrange(i as int + 1, n as int)
                            .to_multiset_ensures();
                    }
                    assert(pre_push[a] <= k);
                }
            }
        }
        i = i + 1;
    }
    if node.children.len() > 0 {
        proof {
            lemma_seq_shape_index(node.children@, 0, n as int);
            lemma_seq_ordered_index(node.children@, 0, n as int);
            lemma_seq_keys_unfold(node.children@, n as int);
            assert(node.keys@.subrange(n as int, n as int) =~= Seq::<i64>::empty());
            Seq::<i64>::empty().to_multiset_ensures();
            assert forall|a: int, k: i64|
                #![trigger out@[a], node_keys(node.children@[n as int]).count(k)]
                0 <= a < out@.len() && node_keys(node.children@[n as int]).count(
                    k,
                ) > 0 implies out@[a] <= k by {
                assert(seq_keys(node.children@, n as int).count(k) > 0);
            }
        }
        collect_keys(&node.children[n], out);
        proof {
            assert(seq_keys(node.children@, n as int + 1) == Multiset::<i64>::empty());
            assert(final(out)@.to_multiset() =~= base.add(node_keys(*node)));
        }
    } else {
        proof {
            assert(seq_keys(node.children@, i as int) == Multiset::<i64>::empty());
            assert(node.keys@.subrange(n as int, n as int) =~= Seq::<i64>::empty());
            Seq::<i64>::empty().to_multiset_ensures();
            assert(final(out)@.to_multiset() =~= base.add(node_keys(*node)));
        }
    }
}

} // verus!

