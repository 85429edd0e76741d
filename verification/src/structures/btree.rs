//! An in-memory B-tree keyed by signed integers (scaled ratings), valued
//! by record identifiers. Insertion keeps each node's keys sorted and
//! splits full nodes; the tree answers exact lookups and "the N greatest
//! values in descending key order".

use vstd::prelude::*;
use vstd::multiset::Multiset;

verus! {

/// Largest number of keys a node may hold; a full node is split.
pub const MAX_KEYS: usize = 3;

/// Index of the key promoted to the parent when a full node is split.
pub const MID_KEYS: usize = 1;

#[derive(Debug)]
pub struct Node<V> {
    keys: Vec<i64>,
    values: Vec<V>,
    children: Vec<Node<V>>,
}

#[derive(Debug)]
pub struct BTree<V> {
    root: Node<V>,
    props: BTreeProps,
}

#[derive(Debug)]
struct BTreeProps;

/// Number of keys in a node.
pub closed spec fn key_count<V>(node: Node<V>) -> nat {
    node.keys@.len()
}

/// Number of children of a node.
pub closed spec fn child_count<V>(node: Node<V>) -> nat {
    node.children@.len()
}

/// In-order entry sequence of a node: children interleaved with the
/// node's own (key, value) pairs, ascending when the tree is well
/// formed.
pub closed spec fn node_entries<V>(node: Node<V>) -> Seq<(i64, V)>
    decreases node, key_count(node) + 1nat, 2nat,
{
    prefix_entries(node, node.keys@.len() as int) + childe(node, node.keys@.len() as int)
}

/// Entries before child slot `i`: children `0..i` interleaved with keys
/// `0..i`.
pub closed spec fn prefix_entries<V>(node: Node<V>, i: int) -> Seq<(i64, V)>
    decreases node, i + 1nat, 1nat,
{
    if i <= 0 {
        Seq::empty()
    } else {
        prefix_entries(node, i - 1) + childe(node, i - 1) + seq![
            (node.keys@[i - 1], node.values@[i - 1]),
        ]
    }
}

/// Entries of child slot `j`, empty at a leaf or out of range.
pub closed spec fn childe<V>(node: Node<V>, j: int) -> Seq<(i64, V)>
    decreases node, j + 1nat, 0nat,
{
    if 0 <= j < node.children@.len() {
        node_entries(node.children@[j])
    } else {
        Seq::empty()
    }
}

/// Entries after child slot `i`: key `i`, then child `i + 1`, and so on.
pub closed spec fn after_entries<V>(node: Node<V>, i: int) -> Seq<(i64, V)>
    decreases node, key_count(node) - i + 1nat, 1nat,
{
    if i < 0 || i >= node.keys@.len() {
        Seq::empty()
    } else {
        seq![(node.keys@[i], node.values@[i])] + childe(node, i + 1) + after_entries(node, i + 1)
    }
}

/// Every key in the entry sequence is at most `x`.
pub open spec fn all_le<V>(s: Seq<(i64, V)>, x: i64) -> bool {
    forall|j: int| 0 <= j < s.len() ==> (#[trigger] s[j]).0 <= x
}

/// Every key in the entry sequence is at least `x`.
pub open spec fn all_ge<V>(s: Seq<(i64, V)>, x: i64) -> bool {
    forall|j: int| 0 <= j < s.len() ==> (#[trigger] s[j]).0 >= x
}

/// Keys ascend along the entry sequence.
pub open spec fn sorted_entries<V>(s: Seq<(i64, V)>) -> bool {
    forall|i: int, j: int| 0 <= i < j < s.len() ==> (#[trigger] s[i]).0 <= (#[trigger] s[j]).0
}

/// The B-tree shape and ordering invariant: parallel key/value arrays,
/// at most `MAX_KEYS` keys, one more child than keys unless a leaf,
/// keys sorted, children well formed, and every child's entries bounded
/// by the keys around its slot.
pub closed spec fn node_wf<V>(node: Node<V>) -> bool
    decreases node, key_count(node) + 1nat, 1nat,
{
    &&& node.values@.len() == node.keys@.len()
    &&& node.keys@.len() <= MAX_KEYS
    &&& (node.children@.len() == 0 || node.children@.len() == node.keys@.len() + 1)
    &&& (forall|i: int, j: int|
        0 <= i < j < node.keys@.len() ==> (#[trigger] node.keys@[i]) <= (#[trigger] node.keys@[j]))
    &&& (forall|i: int| 0 <= i < node.children@.len() ==> node_wf(#[trigger] node.children@[i]))
    &&& (forall|i: int|
        0 <= i < node.keys@.len() && i < node.children@.len() ==> all_le(
            #[trigger] childe(node, i),
            node.keys@[i],
        ))
    &&& (forall|i: int|
        1 <= i < node.children@.len() ==> all_ge(#[trigger] childe(node, i), node.keys@[i - 1]))
    &&& (forall|i: int|
        0 <= i < node.children@.len() ==> node_height(#[trigger] node.children@[i]) + 1
            == node_height(node))
}

/// Height of a node: zero at a leaf, one more than the tallest child
/// otherwise.
pub closed spec fn node_height<V>(node: Node<V>) -> nat
    decreases node, child_count(node) + 1nat, 1nat,
{
    if node.children@.len() == 0 {
        0
    } else {
        1 + max_child_height(node, node.children@.len() as int)
    }
}

pub closed spec fn max_child_height<V>(node: Node<V>, k: int) -> nat
    decreases node, k + 1nat, 0nat,
{
    if k <= 0 || k > node.children@.len() {
        0
    } else {
        let h = node_height(node.children@[k - 1]);
        let rest = max_child_height(node, k - 1);
        if h >= rest {
            h
        } else {
            rest
        }
    }
}

/// Whether some entry carries the key.
pub open spec fn has_key<V>(s: Seq<(i64, V)>, key: i64) -> bool {
    exists|j: int| 0 <= j < s.len() && (#[trigger] s[j]).0 == key
}

/// The defining equations of the entry and shape functions, packaged so
/// that executable code can invoke them for the node values it handles.
proof fn lemma_node_unfold<V>(node: Node<V>)
    ensures
        node_entries(node) == prefix_entries(node, node.keys@.len() as int) + childe(
            node,
            node.keys@.len() as int,
        ),
        forall|i: int| #[trigger] prefix_entries(node, i) == (if i <= 0 {
            Seq::<(i64, V)>::empty()
        } else {
            prefix_entries(node, i - 1) + childe(node, i - 1) + seq![
                (node.keys@[i - 1], node.values@[i - 1]),
            ]
        }),
        forall|j: int| #[trigger] childe(node, j) == (if 0 <= j < node.children@.len() {
            node_entries(node.children@[j])
        } else {
            Seq::<(i64, V)>::empty()
        }),
        forall|i: int| #[trigger] after_entries(node, i) == (if i < 0 || i >= node.keys@.len() {
            Seq::<(i64, V)>::empty()
        } else {
            seq![(node.keys@[i], node.values@[i])] + childe(node, i + 1) + after_entries(
                node,
                i + 1,
            )
        }),
        node_wf(node) <==> ({
            &&& node.values@.len() == node.keys@.len()
            &&& node.keys@.len() <= MAX_KEYS
            &&& (node.children@.len() == 0 || node.children@.len() == node.keys@.len() + 1)
            &&& (forall|i: int, j: int|
                0 <= i < j < node.keys@.len() ==> (#[trigger] node.keys@[i])
                    <= (#[trigger] node.keys@[j]))
            &&& (forall|i: int|
                0 <= i < node.children@.len() ==> node_wf(#[trigger] node.children@[i]))
            &&& (forall|i: int|
                0 <= i < node.keys@.len() && i < node.children@.len() ==> all_le(
                    #[trigger] childe(node, i),
                    node.keys@[i],
                ))
            &&& (forall|i: int|
                1 <= i < node.children@.len() ==> all_ge(
                    #[trigger] childe(node, i),
                    node.keys@[i - 1],
                ))
            &&& (forall|i: int|
                0 <= i < node.children@.len() ==> node_height(#[trigger] node.children@[i]) + 1
                    == node_height(node))
        }),
        node_height(node) == (if node.children@.len() == 0 {
            0nat
        } else {
            1nat + max_child_height(node, node.children@.len() as int)
        }),
        forall|k: int| #[trigger] max_child_height(node, k) == (if k <= 0 || k
            > node.children@.len() {
            0nat
        } else {
            let h = node_height(node.children@[k - 1]);
            let rest = max_child_height(node, k - 1);
            if h >= rest {
                h
            } else {
                rest
            }
        }),
{
}

/// The whole entry sequence splits at any child slot into the part
/// before it, the child itself, and the part after it.
proof fn lemma_entries_split<V>(node: Node<V>, i: int)
    requires
        0 <= i <= node.keys@.len(),
    ensures
        node_entries(node) == prefix_entries(node, i) + childe(node, i) + after_entries(node, i),
    decreases node.keys@.len() - i,
{
    if i == node.keys@.len() {
        assert(node_entries(node) =~= prefix_entries(node, i) + childe(node, i) + after_entries(
            node,
            i,
        ));
    } else {
        lemma_entries_split(node, i + 1);
        assert(prefix_entries(node, i + 1) == prefix_entries(node, i) + childe(node, i) + seq![
            (node.keys@[i], node.values@[i]),
        ]);
        assert(after_entries(node, i) == seq![(node.keys@[i], node.values@[i])] + childe(
            node,
            i + 1,
        ) + after_entries(node, i + 1));
        assert(node_entries(node) =~= prefix_entries(node, i) + childe(node, i) + after_entries(
            node,
            i,
        ));
    }
}

/// Two ascending runs concatenate into an ascending run when a bound
/// separates them.
proof fn lemma_sorted_concat<V>(a: Seq<(i64, V)>, b: Seq<(i64, V)>, x: i64)
    requires
        sorted_entries(a),
        sorted_entries(b),
        all_le(a, x),
        all_ge(b, x),
    ensures
        sorted_entries(a + b),
{
    assert forall|i: int, j: int| 0 <= i < j < (a + b).len() implies ((a + b)[i]).0 <= ((a
        + b)[j]).0 by {
        if i < a.len() && j >= a.len() {
            assert((a + b)[i] == a[i]);
            assert((a + b)[j] == b[j - a.len()]);
        } else if j < a.len() {
            assert((a + b)[i] == a[i] && (a + b)[j] == a[j]);
        } else {
            assert((a + b)[i] == b[i - a.len()] && (a + b)[j] == b[j - a.len()]);
        }
    }
}

/// Under the shape invariant: everything before child slot `i` is
/// bounded by the key left of that slot, the slot included, and the run
/// so far is ascending.
proof fn lemma_prefix_sorted<V>(node: Node<V>, i: int)
    requires
        node_wf(node),
        0 <= i <= node.keys@.len(),
    ensures
        sorted_entries(prefix_entries(node, i) + childe(node, i)),
        i < node.keys@.len() ==> all_le(prefix_entries(node, i) + childe(node, i), node.keys@[i]),
        i > 0 ==> all_le(prefix_entries(node, i), node.keys@[i - 1]),
    decreases node, i,
{
    if i == 0 {
        if node.children@.len() > 0 {
            lemma_node_sorted(node.children@[0]);
        }
        assert(prefix_entries(node, 0) + childe(node, 0) =~= childe(node, 0));
    } else {
        lemma_prefix_sorted(node, i - 1);
        if i < node.children@.len() {
            lemma_node_sorted(node.children@[i]);
        }
        let a = prefix_entries(node, i - 1) + childe(node, i - 1);
        let pair = seq![(node.keys@[i - 1], node.values@[i - 1])];
        let b = childe(node, i);
        assert(sorted_entries(pair + b)) by {
            assert forall|x: int, y: int| 0 <= x < y < (pair + b).len() implies ((pair
                + b)[x]).0 <= ((pair + b)[y]).0 by {
                assert((pair + b)[x] == if x == 0 {
                    pair[0]
                } else {
                    b[x - 1]
                });
                assert((pair + b)[y] == b[y - 1]);
                assert(all_ge(b, node.keys@[i - 1]));
            }
        }
        assert(all_le(a, node.keys@[i - 1]));
        assert(all_ge(pair + b, node.keys@[i - 1])) by {
            assert forall|j: int| 0 <= j < (pair + b).len() implies ((pair + b)[j]).0
                >= node.keys@[i - 1] by {
                if j > 0 {
                    assert((pair + b)[j] == b[j - 1]);
                    assert(all_ge(b, node.keys@[i - 1]));
                }
            }
        }
        lemma_sorted_concat(a, pair + b, node.keys@[i - 1]);
        assert(prefix_entries(node, i) + childe(node, i) =~= a + (pair + b));
        if i < node.keys@.len() {
            assert forall|j: int|
                0 <= j < (prefix_entries(node, i) + childe(node, i)).len() implies ((
            prefix_entries(node, i) + childe(node, i))[j]).0 <= node.keys@[i] by {
                let s = prefix_entries(node, i) + childe(node, i);
                assert(s =~= a + (pair + b));
                if j < a.len() {
                    assert(s[j] == a[j]);
                } else if j == a.len() {
                    assert(s[j] == pair[0]);
                } else {
                    assert(s[j] == b[j - a.len() - 1]);
                    assert(all_le(b, node.keys@[i]));
                }
            }
        }
        assert forall|j: int| 0 <= j < prefix_entries(node, i).len() implies ((prefix_entries(
            node,
            i,
        ))[j]).0 <= node.keys@[i - 1] by {
            let s = prefix_entries(node, i);
            assert(s == a + pair);
            if j < a.len() {
                assert(s[j] == a[j]);
            } else {
                assert(s[j] == pair[0]);
            }
        }
    }
}

/// Under the shape invariant the whole entry sequence ascends.
proof fn lemma_node_sorted<V>(node: Node<V>)
    requires
        node_wf(node),
    ensures
        sorted_entries(node_entries(node)),
    decreases node, node.keys@.len() + 1nat,
{
    lemma_prefix_sorted(node, node.keys@.len() as int);
}

/// Everything after child slot `i` is bounded below by the key at `i`.
proof fn lemma_after_bound<V>(node: Node<V>, i: int)
    requires
        node_wf(node),
        0 <= i < node.keys@.len(),
    ensures
        all_ge(after_entries(node, i), node.keys@[i]),
    decreases node.keys@.len() - i,
{
    if i + 1 < node.keys@.len() {
        lemma_after_bound(node, i + 1);
    }
    assert forall|j: int| 0 <= j < after_entries(node, i).len() implies ((after_entries(
        node,
        i,
    ))[j]).0 >= node.keys@[i] by {
        let pair = seq![(node.keys@[i], node.values@[i])];
        let b = childe(node, i + 1);
        let c = after_entries(node, i + 1);
        assert(after_entries(node, i) == pair + b + c);
        if j == 0 {
            assert((pair + b + c)[0] == pair[0]);
        } else if j < 1 + b.len() {
            assert((pair + b + c)[j] == b[j - 1]);
            if i + 1 < node.children@.len() {
                assert(all_ge(b, node.keys@[i]));
            }
        } else {
            assert((pair + b + c)[j] == c[j - 1 - b.len()]);
            if i + 1 < node.keys@.len() {
                assert(c[j - 1 - b.len()].0 >= node.keys@[i + 1]);
            }
        }
    }
}

/// Nodes that agree on their first `i` keys, values and child slots
/// have the same entries before slot `i`.
proof fn lemma_prefix_agree<V>(n1: Node<V>, n2: Node<V>, i: int)
    requires
        i <= n1.keys@.len(),
        i <= n1.values@.len(),
        i <= n2.keys@.len(),
        i <= n2.values@.len(),
        forall|j: int| 0 <= j < i ==> (#[trigger] n1.keys@[j]) == n2.keys@[j],
        forall|j: int| 0 <= j < i ==> (#[trigger] n1.values@[j]) == n2.values@[j],
        forall|j: int| 0 <= j < i ==> (#[trigger] childe(n1, j)) == childe(n2, j),
    ensures
        prefix_entries(n1, i) == prefix_entries(n2, i),
    decreases i,
{
    if i > 0 {
        lemma_prefix_agree(n1, n2, i - 1);
        assert(n1.keys@[i - 1] == n2.keys@[i - 1]);
        assert(n1.values@[i - 1] == n2.values@[i - 1]);
        assert(childe(n1, i - 1) == childe(n2, i - 1));
    }
}

/// Nodes that agree on the tail of their keys, values and child slots,
/// up to an index shift, have the same entries after those slots.
proof fn lemma_after_agree<V>(n1: Node<V>, n2: Node<V>, i1: int, i2: int)
    requires
        i1 >= 0,
        i2 >= 0,
        n1.keys@.len() - i1 == n2.keys@.len() - i2,
        n1.values@.len() == n1.keys@.len(),
        n2.values@.len() == n2.keys@.len(),
        forall|d: int|
            0 <= d < n1.keys@.len() - i1 ==> (#[trigger] n1.keys@[i1 + d]) == n2.keys@[i2 + d],
        forall|d: int|
            0 <= d < n1.keys@.len() - i1 ==> (#[trigger] n1.values@[i1 + d]) == n2.values@[i2 + d],
        forall|d: int|
            0 <= d < n1.keys@.len() - i1 ==> (#[trigger] childe(n1, i1 + d + 1)) == childe(
                n2,
                i2 + d + 1,
            ),
    ensures
        after_entries(n1, i1) == after_entries(n2, i2),
    decreases n1.keys@.len() - i1,
{
    if i1 < n1.keys@.len() {
        assert(n1.keys@[i1 + 0] == n2.keys@[i2 + 0]);
        assert(n1.values@[i1 + 0] == n2.values@[i2 + 0]);
        assert(childe(n1, i1 + 0 + 1) == childe(n2, i2 + 0 + 1));
        assert forall|d: int|
            0 <= d < n1.keys@.len() - (i1 + 1) implies (#[trigger] n1.keys@[i1 + 1 + d])
            == n2.keys@[i2 + 1 + d] by {
            assert(n1.keys@[i1 + (d + 1)] == n2.keys@[i2 + (d + 1)]);
        }
        assert forall|d: int|
            0 <= d < n1.keys@.len() - (i1 + 1) implies (#[trigger] n1.values@[i1 + 1 + d])
            == n2.values@[i2 + 1 + d] by {
            assert(n1.values@[i1 + (d + 1)] == n2.values@[i2 + (d + 1)]);
        }
        assert forall|d: int|
            0 <= d < n1.keys@.len() - (i1 + 1) implies (#[trigger] childe(n1, i1 + 1 + d + 1))
            == childe(n2, i2 + 1 + d + 1) by {
            assert(childe(n1, i1 + (d + 1) + 1) == childe(n2, i2 + (d + 1) + 1));
        }
        lemma_after_agree(n1, n2, i1 + 1, i2 + 1);
    }
}

/// A leaf's entries are exactly its own (key, value) pairs.
proof fn lemma_leaf_prefix<V>(node: Node<V>, i: int)
    requires
        node.children@.len() == 0,
        0 <= i <= node.keys@.len(),
        node.values@.len() == node.keys@.len(),
    ensures
        prefix_entries(node, i).len() == i,
        forall|j: int|
            0 <= j < i ==> (#[trigger] prefix_entries(node, i)[j]) == (
            node.keys@[j],
            node.values@[j],
            ),
    decreases i,
{
    if i > 0 {
        lemma_leaf_prefix(node, i - 1);
        assert(childe(node, i - 1) =~= Seq::<(i64, V)>::empty());
    }
}

/// A leaf's entry sequence is its zipped key and value arrays.
proof fn lemma_leaf_entries<V>(node: Node<V>)
    requires
        node.children@.len() == 0,
        node.values@.len() == node.keys@.len(),
    ensures
        node_entries(node).len() == node.keys@.len(),
        forall|j: int|
            0 <= j < node.keys@.len() ==> (#[trigger] node_entries(node)[j]) == (
            node.keys@[j],
            node.values@[j],
            ),
{
    lemma_leaf_prefix(node, node.keys@.len() as int);
    assert(childe(node, node.keys@.len() as int) =~= Seq::<(i64, V)>::empty());
    assert(node_entries(node) =~= prefix_entries(node, node.keys@.len() as int));
}

/// Every child is strictly lower than its parent.
proof fn lemma_height_lb<V>(node: Node<V>, j: int)
    requires
        0 <= j < node.children@.len(),
    ensures
        node_height(node.children@[j]) < node_height(node),
{
    lemma_max_child_height_ge(node, node.children@.len() as int, j);
}

proof fn lemma_max_child_height_ge<V>(node: Node<V>, k: int, j: int)
    requires
        0 <= j < k <= node.children@.len(),
    ensures
        max_child_height(node, k) >= node_height(node.children@[j]),
    decreases k,
{
    if j < k - 1 {
        lemma_max_child_height_ge(node, k - 1, j);
    }
}

/// A node whose children all stay below a bound stays at or below it.
proof fn lemma_height_ub<V>(node: Node<V>, h: nat)
    requires
        h >= 1,
        forall|j: int|
            0 <= j < node.children@.len() ==> node_height(#[trigger] node.children@[j]) < h,
    ensures
        node_height(node) <= h,
{
    lemma_max_child_height_ub(node, node.children@.len() as int, (h - 1) as nat);
}

proof fn lemma_max_child_height_ub<V>(node: Node<V>, k: int, h: nat)
    requires
        k <= node.children@.len(),
        forall|j: int|
            0 <= j < node.children@.len() ==> node_height(#[trigger] node.children@[j]) <= h,
    ensures
        max_child_height(node, k) <= h,
    decreases k,
{
    if k > 0 {
        lemma_max_child_height_ub(node, k - 1, h);
    }
}

/// A node whose children all share one height sits exactly one level
/// above it.
proof fn lemma_height_uniform<V>(node: Node<V>, h: nat)
    requires
        node.children@.len() > 0,
        forall|j: int|
            0 <= j < node.children@.len() ==> node_height(#[trigger] node.children@[j]) == h,
    ensures
        node_height(node) == h + 1,
{
    lemma_max_child_height_ub(node, node.children@.len() as int, h);
    lemma_max_child_height_ge(node, node.children@.len() as int, 0);
}

/// Inserting into a sequence adds the element to its multiset.
proof fn lemma_insert_to_multiset<V>(s: Seq<(i64, V)>, i: int, x: (i64, V))
    requires
        0 <= i <= s.len(),
    ensures
        s.insert(i, x).to_multiset() == s.to_multiset().insert(x),
{
    broadcast use vstd::seq_lib::group_seq_properties;

    assert(s.insert(i, x) =~= s.take(i) + seq![x] + s.skip(i));
    assert(s =~= s.take(i) + s.skip(i));
    vstd::seq_lib::lemma_multiset_commutative(s.take(i) + seq![x], s.skip(i));
    vstd::seq_lib::lemma_multiset_commutative(s.take(i), seq![x]);
    vstd::seq_lib::lemma_multiset_commutative(s.take(i), s.skip(i));
    assert(seq![x].to_multiset() =~= Multiset::empty().insert(x)) by {
        assert(seq![x].drop_first() =~= Seq::<(i64, V)>::empty());
        assert(seq![x].to_multiset() == Seq::<(i64, V)>::empty().to_multiset().insert(x));
    }
    assert(s.insert(i, x).to_multiset() =~= s.to_multiset().insert(x));
}

impl<V> Node<V> {
    /// A node from optional parts; missing parts start empty.
    fn new(keys: Option<Vec<i64>>, values: Option<Vec<V>>, children: Option<Vec<Node<V>>>) -> (n:
        Node<V>)
        ensures
            n.keys@ == (match keys {
                Some(k) => k@,
                None => Seq::<i64>::empty(),
            }),
            n.values@ == (match values {
                Some(v) => v@,
                None => Seq::<V>::empty(),
            }),
            n.children@ == (match children {
                Some(c) => c@,
                None => Seq::<Node<V>>::empty(),
            }),
    {
        let ks: Vec<i64> = match keys {
            Some(k) => k,
            None => Vec::new(),
        };
        let vs: Vec<V> = match values {
            Some(v) => v,
            None => Vec::new(),
        };
        let cs: Vec<Node<V>> = match children {
            Some(c) => c,
            None => Vec::new(),
        };
        Node { keys: ks, values: vs, children: cs }
    }

    /// Whether the node has no children.
    fn is_leaf(&self) -> (r: bool)
        ensures
            r == (child_count(*self) == 0),
    {
        self.children.is_empty()
    }

    /// Up to `n` entries in descending key order: the largest `n`
    /// entries of the subtree, or all of them when fewer exist.
    #[verifier::rlimit(100)]
    #[verifier::spinoff_prover]
    pub fn get_n_greatest(&self, n: usize) -> (r: Vec<(i64, V)>) where V: Clone
        requires
            node_wf(*self),
        ensures
            r@.len() == (if n <= node_entries(*self).len() {
                n as int
            } else {
                node_entries(*self).len() as int
            }),
            entries_match(r@, node_entries(*self).reverse().take(r@.len() as int)),
        decreases *self,
    {
        broadcast use vstd::std_specs::vec::group_vec_axioms;

        proof {
            lemma_node_unfold(*self);
        }
        let ghost me = *self;
        let mut res: Vec<(i64, V)> = Vec::new();
        let mut i: usize = self.keys.len();
        proof {
            assert(after_entries(me, i as int) =~= Seq::<(i64, V)>::empty());
            assert(after_entries(me, i as int).reverse() =~= Seq::<(i64, V)>::empty());
            assert(entries_match(res@, after_entries(me, i as int).reverse().take(0)));
        }
        while i > 0
            invariant
                i <= key_count(me),
                *self == me,
                node_wf(me),
                res@.len() == (if n <= after_entries(me, i as int).len() {
                    n as int
                } else {
                    after_entries(me, i as int).len() as int
                }),
                entries_match(
                    res@,
                    after_entries(me, i as int).reverse().take(res@.len() as int),
                ),
            ensures
                i == 0 || res@.len() >= n,
                i <= key_count(me),
                res@.len() == (if n <= after_entries(me, i as int).len() {
                    n as int
                } else {
                    after_entries(me, i as int).len() as int
                }),
                entries_match(
                    res@,
                    after_entries(me, i as int).reverse().take(res@.len() as int),
                ),
            decreases i,
        {
            if res.len() >= n {
                break ;
            }
            proof {
                lemma_node_unfold(me);
            }
            let ghost aft = after_entries(me, i as int);
            let ghost aft2 = after_entries(me, i as int - 1);
            let ghost cpart = childe(me, i as int);
            let ghost pair = (me.keys@[i as int - 1], me.values@[i as int - 1]);
            proof {
                assert(aft2 == seq![pair] + cpart + aft);
                lemma_rev_concat(seq![pair] + cpart, aft);
                lemma_rev_concat(seq![pair], cpart);
                assert(aft2.reverse() =~= aft.reverse() + cpart.reverse() + seq![pair].reverse());
                assert(seq![pair].reverse() =~= seq![pair]);
                assert(res@.len() == aft.len());
                assert(aft.reverse().take(res@.len() as int) =~= aft.reverse());
            }
            if self.children.len() == 0 {
                res.push((self.keys[i - 1], self.values[i - 1].clone()));
                proof {
                    assert(cpart =~= Seq::<(i64, V)>::empty());
                    assert(cpart.reverse() =~= Seq::<(i64, V)>::empty());
                    assert(aft2.reverse() =~= aft.reverse() + seq![pair]);
                    assert(res@ =~= res@.subrange(0, res@.len() - 1).push(res@.last()));
                    assert(aft2.reverse().take(res@.len() as int) =~= aft.reverse().push(pair));
                    assert(entries_match(res@, aft2.reverse().take(res@.len() as int)));
                }
            } else {
                let ghost res0 = res@;
                let mut sub = self.children[i].get_n_greatest(n - res.len());
                proof {
                    assert(cpart == node_entries(me.children@[i as int]));
                }
                let ghost subs = sub@;
                res.append(&mut sub);
                proof {
                    assert(res@ == res0 + subs);
                    if n - res0.len() <= cpart.len() {
                        assert(subs.len() == n - res0.len());
                        lemma_take_concat_two(
                            aft.reverse(),
                            cpart.reverse(),
                            subs.len() as int,
                        );
                        assert((aft.reverse() + cpart.reverse()).take(res@.len() as int)
                            =~= aft.reverse() + cpart.reverse().take(subs.len() as int));
                        lemma_take_prefix(
                            aft.reverse() + cpart.reverse(),
                            seq![pair],
                            res@.len() as int,
                        );
                        lemma_match_concat(
                            res0,
                            aft.reverse(),
                            subs,
                            cpart.reverse().take(subs.len() as int),
                        );
                        assert(entries_match(res@, aft2.reverse().take(res@.len() as int)));
                        assert(res@.len() == n);
                    } else {
                        assert(subs.len() == cpart.len());
                        assert(cpart.reverse().take(subs.len() as int) =~= cpart.reverse());
                        lemma_match_concat(res0, aft.reverse(), subs, cpart.reverse());
                        lemma_take_prefix(
                            aft.reverse() + cpart.reverse(),
                            seq![pair],
                            res@.len() as int,
                        );
                        assert((aft2.reverse()).take(res@.len() as int) =~= aft.reverse()
                            + cpart.reverse());
                        assert(entries_match(res@, aft2.reverse().take(res@.len() as int)));
                    }
                }
                if res.len() < n {
                    let ghost res1 = res@;
                    res.push((self.keys[i - 1], self.values[i - 1].clone()));
                    proof {
                        assert(res1.len() == aft.len() + cpart.len());
                        assert(aft2.reverse().take(res1.len() as int) =~= aft.reverse()
                            + cpart.reverse());
                        assert(aft2.reverse().take(res@.len() as int) =~= (aft.reverse()
                            + cpart.reverse()).push(pair));
                        assert(entries_match(res@, aft2.reverse().take(res@.len() as int)));
                    }
                }
            }
            i = i - 1;
        }
        proof {
            lemma_entries_split(me, i as int);
        }
        if self.children.len() > 0 && res.len() < n {
            let ghost res0 = res@;
            let ghost aft = after_entries(me, i as int);
            let ghost cpart = childe(me, i as int);
            proof {
                assert(i == 0);
                assert(res0.len() == aft.len());
                assert(aft.reverse().take(res0.len() as int) =~= aft.reverse());
                assert(cpart == node_entries(me.children@[0]));
            }
            let mut sub = self.children[0].get_n_greatest(n - res.len());
            let ghost subs = sub@;
            res.append(&mut sub);
            proof {
                assert(prefix_entries(me, 0) =~= Seq::<(i64, V)>::empty());
                assert(node_entries(me) =~= cpart + aft);
                lemma_rev_concat(cpart, aft);
                if n - res0.len() <= cpart.len() {
                    lemma_take_concat_two(aft.reverse(), cpart.reverse(), subs.len() as int);
                    assert(node_entries(me).reverse().take(res@.len() as int) =~= aft.reverse()
                        + cpart.reverse().take(subs.len() as int));
                    lemma_match_concat(
                        res0,
                        aft.reverse(),
                        subs,
                        cpart.reverse().take(subs.len() as int),
                    );
                } else {
                    assert(cpart.reverse().take(subs.len() as int) =~= cpart.reverse());
                    lemma_match_concat(res0, aft.reverse(), subs, cpart.reverse());
                    assert(node_entries(me).reverse().take(res@.len() as int) =~= aft.reverse()
                        + cpart.reverse());
                }
                assert(entries_match(res@, node_entries(me).reverse().take(res@.len() as int)));
            }
        } else {
            proof {
                let aft = after_entries(me, i as int);
                let rest = prefix_entries(me, i as int) + childe(me, i as int);
                assert(node_entries(me) =~= rest + aft);
                lemma_rev_concat(rest, aft);
                lemma_take_prefix(aft.reverse(), rest.reverse(), res@.len() as int);
                assert(node_entries(me).reverse().take(res@.len() as int) =~= aft.reverse().take(
                    res@.len() as int,
                ));
                if self.children@.len() == 0 && res@.len() < n {
                    assert(i == 0);
                    assert(rest =~= Seq::<(i64, V)>::empty());
                }
            }
        }
        res
    }

    /// Every entry of the subtree in ascending key order, with cloned
    /// values.
    #[verifier::rlimit(100)]
    #[verifier::spinoff_prover]
    pub fn get_all(&self) -> (r: Vec<(i64, V)>) where V: Clone
        requires
            node_wf(*self),
        ensures
            entries_match(r@, node_entries(*self)),
        decreases *self,
    {
        broadcast use vstd::std_specs::vec::group_vec_axioms;

        proof {
            lemma_node_unfold(*self);
        }
        let ghost me = *self;
        let mut r: Vec<(i64, V)> = Vec::new();
        let mut i: usize = 0;
        proof {
            assert(prefix_entries(me, 0) =~= Seq::<(i64, V)>::empty());
        }
        while i < self.keys.len()
            invariant
                i <= key_count(me),
                *self == me,
                node_wf(me),
                entries_match(r@, prefix_entries(me, i as int)),
            decreases key_count(me) - i,
        {
            proof {
                lemma_node_unfold(me);
            }
            let ghost mid = childe(me, i as int);
            if self.children.len() > 0 {
                let ghost r0 = r@;
                let mut sub = self.children[i].get_all();
                let ghost subs = sub@;
                r.append(&mut sub);
                proof {
                    assert(mid == node_entries(me.children@[i as int]));
                    lemma_match_concat(r0, prefix_entries(me, i as int), subs, mid);
                }
            } else {
                proof {
                    assert(mid =~= Seq::<(i64, V)>::empty());
                    assert(prefix_entries(me, i as int) + mid =~= prefix_entries(me, i as int));
                }
            }
            let ghost r1 = r@;
            let ghost pair = (me.keys@[i as int], me.values@[i as int]);
            r.push((self.keys[i], self.values[i].clone()));
            proof {
                assert(r@ == r1.push(r@.last()));
                assert(r1.push(r@.last()) =~= r1 + seq![r@.last()]);
                assert(entries_match(seq![r@.last()], seq![pair]));
                lemma_match_concat(r1, prefix_entries(me, i as int) + mid, seq![r@.last()], seq![
                    pair,
                ]);
                assert(prefix_entries(me, i + 1) == prefix_entries(me, i as int) + mid + seq![
                    pair,
                ]);
            }
            i = i + 1;
        }
        if self.children.len() > 0 {
            let ghost r0 = r@;
            let mut sub = self.children[self.keys.len()].get_all();
            let ghost subs = sub@;
            r.append(&mut sub);
            proof {
                assert(childe(me, i as int) == node_entries(me.children@[i as int]));
                lemma_match_concat(r0, prefix_entries(me, i as int), subs, childe(me, i as int));
            }
        } else {
            proof {
                assert(childe(me, i as int) =~= Seq::<(i64, V)>::empty());
                assert(prefix_entries(me, i as int) + childe(me, i as int) =~= prefix_entries(
                    me,
                    i as int,
                ));
            }
        }
        r
    }

    /// Descends comparing against the sorted keys; an exact key match at
    /// any visited node returns that node's value.
    fn find_in<'a>(node: &'a Node<V>, key: i64) -> (r: Option<&'a V>)
        requires
            node_wf(*node),
        ensures
            match r {
                Some(v) => node_entries(*node).contains((key, *v)),
                None => !has_key(node_entries(*node), key),
            },
        decreases *node,
    {
        proof {
            lemma_node_unfold(*node);
        }
        let mut i: usize = node.keys.len();
        while i > 0 && key <= node.keys[i - 1]
            invariant
                i <= node.keys@.len(),
                node_wf(*node),
                forall|j: int| i <= j < node.keys@.len() ==> key <= #[trigger] node.keys@[j],
            decreases i,
        {
            i = i - 1;
        }
        proof {
            lemma_entries_split(*node, i as int);
        }
        if i < node.keys.len() && key == node.keys[i] {
            proof {
                let pre = prefix_entries(*node, i as int);
                let mid = childe(*node, i as int);
                let aft = after_entries(*node, i as int);
                assert(aft[0] == (node.keys@[i as int], node.values@[i as int]));
                assert(node_entries(*node)[pre.len() as int + mid.len() as int] == aft[0]);
            }
            return Some(&node.values[i]);
        }
        let descend = node.children.len() > 0;
        let sub = if descend {
            Self::find_in(&node.children[i], key)
        } else {
            None
        };
        proof {
            let pre = prefix_entries(*node, i as int);
            let mid = childe(*node, i as int);
            let aft = after_entries(*node, i as int);
            if descend {
                assert(mid == node_entries(node.children@[i as int]));
            }
            match sub {
                Some(v) => {
                    let j = choose|j: int| 0 <= j < mid.len() && mid[j] == (key, *v);
                    assert(node_entries(*node)[pre.len() as int + j] == (key, *v));
                },
                None => {
                    assert(!has_key(node_entries(*node), key)) by {
                        if i > 0 {
                            lemma_prefix_sorted(*node, i as int);
                            assert(all_le(pre, node.keys@[i - 1]));
                        }
                        if i < node.keys@.len() {
                            lemma_after_bound(*node, i as int);
                            assert(all_ge(aft, node.keys@[i as int]));
                            assert(node.keys@[i as int] > key);
                        }
                        assert forall|j: int|
                            0 <= j < node_entries(*node).len() implies (#[trigger] node_entries(
                            *node,
                        )[j]).0 != key by {
                            let s = node_entries(*node);
                            if j < pre.len() {
                                assert(s[j] == pre[j]);
                            } else if j < pre.len() + mid.len() {
                                assert(s[j] == mid[j - pre.len()]);
                                assert(!has_key(mid, key));
                            } else {
                                assert(s[j] == aft[j - pre.len() - mid.len()]);
                            }
                        }
                    }
                },
            }
        }
        sub
    }
}

/// Pairwise correspondence of a produced entry list with a ghost one:
/// equal keys, values cloned.
pub open spec fn entries_match<V: Clone>(r: Seq<(i64, V)>, s: Seq<(i64, V)>) -> bool {
    r.len() == s.len() && (forall|j: int|
        0 <= j < r.len() ==> (#[trigger] r[j]).0 == s[j].0 && cloned::<V>(s[j].1, r[j].1))
}

/// Reversal swaps and flips concatenation.
proof fn lemma_rev_concat<V>(a: Seq<(i64, V)>, b: Seq<(i64, V)>)
    ensures
        (a + b).reverse() == b.reverse() + a.reverse(),
{
    assert((a + b).reverse() =~= b.reverse() + a.reverse());
}

/// A short prefix of a concatenation comes from its first part.
proof fn lemma_take_prefix<V>(x: Seq<(i64, V)>, y: Seq<(i64, V)>, k: int)
    requires
        0 <= k <= x.len(),
    ensures
        (x + y).take(k) == x.take(k),
{
    assert((x + y).take(k) =~= x.take(k));
}

/// A prefix reaching into the second part keeps the whole first part.
proof fn lemma_take_concat_two<V>(x: Seq<(i64, V)>, y: Seq<(i64, V)>, k: int)
    requires
        0 <= k <= y.len(),
    ensures
        (x + y).take(x.len() + k) == x + y.take(k),
{
    assert((x + y).take(x.len() as int + k) =~= x + y.take(k));
}

/// Matching lists concatenate to matching lists.
proof fn lemma_match_concat<V: Clone>(
    r1: Seq<(i64, V)>,
    s1: Seq<(i64, V)>,
    r2: Seq<(i64, V)>,
    s2: Seq<(i64, V)>,
)
    requires
        entries_match(r1, s1),
        entries_match(r2, s2),
    ensures
        entries_match(r1 + r2, s1 + s2),
{
    assert forall|j: int|
        0 <= j < (r1 + r2).len() implies ((r1 + r2)[j]).0 == ((s1 + s2)[j]).0 && cloned::<V>(
        ((s1 + s2)[j]).1,
        ((r1 + r2)[j]).1,
    ) by {
        if j < r1.len() {
            assert((r1 + r2)[j] == r1[j] && (s1 + s2)[j] == s1[j]);
        } else {
            assert((r1 + r2)[j] == r2[j - r1.len()] && (s1 + s2)[j] == s2[j - r1.len()]);
        }
    }
}

impl BTreeProps {
    fn new() -> Self {
        BTreeProps {  }
    }

    /// Whether a node holds the largest allowed number of keys.
    fn is_filled<V>(&self, node: &Node<V>) -> (r: bool)
        ensures
            r == (key_count(*node) == MAX_KEYS),
    {
        node.keys.len() == MAX_KEYS
    }

    /// Splits the full child at `child_index`: its middle key and value
    /// move up into the parent at that index, and its upper half becomes
    /// a new right sibling. The parent's entry sequence is unchanged.
    fn split_child<V>(&self, parent: &mut Node<V>, child_index: usize)
        requires
            node_wf(*old(parent)),
            key_count(*old(parent)) < MAX_KEYS,
            child_count(*old(parent)) > 0,
            child_index < child_count(*old(parent)),
            key_count(old(parent).children@[child_index as int]) == MAX_KEYS,
        ensures
            node_wf(*final(parent)),
            node_entries(*final(parent)) == node_entries(*old(parent)),
            key_count(*final(parent)) == key_count(*old(parent)) + 1,
            child_count(*final(parent)) == child_count(*old(parent)) + 1,
            final(parent).keys@ == old(parent).keys@.insert(
                child_index as int,
                old(parent).children@[child_index as int].keys@[MID_KEYS as int],
            ),
            key_count(final(parent).children@[child_index as int]) < MAX_KEYS,
            key_count(final(parent).children@[child_index as int + 1]) < MAX_KEYS,
            node_height(*final(parent)) == node_height(*old(parent)),
            forall|j: int|
                0 <= j < final(parent).children@.len() ==> node_height(
                    #[trigger] final(parent).children@[j],
                ) < node_height(*old(parent)),
    {
        let ghost oldp = *old(parent);
        let ghost ci = child_index as int;
        let ghost oldc = oldp.children@[ci];
        proof {
            lemma_node_unfold(oldp);
            lemma_node_unfold(oldc);
        }
        let child = &mut parent.children[child_index];
        let right_keys = child.keys.split_off(MID_KEYS + 1);
        let middle_key = match child.keys.pop() {
            Some(k) => k,
            None => {
                proof {
                    assert(false);
                }
                unreached()
            },
        };
        let right_values = child.values.split_off(MID_KEYS + 1);
        let middle_value = match child.values.pop() {
            Some(v) => v,
            None => {
                proof {
                    assert(false);
                }
                unreached()
            },
        };
        let right_children: Option<Vec<Node<V>>> = if child.children.len() > 0 {
            Some(child.children.split_off(MID_KEYS + 1))
        } else {
            None
        };
        let new_child = Node::new(Some(right_keys), Some(right_values), right_children);
        parent.keys.insert(child_index, middle_key);
        parent.values.insert(child_index, middle_value);
        parent.children.insert(child_index + 1, new_child);
        proof {
            let newp = *parent;
            let mid = MID_KEYS as int;
            let lnode = newp.children@[ci];
            let rnode = newp.children@[ci + 1];
            assert(split_shape(oldp, newp, ci)) by {
                assert(lnode.keys@ =~= oldc.keys@.take(mid));
                assert(lnode.values@ =~= oldc.values@.take(mid));
                assert(rnode.keys@ =~= oldc.keys@.skip(mid + 1));
                assert(rnode.values@ =~= oldc.values@.skip(mid + 1));
                assert(oldc.children@.len() != 0 ==> lnode.children@ =~= oldc.children@.take(
                    mid + 1,
                ) && rnode.children@ =~= oldc.children@.skip(mid + 1));
                assert(newp.keys@ =~= oldp.keys@.insert(ci, oldc.keys@[mid]));
                assert(newp.values@ =~= oldp.values@.insert(ci, oldc.values@[mid]));
                assert(newp.children@ =~= oldp.children@.update(ci, lnode).insert(ci + 1, rnode));
            }
            lemma_split_entries(oldp, newp, ci);
            lemma_split_wf(oldp, newp, ci);
            lemma_split_heights(oldp, newp, ci);
        }
    }
    /// Inserts into a subtree whose root is not full: at a leaf the pair
    /// goes into its scan position; at an internal node the target child
    /// is split first when full, and the insertion descends.
    #[verifier::rlimit(100)]
    #[verifier::spinoff_prover]
    fn insert_non_full<V>(&self, node: &mut Node<V>, key: i64, value: V)
        requires
            node_wf(*old(node)),
            key_count(*old(node)) < MAX_KEYS,
        ensures
            node_wf(*final(node)),
            node_height(*final(node)) == node_height(*old(node)),
            node_entries(*final(node)).to_multiset() == node_entries(
                *old(node),
            ).to_multiset().insert((key, value)),
            forall|j: int|
                0 <= j < node_entries(*final(node)).len() ==> node_entries(
                    *old(node),
                ).to_multiset().contains(#[trigger] node_entries(*final(node))[j]) || node_entries(
                    *final(node),
                )[j] == (key, value),
        decreases node_height(*old(node)),
    {
        let ghost oldn = *old(node);
        proof {
            lemma_node_unfold(oldn);
        }
        let mut i: usize = node.keys.len();
        while i > 0 && key < node.keys[i - 1]
            invariant
                i <= node.keys@.len(),
                *node == oldn,
                forall|j: int| i <= j < node.keys@.len() ==> key <= #[trigger] node.keys@[j],
            decreases i,
        {
            i = i - 1;
        }
        if node.children.len() == 0 {
            node.keys.insert(i, key);
            node.values.insert(i, value);
            proof {
                assert(node.keys@ =~= oldn.keys@.insert(i as int, key));
                assert(node.values@ =~= oldn.values@.insert(i as int, value));
                lemma_leaf_inserted(oldn, *node, i as int, key, value);
            }
        } else {
            if self.is_filled(&node.children[i]) {
                self.split_child(node, i);
                if key > node.keys[i] {
                    i = i + 1;
                }
            }
            let ghost nmid = *node;
            let ghost ii = i as int;
            proof {
                lemma_node_unfold(nmid);
                assert(node_wf(nmid));
                assert(ii < nmid.children@.len());
                assert(key_count(nmid.children@[ii]) < MAX_KEYS);
                assert(ii >= 1 ==> key >= nmid.keys@[ii - 1]);
                assert(ii < nmid.keys@.len() ==> key <= nmid.keys@[ii]);
                assert(node_height(nmid.children@[ii]) < node_height(oldn)) by {
                    if nmid == oldn {
                        lemma_height_lb(oldn, ii);
                    }
                }
            }
            let ghost h_mid = node_height(nmid);
            proof {
                assert(h_mid == node_height(oldn));
            }
            let child = &mut node.children[i];
            self.insert_non_full(child, key, value);
            proof {
                assert(node.children@ =~= nmid.children@.update(ii, node.children@[ii]));
                lemma_child_replaced(nmid, *node, ii, key, value);
                assert(node_entries(nmid).to_multiset() == node_entries(oldn).to_multiset());
            }
        }
    }

}

/// The structural relation between a parent and its reshaped form after
/// splitting the full child at slot `ci`.
spec fn split_shape<V>(oldp: Node<V>, newp: Node<V>, ci: int) -> bool {
    let oldc = oldp.children@[ci];
    let mid = MID_KEYS as int;
    let lnode = newp.children@[ci];
    let rnode = newp.children@[ci + 1];
    &&& 0 <= ci < oldp.children@.len()
    &&& oldc.keys@.len() == MAX_KEYS
    &&& oldc.values@.len() == MAX_KEYS
    &&& lnode.keys@ == oldc.keys@.take(mid)
    &&& lnode.values@ == oldc.values@.take(mid)
    &&& rnode.keys@ == oldc.keys@.skip(mid + 1)
    &&& rnode.values@ == oldc.values@.skip(mid + 1)
    &&& (oldc.children@.len() == 0 ==> lnode.children@.len() == 0 && rnode.children@.len() == 0)
    &&& (oldc.children@.len() != 0 ==> lnode.children@ == oldc.children@.take(mid + 1)
        && rnode.children@ == oldc.children@.skip(mid + 1))
    &&& newp.keys@ == oldp.keys@.insert(ci, oldc.keys@[mid])
    &&& newp.values@ == oldp.values@.insert(ci, oldc.values@[mid])
    &&& newp.children@ == oldp.children@.update(ci, lnode).insert(ci + 1, rnode)
}

/// After a split, the left node, the promoted pair and the right node
/// together spell exactly the old child's entries, and the parent's
/// entries are unchanged.
#[verifier::rlimit(100)]
#[verifier::spinoff_prover]
proof fn lemma_split_entries<V>(oldp: Node<V>, newp: Node<V>, ci: int)
    requires
        node_wf(oldp),
        key_count(oldp) < MAX_KEYS,
        child_count(oldp) > 0,
        split_shape(oldp, newp, ci),
    ensures
        ({
            let oldc = oldp.children@[ci];
            let mid = MID_KEYS as int;
            let lnode = newp.children@[ci];
            let rnode = newp.children@[ci + 1];
            &&& node_entries(lnode) == prefix_entries(oldc, mid) + childe(oldc, mid)
            &&& node_entries(rnode) == childe(oldc, mid + 1) + after_entries(oldc, mid + 1)
            &&& node_entries(oldc) == node_entries(lnode) + seq![
                (oldc.keys@[mid], oldc.values@[mid]),
            ] + node_entries(rnode)
            &&& node_entries(newp) == node_entries(oldp)
        }),
{
    let oldc = oldp.children@[ci];
    let mid = MID_KEYS as int;
    let lnode = newp.children@[ci];
    let rnode = newp.children@[ci + 1];
    let mpair = (oldc.keys@[mid], oldc.values@[mid]);
    lemma_node_unfold(oldp);
    lemma_node_unfold(oldc);
    lemma_node_unfold(newp);
    lemma_node_unfold(lnode);
    lemma_node_unfold(rnode);
    // entries of the left node
    assert forall|j: int| 0 <= j < mid implies #[trigger] childe(lnode, j) == childe(
        oldc,
        j,
    ) by {
        if oldc.children@.len() != 0 {
            assert(lnode.children@[j] == oldc.children@[j]);
        }
    }
    lemma_prefix_agree(lnode, oldc, mid);
    assert(childe(lnode, mid) == childe(oldc, mid)) by {
        if oldc.children@.len() != 0 {
            assert(lnode.children@[mid] == oldc.children@[mid]);
        }
    }
    assert(node_entries(lnode) == prefix_entries(oldc, mid) + childe(oldc, mid));
    // entries of the right node
    lemma_entries_split(rnode, 0);
    assert(prefix_entries(rnode, 0) =~= Seq::<(i64, V)>::empty());
    assert(childe(rnode, 0) == childe(oldc, mid + 1)) by {
        if oldc.children@.len() != 0 {
            assert(rnode.children@[0] == oldc.children@[mid + 1]);
        }
    }
    assert forall|d: int|
        0 <= d < oldc.keys@.len() - (mid + 1) implies (#[trigger] childe(oldc, mid + 1 + d + 1))
        == childe(rnode, 0 + d + 1) by {
        if oldc.children@.len() != 0 {
            assert(rnode.children@[d + 1] == oldc.children@[mid + 1 + d + 1]);
        }
    }
    lemma_after_agree(oldc, rnode, mid + 1, 0);
    assert(node_entries(rnode) =~= childe(oldc, mid + 1) + after_entries(oldc, mid + 1));
    // the child's entries split into left, middle, right
    lemma_entries_split(oldc, mid);
    assert(after_entries(oldc, mid) == seq![mpair] + childe(oldc, mid + 1) + after_entries(
        oldc,
        mid + 1,
    ));
    assert(node_entries(oldc) =~= node_entries(lnode) + seq![mpair] + node_entries(rnode));
    // the parent's entries are unchanged
    assert forall|j: int| 0 <= j < ci implies (#[trigger] childe(newp, j)) == childe(oldp, j) by {
        assert(newp.children@[j] == oldp.children@[j]);
    }
    lemma_prefix_agree(newp, oldp, ci);
    assert forall|d: int|
        0 <= d < oldp.keys@.len() - ci implies (#[trigger] childe(oldp, ci + d + 1)) == childe(
        newp,
        ci + 1 + d + 1,
    ) by {
        assert(newp.children@[ci + d + 2] == oldp.children@[ci + d + 1]);
    }
    lemma_after_agree(oldp, newp, ci, ci + 1);
    lemma_entries_split(newp, ci);
    lemma_entries_split(oldp, ci);
    assert(childe(newp, ci) == node_entries(lnode));
    assert(childe(newp, ci + 1) == node_entries(rnode));
    assert(childe(oldp, ci) == node_entries(oldc));
    assert(after_entries(newp, ci) == seq![(newp.keys@[ci], newp.values@[ci])] + childe(
        newp,
        ci + 1,
    ) + after_entries(newp, ci + 1));
    assert(node_entries(newp) =~= node_entries(oldp));
}

/// After a split, the parent and both halves of the old child satisfy
/// the shape and ordering invariant.
#[verifier::rlimit(100)]
#[verifier::spinoff_prover]
proof fn lemma_split_wf<V>(oldp: Node<V>, newp: Node<V>, ci: int)
    requires
        node_wf(oldp),
        key_count(oldp) < MAX_KEYS,
        child_count(oldp) > 0,
        split_shape(oldp, newp, ci),
    ensures
        node_wf(newp),
{
    let oldc = oldp.children@[ci];
    let mid = MID_KEYS as int;
    let lnode = newp.children@[ci];
    let rnode = newp.children@[ci + 1];
    let mk = oldc.keys@[mid];
    let mpair = (oldc.keys@[mid], oldc.values@[mid]);
    lemma_node_unfold(oldp);
    lemma_node_unfold(oldc);
    lemma_node_unfold(newp);
    lemma_node_unfold(lnode);
    lemma_node_unfold(rnode);
    lemma_split_entries(oldp, newp, ci);
    lemma_prefix_sorted(oldc, mid);
    lemma_after_bound(oldc, mid);
    assert(node_entries(oldc)[node_entries(lnode).len() as int] == mpair);
    if ci < oldp.keys@.len() {
        assert(all_le(childe(oldp, ci), oldp.keys@[ci]));
        assert(mk <= oldp.keys@[ci]);
    }
    if ci >= 1 {
        assert(all_ge(childe(oldp, ci), oldp.keys@[ci - 1]));
        assert(mk >= oldp.keys@[ci - 1]);
    }
    assert(node_wf(lnode)) by {
        assert forall|j: int| 0 <= j < lnode.children@.len() implies node_wf(
            #[trigger] lnode.children@[j],
        ) by {
            assert(lnode.children@[j] == oldc.children@[j]);
        }
        assert forall|j: int|
            0 <= j < lnode.keys@.len() && j < lnode.children@.len() implies all_le(
            #[trigger] childe(lnode, j),
            lnode.keys@[j],
        ) by {
            if oldc.children@.len() != 0 {
                assert(lnode.children@[j] == oldc.children@[j]);
            }
            assert(childe(lnode, j) == childe(oldc, j));
            assert(all_le(childe(oldc, j), oldc.keys@[j]));
        }
        assert forall|j: int| 1 <= j < lnode.children@.len() implies all_ge(
            #[trigger] childe(lnode, j),
            lnode.keys@[j - 1],
        ) by {
            if oldc.children@.len() != 0 {
                assert(lnode.children@[j] == oldc.children@[j]);
            }
            assert(childe(lnode, j) == childe(oldc, j));
            assert(all_ge(childe(oldc, j), oldc.keys@[j - 1]));
        }
    }
    assert(node_wf(rnode)) by {
        assert forall|j: int| 0 <= j < rnode.children@.len() implies node_wf(
            #[trigger] rnode.children@[j],
        ) by {
            assert(rnode.children@[j] == oldc.children@[mid + 1 + j]);
        }
        assert forall|j: int|
            0 <= j < rnode.keys@.len() && j < rnode.children@.len() implies all_le(
            #[trigger] childe(rnode, j),
            rnode.keys@[j],
        ) by {
            assert(rnode.children@[j] == oldc.children@[mid + 1 + j]);
            assert(childe(rnode, j) == childe(oldc, mid + 1 + j));
            assert(all_le(childe(oldc, mid + 1 + j), oldc.keys@[mid + 1 + j]));
        }
        assert forall|j: int| 1 <= j < rnode.children@.len() implies all_ge(
            #[trigger] childe(rnode, j),
            rnode.keys@[j - 1],
        ) by {
            assert(rnode.children@[j] == oldc.children@[mid + 1 + j]);
            assert(childe(rnode, j) == childe(oldc, mid + 1 + j));
            assert(all_ge(childe(oldc, mid + 1 + j), oldc.keys@[mid + 1 + j - 1]));
        }
    }
    assert forall|a: int, b: int|
        0 <= a < b < newp.keys@.len() implies (#[trigger] newp.keys@[a])
        <= (#[trigger] newp.keys@[b]) by {
        if a < ci && b < ci {
        } else if a < ci && b == ci {
            assert(newp.keys@[a] == oldp.keys@[a]);
            assert(oldp.keys@[a] <= oldp.keys@[ci - 1]);
            assert(mk >= oldp.keys@[ci - 1]);
        } else if a < ci {
            assert(newp.keys@[a] == oldp.keys@[a] && newp.keys@[b] == oldp.keys@[b - 1]);
        } else if a == ci {
            assert(newp.keys@[b] == oldp.keys@[b - 1]);
            assert(oldp.keys@[ci] <= oldp.keys@[b - 1]);
        } else {
            assert(newp.keys@[a] == oldp.keys@[a - 1] && newp.keys@[b] == oldp.keys@[b - 1]);
        }
    }
    assert forall|j: int| 0 <= j < newp.children@.len() implies node_wf(
        #[trigger] newp.children@[j],
    ) by {
        if j < ci {
            assert(newp.children@[j] == oldp.children@[j]);
        } else if j > ci + 1 {
            assert(newp.children@[j] == oldp.children@[j - 1]);
        }
    }
    assert forall|j: int|
        0 <= j < newp.keys@.len() && j < newp.children@.len() implies all_le(
        #[trigger] childe(newp, j),
        newp.keys@[j],
    ) by {
        if j < ci {
            assert(newp.children@[j] == oldp.children@[j]);
            assert(childe(newp, j) == childe(oldp, j));
            assert(all_le(childe(oldp, j), oldp.keys@[j]));
            assert(newp.keys@[j] == oldp.keys@[j]);
        } else if j == ci {
            assert(childe(newp, ci) == node_entries(lnode));
            assert(all_le(prefix_entries(oldc, mid) + childe(oldc, mid), mk));
            assert(newp.keys@[ci] == mk);
        } else if j == ci + 1 {
            assert(childe(newp, ci + 1) == node_entries(rnode));
            assert(newp.keys@[ci + 1] == oldp.keys@[ci]);
            assert(all_le(childe(oldp, ci), oldp.keys@[ci]));
            assert forall|x: int|
                0 <= x < node_entries(rnode).len() implies (#[trigger] node_entries(rnode)[x]).0
                <= oldp.keys@[ci] by {
                assert(node_entries(oldc)[node_entries(lnode).len() + 1 + x] == node_entries(
                    rnode,
                )[x]);
            }
        } else {
            assert(newp.children@[j] == oldp.children@[j - 1]);
            assert(childe(newp, j) == childe(oldp, j - 1));
            assert(all_le(childe(oldp, j - 1), oldp.keys@[j - 1]));
            assert(newp.keys@[j] == oldp.keys@[j - 1]);
        }
    }
    assert forall|j: int| 1 <= j < newp.children@.len() implies all_ge(
        #[trigger] childe(newp, j),
        newp.keys@[j - 1],
    ) by {
        if j < ci {
            assert(newp.children@[j] == oldp.children@[j]);
            assert(childe(newp, j) == childe(oldp, j));
            assert(all_ge(childe(oldp, j), oldp.keys@[j - 1]));
            assert(newp.keys@[j - 1] == oldp.keys@[j - 1]);
        } else if j == ci {
            assert(childe(newp, ci) == node_entries(lnode));
            assert(newp.keys@[ci - 1] == oldp.keys@[ci - 1]);
            assert(all_ge(childe(oldp, ci), oldp.keys@[ci - 1]));
            assert forall|x: int|
                0 <= x < node_entries(lnode).len() implies (#[trigger] node_entries(lnode)[x]).0
                >= oldp.keys@[ci - 1] by {
                assert(node_entries(oldc)[x] == node_entries(lnode)[x]);
            }
        } else if j == ci + 1 {
            assert(childe(newp, ci + 1) == node_entries(rnode));
            assert(newp.keys@[ci] == mk);
            assert(all_ge(after_entries(oldc, mid), mk));
            assert forall|x: int|
                0 <= x < node_entries(rnode).len() implies (#[trigger] node_entries(rnode)[x]).0
                >= mk by {
                assert(after_entries(oldc, mid)[1 + x] == node_entries(rnode)[x]);
            }
        } else {
            assert(newp.children@[j] == oldp.children@[j - 1]);
            assert(childe(newp, j) == childe(oldp, j - 1));
            assert(all_ge(childe(oldp, j - 1), oldp.keys@[j - 2]));
            assert(newp.keys@[j - 1] == oldp.keys@[j - 2]);
        }
    }
}

/// After a split, every child of the parent stays strictly below the
/// parent's old height.
#[verifier::rlimit(100)]
#[verifier::spinoff_prover]
proof fn lemma_split_heights<V>(oldp: Node<V>, newp: Node<V>, ci: int)
    requires
        node_wf(oldp),
        child_count(oldp) > 0,
        split_shape(oldp, newp, ci),
    ensures
        node_height(newp) == node_height(oldp),
        forall|j: int|
            0 <= j < newp.children@.len() ==> node_height(#[trigger] newp.children@[j])
                < node_height(oldp),
{
    let oldc = oldp.children@[ci];
    let mid = MID_KEYS as int;
    let lnode = newp.children@[ci];
    let rnode = newp.children@[ci + 1];
    lemma_node_unfold(oldp);
    lemma_node_unfold(oldc);
    lemma_node_unfold(lnode);
    lemma_node_unfold(rnode);
    lemma_height_lb(oldp, ci);
    if oldc.children@.len() != 0 {
        assert forall|j: int| 0 <= j < lnode.children@.len() implies node_height(
            #[trigger] lnode.children@[j],
        ) < node_height(oldc) by {
            assert(lnode.children@[j] == oldc.children@[j]);
            lemma_height_lb(oldc, j);
        }
        lemma_height_ub(lnode, node_height(oldc));
        assert forall|j: int| 0 <= j < rnode.children@.len() implies node_height(
            #[trigger] rnode.children@[j],
        ) < node_height(oldc) by {
            assert(rnode.children@[j] == oldc.children@[mid + 1 + j]);
            lemma_height_lb(oldc, mid + 1 + j);
        }
        lemma_height_ub(rnode, node_height(oldc));
    }
    assert(node_height(oldc) + 1 == node_height(oldp));
    assert(node_height(lnode) == node_height(oldc)) by {
        if oldc.children@.len() != 0 {
            assert(node_height(oldc) >= 1) by {
                assert(node_height(oldc.children@[0]) + 1 == node_height(oldc));
            }
            assert forall|j: int|
                0 <= j < lnode.children@.len() implies node_height(#[trigger] lnode.children@[j])
                == node_height(oldc) - 1 by {
                assert(lnode.children@[j] == oldc.children@[j]);
                assert(node_height(oldc.children@[j]) + 1 == node_height(oldc));
            }
            lemma_height_uniform(lnode, (node_height(oldc) - 1) as nat);
        }
    }
    assert(node_height(rnode) == node_height(oldc)) by {
        if oldc.children@.len() != 0 {
            assert(node_height(oldc) >= 1) by {
                assert(node_height(oldc.children@[0]) + 1 == node_height(oldc));
            }
            assert forall|j: int|
                0 <= j < rnode.children@.len() implies node_height(#[trigger] rnode.children@[j])
                == node_height(oldc) - 1 by {
                assert(rnode.children@[j] == oldc.children@[mid + 1 + j]);
                assert(node_height(oldc.children@[mid + 1 + j]) + 1 == node_height(oldc));
            }
            lemma_height_uniform(rnode, (node_height(oldc) - 1) as nat);
        }
    }
    assert forall|j: int|
        0 <= j < newp.children@.len() implies node_height(#[trigger] newp.children@[j])
        == node_height(oldp) - 1 by {
        if j < ci {
            assert(newp.children@[j] == oldp.children@[j]);
            assert(node_height(oldp.children@[j]) + 1 == node_height(oldp));
        } else if j > ci + 1 {
            assert(newp.children@[j] == oldp.children@[j - 1]);
            assert(node_height(oldp.children@[j - 1]) + 1 == node_height(oldp));
        }
    }
    assert(node_height(oldp) >= 1) by {
        assert(node_height(oldp.children@[0]) + 1 == node_height(oldp));
    }
    lemma_height_uniform(newp, (node_height(oldp) - 1) as nat);
    assert forall|j: int|
        0 <= j < newp.children@.len() implies node_height(#[trigger] newp.children@[j])
        < node_height(oldp) by {}
}

/// Replacing one child with a well-formed node holding the old entries
/// plus one fitting pair preserves the invariant and adds that pair to
/// the parent's entries.
#[verifier::rlimit(100)]
#[verifier::spinoff_prover]
proof fn lemma_child_replaced<V>(n1: Node<V>, n2: Node<V>, i: int, key: i64, value: V)
    requires
        node_wf(n1),
        0 <= i < n1.children@.len(),
        n2.keys@ == n1.keys@,
        n2.values@ == n1.values@,
        n2.children@ == n1.children@.update(i, n2.children@[i]),
        n2.children@.len() == n1.children@.len(),
        node_wf(n2.children@[i]),
        node_entries(n2.children@[i]).to_multiset() == node_entries(
            n1.children@[i],
        ).to_multiset().insert((key, value)),
        forall|j: int|
            0 <= j < node_entries(n2.children@[i]).len() ==> node_entries(
                n1.children@[i],
            ).to_multiset().contains(#[trigger] node_entries(n2.children@[i])[j])
                || node_entries(n2.children@[i])[j] == (key, value),
        i >= 1 ==> key >= n1.keys@[i - 1],
        i < n1.keys@.len() ==> key <= n1.keys@[i],
        node_height(n2.children@[i]) == node_height(n1.children@[i]),
    ensures
        node_wf(n2),
        node_height(n2) == node_height(n1),
        node_entries(n2).to_multiset() == node_entries(n1).to_multiset().insert((key, value)),
        forall|j: int|
            0 <= j < node_entries(n2).len() ==> node_entries(n1).to_multiset().contains(
                #[trigger] node_entries(n2)[j],
            ) || node_entries(n2)[j] == (key, value),
{
    broadcast use vstd::seq_lib::group_to_multiset_ensures;

    lemma_node_unfold(n1);
    lemma_node_unfold(n2);
    let oldc = n1.children@[i];
    let newc = n2.children@[i];
    assert forall|j: int| 0 <= j < i implies (#[trigger] childe(n2, j)) == childe(n1, j) by {
        assert(n2.children@[j] == n1.children@[j]);
    }
    lemma_prefix_agree(n2, n1, i);
    assert forall|d: int|
        0 <= d < n1.keys@.len() - i implies (#[trigger] childe(n1, i + d + 1)) == childe(
        n2,
        i + d + 1,
    ) by {
        assert(n2.children@[i + d + 1] == n1.children@[i + d + 1]);
    }
    lemma_after_agree(n1, n2, i, i);
    lemma_entries_split(n1, i);
    lemma_entries_split(n2, i);
    let pre = prefix_entries(n1, i);
    let aft = after_entries(n1, i);
    assert(childe(n1, i) == node_entries(oldc));
    assert(childe(n2, i) == node_entries(newc));
    assert(node_entries(n1) == pre + node_entries(oldc) + aft);
    assert(node_entries(n2) == pre + node_entries(newc) + aft);
    vstd::seq_lib::lemma_multiset_commutative(pre + node_entries(oldc), aft);
    vstd::seq_lib::lemma_multiset_commutative(pre, node_entries(oldc));
    vstd::seq_lib::lemma_multiset_commutative(pre + node_entries(newc), aft);
    vstd::seq_lib::lemma_multiset_commutative(pre, node_entries(newc));
    assert(node_entries(n2).to_multiset() =~= node_entries(n1).to_multiset().insert(
        (key, value),
    ));
    // every new child entry fits the old bounds around slot i
    assert forall|j: int|
        0 <= j < node_entries(newc).len() && i < n1.keys@.len() implies (#[trigger] node_entries(
        newc,
    )[j]).0 <= n1.keys@[i] by {
        if node_entries(oldc).to_multiset().contains(node_entries(newc)[j]) {
            assert(node_entries(oldc).contains(node_entries(newc)[j]));
            let x = choose|x: int|
                0 <= x < node_entries(oldc).len() && node_entries(oldc)[x] == node_entries(
                    newc,
                )[j];
            assert(all_le(childe(n1, i), n1.keys@[i]) ==> node_entries(oldc)[x].0 <= n1.keys@[i]);
        }
    }
    assert forall|j: int|
        0 <= j < node_entries(newc).len() && i >= 1 implies (#[trigger] node_entries(newc)[j]).0
        >= n1.keys@[i - 1] by {
        if node_entries(oldc).to_multiset().contains(node_entries(newc)[j]) {
            assert(node_entries(oldc).contains(node_entries(newc)[j]));
            let x = choose|x: int|
                0 <= x < node_entries(oldc).len() && node_entries(oldc)[x] == node_entries(
                    newc,
                )[j];
            assert(all_ge(childe(n1, i), n1.keys@[i - 1]) ==> node_entries(oldc)[x].0
                >= n1.keys@[i - 1]);
        }
    }
    assert forall|j: int|
        0 <= j < n2.children@.len() implies node_height(#[trigger] n2.children@[j])
        == node_height(n1) - 1 by {
        if j != i {
            assert(n2.children@[j] == n1.children@[j]);
            assert(node_height(n1.children@[j]) + 1 == node_height(n1));
        } else {
            assert(node_height(n1.children@[i]) + 1 == node_height(n1));
        }
    }
    assert(node_height(n1) >= 1) by {
        assert(node_height(n1.children@[0]) + 1 == node_height(n1));
    }
    lemma_height_uniform(n2, (node_height(n1) - 1) as nat);
    assert(node_height(n2) == node_height(n1));
    assert(node_wf(n2)) by {
        assert forall|j: int| 0 <= j < n2.children@.len() implies node_wf(
            #[trigger] n2.children@[j],
        ) by {
            if j != i {
                assert(n2.children@[j] == n1.children@[j]);
            }
        }
        assert forall|j: int|
            0 <= j < n2.children@.len() implies node_height(#[trigger] n2.children@[j]) + 1
            == node_height(n2) by {}
        assert forall|j: int|
            0 <= j < n2.keys@.len() && j < n2.children@.len() implies all_le(
            #[trigger] childe(n2, j),
            n2.keys@[j],
        ) by {
            if j != i {
                assert(n2.children@[j] == n1.children@[j]);
                assert(childe(n2, j) == childe(n1, j));
                assert(all_le(childe(n1, j), n1.keys@[j]));
            }
        }
        assert forall|j: int| 1 <= j < n2.children@.len() implies all_ge(
            #[trigger] childe(n2, j),
            n2.keys@[j - 1],
        ) by {
            if j != i {
                assert(n2.children@[j] == n1.children@[j]);
                assert(childe(n2, j) == childe(n1, j));
                assert(all_ge(childe(n1, j), n1.keys@[j - 1]));
            }
        }
    }
    // every entry of the new parent is an old entry or the new pair
    assert forall|j: int|
        0 <= j < node_entries(n2).len() implies node_entries(n1).to_multiset().contains(
        #[trigger] node_entries(n2)[j],
    ) || node_entries(n2)[j] == (key, value) by {
        let s2 = node_entries(n2);
        if j < pre.len() {
            assert(s2[j] == pre[j]);
            assert(node_entries(n1)[j] == pre[j]);
            assert(node_entries(n1).contains(s2[j]));
        } else if j < pre.len() + node_entries(newc).len() {
            let x = s2[j];
            assert(x == node_entries(newc)[j - pre.len()]);
            if node_entries(oldc).to_multiset().contains(x) {
                assert(node_entries(oldc).contains(x));
                let y = choose|y: int|
                    0 <= y < node_entries(oldc).len() && node_entries(oldc)[y] == x;
                assert(node_entries(n1)[pre.len() + y] == x);
                assert(node_entries(n1).contains(x));
            }
        } else {
            let d = j - pre.len() - node_entries(newc).len();
            assert(s2[j] == aft[d]);
            assert(node_entries(n1)[pre.len() + node_entries(oldc).len() + d] == aft[d]);
            assert(node_entries(n1).contains(s2[j]));
        }
    }
}

/// Inserting a fitting pair into a leaf at its scan position keeps the
/// leaf well formed and adds the pair to its entries.
#[verifier::rlimit(100)]
#[verifier::spinoff_prover]
proof fn lemma_leaf_inserted<V>(n1: Node<V>, n2: Node<V>, i: int, key: i64, value: V)
    requires
        node_wf(n1),
        n1.children@.len() == 0,
        key_count(n1) < MAX_KEYS,
        0 <= i <= n1.keys@.len(),
        n2.keys@ == n1.keys@.insert(i, key),
        n2.values@ == n1.values@.insert(i, value),
        n2.children@.len() == 0,
        i >= 1 ==> n1.keys@[i - 1] <= key,
        forall|j: int| i <= j < n1.keys@.len() ==> key <= #[trigger] n1.keys@[j],
    ensures
        node_wf(n2),
        node_height(n2) == node_height(n1),
        node_entries(n2).to_multiset() == node_entries(n1).to_multiset().insert((key, value)),
        forall|j: int|
            0 <= j < node_entries(n2).len() ==> node_entries(n1).to_multiset().contains(
                #[trigger] node_entries(n2)[j],
            ) || node_entries(n2)[j] == (key, value),
{
    broadcast use vstd::seq_lib::group_to_multiset_ensures;

    lemma_node_unfold(n1);
    lemma_node_unfold(n2);
    lemma_leaf_entries(n1);
    lemma_leaf_entries(n2);
    assert(node_entries(n2) =~= node_entries(n1).insert(i, (key, value)));
    lemma_insert_to_multiset(node_entries(n1), i, (key, value));
    assert(node_wf(n2)) by {
        assert forall|a: int, b: int|
            0 <= a < b < n2.keys@.len() implies (#[trigger] n2.keys@[a])
            <= (#[trigger] n2.keys@[b]) by {
            if a < i && b < i {
                assert(n2.keys@[a] == n1.keys@[a] && n2.keys@[b] == n1.keys@[b]);
            } else if a < i && b == i {
                assert(n2.keys@[a] == n1.keys@[a]);
                assert(n1.keys@[a] <= n1.keys@[i - 1]);
            } else if a < i {
                assert(n2.keys@[a] == n1.keys@[a] && n2.keys@[b] == n1.keys@[b - 1]);
            } else if a == i {
                assert(n2.keys@[b] == n1.keys@[b - 1]);
                assert(key <= n1.keys@[b - 1]);
            } else {
                assert(n2.keys@[a] == n1.keys@[a - 1] && n2.keys@[b] == n1.keys@[b - 1]);
            }
        }
    }
    assert forall|j: int|
        0 <= j < node_entries(n2).len() implies node_entries(n1).to_multiset().contains(
        #[trigger] node_entries(n2)[j],
    ) || node_entries(n2)[j] == (key, value) by {
        if j < i {
            assert(node_entries(n2)[j] == node_entries(n1)[j]);
            assert(node_entries(n1).contains(node_entries(n1)[j]));
        } else if j > i {
            assert(node_entries(n2)[j] == node_entries(n1)[j - 1]);
            assert(node_entries(n1).contains(node_entries(n1)[j - 1]));
        }
    }
}

impl<V> BTree<V> {
    /// All entries in ascending key order.
    pub closed spec fn spec_entries(self) -> Seq<(i64, V)> {
        node_entries(self.root)
    }

    /// The tree's shape and ordering invariant.
    pub closed spec fn wf(self) -> bool {
        node_wf(self.root)
    }

    pub fn new() -> (t: Self)
        ensures
            t.wf(),
            t.spec_entries() == Seq::<(i64, V)>::empty(),
    {
        let root = Node::new(None, None, None);
        proof {
            lemma_node_unfold(root);
            assert(node_entries(root) =~= Seq::<(i64, V)>::empty());
        }
        BTree { root, props: BTreeProps::new() }
    }

    /// Inserts the pair; the root is split first when it is full, the
    /// only way the tree grows in height. Duplicate keys are permitted
    /// and coexist.
    pub fn insert(&mut self, key: i64, value: V)
        requires
            old(self).wf(),
        ensures
            final(self).wf(),
            final(self).spec_entries().to_multiset() == old(
                self,
            ).spec_entries().to_multiset().insert((key, value)),
            forall|j: int|
                0 <= j < final(self).spec_entries().len() ==> old(
                    self,
                ).spec_entries().to_multiset().contains(#[trigger] final(self).spec_entries()[j])
                    || final(self).spec_entries()[j] == (key, value),
    {
        let ghost oldroot = old(self).root;
        if self.props.is_filled(&self.root) {
            let mut new_root = Node::new(None, None, None);
            core::mem::swap(&mut new_root, &mut self.root);
            self.root.children.push(new_root);
            proof {
                let grown = self.root;
                lemma_node_unfold(grown);
                lemma_node_unfold(oldroot);
                assert(grown.children@ =~= seq![oldroot]);
                assert(node_wf(grown)) by {
                    assert(grown.children@[0] == oldroot);
                }
                assert(childe(grown, 0) == node_entries(oldroot));
                assert(prefix_entries(grown, 0) =~= Seq::<(i64, V)>::empty());
                assert(node_entries(grown) =~= node_entries(oldroot));
            }
            self.props.split_child(&mut self.root, 0);
        }
        self.props.insert_non_full(&mut self.root, key, value);
    }

    /// Finds some value stored under the key, if any entry carries it.
    pub fn find(&self, key: i64) -> (r: Option<&V>)
        requires
            self.wf(),
        ensures
            match r {
                Some(v) => self.spec_entries().contains((key, *v)),
                None => !has_key(self.spec_entries(), key),
            },
    {
        Node::find_in(&self.root, key)
    }
}

impl<V> BTree<V> {
    /// Every entry in ascending key order, with cloned values.
    pub fn get_all(&self) -> (r: Vec<(i64, V)>) where V: Clone
        requires
            self.wf(),
        ensures
            entries_match(r@, self.spec_entries()),
    {
        self.root.get_all()
    }

    /// The values of the `n` greatest entries, in descending key order,
    /// truncated to the tree's size.
    pub fn get_greatest_n(&self, n: u32) -> (r: Vec<V>) where V: Clone
        requires
            self.wf(),
        ensures
            r@.len() == (if n as int <= self.spec_entries().len() {
                n as int
            } else {
                self.spec_entries().len() as int
            }),
            forall|j: int|
                0 <= j < r@.len() ==> cloned::<V>(
                    self.spec_entries().reverse()[j].1,
                    #[trigger] r@[j],
                ),
    {
        let mut pairs = Node::get_n_greatest(&self.root, n as usize);
        let ghost orig = pairs@;
        let mut r: Vec<V> = Vec::new();
        while pairs.len() > 0
            invariant
                r@.len() + pairs@.len() == orig.len(),
                pairs@ =~= orig.skip(r@.len() as int),
                forall|j: int| 0 <= j < r@.len() ==> (#[trigger] r@[j]) == orig[j].1,
            decreases pairs.len(),
        {
            let p = pairs.remove(0);
            proof {
                assert(p == orig[r@.len() as int]);
                assert(pairs@ =~= orig.skip(r@.len() as int + 1));
            }
            r.push(p.1);
        }
        proof {
            assert(r@.len() == orig.len());
            assert forall|j: int|
                0 <= j < r@.len() implies cloned::<V>(
                self.spec_entries().reverse()[j].1,
                #[trigger] r@[j],
            ) by {
                assert(r@[j] == orig[j].1);
                assert(orig[j].0 == self.spec_entries().reverse().take(orig.len() as int)[j].0);
                assert(cloned::<V>(
                    self.spec_entries().reverse().take(orig.len() as int)[j].1,
                    orig[j].1,
                ));
                assert(self.spec_entries().reverse().take(orig.len() as int)[j]
                    == self.spec_entries().reverse()[j]);
            }
        }
        r
    }

    /// Law: the first `k` entries of the reversed order are the top of
    /// the tree — they descend by key, and every entry left behind has a
    /// key no greater than any of them.
    pub proof fn lemma_greatest_are_top(self, k: int)
        requires
            self.wf(),
            0 <= k <= self.spec_entries().len(),
        ensures
            forall|a: int, b: int|
                0 <= a < b < k ==> (#[trigger] self.spec_entries().reverse().take(k)[a]).0
                    >= (#[trigger] self.spec_entries().reverse().take(k)[b]).0,
            forall|a: int, j: int|
                0 <= a < k && 0 <= j < self.spec_entries().len() - k
                    ==> (#[trigger] self.spec_entries()[j]).0 <= (
                #[trigger] self.spec_entries().reverse().take(k)[a]).0,
    {
        lemma_node_sorted(self.root);
        let s = self.spec_entries();
        assert forall|a: int, b: int|
            0 <= a < b < k implies (#[trigger] s.reverse().take(k)[a]).0
            >= (#[trigger] s.reverse().take(k)[b]).0 by {
            assert(s.reverse().take(k)[a] == s[s.len() - 1 - a]);
            assert(s.reverse().take(k)[b] == s[s.len() - 1 - b]);
        }
        assert forall|a: int, j: int|
            0 <= a < k && 0 <= j < s.len() - k implies (#[trigger] s[j]).0 <= (
        #[trigger] s.reverse().take(k)[a]).0 by {
            assert(s.reverse().take(k)[a] == s[s.len() - 1 - a]);
        }
    }

    /// Law: right after a pair is inserted, a lookup of its key cannot
    /// miss — the key is present among the entries.
    pub proof fn lemma_inserted_key_present(pre: Self, post: Self, key: i64, value: V)
        requires
            post.spec_entries().to_multiset() == pre.spec_entries().to_multiset().insert(
                (key, value),
            ),
        ensures
            has_key(post.spec_entries(), key),
    {
        broadcast use vstd::seq_lib::group_to_multiset_ensures;

        assert(post.spec_entries().to_multiset().contains((key, value)));
        assert(post.spec_entries().contains((key, value)));
        let j = choose|j: int|
            0 <= j < post.spec_entries().len() && post.spec_entries()[j] == (key, value);
        assert(post.spec_entries()[j].0 == key);
    }
}

impl<V> Default for BTree<V> {
    /// An empty tree.
    fn default() -> (t: Self)
        ensures
            t.wf(),
            t.spec_entries() == Seq::<(i64, V)>::empty(),
    {
        BTree::new()
    }
}

} // verus!
