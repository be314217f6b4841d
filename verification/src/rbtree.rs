//! A map kept as a binary search tree with coloured nodes.
//!
//! Keys are compared with `<` and `>` only.  What the map promises is stated
//! for key types whose comparisons form a strict total order (see
//! [`strictly_ordered`]); for such keys the tree is a map from keys to values,
//! and its contracts speak of that map alone.

use core::cmp::Ordering;
use vstd::prelude::*;
use vstd::std_specs::cmp::{OrdSpec, PartialEqSpec, PartialOrdSpec};

verus! {

/// `a` compares less than `b`.
pub open spec fn precedes<K: PartialOrd>(a: K, b: K) -> bool {
    a.partial_cmp_spec(&b) == Some(Ordering::Less)
}

/// `a` compares greater than `b`.
pub open spec fn follows<K: PartialOrd>(a: K, b: K) -> bool {
    a.partial_cmp_spec(&b) == Some(Ordering::Greater)
}

/// The comparisons of `K` compute what `partial_cmp_spec` says, and that puts
/// the values of `K` in one line: of two different values one precedes the
/// other, never both, and what precedes a value precedes all that follow it.
#[verifier::opaque]
pub open spec fn strictly_ordered<K: PartialOrd>() -> bool {
    &&& K::obeys_partial_cmp_spec()
    &&& forall|a: K, b: K| #[trigger] follows(a, b) <==> precedes(b, a)
    &&& forall|a: K, b: K| #[trigger] precedes(a, b) ==> a != b
    &&& forall|a: K, b: K| a == b || #[trigger] precedes(a, b) || precedes(b, a)
    &&& forall|a: K, b: K, c: K|
        #[trigger] precedes(a, b) && #[trigger] precedes(b, c) ==> precedes(a, c)
}

/// What a map holds for a key, if anything.
pub open spec fn lookup<K, V>(m: Map<K, V>, key: K) -> Option<V> {
    if m.contains_key(key) {
        Some(m[key])
    } else {
        None
    }
}

#[derive(Clone, Copy)]
enum Color {
    Red,
    Black,
}

struct Node<K: PartialOrd, V> {
    key: K,
    value: V,
    color: Color,
    left: Option<Box<Node<K, V>>>,
    right: Option<Box<Node<K, V>>>,
}

/// A map from `K` to `V`.
pub struct RBTreeMap<K: PartialOrd, V> {
    root: Option<Box<Node<K, V>>>,
}

/// `key` lies strictly between the bounds, as far as there are bounds.
spec fn inside<K: PartialOrd>(key: K, lo: Option<K>, hi: Option<K>) -> bool {
    &&& lo is Some ==> precedes(lo.unwrap(), key)
    &&& hi is Some ==> precedes(key, hi.unwrap())
}

/// Every key of the tree lies between the bounds, the keys of a left subtree
/// below the key above them, the keys of a right subtree beyond it.
spec fn within<K: PartialOrd, V>(
    tree: Option<Box<Node<K, V>>>,
    lo: Option<K>,
    hi: Option<K>,
) -> bool
    decreases tree,
{
    match tree {
        None => true,
        Some(node) => {
            &&& inside(node.key, lo, hi)
            &&& within(node.left, lo, Some(node.key))
            &&& within(node.right, Some(node.key), hi)
        },
    }
}

/// The keys of the tree with their values.
spec fn entries<K: PartialOrd, V>(tree: Option<Box<Node<K, V>>>) -> Map<K, V>
    decreases tree,
{
    match tree {
        None => Map::empty(),
        Some(node) => entries(node.left).union_prefer_right(entries(node.right)).insert(
            node.key,
            node.value,
        ),
    }
}

proof fn lemma_order<K: PartialOrd>(a: K, b: K, c: K)
    requires
        strictly_ordered::<K>(),
    ensures
        K::obeys_partial_cmp_spec(),
        follows(a, b) <==> precedes(b, a),
        precedes(a, b) ==> a != b,
        !(precedes(a, b) && precedes(b, a)),
        a == b || precedes(a, b) || precedes(b, a),
        precedes(a, b) && precedes(b, c) ==> precedes(a, c),
{
    reveal(strictly_ordered);
    if precedes(a, b) && precedes(b, a) {
        assert(precedes(a, a));
    }
}

proof fn lemma_keys_inside<K: PartialOrd, V>(
    tree: Option<Box<Node<K, V>>>,
    lo: Option<K>,
    hi: Option<K>,
    key: K,
)
    requires
        strictly_ordered::<K>(),
        within(tree, lo, hi),
        entries(tree).contains_key(key),
    ensures
        inside(key, lo, hi),
    decreases tree,
{
    let node = tree.unwrap();
    if key == node.key {
    } else if entries(node.right).contains_key(key) {
        lemma_keys_inside(node.right, Some(node.key), hi, key);
        if lo is Some {
            lemma_order(lo.unwrap(), node.key, key);
        }
    } else {
        lemma_keys_inside(node.left, lo, Some(node.key), key);
        if hi is Some {
            lemma_order(key, node.key, hi.unwrap());
        }
    }
}

proof fn lemma_wider_bounds<K: PartialOrd, V>(
    tree: Option<Box<Node<K, V>>>,
    lo: Option<K>,
    hi: Option<K>,
    wide_lo: Option<K>,
    wide_hi: Option<K>,
)
    requires
        strictly_ordered::<K>(),
        within(tree, lo, hi),
        wide_lo is Some ==> lo is Some && (wide_lo == lo || precedes(wide_lo.unwrap(), lo.unwrap())),
        wide_hi is Some ==> hi is Some && (wide_hi == hi || precedes(hi.unwrap(), wide_hi.unwrap())),
    ensures
        within(tree, wide_lo, wide_hi),
    decreases tree,
{
    if tree is Some {
        let node = tree.unwrap();
        if wide_lo is Some {
            lemma_order(wide_lo.unwrap(), lo.unwrap(), node.key);
        }
        if wide_hi is Some {
            lemma_order(node.key, hi.unwrap(), wide_hi.unwrap());
        }
        lemma_wider_bounds(node.left, lo, Some(node.key), wide_lo, Some(node.key));
        lemma_wider_bounds(node.right, Some(node.key), hi, Some(node.key), wide_hi);
    }
}

/// A key is in neither subtree of a node that holds it, and in at most one
/// subtree of any node.
proof fn lemma_sides_apart<K: PartialOrd, V>(
    node: Node<K, V>,
    lo: Option<K>,
    hi: Option<K>,
    key: K,
)
    requires
        strictly_ordered::<K>(),
        within(Some(Box::new(node)), lo, hi),
    ensures
        entries(node.left).contains_key(key) ==> precedes(key, node.key),
        entries(node.right).contains_key(key) ==> precedes(node.key, key),
        !(entries(node.left).contains_key(key) && entries(node.right).contains_key(key)),
        key == node.key ==> !entries(node.left).contains_key(key) && !entries(
            node.right,
        ).contains_key(key),
{
    if entries(node.left).contains_key(key) {
        lemma_keys_inside(node.left, lo, Some(node.key), key);
    }
    if entries(node.right).contains_key(key) {
        lemma_keys_inside(node.right, Some(node.key), hi, key);
    }
    lemma_order(key, node.key, key);
}

/// Whether the tree has a root and that root is red.
fn is_red<K: PartialOrd, V>(tree: &Option<Box<Node<K, V>>>) -> (r: bool)
    ensures
        r == red(*tree),
{
    match tree {
        Some(node) => match node.color {
            Color::Red => true,
            Color::Black => false,
        },
        None => false,
    }
}

/// The tree has a root, and that root is red.
spec fn red<K: PartialOrd, V>(tree: Option<Box<Node<K, V>>>) -> bool {
    match tree {
        Some(node) => node.color is Red,
        None => false,
    }
}

/// A red node with `top`, over a black node with `low` on the left and a
/// black node with `high` on the right, the four subtrees hung under the two
/// black nodes from left to right.
spec fn stacked<K: PartialOrd, V>(
    top: (K, V),
    low: (K, V),
    high: (K, V),
    quarters: (
        Option<Box<Node<K, V>>>,
        Option<Box<Node<K, V>>>,
        Option<Box<Node<K, V>>>,
        Option<Box<Node<K, V>>>,
    ),
) -> Node<K, V> {
    Node {
        color: Color::Red,
        key: top.0,
        value: top.1,
        left: Some(
            Box::new(
                Node {
                    color: Color::Black,
                    key: low.0,
                    value: low.1,
                    left: quarters.0,
                    right: quarters.1,
                },
            ),
        ),
        right: Some(
            Box::new(
                Node {
                    color: Color::Black,
                    key: high.0,
                    value: high.1,
                    left: quarters.2,
                    right: quarters.3,
                },
            ),
        ),
    }
}

/// What `balance` makes of a node.  A black node with a red child that has a
/// red child of its own is restacked: of the three keys the middle one goes
/// on top, in a red node, over the other two in black nodes.  The left child
/// is looked at before the right one, and of a child its left child before
/// its right one.  Every other node stays as it is.
spec fn restacked<K: PartialOrd, V>(node: Node<K, V>) -> Node<K, V> {
    if node.color is Red {
        node
    } else if red(node.left) && red(node.left.unwrap().left) {
        let child = node.left.unwrap();
        let grandchild = child.left.unwrap();
        stacked(
            (child.key, child.value),
            (grandchild.key, grandchild.value),
            (node.key, node.value),
            (grandchild.left, grandchild.right, child.right, node.right),
        )
    } else if red(node.left) && red(node.left.unwrap().right) {
        let child = node.left.unwrap();
        let grandchild = child.right.unwrap();
        stacked(
            (grandchild.key, grandchild.value),
            (child.key, child.value),
            (node.key, node.value),
            (child.left, grandchild.left, grandchild.right, node.right),
        )
    } else if red(node.right) && red(node.right.unwrap().left) {
        let child = node.right.unwrap();
        let grandchild = child.left.unwrap();
        stacked(
            (grandchild.key, grandchild.value),
            (node.key, node.value),
            (child.key, child.value),
            (node.left, grandchild.left, grandchild.right, child.right),
        )
    } else if red(node.right) && red(node.right.unwrap().right) {
        let child = node.right.unwrap();
        let grandchild = child.right.unwrap();
        stacked(
            (child.key, child.value),
            (node.key, node.value),
            (grandchild.key, grandchild.value),
            (node.left, child.left, grandchild.left, grandchild.right),
        )
    } else {
        node
    }
}

impl<K: PartialOrd, V> Node<K, V> {
    /// The node with both children painted over and hung under a new red
    /// node: the shape that every repair of `balance` ends in.
    fn rebuilt(
        top: (K, V),
        low: (K, V),
        high: (K, V),
        quarters: (
            Option<Box<Node<K, V>>>,
            Option<Box<Node<K, V>>>,
            Option<Box<Node<K, V>>>,
            Option<Box<Node<K, V>>>,
        ),
    ) -> (r: Node<K, V>)
        ensures
            r == stacked(top, low, high, quarters),
    {
        Node {
            color: Color::Red,
            key: top.0,
            value: top.1,
            left: Some(
                Box::new(
                    Node {
                        color: Color::Black,
                        key: low.0,
                        value: low.1,
                        left: quarters.0,
                        right: quarters.1,
                    },
                ),
            ),
            right: Some(
                Box::new(
                    Node {
                        color: Color::Black,
                        key: high.0,
                        value: high.1,
                        left: quarters.2,
                        right: quarters.3,
                    },
                ),
            ),
        }
    }
}

/// A key outside the bounds of a tree is not in the tree.
proof fn lemma_not_outside<K: PartialOrd, V>(
    tree: Option<Box<Node<K, V>>>,
    lo: Option<K>,
    hi: Option<K>,
    key: K,
)
    requires
        strictly_ordered::<K>(),
        within(tree, lo, hi),
        (lo is Some && (lo.unwrap() == key || precedes(key, lo.unwrap()))) || (hi is Some && (
            hi.unwrap() == key || precedes(hi.unwrap(), key))),
    ensures
        !entries(tree).contains_key(key),
{
    if entries(tree).contains_key(key) {
        lemma_keys_inside(tree, lo, hi, key);
        if lo is Some {
            lemma_order(key, lo.unwrap(), key);
        }
        if hi is Some {
            lemma_order(key, hi.unwrap(), key);
        }
    }
}

/// Four subtrees and three keys in line, hung under the middle key: how the
/// three nodes are stacked does not change what they hold.
proof fn lemma_stacked<K: PartialOrd, V>(
    lo: Option<K>,
    hi: Option<K>,
    low: (K, V),
    top: (K, V),
    high: (K, V),
    quarters: (
        Option<Box<Node<K, V>>>,
        Option<Box<Node<K, V>>>,
        Option<Box<Node<K, V>>>,
        Option<Box<Node<K, V>>>,
    ),
)
    requires
        strictly_ordered::<K>(),
        inside(low.0, lo, Some(top.0)),
        inside(high.0, Some(top.0), hi),
        within(quarters.0, lo, Some(low.0)),
        within(quarters.1, Some(low.0), Some(top.0)),
        within(quarters.2, Some(top.0), Some(high.0)),
        within(quarters.3, Some(high.0), hi),
    ensures
        inside(top.0, lo, hi),
        precedes(low.0, high.0),
        !entries(quarters.0).contains_key(low.0),
        !entries(quarters.0).contains_key(top.0),
        !entries(quarters.0).contains_key(high.0),
        !entries(quarters.1).contains_key(low.0),
        !entries(quarters.1).contains_key(top.0),
        !entries(quarters.1).contains_key(high.0),
        !entries(quarters.2).contains_key(low.0),
        !entries(quarters.2).contains_key(top.0),
        !entries(quarters.2).contains_key(high.0),
        !entries(quarters.3).contains_key(low.0),
        !entries(quarters.3).contains_key(top.0),
        !entries(quarters.3).contains_key(high.0),
        low.0 != top.0,
        top.0 != high.0,
        low.0 != high.0,
{
    lemma_order(low.0, top.0, high.0);
    lemma_order(top.0, high.0, top.0);
    lemma_order(low.0, high.0, low.0);
    if lo is Some {
        lemma_order(lo.unwrap(), low.0, top.0);
    }
    if hi is Some {
        lemma_order(top.0, high.0, hi.unwrap());
    }
    lemma_not_outside(quarters.0, lo, Some(low.0), low.0);
    lemma_not_outside(quarters.0, lo, Some(low.0), top.0);
    lemma_not_outside(quarters.0, lo, Some(low.0), high.0);
    lemma_not_outside(quarters.1, Some(low.0), Some(top.0), low.0);
    lemma_not_outside(quarters.1, Some(low.0), Some(top.0), top.0);
    lemma_not_outside(quarters.1, Some(low.0), Some(top.0), high.0);
    lemma_not_outside(quarters.2, Some(top.0), Some(high.0), low.0);
    lemma_not_outside(quarters.2, Some(top.0), Some(high.0), top.0);
    lemma_not_outside(quarters.2, Some(top.0), Some(high.0), high.0);
    lemma_not_outside(quarters.3, Some(high.0), hi, low.0);
    lemma_not_outside(quarters.3, Some(high.0), hi, top.0);
    lemma_not_outside(quarters.3, Some(high.0), hi, high.0);
}

/// Repairs a black node that has a red child with a red child of its own:
/// the three nodes are restacked with the middle key on top.  Any other node
/// is returned as it is.
fn balance<K: PartialOrd, V>(
    node: Node<K, V>,
    Ghost(lo): Ghost<Option<K>>,
    Ghost(hi): Ghost<Option<K>>,
) -> (r: Node<K, V>)
    requires
        strictly_ordered::<K>() ==> within(Some(Box::new(node)), lo, hi),
    ensures
        r == restacked(node),
        strictly_ordered::<K>() ==> within(Some(Box::new(r)), lo, hi),
        strictly_ordered::<K>() ==> entries(Some(Box::new(r))) == entries(Some(Box::new(node))),
{
    proof {
        reveal_with_fuel(within, 4);
        reveal_with_fuel(entries, 4);
    }
    let ghost whole = entries(Some(Box::new(node)));
    let Node { key, value, color, left, right } = node;
    let mut left = left;
    let mut right = right;
    match color {
        Color::Red => {
            return Node { key, value, color, left, right };
        },
        Color::Black => {},
    }
    if is_red(&left) {
        let Node { key: lk, value: lv, color: lc, left: ll, right: lr } = *left.unwrap();
        if is_red(&ll) {
            let Node { key: bk, value: bv, color: _, left: lll, right: llr } = *ll.unwrap();
            let r = Node::rebuilt((lk, lv), (bk, bv), (key, value), (lll, llr, lr, right));
            proof {
                if strictly_ordered::<K>() {
                    lemma_stacked(lo, hi, (bk, bv), (lk, lv), (key, value), (lll, llr, lr, right));
                    assert(entries(Some(Box::new(r))) =~= whole);
                }
            }
            return r;
        }
        if is_red(&lr) {
            let Node { key: tk, value: tv, color: _, left: lrl, right: lrr } = *lr.unwrap();
            let r = Node::rebuilt((tk, tv), (lk, lv), (key, value), (ll, lrl, lrr, right));
            proof {
                if strictly_ordered::<K>() {
                    lemma_stacked(lo, hi, (lk, lv), (tk, tv), (key, value), (ll, lrl, lrr, right));
                    assert(entries(Some(Box::new(r))) =~= whole);
                }
            }
            return r;
        }
        left = Some(Box::new(Node { key: lk, value: lv, color: lc, left: ll, right: lr }));
    }
    if is_red(&right) {
        let Node { key: rk, value: rv, color: rc, left: rl, right: rr } = *right.unwrap();
        if is_red(&rl) {
            let Node { key: tk, value: tv, color: _, left: rll, right: rlr } = *rl.unwrap();
            let r = Node::rebuilt((tk, tv), (key, value), (rk, rv), (left, rll, rlr, rr));
            proof {
                if strictly_ordered::<K>() {
                    lemma_stacked(lo, hi, (key, value), (tk, tv), (rk, rv), (left, rll, rlr, rr));
                    assert(entries(Some(Box::new(r))) =~= whole);
                }
            }
            return r;
        }
        if is_red(&rr) {
            let Node { key: bk, value: bv, color: _, left: rrl, right: rrr } = *rr.unwrap();
            let r = Node::rebuilt((rk, rv), (key, value), (bk, bv), (left, rl, rrl, rrr));
            proof {
                if strictly_ordered::<K>() {
                    lemma_stacked(lo, hi, (key, value), (rk, rv), (bk, bv), (left, rl, rrl, rrr));
                    assert(entries(Some(Box::new(r))) =~= whole);
                }
            }
            return r;
        }
        right = Some(Box::new(Node { key: rk, value: rv, color: rc, left: rl, right: rr }));
    }
    Node { key, value, color, left, right }
}

/// Puts `key` with `value` into the tree, in place of what the tree held for
/// `key` before, and returns the root of the new tree.
fn insert_into<K: PartialOrd, V>(
    node: Option<Box<Node<K, V>>>,
    key: K,
    value: V,
    Ghost(lo): Ghost<Option<K>>,
    Ghost(hi): Ghost<Option<K>>,
) -> (r: Node<K, V>)
    requires
        strictly_ordered::<K>() ==> within(node, lo, hi) && inside(key, lo, hi),
    ensures
        strictly_ordered::<K>() ==> within(Some(Box::new(r)), lo, hi),
        strictly_ordered::<K>() ==> entries(Some(Box::new(r))) == entries(node).insert(key, value),
    decreases node,
{
    match node {
        None => {
            let r = Node { color: Color::Red, key, value, left: None, right: None };
            proof {
                reveal_with_fuel(within, 2);
                reveal_with_fuel(entries, 2);
                assert(entries(Some(Box::new(r))) =~= entries(node).insert(key, value));
            }
            r
        },
        Some(boxed) => {
            let Node { key: nk, value: nv, color, left, right } = *boxed;
            if key < nk {
                proof {
                    if strictly_ordered::<K>() {
                        lemma_order(key, nk, key);
                        lemma_not_outside(right, Some(nk), hi, key);
                    }
                }
                let grown = insert_into(left, key, value, Ghost(lo), Ghost(Some(nk)));
                let r = Node { key: nk, value: nv, color, left: Some(Box::new(grown)), right };
                proof {
                    if strictly_ordered::<K>() {
                        assert(entries(Some(Box::new(r))) =~= entries(node).insert(key, value));
                    }
                }
                r
            } else if key > nk {
                proof {
                    if strictly_ordered::<K>() {
                        lemma_order(key, nk, key);
                    }
                }
                let grown = insert_into(right, key, value, Ghost(Some(nk)), Ghost(hi));
                let r = Node { key: nk, value: nv, color, left, right: Some(Box::new(grown)) };
                proof {
                    if strictly_ordered::<K>() {
                        assert(entries(Some(Box::new(r))) =~= entries(node).insert(key, value));
                    }
                }
                r
            } else {
                let r = Node { key: nk, value, color, left, right };
                proof {
                    if strictly_ordered::<K>() {
                        lemma_order(key, nk, key);
                        assert(entries(Some(Box::new(r))) =~= entries(node).insert(key, value));
                    }
                }
                r
            }
        },
    }
}

/// Looks `key` up in the tree.
fn find<'a, K: PartialOrd, V>(
    node: &'a Option<Box<Node<K, V>>>,
    key: &K,
    Ghost(lo): Ghost<Option<K>>,
    Ghost(hi): Ghost<Option<K>>,
) -> (r: Option<&'a V>)
    requires
        strictly_ordered::<K>() ==> within(*node, lo, hi),
    ensures
        strictly_ordered::<K>() ==> match r {
            Some(value) => lookup(entries(*node), *key) == Some(*value),
            None => lookup(entries(*node), *key) is None,
        },
    decreases *node,
{
    match node {
        None => None,
        Some(boxed) => {
            proof {
                if strictly_ordered::<K>() {
                    lemma_order(*key, boxed.key, *key);
                    lemma_sides_apart(**boxed, lo, hi, *key);
                }
            }
            if *key < boxed.key {
                find(&boxed.left, key, Ghost(lo), Ghost(Some(boxed.key)))
            } else if *key > boxed.key {
                find(&boxed.right, key, Ghost(Some(boxed.key)), Ghost(hi))
            } else {
                Some(&boxed.value)
            }
        },
    }
}

/// Takes the entry with the highest key out of the tree under `node`.
/// Returns what is left of the tree, and the entry.
fn get_highest<K: PartialOrd, V>(
    node: Box<Node<K, V>>,
    Ghost(lo): Ghost<Option<K>>,
    Ghost(hi): Ghost<Option<K>>,
) -> (r: (Option<Box<Node<K, V>>>, K, V))
    requires
        strictly_ordered::<K>() ==> within(Some(node), lo, hi),
    ensures
        strictly_ordered::<K>() ==> {
            &&& inside(r.1, lo, hi)
            &&& within(r.0, lo, Some(r.1))
            &&& !entries(r.0).contains_key(r.1)
            &&& entries(Some(node)) == entries(r.0).insert(r.1, r.2)
        },
    decreases node,
{
    let Node { key, value, color, left, right } = *node;
    match right {
        None => {
            proof {
                if strictly_ordered::<K>() {
                    reveal_with_fuel(entries, 2);
                    lemma_not_outside(left, lo, Some(key), key);
                    assert(entries(Some(node)) =~= entries(left).insert(key, value));
                }
            }
            (left, key, value)
        },
        Some(beyond) => {
            let (rest, top_key, top_value) = get_highest(beyond, Ghost(Some(key)), Ghost(hi));
            let kept = Some(Box::new(Node { key, value, color, left, right: rest }));
            proof {
                if strictly_ordered::<K>() {
                    lemma_order(key, top_key, key);
                    if lo is Some {
                        lemma_order(lo.unwrap(), key, top_key);
                    }
                    lemma_not_outside(left, lo, Some(key), top_key);
                    assert(entries(Some(node)) =~= entries(kept).insert(top_key, top_value));
                }
            }
            (kept, top_key, top_value)
        },
    }
}

/// Takes `key` out of the tree.  Returns the new tree and the value that the
/// tree held for `key`, if it held one.
fn remove_node<K: PartialOrd, V>(
    node: Option<Box<Node<K, V>>>,
    key: &K,
    Ghost(lo): Ghost<Option<K>>,
    Ghost(hi): Ghost<Option<K>>,
) -> (r: (Option<Box<Node<K, V>>>, Option<V>))
    requires
        strictly_ordered::<K>() ==> within(node, lo, hi),
    ensures
        strictly_ordered::<K>() ==> {
            &&& within(r.0, lo, hi)
            &&& entries(r.0) == entries(node).remove(*key)
            &&& r.1 == lookup(entries(node), *key)
        },
    decreases node,
{
    match node {
        None => {
            proof {
                assert(entries(node).remove(*key) =~= entries(node));
            }
            (None, None)
        },
        Some(boxed) => {
            proof {
                if strictly_ordered::<K>() {
                    lemma_order(*key, boxed.key, *key);
                    lemma_sides_apart(*boxed, lo, hi, *key);
                }
            }
            let Node { key: nk, value: nv, color, left, right } = *boxed;
            if *key < nk {
                let (rest, found) = remove_node(left, key, Ghost(lo), Ghost(Some(nk)));
                let kept = Some(Box::new(Node { key: nk, value: nv, color, left: rest, right }));
                proof {
                    if strictly_ordered::<K>() {
                        assert(entries(kept) =~= entries(node).remove(*key));
                    }
                }
                (kept, found)
            } else if *key > nk {
                let (rest, found) = remove_node(right, key, Ghost(Some(nk)), Ghost(hi));
                let kept = Some(Box::new(Node { key: nk, value: nv, color, left, right: rest }));
                proof {
                    if strictly_ordered::<K>() {
                        assert(entries(kept) =~= entries(node).remove(*key));
                    }
                }
                (kept, found)
            } else {
                match (left, right) {
                    (None, None) => {
                        proof {
                            if strictly_ordered::<K>() {
                                reveal_with_fuel(entries, 2);
                                assert(entries(None::<Box<Node<K, V>>>) =~= entries(node).remove(
                                    *key,
                                ));
                            }
                        }
                        (None, Some(nv))
                    },
                    (Some(below), None) => {
                        proof {
                            if strictly_ordered::<K>() {
                                reveal_with_fuel(entries, 2);
                                lemma_wider_bounds(Some(below), lo, Some(nk), lo, hi);
                                assert(entries(Some(below)) =~= entries(node).remove(*key));
                            }
                        }
                        (Some(below), Some(nv))
                    },
                    (None, Some(beyond)) => {
                        proof {
                            if strictly_ordered::<K>() {
                                reveal_with_fuel(entries, 2);
                                lemma_wider_bounds(Some(beyond), Some(nk), hi, lo, hi);
                                assert(entries(Some(beyond)) =~= entries(node).remove(*key));
                            }
                        }
                        (Some(beyond), Some(nv))
                    },
                    (Some(below), Some(beyond)) => {
                        let (rest, top_key, top_value) = get_highest(
                            below,
                            Ghost(lo),
                            Ghost(Some(nk)),
                        );
                        let kept = Some(
                            Box::new(
                                Node {
                                    left: rest,
                                    right: Some(beyond),
                                    color,
                                    key: top_key,
                                    value: top_value,
                                },
                            ),
                        );
                        proof {
                            if strictly_ordered::<K>() {
                                if hi is Some {
                                    lemma_order(top_key, nk, hi.unwrap());
                                }
                                lemma_order(top_key, nk, top_key);
                                lemma_wider_bounds(Some(beyond), Some(nk), hi, Some(top_key), hi);
                                lemma_not_outside(Some(beyond), Some(nk), hi, top_key);
                                assert(entries(kept) =~= entries(node).remove(*key));
                            }
                        }
                        (kept, Some(nv))
                    },
                }
            }
        },
    }
}

impl<K: PartialOrd, V> View for RBTreeMap<K, V> {
    type V = Map<K, V>;

    /// The keys of the map with their values.
    closed spec fn view(&self) -> Map<K, V> {
        entries(self.root)
    }
}

impl<K: PartialOrd, V> RBTreeMap<K, V> {
    #[verifier::type_invariant]
    spec fn sorted(self) -> bool {
        strictly_ordered::<K>() ==> within(self.root, None, None)
    }

    /// The empty map.
    pub fn new() -> (m: Self)
        ensures
            m@ == Map::<K, V>::empty(),
    {
        Self { root: None }
    }

    /// Maps `key` to `value`, in place of what `key` was mapped to before.
    pub fn insert(&mut self, key: K, value: V)
        ensures
            strictly_ordered::<K>() ==> final(self)@ == old(self)@.insert(key, value),
    {
        proof {
            use_type_invariant(&*self);
        }
        let mut taken = Self::new();
        core::mem::swap(self, &mut taken);
        let grown = insert_into(taken.root, key, value, Ghost(None), Ghost(None));
        *self = Self { root: Some(Box::new(balance(grown, Ghost(None), Ghost(None)))) };
    }

    /// What `key` is mapped to, if it is mapped to anything.
    pub fn get(&self, key: &K) -> (r: Option<&V>)
        ensures
            strictly_ordered::<K>() ==> match r {
                Some(value) => lookup(self@, *key) == Some(*value),
                None => lookup(self@, *key) is None,
            },
    {
        proof {
            use_type_invariant(self);
        }
        find(&self.root, key, Ghost(None), Ghost(None))
    }

    /// Takes `key` out of the map.  Returns what it was mapped to, if it was
    /// mapped to anything.
    pub fn remove(&mut self, key: &K) -> (r: Option<V>)
        ensures
            strictly_ordered::<K>() ==> final(self)@ == old(self)@.remove(*key),
            strictly_ordered::<K>() ==> r == lookup(old(self)@, *key),
    {
        proof {
            use_type_invariant(&*self);
        }
        let mut taken = Self::new();
        core::mem::swap(self, &mut taken);
        let (rest, found) = remove_node(taken.root, key, Ghost(None), Ghost(None));
        *self = Self {
            root: match rest {
                Some(boxed) => Some(Box::new(balance(*boxed, Ghost(None), Ghost(None)))),
                None => None,
            },
        };
        found
    }
}

impl<K: PartialOrd, V> Default for RBTreeMap<K, V> {
    fn default() -> (m: Self)
        ensures
            m@ == Map::<K, V>::empty(),
    {
        Self::new()
    }
}

/// Keys are strictly ordered where their `Ord` keeps the laws of comparison
/// and their `==` is equality of values, as with the integer types.
pub proof fn lemma_lawful_keys_are_strictly_ordered<K: Ord>()
    requires
        vstd::laws_cmp::obeys_cmp::<K>(),
        vstd::laws_eq::obeys_concrete_eq::<K>(),
    ensures
        strictly_ordered::<K>(),
{
    reveal(strictly_ordered);
    reveal(vstd::laws_cmp::obeys_partial_cmp_spec_properties);
    reveal(vstd::laws_cmp::obeys_cmp_partial_ord);
    reveal(vstd::laws_cmp::obeys_cmp_ord);
    reveal(vstd::laws_eq::obeys_concrete_eq);
    assert forall|a: K, b: K| a == b || #[trigger] precedes(a, b) || precedes(b, a) by {
        assert(a.partial_cmp_spec(&b) == Some(a.cmp_spec(&b)));
        assert(a.eq_spec(&b) <==> a == b);
    }
    assert forall|a: K, b: K| #[trigger] precedes(a, b) implies a != b by {
        assert(a.eq_spec(&b) <==> a == b);
    }
}

} // verus!
