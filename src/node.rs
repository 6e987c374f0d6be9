//! The tree's nodes, their invariants, and the recursive operations on subtrees.

use vstd::multiset::Multiset;
use vstd::prelude::*;

use crate::order::TotalOrder;

verus! {

/// The difference in subtree heights above which insertion rebalances.
const MAX_IMBALANCE: i32 = 1;

/// The stored height of a node without children.
const LEAF_HEIGHT: i32 = 0;

/// The height given to an absent subtree.
const EMPTY_HEIGHT: i32 = -1;

/// One stored key, its recorded height and its two exclusively owned subtrees.
#[derive(Debug)]
pub struct Node<T: TotalOrder> {
    pub(crate) key: T,
    pub(crate) height: i32,
    pub(crate) left: Link<T>,
    pub(crate) right: Link<T>,
}

/// A possibly absent subtree.
pub type Link<T> = Option<Box<Node<T>>>;

/// The larger of two integers.
pub open spec fn max_int(a: int, b: int) -> int {
    if a >= b {
        a
    } else {
        b
    }
}

/// The keys of a subtree, with multiplicity.
pub(crate) open spec fn keys_of<T: TotalOrder>(t: Link<T>) -> Multiset<T>
    decreases t,
{
    match t {
        None => Multiset::empty(),
        Some(n) => keys_of(n.left).add(keys_of(n.right)).insert(n.key),
    }
}

/// Left subtree, node, right subtree.
pub(crate) open spec fn in_order_of<T: TotalOrder>(t: Link<T>) -> Seq<T>
    decreases t,
{
    match t {
        None => Seq::empty(),
        Some(n) => in_order_of(n.left).push(n.key) + in_order_of(n.right),
    }
}

/// Node, left subtree, right subtree.
pub(crate) open spec fn pre_order_of<T: TotalOrder>(t: Link<T>) -> Seq<T>
    decreases t,
{
    match t {
        None => Seq::empty(),
        Some(n) => seq![n.key] + pre_order_of(n.left) + pre_order_of(n.right),
    }
}

/// Left subtree, right subtree, node.
pub(crate) open spec fn post_order_of<T: TotalOrder>(t: Link<T>) -> Seq<T>
    decreases t,
{
    match t {
        None => Seq::empty(),
        Some(n) => (post_order_of(n.left) + post_order_of(n.right)).push(n.key),
    }
}

/// The height recorded in the subtree's root, or -1 for an absent subtree.
pub(crate) open spec fn stored_height<T: TotalOrder>(t: Link<T>) -> int {
    match t {
        None => -1,
        Some(n) => n.height as int,
    }
}

/// The length of the longest path from the subtree's root down to a leaf;
/// -1 for an absent subtree.
pub(crate) open spec fn true_height<T: TotalOrder>(t: Link<T>) -> int
    decreases t,
{
    match t {
        None => -1,
        Some(n) => max_int(true_height(n.left), true_height(n.right)) + 1,
    }
}

/// Every key on the left is at most the node's key, every key on the right at
/// least. (Rotations can bring a key equal to the node's onto its right.)
pub(crate) open spec fn ordered_at<T: TotalOrder>(n: Node<T>) -> bool {
    &&& forall|x: T| #[trigger] keys_of(n.left).contains(x) ==> x.le(n.key)
    &&& forall|x: T| #[trigger] keys_of(n.right).contains(x) ==> n.key.le(x)
}

/// The invariant of every subtree: ordered at each node, and each recorded
/// height is non-negative and above the recorded heights of the children.
pub(crate) open spec fn wf<T: TotalOrder>(t: Link<T>) -> bool
    decreases t,
{
    match t {
        None => true,
        Some(n) => {
            &&& ordered_at(*n)
            &&& 0 <= n.height
            &&& stored_height(n.left) < n.height
            &&& stored_height(n.right) < n.height
            &&& wf(n.left)
            &&& wf(n.right)
        },
    }
}

/// Every recorded height is exact, and at every node the recorded heights of
/// the two subtrees differ by at most one.
pub(crate) open spec fn avl<T: TotalOrder>(t: Link<T>) -> bool
    decreases t,
{
    match t {
        None => true,
        Some(n) => {
            &&& n.height == max_int(stored_height(n.left), stored_height(n.right)) + 1
            &&& -1 <= stored_height(n.left) - stored_height(n.right) <= 1
            &&& avl(n.left)
            &&& avl(n.right)
        },
    }
}

/// Every recorded height equals the subtree's true height.
pub(crate) open spec fn heights_exact<T: TotalOrder>(t: Link<T>) -> bool
    decreases t,
{
    match t {
        None => true,
        Some(n) => {
            &&& n.height == true_height(t)
            &&& heights_exact(n.left)
            &&& heights_exact(n.right)
        },
    }
}

/// At every node the true heights of the two subtrees differ by at most one.
pub(crate) open spec fn balanced<T: TotalOrder>(t: Link<T>) -> bool
    decreases t,
{
    match t {
        None => true,
        Some(n) => {
            &&& -1 <= true_height(n.left) - true_height(n.right) <= 1
            &&& balanced(n.left)
            &&& balanced(n.right)
        },
    }
}

/// A subtree that is balanced over its recorded heights, with every recorded
/// height one above the larger of its children's, has exact heights and is
/// balanced over its true heights.
pub(crate) proof fn lemma_avl_balanced<T: TotalOrder>(t: Link<T>)
    requires
        avl(t),
    ensures
        heights_exact(t),
        balanced(t),
        stored_height(t) == true_height(t),
    decreases t,
{
    if let Some(n) = t {
        lemma_avl_balanced(n.left);
        lemma_avl_balanced(n.right);
    }
}

/// A well-formed subtree records a height of at least -1.
proof fn lemma_wf_height<T: TotalOrder>(t: Link<T>)
    requires
        wf(t),
    ensures
        -1 <= stored_height(t),
{
}

/// The keys of a node are its own key and those of its two subtrees.
proof fn lemma_keys_contains<T: TotalOrder>(n: Box<Node<T>>, y: T)
    ensures
        keys_of(Some(n)).contains(y) <==> (y == n.key || keys_of(n.left).contains(y)
            || keys_of(n.right).contains(y)),
        keys_of(Some(n)).count(y) == keys_of(n.left).count(y) + keys_of(n.right).count(y) + (
        if y == n.key {
            1int
        } else {
            0int
        }),
{
    broadcast use vstd::multiset::group_multiset_axioms;

}

/// The converse of `lemma_avl_balanced`.
pub(crate) proof fn lemma_exact_balanced_avl<T: TotalOrder>(t: Link<T>)
    requires
        heights_exact(t),
        balanced(t),
    ensures
        avl(t),
    decreases t,
{
    if let Some(n) = t {
        lemma_exact_balanced_avl(n.left);
        lemma_exact_balanced_avl(n.right);
        lemma_avl_balanced(n.left);
        lemma_avl_balanced(n.right);
    }
}

/// A subtree is absent exactly when it holds no key.
pub(crate) proof fn lemma_empty_keys<T: TotalOrder>(t: Link<T>)
    ensures
        t is None <==> keys_of(t).len() == 0,
{
    broadcast use vstd::multiset::group_multiset_axioms;

    if let Some(n) = t {
        lemma_keys_contains(n, n.key);
    }
}

/// The recorded height of a subtree, `EMPTY_HEIGHT` when it is absent.
fn height<T: TotalOrder>(node: &Link<T>) -> (h: i32)
    ensures
        h as int == stored_height(*node),
{
    match node {
        Some(n) => n.height,
        None => EMPTY_HEIGHT,
    }
}

/// Recomputes a node's height from the recorded heights of its children.
fn update_height<T: TotalOrder>(node: &mut Box<Node<T>>)
    requires
        -1 <= stored_height(old(node).left),
        -1 <= stored_height(old(node).right),
        stored_height(old(node).left) < i32::MAX,
        stored_height(old(node).right) < i32::MAX,
    ensures
        final(node).height == max_int(stored_height(old(node).left), stored_height(old(node).right)) + 1,
        final(node).key == old(node).key,
        final(node).left == old(node).left,
        final(node).right == old(node).right,
{
    let left_height = height(&node.left);
    let right_height = height(&node.right);
    node.height = if left_height >= right_height {
        left_height
    } else {
        right_height
    } + 1;
}

/// Whether `heavy` is taller than `light` by more than `MAX_IMBALANCE`.
fn should_balance<T: TotalOrder>(heavy: &Link<T>, light: &Link<T>) -> (r: bool)
    requires
        -1 <= stored_height(*heavy) < i32::MAX,
        -1 <= stored_height(*light) < i32::MAX,
    ensures
        r == (stored_height(*heavy) - stored_height(*light) > MAX_IMBALANCE),
{
    height(heavy) - height(light) > MAX_IMBALANCE
}

/// Promotes the left child `w` of `x` into `x`'s place: `w`'s right subtree
/// becomes `x`'s left subtree and `x` becomes `w`'s right child. Both
/// heights are recomputed, `x` first.
fn single_rotate_left<T: TotalOrder>(x: Box<Node<T>>) -> (w: Box<Node<T>>)
    requires
        x.left is Some,
        ordered_at(*x),
        wf(x.left),
        wf(x.right),
        stored_height(x.left.unwrap().left) < i32::MAX,
        stored_height(x.left.unwrap().right) < i32::MAX - 1,
        stored_height(x.right) < i32::MAX - 1,
    ensures
        wf(Some(w)),
        keys_of(Some(w)) == keys_of(Some(x)),
        w.key == x.left.unwrap().key,
        w.left == x.left.unwrap().left,
        w.right is Some,
        w.right.unwrap().key == x.key,
        w.right.unwrap().left == x.left.unwrap().right,
        w.right.unwrap().right == x.right,
        w.right.unwrap().height == max_int(stored_height(x.left.unwrap().right), stored_height(x.right)) + 1,
        w.height == max_int(stored_height(x.left.unwrap().left), stored_height(w.right)) + 1,
{
    let ghost bx = x;
    let ghost x0 = *x;
    let ghost w0 = *x.left.unwrap();
    proof {
        lemma_wf_height(w0.left);
        lemma_wf_height(w0.right);
        lemma_wf_height(x0.right);
    }
    let mut x = x;
    let mut w = x.left.take().unwrap();
    x.left = w.right.take();
    update_height(&mut x);
    w.right = Some(x);
    update_height(&mut w);
    proof {
        let nx = w.right.unwrap();
        let bw = x0.left.unwrap();
        assert forall|y: T| #[trigger] keys_of(nx.left).contains(y) implies y.le(nx.key) by {
            lemma_keys_contains(bw, y);
        }
        assert(w0.key.le(x0.key)) by {
            lemma_keys_contains(bw, w0.key);
        }
        assert forall|y: T| #[trigger] keys_of(w.right).contains(y) implies w.key.le(y) by {
            lemma_keys_contains(nx, y);
            if keys_of(nx.right).contains(y) {
                T::lemma_transitive(w0.key, x0.key, y);
            }
        }
        assert(wf(w.right));
        assert(ordered_at(*w));
        assert forall|y: T| #[trigger] keys_of(Some(w)).count(y) == keys_of(Some(bx)).count(y) by {
            lemma_keys_contains(w, y);
            lemma_keys_contains(nx, y);
            lemma_keys_contains(bw, y);
            lemma_keys_contains(bx, y);
        }
        assert(keys_of(Some(w)) =~= keys_of(Some(bx)));
    }
    w
}

/// Promotes the right child `x` of `w` into `w`'s place: `x`'s left subtree
/// becomes `w`'s right subtree and `w` becomes `x`'s left child. Both
/// heights are recomputed, `w` first.
fn single_rotate_right<T: TotalOrder>(w: Box<Node<T>>) -> (x: Box<Node<T>>)
    requires
        w.right is Some,
        ordered_at(*w),
        wf(w.left),
        wf(w.right),
        stored_height(w.right.unwrap().right) < i32::MAX,
        stored_height(w.right.unwrap().left) < i32::MAX - 1,
        stored_height(w.left) < i32::MAX - 1,
    ensures
        wf(Some(x)),
        keys_of(Some(x)) == keys_of(Some(w)),
        x.key == w.right.unwrap().key,
        x.right == w.right.unwrap().right,
        x.left is Some,
        x.left.unwrap().key == w.key,
        x.left.unwrap().right == w.right.unwrap().left,
        x.left.unwrap().left == w.left,
        x.left.unwrap().height == max_int(stored_height(w.left), stored_height(w.right.unwrap().left)) + 1,
        x.height == max_int(stored_height(x.left), stored_height(w.right.unwrap().right)) + 1,
{
    let ghost bw = w;
    let ghost w0 = *w;
    let ghost x0 = *w.right.unwrap();
    proof {
        lemma_wf_height(x0.left);
        lemma_wf_height(x0.right);
        lemma_wf_height(w0.left);
    }
    let mut w = w;
    let mut x = w.right.take().unwrap();
    w.right = x.left.take();
    update_height(&mut w);
    x.left = Some(w);
    update_height(&mut x);
    proof {
        let nw = x.left.unwrap();
        let bx = w0.right.unwrap();
        assert forall|y: T| #[trigger] keys_of(nw.right).contains(y) implies nw.key.le(y) by {
            lemma_keys_contains(bx, y);
        }
        assert(w0.key.le(x0.key)) by {
            lemma_keys_contains(bx, x0.key);
        }
        assert forall|y: T| #[trigger] keys_of(x.left).contains(y) implies y.le(x.key) by {
            lemma_keys_contains(nw, y);
            if keys_of(nw.left).contains(y) {
                T::lemma_transitive(y, w0.key, x0.key);
            }
        }
        assert(wf(x.left));
        assert(ordered_at(*x));
        assert forall|y: T| #[trigger] keys_of(Some(x)).count(y) == keys_of(Some(bw)).count(y) by {
            lemma_keys_contains(x, y);
            lemma_keys_contains(nw, y);
            lemma_keys_contains(bw, y);
            lemma_keys_contains(bx, y);
        }
        assert(keys_of(Some(x)) =~= keys_of(Some(bw)));
    }
    x
}

/// Turns a left child that is heavy on its right side: rotates the left
/// child `y` so that its right child `u` takes its place, then promotes `u`
/// into `z`'s place.
fn double_rotate_left<T: TotalOrder>(z: Box<Node<T>>) -> (u: Box<Node<T>>)
    requires
        z.left is Some,
        z.left.unwrap().right is Some,
        ordered_at(*z),
        wf(z.left),
        wf(z.right),
        stored_height(z.left.unwrap().left) < i32::MAX - 1,
        stored_height(z.left.unwrap().right.unwrap().left) < i32::MAX - 1,
        stored_height(z.left.unwrap().right.unwrap().right) < i32::MAX - 1,
        stored_height(z.right) < i32::MAX - 1,
    ensures
        wf(Some(u)),
        keys_of(Some(u)) == keys_of(Some(z)),
        u.key == z.left.unwrap().right.unwrap().key,
        u.left is Some,
        u.right is Some,
        u.left.unwrap().key == z.left.unwrap().key,
        u.left.unwrap().left == z.left.unwrap().left,
        u.left.unwrap().right == z.left.unwrap().right.unwrap().left,
        u.left.unwrap().height == max_int(
            stored_height(z.left.unwrap().left),
            stored_height(z.left.unwrap().right.unwrap().left),
        ) + 1,
        u.right.unwrap().key == z.key,
        u.right.unwrap().left == z.left.unwrap().right.unwrap().right,
        u.right.unwrap().right == z.right,
        u.right.unwrap().height == max_int(
            stored_height(z.left.unwrap().right.unwrap().right),
            stored_height(z.right),
        ) + 1,
        u.height == max_int(stored_height(u.left), stored_height(u.right)) + 1,
{
    let ghost bz = z;
    let mut z = z;
    let y = z.left.take().unwrap();
    proof {
        lemma_wf_height(y.left);
        assert(wf(y.right));
        let bu = y.right.unwrap();
        lemma_wf_height(bu.left);
        lemma_wf_height(bu.right);
    }
    z.left = Some(single_rotate_right(y));
    proof {
        assert(keys_of(z.left) == keys_of(bz.left));
        assert(ordered_at(*z));
    }
    single_rotate_left(z)
}

/// Turns a right child that is heavy on its left side: rotates the right
/// child `x` so that its left child `u` takes its place, then promotes `u`
/// into `z`'s place.
fn double_rotate_right<T: TotalOrder>(z: Box<Node<T>>) -> (u: Box<Node<T>>)
    requires
        z.right is Some,
        z.right.unwrap().left is Some,
        ordered_at(*z),
        wf(z.left),
        wf(z.right),
        stored_height(z.right.unwrap().right) < i32::MAX - 1,
        stored_height(z.right.unwrap().left.unwrap().right) < i32::MAX - 1,
        stored_height(z.right.unwrap().left.unwrap().left) < i32::MAX - 1,
        stored_height(z.left) < i32::MAX - 1,
    ensures
        wf(Some(u)),
        keys_of(Some(u)) == keys_of(Some(z)),
        u.key == z.right.unwrap().left.unwrap().key,
        u.left is Some,
        u.right is Some,
        u.right.unwrap().key == z.right.unwrap().key,
        u.right.unwrap().right == z.right.unwrap().right,
        u.right.unwrap().left == z.right.unwrap().left.unwrap().right,
        u.right.unwrap().height == max_int(
            stored_height(z.right.unwrap().left.unwrap().right),
            stored_height(z.right.unwrap().right),
        ) + 1,
        u.left.unwrap().key == z.key,
        u.left.unwrap().right == z.right.unwrap().left.unwrap().left,
        u.left.unwrap().left == z.left,
        u.left.unwrap().height == max_int(
            stored_height(z.left),
            stored_height(z.right.unwrap().left.unwrap().left),
        ) + 1,
        u.height == max_int(stored_height(u.left), stored_height(u.right)) + 1,
{
    let ghost bz = z;
    let mut z = z;
    let x = z.right.take().unwrap();
    proof {
        lemma_wf_height(x.right);
        assert(wf(x.left));
        let bu = x.left.unwrap();
        lemma_wf_height(bu.left);
        lemma_wf_height(bu.right);
    }
    z.right = Some(single_rotate_left(x));
    proof {
        assert(keys_of(z.right) == keys_of(bz.right));
        assert(ordered_at(*z));
    }
    single_rotate_right(z)
}

impl<T: TotalOrder> Node<T> {
    pub closed spec fn spec_key(self) -> T {
        self.key
    }

    pub closed spec fn spec_left(self) -> Link<T> {
        self.left
    }

    pub closed spec fn spec_right(self) -> Link<T> {
        self.right
    }

    /// The key stored in this node.
    pub fn key(&self) -> (r: &T)
        ensures
            *r == self.spec_key(),
    {
        &self.key
    }

    /// The left subtree, whose keys are at most this node's key.
    pub fn left(&self) -> (r: &Link<T>)
        ensures
            *r == self.spec_left(),
    {
        &self.left
    }

    /// The right subtree, whose keys are at least this node's key.
    pub fn right(&self) -> (r: &Link<T>)
        ensures
            *r == self.spec_right(),
    {
        &self.right
    }

    /// A node without children holding `key`.
    fn new(key: T) -> (n: Node<T>)
        ensures
            n.key == key,
            n.height == LEAF_HEIGHT,
            n.left is None,
            n.right is None,
    {
        Node { key, height: LEAF_HEIGHT, left: None, right: None }
    }
}

/// Whether insertion routes `value` into the left subtree of a node holding
/// `key`: equal keys go left.
fn routes_left<T: TotalOrder>(value: &T, key: &T) -> (r: bool)
    ensures
        r == value.le(*key),
{
    match value.compare(key) {
        core::cmp::Ordering::Greater => {
            proof {
                if value.le(*key) {
                    T::lemma_antisymmetric(*value, *key);
                }
            }
            false
        },
        core::cmp::Ordering::Equal => {
            proof {
                T::lemma_reflexive(*value);
            }
            true
        },
        core::cmp::Ordering::Less => true,
    }
}

/// A node over two balanced subtrees, with its height recomputed and the
/// subtrees' heights within one of each other, is balanced.
proof fn lemma_avl_join<T: TotalOrder>(n: Box<Node<T>>)
    requires
        avl(n.left),
        avl(n.right),
        n.height == max_int(stored_height(n.left), stored_height(n.right)) + 1,
        -1 <= stored_height(n.left) - stored_height(n.right) <= 1,
    ensures
        avl(Some(n)),
{
}

/// What being balanced says of a node and its two subtrees.
proof fn lemma_avl_parts<T: TotalOrder>(n: Box<Node<T>>)
    requires
        avl(Some(n)),
    ensures
        avl(n.left),
        avl(n.right),
        n.height == max_int(stored_height(n.left), stored_height(n.right)) + 1,
        -1 <= stored_height(n.left) - stored_height(n.right) <= 1,
{
}

/// Inserts `value` below `root` and rebalances on the way back up; returns
/// the new root of the subtree.
pub(crate) fn insert_recursively<T: TotalOrder>(root: Link<T>, value: T) -> (r: Link<T>)
    requires
        wf(root),
        stored_height(root) < i32::MAX,
    ensures
        wf(r),
        r is Some,
        keys_of(r) == keys_of(root).insert(value),
        stored_height(r) <= stored_height(root) + 1,
        root is None ==> stored_height(r) == 0,
        root is Some ==> (value.le(r.unwrap().key) ==> r.unwrap().left is Some),
        root is Some ==> (!value.le(r.unwrap().key) ==> r.unwrap().right is Some),
        avl(root) ==> avl(r),
        avl(root) ==> stored_height(root) <= stored_height(r),
        avl(root) && root is Some && stored_height(r) == stored_height(root) + 1 ==> (
        if value.le(r.unwrap().key) {
            stored_height(r.unwrap().left) == stored_height(r.unwrap().right) + 1
        } else {
            stored_height(r.unwrap().right) == stored_height(r.unwrap().left) + 1
        }),
    decreases root,
{
    match root {
        None => {
            let leaf = Some(Box::new(Node::new(value)));
            proof {
                assert(avl(leaf.unwrap().left) && avl(leaf.unwrap().right));
                assert(wf(leaf.unwrap().left) && wf(leaf.unwrap().right));
                assert(keys_of(leaf) =~= keys_of(root).insert(value));
            }
            leaf
        },
        Some(node) => {
            let ghost n0 = node;
            let ghost balanced_before = avl(Some(n0));
            let mut node = node;
            proof {
                lemma_wf_height(n0.left);
                lemma_wf_height(n0.right);
                assert(ordered_at(*n0));
                if balanced_before {
                    lemma_avl_parts(n0);
                }
            }
            if routes_left(&value, &node.key) {
                let left = node.left.take();
                node.left = insert_recursively(left, value.duplicate());
                let ghost y = node.left.unwrap();
                proof {
                    lemma_wf_height(node.left);
                    assert forall|k: T| #[trigger] keys_of(node.left).contains(k) implies k.le(node.key) by {
                        broadcast use vstd::multiset::group_multiset_axioms;

                        if k != value {
                            assert(keys_of(n0.left).contains(k));
                        }
                    }
                    assert(ordered_at(*node));
                    if balanced_before {
                        lemma_avl_parts(y);
                    }
                }
                if should_balance(&node.left, &node.right) {
                    let single = match &node.left {
                        Some(l) => routes_left(&value, &l.key),
                        None => false,
                    };
                    proof {
                        lemma_wf_height(y.left);
                        lemma_wf_height(y.right);
                    }
                    if single {
                        node = single_rotate_left(node);
                        proof {
                            if balanced_before {
                                lemma_avl_join(node.right.unwrap());
                            }
                        }
                    } else {
                        proof {
                            assert(wf(y.right));
                            let u = y.right.unwrap();
                            lemma_wf_height(u.left);
                            lemma_wf_height(u.right);
                            if balanced_before {
                                lemma_avl_parts(u);
                            }
                        }
                        node = double_rotate_left(node);
                        proof {
                            if balanced_before {
                                lemma_avl_join(node.left.unwrap());
                                lemma_avl_join(node.right.unwrap());
                            }
                        }
                    }
                }
                proof {
                    lemma_wf_height(node.left);
                    lemma_wf_height(node.right);
                }
                update_height(&mut node);
                proof {
                    if balanced_before {
                        lemma_avl_join(node);
                    }
                    assert(keys_of(Some(node)) =~= keys_of(Some(n0)).insert(value)) by {
                        broadcast use vstd::multiset::group_multiset_axioms;
                    }
                }
                Some(node)
            } else {
                let right = node.right.take();
                node.right = insert_recursively(right, value.duplicate());
                let ghost x = node.right.unwrap();
                proof {
                    lemma_wf_height(node.right);
                    T::lemma_total(value, n0.key);
                    assert forall|k: T| #[trigger] keys_of(node.right).contains(k) implies node.key.le(k) by {
                        broadcast use vstd::multiset::group_multiset_axioms;

                        if k != value {
                            assert(keys_of(n0.right).contains(k));
                        }
                    }
                    assert(ordered_at(*node));
                    if balanced_before {
                        lemma_avl_parts(x);
                    }
                }
                if should_balance(&node.right, &node.left) {
                    let single = match &node.right {
                        Some(r) => !routes_left(&value, &r.key),
                        None => false,
                    };
                    proof {
                        lemma_wf_height(x.left);
                        lemma_wf_height(x.right);
                    }
                    if single {
                        node = single_rotate_right(node);
                        proof {
                            if balanced_before {
                                lemma_avl_join(node.left.unwrap());
                            }
                        }
                    } else {
                        proof {
                            assert(wf(x.left));
                            let u = x.left.unwrap();
                            lemma_wf_height(u.left);
                            lemma_wf_height(u.right);
                            if balanced_before {
                                lemma_avl_parts(u);
                            }
                        }
                        node = double_rotate_right(node);
                        proof {
                            if balanced_before {
                                lemma_avl_join(node.left.unwrap());
                                lemma_avl_join(node.right.unwrap());
                            }
                        }
                    }
                }
                proof {
                    lemma_wf_height(node.left);
                    lemma_wf_height(node.right);
                }
                update_height(&mut node);
                proof {
                    if balanced_before {
                        lemma_avl_join(node);
                    }
                    assert(keys_of(Some(node)) =~= keys_of(Some(n0)).insert(value)) by {
                        broadcast use vstd::multiset::group_multiset_axioms;
                    }
                }
                Some(node)
            }
        },
    }
}

/// A copy of the largest key of a non-empty subtree, found at its
/// right-most node; `None` for an absent subtree.
fn largest_value<T: TotalOrder>(node: &Link<T>) -> (r: Option<T>)
    requires
        wf(*node),
    ensures
        node is None ==> r is None,
        node is Some ==> r is Some && keys_of(*node).contains(r.unwrap()),
        node is Some ==> forall|k: T| #[trigger] keys_of(*node).contains(k) ==> k.le(r.unwrap()),
    decreases node,
{
    match node {
        None => None,
        Some(n) => match &n.right {
            None => {
                proof {
                    T::lemma_reflexive(n.key);
                    assert forall|k: T| #[trigger] keys_of(*node).contains(k) implies k.le(n.key) by {
                        lemma_keys_contains(*n, k);
                    }
                    lemma_keys_contains(*n, n.key);
                }
                Some(n.key.duplicate())
            },
            Some(_) => {
                let r = largest_value(&n.right);
                proof {
                    let m = r.unwrap();
                    assert(n.key.le(m));
                    assert forall|k: T| #[trigger] keys_of(*node).contains(k) implies k.le(m) by {
                        lemma_keys_contains(*n, k);
                        if keys_of(n.left).contains(k) {
                            T::lemma_transitive(k, n.key, m);
                        } else if k == n.key {
                        }
                    }
                    lemma_keys_contains(*n, m);
                }
                r
            },
        },
    }
}

/// Removes one node whose key equals `value`, found by the same descent as
/// lookup; returns the new root of the subtree. No height is recomputed and
/// nothing is rotated.
pub(crate) fn remove_recursively<T: TotalOrder>(node: Link<T>, value: T) -> (r: Link<T>)
    requires
        wf(node),
    ensures
        wf(r),
        keys_of(r) == keys_of(node).remove(value),
        !keys_of(node).contains(value) ==> r == node,
        stored_height(r) <= stored_height(node),
    decreases node,
{
    match node {
        None => {
            proof {
                assert(keys_of(node) =~= keys_of(node).remove(value)) by {
                    broadcast use vstd::multiset::group_multiset_axioms;
                }
            }
            None
        },
        Some(n) => {
            let ghost n0 = n;
            let mut n = n;
            proof {
                assert(ordered_at(*n0));
                lemma_wf_height(n0.left);
                lemma_wf_height(n0.right);
            }
            match value.compare(&n.key) {
                core::cmp::Ordering::Equal => {
                    if n.left.is_none() {
                        proof {
                            assert(keys_of(n0.right) =~= keys_of(node).remove(value)) by {
                                broadcast use vstd::multiset::group_multiset_axioms;

                                lemma_keys_contains(n0, value);
                            }
                        }
                        n.right.take()
                    } else if n.right.is_none() {
                        proof {
                            assert(keys_of(n0.left) =~= keys_of(node).remove(value)) by {
                                broadcast use vstd::multiset::group_multiset_axioms;

                                lemma_keys_contains(n0, value);
                            }
                        }
                        n.left.take()
                    } else {
                        let m = largest_value(&n.left).unwrap();
                        n.key = m;
                        let left = n.left.take();
                        n.left = remove_recursively(left, n.key.duplicate());
                        proof {
                            assert(m.le(n0.key));
                            assert forall|k: T| #[trigger] keys_of(n.left).contains(k) implies k.le(m) by {
                                broadcast use vstd::multiset::group_multiset_axioms;

                                assert(keys_of(n0.left).contains(k));
                            }
                            assert forall|k: T| #[trigger] keys_of(n.right).contains(k) implies m.le(k) by {
                                T::lemma_transitive(m, n0.key, k);
                            }
                            assert(ordered_at(*n));
                            assert forall|k: T| #[trigger] keys_of(Some(n)).count(k) == keys_of(node).remove(value).count(k) by {
                                broadcast use vstd::multiset::group_multiset_axioms;

                                lemma_keys_contains(n, k);
                                lemma_keys_contains(n0, k);
                            }
                            assert(keys_of(Some(n)) =~= keys_of(node).remove(value));
                        }
                        Some(n)
                    }
                },
                core::cmp::Ordering::Less => {
                    let left = n.left.take();
                    n.left = remove_recursively(left, value);
                    proof {
                        if keys_of(n0.right).contains(value) {
                            T::lemma_antisymmetric(value, n0.key);
                        }
                        assert forall|k: T| #[trigger] keys_of(n.left).contains(k) implies k.le(n.key) by {
                            broadcast use vstd::multiset::group_multiset_axioms;

                            assert(keys_of(n0.left).contains(k));
                        }
                        assert(ordered_at(*n));
                        assert forall|k: T| #[trigger] keys_of(Some(n)).count(k) == keys_of(node).remove(value).count(k) by {
                            broadcast use vstd::multiset::group_multiset_axioms;

                            lemma_keys_contains(n, k);
                            lemma_keys_contains(n0, k);
                        }
                        assert(keys_of(Some(n)) =~= keys_of(node).remove(value));
                        lemma_keys_contains(n0, value);
                    }
                    Some(n)
                },
                core::cmp::Ordering::Greater => {
                    let right = n.right.take();
                    n.right = remove_recursively(right, value);
                    proof {
                        if keys_of(n0.left).contains(value) {
                            T::lemma_antisymmetric(value, n0.key);
                        }
                        assert forall|k: T| #[trigger] keys_of(n.right).contains(k) implies n.key.le(k) by {
                            broadcast use vstd::multiset::group_multiset_axioms;

                            assert(keys_of(n0.right).contains(k));
                        }
                        assert(ordered_at(*n));
                        assert forall|k: T| #[trigger] keys_of(Some(n)).count(k) == keys_of(node).remove(value).count(k) by {
                            broadcast use vstd::multiset::group_multiset_axioms;

                            lemma_keys_contains(n, k);
                            lemma_keys_contains(n0, k);
                        }
                        assert(keys_of(Some(n)) =~= keys_of(node).remove(value));
                        lemma_keys_contains(n0, value);
                    }
                    Some(n)
                },
            }
        },
    }
}

/// A copy of the first key equal to `value` met on the way down from `node`.
pub(crate) fn search_recursively<T: TotalOrder>(node: &Link<T>, value: T) -> (r: Option<T>)
    requires
        wf(*node),
    ensures
        r == (if keys_of(*node).contains(value) {
            Some(value)
        } else {
            None::<T>
        }),
    decreases node,
{
    match node {
        None => None,
        Some(n) => {
            proof {
                assert(ordered_at(**n));
                lemma_keys_contains(*n, value);
            }
            match value.compare(&n.key) {
                core::cmp::Ordering::Equal => Some(n.key.duplicate()),
                core::cmp::Ordering::Less => {
                    proof {
                        if keys_of(n.right).contains(value) {
                            T::lemma_antisymmetric(value, n.key);
                        }
                    }
                    search_recursively(&n.left, value)
                },
                core::cmp::Ordering::Greater => {
                    proof {
                        if keys_of(n.left).contains(value) {
                            T::lemma_antisymmetric(value, n.key);
                        }
                    }
                    search_recursively(&n.right, value)
                },
            }
        },
    }
}

/// Appends the keys of `node` in order: left subtree, node, right subtree.
pub(crate) fn in_order_recursive<T: TotalOrder>(node: &Link<T>, result: &mut Vec<T>)
    ensures
        final(result)@ == old(result)@ + in_order_of(*node),
    decreases node,
{
    if let Some(n) = node {
        in_order_recursive(&n.left, result);
        result.push(n.key.duplicate());
        in_order_recursive(&n.right, result);
        proof {
            assert(result@ =~= old(result)@ + in_order_of(*node));
        }
    } else {
        proof {
            assert(result@ =~= old(result)@ + in_order_of(*node));
        }
    }
}

/// Appends the keys of `node` in pre-order: node, left subtree, right subtree.
pub(crate) fn pre_order_recursive<T: TotalOrder>(node: &Link<T>, result: &mut Vec<T>)
    ensures
        final(result)@ == old(result)@ + pre_order_of(*node),
    decreases node,
{
    if let Some(n) = node {
        result.push(n.key.duplicate());
        pre_order_recursive(&n.left, result);
        pre_order_recursive(&n.right, result);
        proof {
            assert(result@ =~= old(result)@ + pre_order_of(*node));
        }
    } else {
        proof {
            assert(result@ =~= old(result)@ + pre_order_of(*node));
        }
    }
}

/// Appends the keys of `node` in post-order: left subtree, right subtree, node.
pub(crate) fn post_order_recursive<T: TotalOrder>(node: &Link<T>, result: &mut Vec<T>)
    ensures
        final(result)@ == old(result)@ + post_order_of(*node),
    decreases node,
{
    if let Some(n) = node {
        post_order_recursive(&n.left, result);
        post_order_recursive(&n.right, result);
        result.push(n.key.duplicate());
        proof {
            assert(result@ =~= old(result)@ + post_order_of(*node));
        }
    } else {
        proof {
            assert(result@ =~= old(result)@ + post_order_of(*node));
        }
    }
}

/// Every key is at most each key after it.
pub open spec fn sorted<T: TotalOrder>(s: Seq<T>) -> bool {
    forall|i: int, j: int| 0 <= i < j < s.len() ==> #[trigger] s[i].le(#[trigger] s[j])
}

/// Each traversal lists every key of the subtree, as often as it is held.
pub(crate) proof fn lemma_traversals_complete<T: TotalOrder>(t: Link<T>)
    ensures
        in_order_of(t).to_multiset() == keys_of(t),
        pre_order_of(t).to_multiset() == keys_of(t),
        post_order_of(t).to_multiset() == keys_of(t),
    decreases t,
{
    broadcast use vstd::multiset::group_multiset_axioms;
    broadcast use vstd::seq_lib::lemma_multiset_commutative;
    broadcast use vstd::seq_lib::to_multiset_build;
    broadcast use vstd::seq_lib::to_multiset_len;
    broadcast use vstd::multiset::lemma_multiset_empty_len;

    assert(Seq::<T>::empty().to_multiset().len() == 0);
    match t {
        None => {
            assert(in_order_of(t).to_multiset() =~= keys_of(t));
            assert(pre_order_of(t).to_multiset() =~= keys_of(t));
            assert(post_order_of(t).to_multiset() =~= keys_of(t));
        },
        Some(n) => {
            lemma_traversals_complete(n.left);
            lemma_traversals_complete(n.right);
            let one = seq![n.key];
            assert(one =~= Seq::<T>::empty().push(n.key));
            assert(one.to_multiset() =~= Multiset::empty().insert(n.key));
            assert(in_order_of(t).to_multiset() =~= keys_of(t));
            assert(pre_order_of(t).to_multiset() =~= keys_of(t));
            assert(post_order_of(t).to_multiset() =~= keys_of(t));
        },
    }
}

/// The in-order traversal of a well-formed subtree is sorted.
pub(crate) proof fn lemma_in_order_sorted<T: TotalOrder>(t: Link<T>)
    requires
        wf(t),
    ensures
        sorted(in_order_of(t)),
    decreases t,
{
    if let Some(n) = t {
        lemma_in_order_sorted(n.left);
        lemma_in_order_sorted(n.right);
        lemma_traversals_complete(n.left);
        lemma_traversals_complete(n.right);
        let l = in_order_of(n.left);
        let r = in_order_of(n.right);
        let s = in_order_of(t);
        assert(s == l.push(n.key) + r);
        assert(ordered_at(*n));
        assert forall|i: int| 0 <= i < l.len() implies (#[trigger] l[i]).le(n.key) by {
            broadcast use vstd::seq_lib::to_multiset_contains;

            assert(l.contains(l[i]));
            assert(keys_of(n.left).contains(l[i]));
        }
        assert forall|j: int| 0 <= j < r.len() implies n.key.le(#[trigger] r[j]) by {
            broadcast use vstd::seq_lib::to_multiset_contains;

            assert(r.contains(r[j]));
            assert(keys_of(n.right).contains(r[j]));
        }
        assert forall|i: int, j: int| 0 <= i < j < s.len() implies #[trigger] s[i].le(#[trigger] s[j]) by {
            if j < l.len() {
                assert(s[i] == l[i] && s[j] == l[j]);
            } else if j == l.len() {
                assert(s[i] == l[i]);
            } else if i > l.len() {
                assert(s[i] == r[i - l.len() - 1] && s[j] == r[j - l.len() - 1]);
            } else if i == l.len() {
                assert(s[j] == r[j - l.len() - 1]);
            } else {
                assert(s[i] == l[i] && s[j] == r[j - l.len() - 1]);
                T::lemma_transitive(l[i], n.key, r[j - l.len() - 1]);
            }
        }
    }
}

} // verus!
