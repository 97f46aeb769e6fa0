//! A left-leaning red-black tree over `u64` values.
//!
//! The tree keeps itself balanced on every insertion with the classic
//! three-step repair (rotate left, rotate right, color flip), so that
//! membership tests and insertions run in time proportional to the height,
//! which stays logarithmic in the number of stored values.

use vstd::prelude::*;

verus! {

/// The color of a tree link. An absent child counts as `Black`.
#[derive(Debug, Clone, Copy, PartialEq, Eq, Structural)]
pub enum Color {
    Red,
    Black,
}

/// One node of the tree: a value, a color, and up to two children.
///
/// Each node owns its children outright; rotations rebuild parent-to-child
/// links rather than sharing nodes.
#[derive(Debug)]
pub struct Node {
    pub value: u64,
    pub left: Option<Box<Node>>,
    pub right: Option<Box<Node>>,
    pub color: Color,
}

/// A self-balancing binary search tree in the left-leaning red-black style.
///
/// `size` tracks the number of distinct values currently stored, so `len`
/// reports the cardinality of the set of stored values.
#[derive(Debug)]
pub struct RedBlackTree {
    root: Option<Box<Node>>,
    size: u64,
}

/// The set of values stored in a subtree.
pub closed spec fn node_set(t: Option<Box<Node>>) -> Set<u64>
    decreases t,
{
    match t {
        None => Set::empty(),
        Some(n) => node_set(n.left).union(node_set(n.right)).insert(n.value),
    }
}

/// Whether a subtree's root link is red; an absent child is black.
pub open spec fn opt_is_red(t: Option<Box<Node>>) -> bool {
    match t {
        None => false,
        Some(n) => n.color == Color::Red,
    }
}

/// Binary-search-tree ordering: everything left of a node is smaller,
/// everything right of it is larger.
pub closed spec fn bst_ordered(t: Option<Box<Node>>) -> bool
    decreases t,
{
    match t {
        None => true,
        Some(n) => {
            &&& bst_ordered(n.left)
            &&& bst_ordered(n.right)
            &&& (forall|x: u64| node_set(n.left).contains(x) ==> x < n.value)
            &&& (forall|x: u64| node_set(n.right).contains(x) ==> x > n.value)
        },
    }
}

/// Number of black nodes on every path from this subtree's root to a leaf,
/// assuming the subtree is black-balanced.
pub closed spec fn black_height(t: Option<Box<Node>>) -> nat
    decreases t,
{
    match t {
        None => 0,
        Some(n) => black_height(n.left) + if n.color == Color::Black { 1nat } else { 0nat },
    }
}

/// The red-black coloring invariants of a left-leaning red-black subtree:
/// no right child is red, no red node has a red left child, and both
/// children carry the same black height.
pub closed spec fn rb_inv(t: Option<Box<Node>>) -> bool
    decreases t,
{
    match t {
        None => true,
        Some(n) => {
            &&& rb_inv(n.left)
            &&& rb_inv(n.right)
            &&& !opt_is_red(n.right)
            &&& !(n.color == Color::Red && opt_is_red(n.left))
            &&& black_height(n.left) == black_height(n.right)
        },
    }
}

/// A sequence is strictly ascending: every later entry is strictly larger.
pub open spec fn strictly_increasing(s: Seq<u64>) -> bool {
    forall|i: int, j: int| 0 <= i < j < s.len() ==> s[i] < s[j]
}

/// The in-order sequence of a subtree's values: left subtree first, then
/// the node's own value, then the right subtree.
spec fn inorder(t: Option<Box<Node>>) -> Seq<u64>
    decreases t,
{
    match t {
        None => Seq::empty(),
        Some(n) => inorder(n.left) + seq![n.value] + inorder(n.right),
    }
}

/// Number of nodes on the longest path from the root down to a leaf.
pub closed spec fn opt_height(t: Option<Box<Node>>) -> nat
    decreases t,
{
    match t {
        None => 0,
        Some(n) => 1 + if opt_height(n.left) >= opt_height(n.right) {
            opt_height(n.left)
        } else {
            opt_height(n.right)
        },
    }
}

/// Two to the power `e`.
pub open spec fn pow2(e: nat) -> nat
    decreases e,
{
    if e == 0 {
        1
    } else {
        2 * pow2((e - 1) as nat)
    }
}

/// The binary logarithm of `n`, rounded up: zero for `n <= 1`, and
/// otherwise one more than the rounded-up logarithm of half of `n`.
pub open spec fn log2_ceil(n: nat) -> nat
    decreases n,
{
    if n <= 1 {
        0
    } else {
        1 + log2_ceil(((n + 1) / 2) as nat)
    }
}

/// Whether a subtree's root has a red left child.
spec fn opt_red_left(t: Option<Box<Node>>) -> bool {
    match t {
        None => false,
        Some(n) => opt_is_red(n.left),
    }
}

/// The red-black invariants of a subtree, except that its root may be red
/// with a red left child: the shape an insertion hands back to its parent
/// before the parent's own repair pass.
spec fn near_rb(t: Option<Box<Node>>) -> bool {
    match t {
        None => true,
        Some(n) => {
            &&& rb_inv(n.left)
            &&& rb_inv(n.right)
            &&& !opt_is_red(n.right)
            &&& black_height(n.left) == black_height(n.right)
        },
    }
}

/// The state of a node whose left child was just replaced by the result of
/// an insertion: the left subtree may carry a double red at its top, but
/// only below a black parent; the right subtree is untouched and valid.
spec fn shape_left_updated(m: Node) -> bool {
    &&& near_rb(m.left)
    &&& rb_inv(m.right)
    &&& !opt_is_red(m.right)
    &&& black_height(m.left) == black_height(m.right)
    &&& (opt_is_red(m.left) && opt_red_left(m.left)) ==> m.color == Color::Black
}

/// The state of a node whose right child was just replaced by the result of
/// an insertion: the right subtree may lean red at its top but carries no
/// double red; the left subtree is untouched and valid.
spec fn shape_right_updated(m: Node) -> bool {
    &&& rb_inv(m.left)
    &&& near_rb(m.right)
    &&& !(m.color == Color::Red && opt_is_red(m.left))
    &&& !(opt_is_red(m.right) && opt_red_left(m.right))
    &&& black_height(m.left) == black_height(m.right)
}

/// Unfolds the recursive spec functions one level below a present root.
proof fn lemma_unfold(t: Option<Box<Node>>)
    requires
        t is Some,
    ensures
        node_set(t) == node_set(t.unwrap().left).union(node_set(t.unwrap().right)).insert(
            t.unwrap().value,
        ),
        black_height(t) == black_height(t.unwrap().left) + if t.unwrap().color == Color::Black {
            1nat
        } else {
            0nat
        },
        bst_ordered(t) == bst_ordered(Some(t.unwrap())),
        rb_inv(t) == rb_inv(Some(t.unwrap())),
        near_rb(t) == near_rb(Some(t.unwrap())),
        opt_is_red(t) == (t.unwrap().color == Color::Red),
        opt_red_left(t) == opt_is_red(t.unwrap().left),
        opt_height(t) == 1 + if opt_height(t.unwrap().left) >= opt_height(t.unwrap().right) {
            opt_height(t.unwrap().left)
        } else {
            opt_height(t.unwrap().right)
        },
        inorder(t) == inorder(t.unwrap().left) + seq![t.unwrap().value] + inorder(
            t.unwrap().right,
        ),
{
    assert(t == Some(t.unwrap()));
}

/// A fully valid subtree in particular satisfies the relaxed shape.
proof fn lemma_rb_near(t: Option<Box<Node>>)
    requires
        rb_inv(t),
    ensures
        near_rb(t),
{
    if t is Some {
        lemma_unfold(t);
    }
}

/// The set of values in a subtree is finite.
proof fn lemma_node_set_finite(t: Option<Box<Node>>)
    ensures
        node_set(t).finite(),
    decreases t,
{
    match t {
        None => {},
        Some(n) => {
            lemma_node_set_finite(n.left);
            lemma_node_set_finite(n.right);
        },
    }
}

/// In-order traversal of an ordered subtree enumerates exactly its set of
/// values, in strictly ascending order.
proof fn lemma_inorder_props(t: Option<Box<Node>>)
    requires
        bst_ordered(t),
    ensures
        strictly_increasing(inorder(t)),
        inorder(t).to_set() == node_set(t),
    decreases t,
{
    match t {
        None => {
            assert(inorder(t).to_set() =~= node_set(t));
        },
        Some(n) => {
            lemma_inorder_props(n.left);
            lemma_inorder_props(n.right);
            lemma_unfold(t);
            let sl = inorder(n.left);
            let sr = inorder(n.right);
            let v = n.value;
            let s = inorder(t);
            assert(s == sl + seq![v] + sr);
            assert(s.len() == sl.len() + 1 + sr.len());
            assert forall|x: u64| s.to_set().contains(x) implies node_set(t).contains(x) by {
                let i = choose|i: int| 0 <= i < s.len() && s[i] == x;
                if i < sl.len() {
                    assert(sl[i] == x);
                    assert(sl.contains(x));
                } else if i == sl.len() {
                    assert(x == v);
                } else {
                    assert(sr[i - sl.len() - 1] == x);
                    assert(sr.contains(x));
                }
            }
            assert forall|x: u64| node_set(t).contains(x) implies s.to_set().contains(x) by {
                if node_set(n.left).contains(x) {
                    let i = choose|i: int| 0 <= i < sl.len() && sl[i] == x;
                    assert(s[i] == x);
                } else if node_set(n.right).contains(x) {
                    let i = choose|i: int| 0 <= i < sr.len() && sr[i] == x;
                    assert(s[sl.len() + 1 + i] == x);
                } else {
                    assert(x == v);
                    assert(s[sl.len() as int] == x);
                }
            }
            assert(s.to_set() =~= node_set(t));
            assert forall|i: int, j: int| 0 <= i < j < s.len() implies s[i] < s[j] by {
                if i < sl.len() {
                    assert(sl.contains(sl[i]));
                    assert(node_set(n.left).contains(s[i]));
                    assert(s[i] < v);
                    if j > sl.len() {
                        assert(sr.contains(sr[j - sl.len() - 1]));
                        assert(node_set(n.right).contains(s[j]));
                    }
                } else if i == sl.len() {
                    assert(s[i] == v);
                    assert(sr.contains(sr[j - sl.len() - 1]));
                    assert(node_set(n.right).contains(s[j]));
                } else {
                    assert(s[i] == sr[i - sl.len() - 1]);
                    assert(s[j] == sr[j - sl.len() - 1]);
                }
            }
        },
    }
}

impl View for RedBlackTree {
    type V = Set<u64>;

    /// A tree abstracts to the set of values it stores.
    closed spec fn view(&self) -> Set<u64> {
        node_set(self.root)
    }
}

impl RedBlackTree {
    /// Well-formedness: the tree is a binary search tree, satisfies the
    /// red-black coloring invariants, has a black root, and its tracked
    /// size equals the number of distinct stored values.
    pub closed spec fn wf(self) -> bool {
        &&& bst_ordered(self.root)
        &&& rb_inv(self.root)
        &&& !opt_is_red(self.root)
        &&& self.size == node_set(self.root).len()
    }

    /// The height of the tree: the number of nodes on its longest
    /// root-to-leaf path.
    pub closed spec fn height(self) -> nat {
        opt_height(self.root)
    }

    /// Creates an empty tree.
    pub fn new() -> (tree: Self)
        ensures
            tree.wf(),
            tree@ == Set::<u64>::empty(),
    {
        RedBlackTree { root: None, size: 0 }
    }

    /// The number of distinct values currently stored.
    pub fn len(&self) -> (n: u64)
        requires
            self.wf(),
        ensures
            n == self@.len(),
    {
        self.size
    }

    /// Removes every value, leaving the tree empty.
    pub fn clear(&mut self)
        ensures
            final(self).wf(),
            final(self)@ == Set::<u64>::empty(),
    {
        self.root = None;
        self.size = 0;
    }

    /// Whether `val` is currently stored in the tree.
    ///
    /// Descends iteratively from the root: right when the node's value is
    /// smaller than `val`, left when it is larger, reporting a hit on
    /// equality and a miss when a child is absent.
    pub fn contains(&self, val: u64) -> (r: bool)
        requires
            self.wf(),
        ensures
            r == self@.contains(val),
    {
        let mut cur: &Option<Box<Node>> = &self.root;
        loop
            invariant
                bst_ordered(*cur),
                node_set(*cur).contains(val) == self@.contains(val),
            decreases opt_height(*cur),
        {
            match cur {
                None => {
                    return false;
                },
                Some(n) => {
                    if n.value < val {
                        proof {
                            assert(!node_set(n.left).contains(val));
                        }
                        cur = &n.right;
                    } else if n.value > val {
                        proof {
                            assert(!node_set(n.right).contains(val));
                        }
                        cur = &n.left;
                    } else {
                        return true;
                    }
                },
            }
        }
    }

    /// Inserts `val` into the tree, or replaces the stored value when an
    /// equal one is already present, rebalancing on the way back up so that
    /// all red-black invariants hold again when the call returns.
    pub fn insert(&mut self, val: u64)
        requires
            old(self).wf(),
            old(self)@.len() < u64::MAX,
        ensures
            final(self).wf(),
            final(self)@ == old(self)@.insert(val),
    {
        let present = self.contains(val);
        let root = self.root.take();
        let mut new_root = Self::insert_help(root, val);
        let ghost before = new_root;
        new_root.color = Color::Black;
        proof {
            assert(node_set(Some(new_root)) =~= node_set(Some(before)));
            assert(bst_ordered(Some(new_root)));
            assert(rb_inv(Some(new_root)));
            lemma_node_set_finite(old(self).root);
            vstd::set::axiom_set_insert_len::<u64>(node_set(old(self).root), val);
        }
        self.root = Some(new_root);
        if !present {
            self.size = self.size + 1;
        }
    }

    /// Inserts every value of `vals`, in order: the resulting tree is the
    /// same as the one that as many sequential `insert` calls produce.
    pub fn insert_all(&mut self, vals: Vec<u64>)
        requires
            old(self).wf(),
            old(self)@.len() + vals@.len() <= u64::MAX,
        ensures
            final(self).wf(),
            final(self)@ == old(self)@.union(vals@.to_set()),
    {
        let ghost orig = *self;
        let mut i: usize = 0;
        while i < vals.len()
            invariant
                self.wf(),
                i <= vals.len(),
                self@ == orig@.union(vals@.take(i as int).to_set()),
                self@.len() <= orig@.len() + i,
                orig@.len() + vals@.len() <= u64::MAX,
            decreases vals.len() - i,
        {
            let v = vals[i];
            let ghost prev = *self;
            self.insert(v);
            proof {
                lemma_node_set_finite(prev.root);
                vstd::set::axiom_set_insert_len::<u64>(prev@, v);
                assert(vals@.take(i as int + 1) =~= vals@.take(i as int).push(v));
                vals@.take(i as int).lemma_push_to_set_commute(v);
                assert(self@ =~= orig@.union(vals@.take(i as int + 1).to_set()));
            }
            i = i + 1;
        }
        proof {
            assert(vals@.take(vals.len() as int) == vals@);
        }
    }

    /// Recursively inserts `val` below `node`, creating a red leaf at an
    /// absent child and repairing each node on the way back up. The result
    /// satisfies all red-black invariants except that its root may be red,
    /// and may even carry a red left child when `node`'s own root was red;
    /// the caller's repair pass (or the final blackening of the tree root)
    /// resolves that.
    fn insert_help(node: Option<Box<Node>>, val: u64) -> (r: Box<Node>)
        requires
            bst_ordered(node),
            rb_inv(node),
        ensures
            bst_ordered(Some(r)),
            node_set(Some(r)) == node_set(node).insert(val),
            near_rb(Some(r)),
            black_height(Some(r)) == black_height(node),
            (opt_is_red(Some(r)) && opt_red_left(Some(r))) ==> opt_is_red(node),
        decreases node,
    {
        match node {
            None => {
                let n = Box::new(Node::with_color(val, Color::Red));
                proof {
                    assert(node_set(Some(n)) =~= node_set(node).insert(val));
                }
                n
            },
            Some(cnode) => {
                let mut cnode = cnode;
                let ghost orig = cnode;
                proof {
                    assert(node == Some(orig));
                }
                if val < cnode.value {
                    let l = cnode.left.take();
                    let h = Self::insert_help(l, val);
                    cnode.left = Some(h);
                    proof {
                        assert(shape_left_updated(*cnode));
                        assert forall|x: u64| node_set(cnode.left).contains(x) implies x
                            < cnode.value by {
                            assert(node_set(orig.left).contains(x) || x == val);
                        }
                        assert(bst_ordered(Some(cnode)));
                        assert(node_set(Some(cnode)) =~= node_set(node).insert(val));
                    }
                } else if val > cnode.value {
                    let rsub = cnode.right.take();
                    let h = Self::insert_help(rsub, val);
                    cnode.right = Some(h);
                    proof {
                        assert(shape_right_updated(*cnode));
                        assert forall|x: u64| node_set(cnode.right).contains(x) implies x
                            > cnode.value by {
                            assert(node_set(orig.right).contains(x) || x == val);
                        }
                        assert(bst_ordered(Some(cnode)));
                        assert(node_set(Some(cnode)) =~= node_set(node).insert(val));
                    }
                } else {
                    cnode.value = val;
                    proof {
                        assert(cnode == orig);
                        lemma_rb_near(orig.left);
                        assert(shape_left_updated(*cnode));
                        assert(node_set(node).contains(val));
                        assert(node_set(Some(cnode)) =~= node_set(node).insert(val));
                    }
                }
                let ghost mid = cnode;
                let r = Self::repair(cnode);
                proof {
                    assert(black_height(Some(mid)) == black_height(node));
                }
                r
            },
        }
    }

    /// Applies the three-step repair at a node after one of its children
    /// was replaced by the result of an insertion: rotate left to cure a
    /// red right link, rotate right to cure a doubled red left link, and
    /// flip colors when both children are red.
    fn repair(m: Box<Node>) -> (r: Box<Node>)
        requires
            bst_ordered(Some(m)),
            shape_left_updated(*m) || shape_right_updated(*m),
        ensures
            bst_ordered(Some(r)),
            node_set(Some(r)) == node_set(Some(m)),
            near_rb(Some(r)),
            black_height(Some(r)) == black_height(Some(m)),
            (opt_is_red(Some(r)) && opt_red_left(Some(r))) ==> m.color == Color::Red,
    {
        let ghost m0 = m;
        let mut m = m;
        if is_red(&m.right) && !is_red(&m.left) {
            let ghost pre = m;
            m = Self::rotate_left(m);
            proof {
                assert(!shape_left_updated(*pre));
                let h = pre.right.unwrap();
                lemma_unfold(pre.right);
                assert(!opt_is_red(h.left));
                let nl = m.left.unwrap();
                assert(black_height(nl.left) == black_height(nl.right));
                assert(rb_inv(Some(nl)));
                assert(rb_inv(m.left));
                assert(rb_inv(m.right) && !opt_is_red(m.right));
                assert(black_height(m.left) == black_height(m.right));
                assert(black_height(Some(m)) == black_height(Some(m0)));
            }
        }
        let ll_red = match &m.left {
            Some(l) => is_red(&l.left),
            None => false,
        };
        if is_red(&m.left) && ll_red {
            let ghost pre = m;
            m = Self::rotate_right(m);
            proof {
                let h = pre.left.unwrap();
                lemma_unfold(pre.left);
                assert(near_rb(pre.left)) by {
                    if !shape_left_updated(*pre) {
                        lemma_rb_near(pre.left);
                    }
                }
                assert(pre.color == Color::Black);
                let nr = m.right.unwrap();
                assert(black_height(nr.left) == black_height(nr.right));
                assert(rb_inv(Some(nr)));
                assert(rb_inv(m.right));
                assert(rb_inv(m.left));
                assert(opt_is_red(m.left));
                assert(black_height(m.left) == black_height(m.right));
                assert(black_height(Some(m)) == black_height(Some(m0)));
            }
        }
        if is_red(&m.left) && is_red(&m.right) {
            proof {
                if m0.left is Some {
                    lemma_unfold(m0.left);
                }
                if m0.right is Some {
                    lemma_unfold(m0.right);
                }
                assert(rb_inv(m.left));
                assert(rb_inv(m.right));
                assert(black_height(m.left) == black_height(m.right));
                assert(m.color == Color::Black);
            }
            let ghost q = m;
            (&mut *m).flip_color();
            match m.left.take() {
                Some(mut lchild) => {
                    (&mut *lchild).flip_color();
                    m.left = Some(lchild);
                },
                None => {},
            }
            match m.right.take() {
                Some(mut rchild) => {
                    (&mut *rchild).flip_color();
                    m.right = Some(rchild);
                },
                None => {},
            }
            proof {
                lemma_unfold(m.left);
                lemma_unfold(m.right);
                lemma_unfold(q.left);
                lemma_unfold(q.right);
                assert(node_set(m.left) =~= node_set(q.left));
                assert(node_set(m.right) =~= node_set(q.right));
                assert(node_set(Some(m)) =~= node_set(Some(q)));
                assert(rb_inv(m.left));
                assert(rb_inv(m.right));
                assert(black_height(m.left) == black_height(q.left) + 1);
                assert(black_height(m.right) == black_height(q.right) + 1);
                assert(black_height(Some(m)) == black_height(Some(q)));
                assert forall|x: u64| node_set(m.left).contains(x) implies x < m.value by {}
                assert forall|x: u64| node_set(m.right).contains(x) implies x > m.value by {}
                assert(bst_ordered(m.left) == bst_ordered(q.left));
                assert(bst_ordered(m.right) == bst_ordered(q.right));
                assert(bst_ordered(Some(m)));
            }
        }
        proof {
            if m0.left is Some {
                lemma_unfold(m0.left);
            }
            if m0.right is Some {
                lemma_unfold(m0.right);
            }
        }
        m
    }

    /// Rotates left at `node`: its red-leaning-right child becomes the new
    /// subtree head, keeping the in-order contents unchanged. The new head
    /// inherits `node`'s color and `node` itself turns red.
    fn rotate_left(node: Box<Node>) -> (r: Box<Node>)
        requires
            node.right is Some,
            bst_ordered(Some(node)),
        ensures
            bst_ordered(Some(r)),
            node_set(Some(r)) == node_set(Some(node)),
            r.color == node.color,
            r.value == node.right.unwrap().value,
            r.right == node.right.unwrap().right,
            r.left is Some,
            r.left.unwrap().color == Color::Red,
            r.left.unwrap().value == node.value,
            r.left.unwrap().left == node.left,
            r.left.unwrap().right == node.right.unwrap().left,
    {
        let ghost orig = node;
        let mut node = node;
        let mut right = node.right.take().unwrap();
        node.right = right.left.take();
        right.color = node.color;
        node.color = Color::Red;
        right.left = Some(node);
        proof {
            let r0 = orig.right.unwrap();
            assert(orig.right == Some(r0));
            assert(node_set(orig.right) == node_set(r0.left).union(node_set(r0.right)).insert(
                r0.value,
            ));
            assert(bst_ordered(Some(r0)));
            assert(node_set(Some(node)) == node_set(orig.left).union(node_set(r0.left)).insert(
                orig.value,
            ));
            assert(node_set(Some(right)) == node_set(Some(node)).union(node_set(r0.right)).insert(
                r0.value,
            ));
            assert(node_set(Some(right)) =~= node_set(Some(orig)));
            assert(node_set(orig.right).contains(r0.value));
            assert forall|x: u64| node_set(r0.left).contains(x) implies x > orig.value by {
                assert(node_set(orig.right).contains(x));
            }
            assert(bst_ordered(Some(node)));
            assert forall|x: u64| node_set(Some(node)).contains(x) implies x < r0.value by {
                if node_set(orig.left).contains(x) {
                    assert(x < orig.value);
                }
            }
            assert(bst_ordered(Some(right)));
        }
        right
    }

    /// Rotates right at `node`: the mirror image of `rotate_left`, moving a
    /// red left child up to become the new subtree head.
    fn rotate_right(node: Box<Node>) -> (r: Box<Node>)
        requires
            node.left is Some,
            bst_ordered(Some(node)),
        ensures
            bst_ordered(Some(r)),
            node_set(Some(r)) == node_set(Some(node)),
            r.color == node.color,
            r.value == node.left.unwrap().value,
            r.left == node.left.unwrap().left,
            r.right is Some,
            r.right.unwrap().color == Color::Red,
            r.right.unwrap().value == node.value,
            r.right.unwrap().right == node.right,
            r.right.unwrap().left == node.left.unwrap().right,
    {
        let ghost orig = node;
        let mut node = node;
        let mut left = node.left.take().unwrap();
        node.left = left.right.take();
        left.color = node.color;
        node.color = Color::Red;
        left.right = Some(node);
        proof {
            let l0 = orig.left.unwrap();
            assert(orig.left == Some(l0));
            assert(node_set(orig.left) == node_set(l0.left).union(node_set(l0.right)).insert(
                l0.value,
            ));
            assert(bst_ordered(Some(l0)));
            assert(node_set(Some(node)) == node_set(l0.right).union(node_set(orig.right)).insert(
                orig.value,
            ));
            assert(node_set(Some(left)) == node_set(l0.left).union(node_set(Some(node))).insert(
                l0.value,
            ));
            assert(node_set(Some(left)) =~= node_set(Some(orig)));
            assert(node_set(orig.left).contains(l0.value));
            assert forall|x: u64| node_set(l0.right).contains(x) implies x < orig.value by {
                assert(node_set(orig.left).contains(x));
            }
            assert(bst_ordered(Some(node)));
            assert forall|x: u64| node_set(Some(node)).contains(x) implies x > l0.value by {
                if node_set(orig.right).contains(x) {
                    assert(x > orig.value);
                }
            }
            assert(bst_ordered(Some(left)));
        }
        left
    }

    /// Consumes the tree and produces its values as a vector in strictly
    /// ascending order: the unique sorted enumeration of the stored set.
    pub fn into_vec(self) -> (r: Vec<u64>)
        requires
            self.wf(),
        ensures
            strictly_increasing(r@),
            r@.to_set() == self@,
            r@.len() == self@.len(),
    {
        let mut res: Vec<u64> = Vec::new();
        from_recursive(&self.root, &mut res);
        proof {
            lemma_inorder_props(self.root);
            assert(res@ =~= inorder(self.root));
            assert(res@.no_duplicates());
            res@.unique_seq_to_set();
        }
        res
    }

    /// Deletion is not part of the supported surface: every call reports
    /// failure and leaves the tree untouched.
    pub fn delete(&self, val: u64) -> (r: bool)
        ensures
            r == false,
    {
        let _ = val;
        false
    }
}

/// Appends the in-order sequence of the subtree under `node` to `res`.
fn from_recursive(node: &Option<Box<Node>>, res: &mut Vec<u64>)
    ensures
        final(res)@ == old(res)@ + inorder(*node),
    decreases *node,
{
    match node {
        None => {
            proof {
                assert(res@ =~= old(res)@ + inorder(*node));
            }
        },
        Some(n) => {
            from_recursive(&n.left, res);
            res.push(n.value);
            from_recursive(&n.right, res);
            proof {
                lemma_unfold(*node);
                assert(res@ =~= old(res)@ + inorder(*node));
            }
        },
    }
}

/// If two to the `k` is at most `n`, then `k` is at most the rounded-up
/// binary logarithm of `n`.
proof fn lemma_log2_ceil_bound(k: nat, n: nat)
    requires
        pow2(k) <= n,
    ensures
        k <= log2_ceil(n),
    decreases k,
{
    if k > 0 {
        assert(pow2(k) == 2 * pow2((k - 1) as nat));
        assert(pow2((k - 1) as nat) >= 1) by {
            lemma_pow2_positive((k - 1) as nat);
        }
        lemma_log2_ceil_bound((k - 1) as nat, ((n + 1) / 2) as nat);
    }
}

/// Two to any power is positive.
proof fn lemma_pow2_positive(e: nat)
    ensures
        pow2(e) >= 1,
    decreases e,
{
    if e > 0 {
        lemma_pow2_positive((e - 1) as nat);
    }
}

/// Under the red-black invariants a subtree's height is at most twice its
/// black height, plus one when its root is red: red links never chain, so
/// at least every other link on a path is black.
proof fn lemma_height_bounded_by_black(t: Option<Box<Node>>)
    requires
        rb_inv(t),
    ensures
        opt_height(t) <= 2 * black_height(t) + if opt_is_red(t) {
            1nat
        } else {
            0nat
        },
    decreases t,
{
    match t {
        None => {},
        Some(n) => {
            assert(t == Some(n));
            lemma_height_bounded_by_black(n.left);
            lemma_height_bounded_by_black(n.right);
        },
    }
}

/// Under the red-black invariants a subtree of black height `b` stores at
/// least `2^b - 1` values: black balance forces the tree to be bushy.
proof fn lemma_black_height_size(t: Option<Box<Node>>)
    requires
        rb_inv(t),
        bst_ordered(t),
    ensures
        pow2(black_height(t)) <= node_set(t).len() + 1,
    decreases t,
{
    match t {
        None => {},
        Some(n) => {
            assert(t == Some(n));
            lemma_black_height_size(n.left);
            lemma_black_height_size(n.right);
            lemma_node_set_finite(n.left);
            lemma_node_set_finite(n.right);
            assert(node_set(n.left).disjoint(node_set(n.right))) by {
                assert forall|x: u64|
                    node_set(n.left).contains(x) implies !node_set(n.right).contains(x) by {}
            }
            vstd::set_lib::lemma_set_disjoint_lens(node_set(n.left), node_set(n.right));
            assert(node_set(n.left) + node_set(n.right) == node_set(n.left).union(
                node_set(n.right),
            ));
            vstd::set::axiom_set_insert_len::<u64>(
                node_set(n.left).union(node_set(n.right)),
                n.value,
            );
            assert(!node_set(n.left).union(node_set(n.right)).contains(n.value));
            assert(node_set(t).len() == node_set(n.left).len() + node_set(n.right).len() + 1);
        },
    }
}

/// Height bound: a well-formed tree that stores `n` distinct values has
/// height at most twice the rounded-up binary logarithm of `n + 1`.
pub proof fn lemma_height_bound(t: RedBlackTree)
    requires
        t.wf(),
    ensures
        t.height() <= 2 * log2_ceil(t@.len() + 1),
{
    lemma_height_bounded_by_black(t.root);
    lemma_black_height_size(t.root);
    lemma_log2_ceil_bound(black_height(t.root), t@.len() + 1);
}

/// Inserting a value that a set already contains leaves the set unchanged:
/// an insertion of an already-present value replaces it and the ordered
/// export keeps exactly the same content.
pub proof fn lemma_insert_present(s: Set<u64>, v: u64)
    requires
        s.contains(v),
    ensures
        s.insert(v) == s,
{
    assert(s.insert(v) =~= s);
}

/// The set that a chain of single insertions reaches, one `Set::insert`
/// per value of `vals`, in order.
pub open spec fn insert_chain(s: Set<u64>, vals: Seq<u64>) -> Set<u64>
    decreases vals.len(),
{
    if vals.len() == 0 {
        s
    } else {
        insert_chain(s.insert(vals[0]), vals.drop_first())
    }
}

/// Bulk equivalence at the level of stored sets: a chain of single
/// insertions reaches exactly the set that `insert_all` promises, the
/// union of the start set with the values of the sequence.
pub proof fn lemma_insert_chain_is_union(s: Set<u64>, vals: Seq<u64>)
    ensures
        insert_chain(s, vals) == s.union(vals.to_set()),
    decreases vals.len(),
{
    if vals.len() == 0 {
        assert(insert_chain(s, vals) =~= s.union(vals.to_set()));
    } else {
        lemma_insert_chain_is_union(s.insert(vals[0]), vals.drop_first());
        assert forall|x: u64| vals.to_set().contains(x) implies (x == vals[0]
            || vals.drop_first().to_set().contains(x)) by {
            let i = choose|i: int| 0 <= i < vals.len() && vals[i] == x;
            if i > 0 {
                assert(vals.drop_first()[i - 1] == x);
            }
        }
        assert forall|x: u64| vals.drop_first().to_set().contains(x) implies vals.to_set().contains(
            x,
        ) by {
            let i = choose|i: int| 0 <= i < vals.drop_first().len() && vals.drop_first()[i] == x;
            assert(vals[i + 1] == x);
        }
        assert(vals.to_set().contains(vals[0]));
        assert(s.insert(vals[0]).union(vals.drop_first().to_set()) =~= s.union(vals.to_set()));
    }
}

/// Two strictly ascending sequences that enumerate the same set are equal,
/// entry for entry: the ordered export of a tree is determined by the set
/// of stored values alone, however and in whatever order the tree was
/// built.
pub proof fn lemma_sorted_unique(s1: Seq<u64>, s2: Seq<u64>)
    requires
        strictly_increasing(s1),
        strictly_increasing(s2),
        s1.to_set() == s2.to_set(),
    ensures
        s1 == s2,
    decreases s1.len(),
{
    if s1.len() == 0 {
        if s2.len() > 0 {
            assert(s2.contains(s2[0]));
            assert(s1.to_set().contains(s2[0]));
            assert(false);
        }
        assert(s1 =~= s2);
    } else {
        if s2.len() == 0 {
            assert(s1.contains(s1[0]));
            assert(s2.to_set().contains(s1[0]));
            assert(false);
        }
        assert(s1.contains(s1[0]));
        assert(s2.to_set().contains(s1[0]));
        let j = choose|j: int| 0 <= j < s2.len() && s2[j] == s1[0];
        assert(s2[0] <= s1[0]);
        assert(s2.contains(s2[0]));
        assert(s1.to_set().contains(s2[0]));
        let i = choose|i: int| 0 <= i < s1.len() && s1[i] == s2[0];
        assert(s1[0] <= s2[0]);
        let t1 = s1.drop_first();
        let t2 = s2.drop_first();
        assert forall|a: int, b: int| 0 <= a < b < t1.len() implies t1[a] < t1[b] by {
            assert(t1[a] == s1[a + 1]);
            assert(t1[b] == s1[b + 1]);
        }
        assert forall|a: int, b: int| 0 <= a < b < t2.len() implies t2[a] < t2[b] by {
            assert(t2[a] == s2[a + 1]);
            assert(t2[b] == s2[b + 1]);
        }
        assert forall|x: u64| t1.to_set().contains(x) implies t2.to_set().contains(x) by {
            let a = choose|a: int| 0 <= a < t1.len() && t1[a] == x;
            assert(s1[a + 1] == x);
            assert(x > s1[0]);
            assert(s2.to_set().contains(x));
            let b = choose|b: int| 0 <= b < s2.len() && s2[b] == x;
            assert(b > 0);
            assert(t2[b - 1] == x);
        }
        assert forall|x: u64| t2.to_set().contains(x) implies t1.to_set().contains(x) by {
            let a = choose|a: int| 0 <= a < t2.len() && t2[a] == x;
            assert(s2[a + 1] == x);
            assert(x > s2[0]);
            assert(s1.to_set().contains(x));
            let b = choose|b: int| 0 <= b < s1.len() && s1[b] == x;
            assert(b > 0);
            assert(t1[b - 1] == x);
        }
        assert(t1.to_set() =~= t2.to_set());
        lemma_sorted_unique(t1, t2);
        assert forall|a: int| 0 <= a < s1.len() implies s1[a] == s2[a] by {
            if a > 0 {
                assert(s1[a] == t1[a - 1]);
                assert(s2[a] == t2[a - 1]);
            }
        }
        assert(s1 =~= s2);
    }
}

impl Default for RedBlackTree {
    /// The default tree is the empty tree.
    fn default() -> (tree: Self)
        ensures
            tree.wf(),
            tree@ == Set::<u64>::empty(),
    {
        RedBlackTree::new()
    }
}

/// Whether an optional node is a red node; an absent child is black.
fn is_red(node: &Option<Box<Node>>) -> (r: bool)
    ensures
        r == opt_is_red(*node),
{
    match node {
        Some(n) => n.is_red(),
        None => false,
    }
}

impl Node {
    /// Creates a black node with no children.
    pub fn new(val: u64) -> (n: Node)
        ensures
            n.value == val,
            n.color == Color::Black,
            n.left is None,
            n.right is None,
    {
        Node { value: val, left: None, right: None, color: Color::Black }
    }

    /// Creates a childless node of the given color.
    pub fn with_color(val: u64, color: Color) -> (n: Node)
        ensures
            n.value == val,
            n.color == color,
            n.left is None,
            n.right is None,
    {
        Node { value: val, left: None, right: None, color }
    }

    /// Toggles this node's color.
    pub fn flip_color(&mut self)
        ensures
            final(self).color == (if old(self).color == Color::Red { Color::Black } else { Color::Red }),
            final(self).value == old(self).value,
            final(self).left == old(self).left,
            final(self).right == old(self).right,
    {
        match self.color {
            Color::Red => self.color = Color::Black,
            Color::Black => self.color = Color::Red,
        }
    }

    /// Whether this node is red.
    pub fn is_red(&self) -> (r: bool)
        ensures
            r == (self.color == Color::Red),
    {
        self.color == Color::Red
    }
}

} // verus!
