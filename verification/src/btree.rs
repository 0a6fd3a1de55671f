//! The B-tree itself: a thin owner of the root node.
//!
//! Everything but one case is delegated to [`Node`]; the tree handles the case
//! a node cannot handle for itself — a root left overflowing after an
//! insertion, which has no parent to receive its promoted median. The tree
//! then replaces the root by a new one whose two children are the halves of
//! the old root; that root split is the only operation that changes the
//! tree's height, and it always grows it by exactly one.

use vstd::prelude::*;

use crate::node::Node;
use crate::node::NodeKind;
use crate::node::lemma_split_parts;
use crate::seq_facts::lemma_insert_seq_contains;
use crate::seq_facts::lemma_sorted_insert_seq;
use crate::seq_facts::lemma_sorted_unique;
use crate::seq_facts::sorted_insert_seq;
use crate::seq_facts::sorted_strict;

verus! {

/// An in-memory B-tree over `u64` keys, created with a fixed order and mutated
/// only through [`BTree::insert`].
#[derive(Debug)]
pub struct BTree {
    /// The root node; every key of the tree lives in its subtree.
    pub root: Node,
}

impl BTree {
    /// The tree is well-formed: its root satisfies the full node invariant and
    /// carries the root kind.
    pub open spec fn wf(self) -> bool {
        self.root.inv() && self.root.kind == NodeKind::Root
    }

    /// The ascending sequence of every key held by the tree.
    pub open spec fn in_order(self) -> Seq<u64> {
        self.root.in_order()
    }

    /// Whether the tree holds `key`.
    pub open spec fn contains_key(self, key: u64) -> bool {
        self.root.contains_key(key)
    }

    /// The height of the tree: zero while the root is childless.
    pub open spec fn height(self) -> nat {
        self.root.height()
    }

    /// The order shared by every node of the tree.
    pub open spec fn order(self) -> usize {
        self.root.order
    }

    /// Creates an empty tree of the given order. An order below three would
    /// leave the halves of a split degenerate, so such orders are ruled out.
    pub fn new(order: usize) -> (tree: BTree)
        requires
            3 <= order,
        ensures
            tree.wf(),
            tree.order() == order,
            tree.height() == 0,
            tree.in_order() == Seq::<u64>::empty(),
    {
        BTree { root: Node::new(order) }
    }

    /// Membership query: the caller's key back when the tree holds it, nothing
    /// when it does not.
    pub fn get<'a>(&self, key: &'a u64) -> (r: Option<&'a u64>)
        requires
            self.wf(),
        ensures
            self.contains_key(*key) ==> r == Some(key),
            !self.contains_key(*key) ==> r.is_none(),
    {
        self.root.get(key)
    }

    /// Extracts the full key sequence of the tree, ascending and free of
    /// duplicates.
    pub fn traverse(&self) -> (r: Vec<u64>)
        requires
            self.wf(),
        ensures
            r@ == self.in_order(),
    {
        self.root.traverse()
    }

    /// Inserts `key`: afterwards the tree holds exactly its old keys and
    /// `key`, stays well-formed, and has grown in height only if the root
    /// itself overflowed and was split — by exactly one level, leaving a root
    /// with a single key.
    #[verifier::rlimit(100)]
    pub fn insert(&mut self, key: u64)
        requires
            old(self).wf(),
        ensures
            final(self).wf(),
            final(self).order() == old(self).order(),
            forall|x: u64|
                final(self).contains_key(x) <==> old(self).contains_key(x) || x == key,
            sorted_strict(final(self).in_order()),
            final(self).in_order() == sorted_insert_seq(old(self).in_order(), key),
            old(self).height() <= final(self).height() <= old(self).height() + 1,
            final(self).height() > old(self).height() ==> final(self).root.keys@.len() == 1,
    {
        self.root.insert(key);
        let ghost mid = *self;
        if self.root.is_overflow() {
            let ghost c = self.root;
            let order = self.root.order;
            let index = order / 2;
            let leaf_root = self.root.children.len() == 0;
            let halves_kind = if leaf_root {
                NodeKind::Leaf
            } else {
                NodeKind::Internal
            };
            let mut left_keys = self.root.keys.split_off(0);
            let right_keys = left_keys.split_off(index + 1);
            let median = left_keys.pop().unwrap();
            let mut left_children = self.root.children.split_off(0);
            let right_children: Vec<Node> = if leaf_root {
                Vec::new()
            } else {
                left_children.split_off(index + 1)
            };
            let left = Node { order, kind: halves_kind, keys: left_keys, children: left_children };
            let right = Node {
                order,
                kind: halves_kind,
                keys: right_keys,
                children: right_children,
            };
            proof {
                assert(left.keys@ =~= c.keys@.subrange(0, index as int));
                assert(right.keys@ =~= c.keys@.subrange(index + 1, c.keys@.len() as int));
                if c.children@.len() != 0 {
                    assert(left.children@ =~= c.children@.subrange(0, index + 1));
                    assert(right.children@ =~= c.children@.subrange(
                        index + 1,
                        c.children@.len() as int,
                    ));
                }
                lemma_split_parts(c, left, right);
            }
            let mut new_keys: Vec<u64> = Vec::new();
            new_keys.push(median);
            let mut new_children: Vec<Node> = Vec::new();
            new_children.push(left);
            new_children.push(right);
            self.root = Node { order, kind: NodeKind::Root, keys: new_keys, children: new_children };
            proof {
                let r = self.root;
                let ghost m = c.keys@[index as int];
                assert(r.keys@ =~= seq![m]);
                assert(r.children@ =~= seq![left, right]);
                assert(r.children@[0] == left);
                assert(r.children@[1] == right);
                assert(sorted_strict(r.keys@));
                assert forall|i: int| 0 <= i < r.children@.len() implies (#[trigger] r.children@[i]).inv()
                    && r.children@[i].order == r.order && r.children@[i].height() + 1
                    == r.height() by {
                    assert(r.height() == 1 + left.height());
                }
                assert(r.inv());
                // the new root's sequence is exactly the old root's
                assert(r.in_order() == r.in_order_from(0));
                assert(r.in_order_from(0) == r.children@[0].in_order() + seq![r.keys@[0]]
                    + r.in_order_from(1));
                assert(r.in_order_from(1) == r.children@[1].in_order());
                assert(r.in_order() == c.in_order());
                assert(self.height() == c.height() + 1);
            }
        }
        proof {
            self.root.lemma_sorted_in_order();
            old(self).root.lemma_sorted_in_order();
            lemma_sorted_insert_seq(old(self).in_order(), key);
            assert forall|x: u64|
                self.contains_key(x) <==> old(self).contains_key(x) || x == key by {
                assert(mid.root.contains_key(x) <==> old(self).root.contains_key(x) || x == key);
                assert(self.in_order() == mid.in_order());
            }
            assert forall|x: u64|
                self.in_order().contains(x) <==> sorted_insert_seq(
                    old(self).in_order(),
                    key,
                ).contains(x) by {
                assert(mid.root.contains_key(x) <==> old(self).root.contains_key(x) || x == key);
                assert(self.in_order() == mid.in_order());
                lemma_insert_seq_contains(old(self).in_order(), key, x);
            }
            lemma_sorted_unique(self.in_order(), sorted_insert_seq(old(self).in_order(), key));
        }
    }
}

/// Decides at run time whether a subtree satisfies the structural B-tree
/// invariants: key and child counts against the order, kinds, and one order
/// throughout. Key ordering is not part of this check.
pub fn is_valid_btree(node: &Node) -> (r: bool)
    ensures
        r == node.shape_valid(),
    decreases *node,
{
    if !(node.keys.len() < node.order) {
        return false;
    }
    if !(node.children.len() <= node.order) {
        return false;
    }
    let kind_ok = match node.kind {
        NodeKind::Root => node.children.len() == 0 || node.children.len() >= 2,
        NodeKind::Internal => node.children.len() >= node.order / 2 + node.order % 2,
        NodeKind::Leaf => node.children.len() == 0,
    };
    proof {
        assert(node.order / 2 + node.order % 2 == (node.order + 1) / 2);
    }
    if !kind_ok {
        return false;
    }
    if node.children.len() != 0 && node.keys.len() + 1 != node.children.len() {
        return false;
    }
    let mut i: usize = 0;
    while i < node.children.len()
        invariant
            i <= node.children@.len(),
            node.keys@.len() < node.order,
            node.children@.len() < node.order + 1,
            node.kind == NodeKind::Leaf ==> node.children@.len() == 0,
            node.kind == NodeKind::Root ==> node.children@.len() == 0 || node.children@.len()
                >= 2,
            node.kind == NodeKind::Internal ==> node.children@.len() >= (node.order + 1) / 2,
            node.children@.len() != 0 ==> node.children@.len() == node.keys@.len() + 1,
            forall|j: int|
                0 <= j < i ==> (#[trigger] node.children@[j]).shape_valid()
                    && node.children@[j].order == node.order,
        decreases node.children@.len() - i,
    {
        if !(node.children[i].order == node.order) {
            return false;
        }
        if !is_valid_btree(&node.children[i]) {
            return false;
        }
        i += 1;
    }
    true
}

/// Law: a well-formed tree passes the run-time structural check — the full
/// invariant implies every purely structural clause.
pub proof fn lemma_inv_implies_shape_valid(node: Node)
    requires
        node.inv(),
    ensures
        node.shape_valid(),
    decreases node,
{
    if node.children@.len() != 0 {
        assert forall|i: int| 0 <= i < node.children@.len() implies (
        #[trigger] node.children@[i]).shape_valid() by {
            assert(node.children@[i].inv());
            lemma_inv_implies_shape_valid(node.children@[i]);
        }
    }
}

/// Law: the traversal of a well-formed tree is strictly ascending — sorted
/// and free of duplicates.
pub proof fn lemma_traverse_sorted(tree: BTree)
    requires
        tree.wf(),
    ensures
        sorted_strict(tree.in_order()),
{
    tree.root.lemma_sorted_in_order();
}

/// Law: a well-formed tree's traversal is determined by its membership alone:
/// two well-formed trees holding the same keys traverse identically. Together
/// with the contract of [`BTree::insert`] this gives the round trip — after
/// any sequence of insertions the traversal is the ascending, deduplicated
/// arrangement of the keys inserted.
pub proof fn lemma_traverse_canonical(a: BTree, b: BTree)
    requires
        a.wf(),
        b.wf(),
        forall|x: u64| a.contains_key(x) <==> b.contains_key(x),
    ensures
        a.in_order() == b.in_order(),
{
    a.root.lemma_sorted_in_order();
    b.root.lemma_sorted_in_order();
    assert forall|x: u64| a.in_order().contains(x) <==> b.in_order().contains(x) by {
        assert(a.contains_key(x) <==> b.contains_key(x));
    }
    lemma_sorted_unique(a.in_order(), b.in_order());
}

/// Law: inserting a key the tree already holds leaves the traversal
/// unchanged — insertion is idempotent on duplicates.
pub proof fn lemma_duplicate_insert_unchanged(pre: BTree, post: BTree, key: u64)
    requires
        pre.wf(),
        post.wf(),
        pre.contains_key(key),
        forall|x: u64| post.contains_key(x) <==> pre.contains_key(x) || x == key,
    ensures
        post.in_order() == pre.in_order(),
{
    assert forall|x: u64| post.contains_key(x) <==> pre.contains_key(x) by {
        assert(post.contains_key(x) <==> pre.contains_key(x) || x == key);
    }
    lemma_traverse_canonical(post, pre);
}

} // verus!
