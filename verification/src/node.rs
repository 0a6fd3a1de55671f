//! The recursive B-tree node: an ordered run of keys and, for non-leaf nodes,
//! one more child than it has keys.
//!
//! The specification model of a node is [`Node::in_order`], the in-order
//! sequence of every key in its subtree; the well-formedness invariant
//! [`Node::inv`] ties the key counts, the child counts, the node kinds, the
//! balanced heights and the key ordering together, and every operation is
//! specified against those two.

use vstd::prelude::*;

use crate::seq_facts::lemma_concat_contains;
use crate::seq_facts::lemma_singleton_contains;
use crate::seq_facts::lemma_sorted_cut;
use crate::seq_facts::lemma_sorted_glue;
use crate::seq_facts::lemma_sorted_insert;
use crate::seq_facts::sorted_strict;

verus! {

/// The structural role of a node within its tree.
#[derive(Clone, Copy, Debug, PartialEq, Eq, Structural)]
pub enum NodeKind {
    Root,
    Internal,
    Leaf,
}

/// One B-tree node: at most `order - 1` keys once an insertion has completed,
/// and, when it has children, exactly one child more than it has keys.
#[derive(Debug, PartialEq)]
pub struct Node {
    /// The maximum number of children a node of this tree may hold.
    pub order: usize,
    /// The structural role of this node.
    pub kind: NodeKind,
    /// The keys held in this node, strictly ascending.
    pub keys: Vec<u64>,
    /// The child subtrees; empty exactly when the node acts as a leaf.
    pub children: Vec<Node>,
}

impl Node {
    /// The in-order key sequence of the whole subtree: for a childless node its
    /// keys verbatim, otherwise the children's sequences interleaved with the
    /// node's own keys.
    pub open spec fn in_order(self) -> Seq<u64>
        decreases self, self.keys@.len() + 1int,
    {
        if self.children@.len() == 0 {
            self.keys@
        } else {
            self.in_order_from(0)
        }
    }

    /// The in-order key sequence of the suffix starting at child `i`:
    /// `children[i]`, `keys[i]`, `children[i+1]`, ..., `children[keys.len()]`.
    pub open spec fn in_order_from(self, i: int) -> Seq<u64>
        decreases self, self.keys@.len() - i,
        when 0 <= i <= self.keys@.len() && self.children@.len() == self.keys@.len() + 1
    {
        if i == self.keys@.len() {
            self.children@[i].in_order()
        } else {
            self.children@[i].in_order() + seq![self.keys@[i]] + self.in_order_from(i + 1)
        }
    }

    /// Whether the subtree holds `key`.
    pub open spec fn contains_key(self, key: u64) -> bool {
        self.in_order().contains(key)
    }

    /// The height of the subtree: zero for a childless node. In a well-formed
    /// tree every child has the same height, so the first child stands for all.
    pub open spec fn height(self) -> nat
        decreases self,
    {
        if self.children@.len() == 0 {
            0
        } else {
            1 + self.children@[0].height()
        }
    }

    /// Every key of the subtree lies strictly below `bound`.
    pub open spec fn all_below(self, bound: u64) -> bool {
        forall|x: u64| #[trigger] self.in_order().contains(x) ==> x < bound
    }

    /// Every key of the subtree lies strictly above `bound`.
    pub open spec fn all_above(self, bound: u64) -> bool {
        forall|x: u64| #[trigger] self.in_order().contains(x) ==> x > bound
    }

    /// The invariant of a node that may itself sit at capacity (`order` keys),
    /// as it transiently does between gaining a key and its parent resolving
    /// the overflow. Every strict descendant satisfies the full invariant.
    pub open spec fn inv_loose(self) -> bool
        decreases self, 0int,
    {
        &&& 3 <= self.order
        &&& self.keys@.len() <= self.order
        &&& sorted_strict(self.keys@)
        &&& (self.kind == NodeKind::Leaf ==> self.children@.len() == 0)
        &&& (self.kind == NodeKind::Root ==> self.children@.len() == 0 || self.children@.len() >= 2)
        &&& (self.kind == NodeKind::Internal ==> self.children@.len() >= (self.order + 1) / 2)
        &&& (self.children@.len() != 0 ==> {
            &&& self.children@.len() == self.keys@.len() + 1
            &&& (forall|i: int| 0 <= i < self.children@.len() ==> (#[trigger] self.children@[i]).inv())
            &&& (forall|i: int|
                0 <= i < self.children@.len() ==> (#[trigger] self.children@[i]).order == self.order)
            &&& (forall|i: int|
                0 <= i < self.children@.len() ==> (#[trigger] self.children@[i]).height() + 1
                    == self.height())
            &&& (forall|i: int|
                0 <= i < self.keys@.len() ==> self.children@[i].all_below(#[trigger] self.keys@[i]))
            &&& (forall|i: int|
                0 <= i < self.keys@.len() ==> self.children@[i + 1].all_above(
                    #[trigger] self.keys@[i],
                ))
        })
    }

    /// The full invariant: [`Node::inv_loose`] plus room for at least one more
    /// key. It holds of every node of the tree after each completed insertion.
    pub open spec fn inv(self) -> bool
        decreases self, 1int,
    {
        self.inv_loose() && self.keys@.len() < self.order
    }

    /// The purely structural part of the invariant, with no ordering claims:
    /// what [`crate::btree::is_valid_btree`] decides at run time.
    pub open spec fn shape_valid(self) -> bool
        decreases self,
    {
        &&& self.keys@.len() < self.order
        &&& self.children@.len() < self.order + 1
        &&& (self.kind == NodeKind::Leaf ==> self.children@.len() == 0)
        &&& (self.kind == NodeKind::Root ==> self.children@.len() == 0 || self.children@.len() >= 2)
        &&& (self.kind == NodeKind::Internal ==> self.children@.len() >= (self.order + 1) / 2)
        &&& (self.children@.len() != 0 ==> self.children@.len() == self.keys@.len() + 1)
        &&& (forall|i: int|
            0 <= i < self.children@.len() ==> (#[trigger] self.children@[i]).order == self.order)
        &&& (forall|i: int|
            0 <= i < self.children@.len() ==> (#[trigger] self.children@[i]).shape_valid())
    }

    /// Builds the empty root node of a fresh tree of the given order.
    pub fn new(order: usize) -> (node: Node)
        requires
            3 <= order,
        ensures
            node.inv(),
            node.order == order,
            node.kind == NodeKind::Root,
            node.height() == 0,
            node.in_order() == Seq::<u64>::empty(),
    {
        let node = Node { order, kind: NodeKind::Root, keys: Vec::new(), children: Vec::new() };
        proof {
            assert(node.in_order() =~= Seq::<u64>::empty());
        }
        node
    }

    /// A node overflows exactly when it holds `order` keys; its parent (or the
    /// tree, for the root) must then split it before the insertion is complete.
    pub fn is_overflow(&self) -> (r: bool)
        ensures
            r == (self.keys@.len() == self.order),
    {
        self.keys.len() == self.order
    }

    /// Searches the subtree for `key`: the caller's key back when it is held,
    /// nothing when it is not.
    pub fn get<'a>(&self, key: &'a u64) -> (r: Option<&'a u64>)
        requires
            self.inv_loose(),
        ensures
            self.contains_key(*key) ==> r == Some(key),
            !self.contains_key(*key) ==> r.is_none(),
        decreases self.height(),
    {
        let idx: usize = match search_keys(&self.keys, *key) {
            Ok(i) => {
                proof {
                    assert(self.keys@.contains(*key)) by {
                        assert(self.keys@[i as int] == *key);
                    }
                    if self.children@.len() != 0 {
                        self.lemma_membership(*key);
                    }
                }
                return Some(key);
            },
            Err(i) => i,
        };
        if self.children.len() == 0 {
            proof {
                if self.keys@.contains(*key) {
                    let j = choose|j: int| 0 <= j < self.keys@.len() && self.keys@[j] == *key;
                    assert(false);
                }
            }
            None
        } else {
            proof {
                self.lemma_localize(*key, idx as int);
                assert(self.children@[idx as int].inv());
                assert(self.children@[idx as int].height() + 1 == self.height());
            }
            self.children[idx].get(key)
        }
    }

    /// Extracts the full in-order key sequence of the subtree, ascending and
    /// free of duplicates.
    pub fn traverse(&self) -> (r: Vec<u64>)
        requires
            self.inv_loose(),
        ensures
            r@ == self.in_order(),
        decreases self.height(),
    {
        let mut out: Vec<u64> = Vec::new();
        if self.children.len() == 0 {
            let mut i: usize = 0;
            while i < self.keys.len()
                invariant
                    i <= self.keys@.len(),
                    out@ == self.keys@.subrange(0, i as int),
                decreases self.keys@.len() - i,
            {
                out.push(self.keys[i]);
                proof {
                    assert(out@ =~= self.keys@.subrange(0, i + 1));
                }
                i += 1;
            }
            proof {
                assert(out@ =~= self.keys@);
            }
            out
        } else {
            let mut i: usize = 0;
            while i < self.keys.len()
                invariant
                    self.inv_loose(),
                    self.children@.len() == self.keys@.len() + 1,
                    i <= self.keys@.len(),
                    out@ + self.in_order_from(i as int) == self.in_order(),
                decreases self.keys@.len() - i,
            {
                proof {
                    assert(self.children@[i as int].inv());
                    assert(self.children@[i as int].height() + 1 == self.height());
                }
                let mut sub = self.children[i].traverse();
                let ghost prev = out@;
                out.append(&mut sub);
                out.push(self.keys[i]);
                proof {
                    assert(out@ =~= prev + (self.children@[i as int].in_order()
                        + seq![self.keys@[i as int]]));
                    assert(self.in_order_from(i as int) == self.children@[i as int].in_order()
                        + seq![self.keys@[i as int]] + self.in_order_from(i + 1));
                    assert(out@ + self.in_order_from(i + 1) =~= prev + self.in_order_from(
                        i as int,
                    ));
                }
                i += 1;
            }
            proof {
                assert(self.children@[i as int].inv());
                assert(self.children@[i as int].height() + 1 == self.height());
                assert(self.in_order_from(i as int) == self.children@[i as int].in_order());
            }
            let mut sub = self.children[i].traverse();
            let ghost prev = out@;
            out.append(&mut sub);
            proof {
                assert(out@ =~= prev + self.in_order_from(i as int));
            }
            out
        }
    }

    /// Inserts `key` into the subtree. Inserting a key already held changes
    /// nothing; a fresh key lands at its sorted position in a leaf, and any
    /// overflow this creates is resolved child by child as the recursion
    /// unwinds. This node itself may be left at capacity — its caller (or, for
    /// the root, the tree) resolves that.
    #[verifier::rlimit(100)]
    pub fn insert(&mut self, key: u64)
        requires
            old(self).inv(),
        ensures
            final(self).inv_loose(),
            final(self).order == old(self).order,
            final(self).kind == old(self).kind,
            final(self).height() == old(self).height(),
            final(self).keys@.len() <= old(self).keys@.len() + 1,
            forall|x: u64|
                final(self).contains_key(x) <==> old(self).contains_key(x) || x == key,
        decreases old(self).height(),
    {
        let idx: usize = match search_keys(&self.keys, key) {
            Ok(i) => {
                proof {
                    assert(self.keys@.contains(key)) by {
                        assert(self.keys@[i as int] == key);
                    }
                    if self.children@.len() != 0 {
                        self.lemma_membership(key);
                    }
                    assert(self.contains_key(key));
                    assert forall|x: u64|
                        self.contains_key(x) <==> old(self).contains_key(x) || x == key by {}
                }
                return;
            },
            Err(i) => i,
        };
        if self.children.len() == 0 {
            let ghost s = *old(self);
            self.keys.insert(idx, key);
            proof {
                lemma_sorted_insert(s.keys@, idx as int, key);
                assert(self.keys@ == s.keys@.insert(idx as int, key));
                assert(self.in_order() == self.keys@);
                assert(s.in_order() == s.keys@);
                assert forall|x: u64|
                    self.contains_key(x) <==> old(self).contains_key(x) || x == key by {
                    assert(s.keys@.insert(idx as int, key).contains(x) <==> s.keys@.contains(x)
                        || x == key);
                    assert(s == *old(self));
                }
            }
            return;
        }
        let ghost s = *old(self);
        proof {
            assert(s.children@[idx as int].inv());
            assert(s.children@[idx as int].height() + 1 == s.height());
        }
        let mut child = self.children.remove(idx);
        let ghost c = child;
        child.insert(key);
        let overflowed = child.is_overflow();
        let ghost c2 = child;
        self.children.insert(idx, child);
        proof {
            let t = *self;
            assert(t.children@ =~= s.children@.update(idx as int, c2));
            assert(t.children@[idx as int] == c2);
            assert(t.children@.len() == s.children@.len());
            assert(t.keys@ == s.keys@);
            // the changed child still fits between the keys around it
            assert(idx < s.keys@.len() ==> c2.all_below(s.keys@[idx as int])) by {
                if idx < s.keys@.len() {
                    assert(s.children@[idx as int].all_below(s.keys@[idx as int]));
                    assert forall|x: u64| #[trigger] c2.in_order().contains(x) implies x
                        < s.keys@[idx as int] by {
                        assert(c2.contains_key(x));
                        assert(c.contains_key(x) || x == key);
                    }
                }
            }
            assert(idx > 0 ==> c2.all_above(s.keys@[idx - 1])) by {
                if idx > 0 {
                    assert(s.children@[(idx - 1) + 1].all_above(s.keys@[idx - 1]));
                    assert forall|x: u64| #[trigger] c2.in_order().contains(x) implies x
                        > s.keys@[idx - 1] by {
                        assert(c2.contains_key(x));
                        assert(c.contains_key(x) || x == key);
                    }
                }
            }
            assert(t.height() == s.height()) by {
                if idx == 0 {
                    assert(t.children@[0] == c2);
                } else {
                    assert(t.children@[0] == s.children@[0]);
                }
            }
            assert forall|i: int| 0 <= i < t.children@.len() implies (#[trigger] t.children@[i]).order
                == t.order && t.children@[i].height() + 1 == t.height() by {
                if i != idx {
                    assert(t.children@[i] == s.children@[i]);
                }
            }
            assert forall|i: int| 0 <= i < t.keys@.len() implies t.children@[i].all_below(
                #[trigger] t.keys@[i],
            ) && t.children@[i + 1].all_above(t.keys@[i]) by {
                if i != idx {
                    assert(t.children@[i] == s.children@[i]);
                    assert(s.children@[i].all_below(s.keys@[i]));
                }
                if i + 1 != idx {
                    assert(t.children@[i + 1] == s.children@[i + 1]);
                    assert(s.children@[i + 1].all_above(s.keys@[i]));
                }
            }
            // membership changes by exactly the inserted key
            assert forall|x: u64| t.contains_key(x) <==> s.contains_key(x) || x == key by {
                t.lemma_membership(x);
                s.lemma_membership(x);
                if t.contains_key(x) {
                    if !t.keys@.contains(x) {
                        let j = choose|j: int|
                            0 <= j < t.children@.len() && (#[trigger] t.children@[j]).in_order().contains(x);
                        if j == idx {
                            assert(c2.contains_key(x));
                            assert(c.contains_key(x) || x == key);
                            if c.in_order().contains(x) {
                                assert(s.children@[j].in_order().contains(x));
                            }
                        } else {
                            assert(s.children@[j].in_order().contains(x));
                        }
                    }
                }
                if s.contains_key(x) {
                    if !s.keys@.contains(x) {
                        let j = choose|j: int|
                            0 <= j < s.children@.len() && (#[trigger] s.children@[j]).in_order().contains(x);
                        if j == idx {
                            assert(c.contains_key(x));
                            assert(c2.contains_key(x));
                        }
                        assert(t.children@[j].in_order().contains(x));
                    }
                }
                if x == key {
                    assert(c2.contains_key(key));
                    assert(t.children@[idx as int].in_order().contains(x));
                }
            }
            if c2.keys@.len() == s.order {
                assert(t.inv_except_overflow(idx as int));
            } else {
                assert forall|i: int| 0 <= i < t.children@.len() implies (
                #[trigger] t.children@[i]).inv() by {
                    if i != idx {
                        assert(t.children@[i] == s.children@[i]);
                    }
                }
                assert(t.inv_loose());
            }
        }
        let ghost u = *self;
        if overflowed {
            self.split_children(idx);
        }
        proof {
            assert forall|x: u64|
                self.contains_key(x) <==> old(self).contains_key(x) || x == key by {
                assert(u.contains_key(x) <==> s.contains_key(x) || x == key);
                assert(self.in_order() == u.in_order());
                assert(s == *old(self));
            }
        }
    }

    /// The parent's state right after one child has grown into overflow: the
    /// parent and every other child satisfy the full invariant, while child
    /// `index` sits at exactly `order` keys, awaiting the split.
    pub open spec fn inv_except_overflow(self, index: int) -> bool {
        &&& 3 <= self.order
        &&& self.keys@.len() < self.order
        &&& sorted_strict(self.keys@)
        &&& self.children@.len() == self.keys@.len() + 1
        &&& 0 <= index < self.children@.len()
        &&& self.kind != NodeKind::Leaf
        &&& (self.kind == NodeKind::Internal ==> self.children@.len() >= (self.order + 1) / 2)
        &&& (forall|i: int|
            0 <= i < self.children@.len() && i != index ==> (#[trigger] self.children@[i]).inv())
        &&& self.children@[index].inv_loose()
        &&& self.children@[index].keys@.len() == self.order
        &&& (forall|i: int|
            0 <= i < self.children@.len() ==> (#[trigger] self.children@[i]).order == self.order)
        &&& (forall|i: int|
            0 <= i < self.children@.len() ==> (#[trigger] self.children@[i]).height() + 1
                == self.height())
        &&& (forall|i: int|
            0 <= i < self.keys@.len() ==> self.children@[i].all_below(#[trigger] self.keys@[i]))
        &&& (forall|i: int|
            0 <= i < self.keys@.len() ==> self.children@[i + 1].all_above(#[trigger] self.keys@[i]))
    }

    /// Splits the overflowing child at `index` in two around its median key,
    /// which moves up into this node; the subtree's key sequence is unchanged,
    /// while this node gains exactly one key and one child.
    #[verifier::rlimit(100)]
    pub fn split_children(&mut self, index: usize)
        requires
            old(self).inv_except_overflow(index as int),
        ensures
            final(self).inv_loose(),
            final(self).order == old(self).order,
            final(self).kind == old(self).kind,
            final(self).keys@.len() == old(self).keys@.len() + 1,
            final(self).children@.len() == old(self).children@.len() + 1,
            final(self).height() == old(self).height(),
            final(self).in_order() == old(self).in_order(),
    {
        let ghost s = *old(self);
        let mut child = self.children.remove(index);
        let ghost c = child;
        let split_at = child.order / 2;
        let right_keys = child.keys.split_off(split_at + 1);
        let median = child.keys.pop().unwrap();
        let right_children: Vec<Node> = if child.children.len() == 0 {
            Vec::new()
        } else {
            child.children.split_off(split_at + 1)
        };
        let right = Node {
            order: child.order,
            kind: child.kind,
            keys: right_keys,
            children: right_children,
        };
        proof {
            assert(child.keys@ =~= c.keys@.subrange(0, split_at as int));
            assert(right.keys@ =~= c.keys@.subrange(split_at + 1, c.keys@.len() as int));
            if c.children@.len() != 0 {
                assert(child.children@ =~= c.children@.subrange(0, split_at + 1));
                assert(right.children@ =~= c.children@.subrange(
                    split_at + 1,
                    c.children@.len() as int,
                ));
                assert(c.kind == NodeKind::Internal || c.kind == NodeKind::Root);
            } else {
                assert(c.kind == NodeKind::Leaf || c.kind == NodeKind::Root);
            }
            lemma_split_parts(c, child, right);
        }
        let ghost left = child;
        let ghost m = c.keys@[split_at as int];
        self.keys.insert(index, median);
        self.children.insert(index, child);
        self.children.insert(index + 1, right);
        proof {
            let t = *self;
            assert(t.keys@ =~= s.keys@.insert(index as int, m));
            s.keys@.insert_ensures(index as int, m);
            assert(t.children@ =~= s.children@.subrange(0, index as int) + seq![left, right]
                + s.children@.subrange(index + 1, s.children@.len() as int));
            assert(t.children@[index as int] == left);
            assert(t.children@[index + 1] == right);
            assert forall|j: int| 0 <= j < index implies #[trigger] t.children@[j]
                == s.children@[j] by {}
            assert forall|j: int| index + 1 < j < t.children@.len() implies #[trigger] t.children@[j]
                == s.children@[j - 1] by {}
            // the median fits strictly between the surrounding keys
            assert(c.in_order().contains(m)) by {
                lemma_concat_contains(left.in_order() + seq![m], right.in_order(), m);
                lemma_concat_contains(left.in_order(), seq![m], m);
                lemma_singleton_contains(m, m);
            }
            assert forall|j: int| 0 <= j < index implies s.keys@[j] < m by {
                assert(s.children@[(index - 1) + 1].all_above(s.keys@[index - 1]));
                assert(m > s.keys@[index - 1]);
                if j < index - 1 {
                    assert(s.keys@[j] < s.keys@[index - 1]);
                }
            }
            assert forall|j: int| index <= j < s.keys@.len() implies m < s.keys@[j] by {
                assert(s.children@[index as int].all_below(s.keys@[index as int]));
                assert(m < s.keys@[index as int]);
            }
            lemma_sorted_insert(s.keys@, index as int, m);
            // heights are unchanged throughout
            assert(t.height() == s.height()) by {
                if index == 0 {
                    assert(t.children@[0] == left);
                    assert(left.height() == c.height());
                    assert(c.height() + 1 == s.height());
                } else {
                    assert(t.children@[0] == s.children@[0]);
                }
            }
            assert forall|i: int| 0 <= i < t.children@.len() implies (#[trigger] t.children@[i]).inv()
                && t.children@[i].order == t.order && t.children@[i].height() + 1
                == t.height() by {
                if i < index {
                    assert(t.children@[i] == s.children@[i]);
                } else if i == index {
                    assert(t.children@[i] == left);
                } else if i == index + 1 {
                    assert(t.children@[i] == right);
                } else {
                    assert(t.children@[i] == s.children@[i - 1]);
                }
            }
            // every bounding pair of the new node
            assert forall|i: int| 0 <= i < t.keys@.len() implies t.children@[i].all_below(
                #[trigger] t.keys@[i],
            ) && t.children@[i + 1].all_above(t.keys@[i]) by {
                if i < index {
                    assert(t.keys@[i] == s.keys@[i]);
                    assert(t.children@[i] == s.children@[i]);
                    assert(s.children@[i].all_below(s.keys@[i]));
                    assert(s.children@[i + 1].all_above(s.keys@[i]));
                    if i + 1 == index {
                        // the half keeps only keys of the old child
                        assert(s.children@[index as int].all_above(s.keys@[i]));
                        assert forall|x: u64| #[trigger] left.in_order().contains(x) implies x
                            > s.keys@[i] by {
                            lemma_concat_contains(left.in_order() + seq![m], right.in_order(), x);
                            lemma_concat_contains(left.in_order(), seq![m], x);
                            assert(c.in_order().contains(x));
                        }
                    } else {
                        assert(t.children@[i + 1] == s.children@[i + 1]);
                    }
                } else if i == index {
                    assert(t.keys@[i] == m);
                    assert(t.children@[i] == left);
                    assert(t.children@[i + 1] == right);
                } else if i == index + 1 {
                    assert(t.keys@[i] == s.keys@[i - 1]);
                    assert(t.children@[i] == right);
                    assert(s.children@[index as int].all_below(s.keys@[index as int]));
                    assert forall|x: u64| #[trigger] right.in_order().contains(x) implies x
                        < s.keys@[i - 1] by {
                        lemma_concat_contains(left.in_order() + seq![m], right.in_order(), x);
                        assert(c.in_order().contains(x));
                    }
                    assert(t.children@[i + 1] == s.children@[i]);
                    assert(s.children@[(i - 1) + 1].all_above(s.keys@[i - 1]));
                } else {
                    assert(t.keys@[i] == s.keys@[i - 1]);
                    assert(t.children@[i] == s.children@[i - 1]);
                    assert(t.children@[i + 1] == s.children@[i]);
                    assert(s.children@[i - 1].all_below(s.keys@[i - 1]));
                    assert(s.children@[(i - 1) + 1].all_above(s.keys@[i - 1]));
                }
            }
            assert(t.inv_loose());
            // the subtree's key sequence is exactly preserved
            lemma_parent_split_from(s, t, index as int, 0);
            assert(t.in_order() == t.in_order_from(0));
            assert(s.in_order() == s.in_order_from(0));
        }
    }
}

impl Node {
    /// A key stands in the suffix sequence exactly when it stands in one of the
    /// keys or one of the child subtrees from position `i` on.
    pub proof fn lemma_from_membership(self, i: int, x: u64)
        requires
            self.children@.len() == self.keys@.len() + 1,
            0 <= i <= self.keys@.len(),
        ensures
            self.in_order_from(i).contains(x) <==> ((exists|j: int|
                i <= j < self.keys@.len() && #[trigger] self.keys@[j] == x) || (exists|j: int|
                i <= j < self.children@.len() && (#[trigger] self.children@[j]).in_order().contains(
                    x,
                ))),
        decreases self.keys@.len() - i,
    {
        if i == self.keys@.len() {
            if self.children@[i].in_order().contains(x) {
                assert(exists|j: int|
                    i <= j < self.children@.len() && (#[trigger] self.children@[j]).in_order().contains(x));
            }
            if exists|j: int|
                i <= j < self.children@.len() && (#[trigger] self.children@[j]).in_order().contains(x) {
                let j = choose|j: int|
                    i <= j < self.children@.len() && (#[trigger] self.children@[j]).in_order().contains(x);
                assert(j == i);
            }
        } else {
            self.lemma_from_membership(i + 1, x);
            lemma_concat_contains(
                self.children@[i].in_order() + seq![self.keys@[i]],
                self.in_order_from(i + 1),
                x,
            );
            lemma_concat_contains(self.children@[i].in_order(), seq![self.keys@[i]], x);
            lemma_singleton_contains(self.keys@[i], x);
            if self.in_order_from(i).contains(x) {
                if self.children@[i].in_order().contains(x) {
                    assert(exists|j: int|
                        i <= j < self.children@.len() && (#[trigger] self.children@[j]).in_order().contains(x));
                } else if x == self.keys@[i] {
                    assert(self.keys@[i] == x);
                }
            }
            if exists|j: int| i <= j < self.keys@.len() && #[trigger] self.keys@[j] == x {
                let j = choose|j: int| i <= j < self.keys@.len() && #[trigger] self.keys@[j] == x;
                if j == i {
                    assert(self.in_order_from(i).contains(x));
                } else {
                    assert(exists|k: int| i + 1 <= k < self.keys@.len() && #[trigger] self.keys@[k] == x);
                }
            }
            if exists|j: int|
                i <= j < self.children@.len() && (#[trigger] self.children@[j]).in_order().contains(x) {
                let j = choose|j: int|
                    i <= j < self.children@.len() && (#[trigger] self.children@[j]).in_order().contains(x);
                if j > i {
                    assert(exists|k: int|
                        i + 1 <= k < self.children@.len() && (#[trigger] self.children@[k]).in_order().contains(x));
                }
            }
        }
    }

    /// A key stands in the subtree of a non-leaf node exactly when it stands in
    /// the node's own keys or in one of its children.
    pub proof fn lemma_membership(self, x: u64)
        requires
            self.children@.len() == self.keys@.len() + 1,
        ensures
            self.in_order().contains(x) <==> (self.keys@.contains(x) || (exists|j: int|
                0 <= j < self.children@.len() && (#[trigger] self.children@[j]).in_order().contains(
                    x,
                ))),
    {
        self.lemma_from_membership(0, x);
        assert(self.keys@.contains(x) <==> exists|j: int|
            0 <= j < self.keys@.len() && #[trigger] self.keys@[j] == x);
    }

    /// When a key is absent from a node's own keys and the keys around position
    /// `idx` bracket it, only the subtree of child `idx` can hold it.
    pub proof fn lemma_localize(self, key: u64, idx: int)
        requires
            self.inv_loose(),
            self.children@.len() == self.keys@.len() + 1,
            0 <= idx <= self.keys@.len(),
            forall|j: int| 0 <= j < idx ==> self.keys@[j] < key,
            forall|j: int| idx <= j < self.keys@.len() ==> key < self.keys@[j],
        ensures
            self.contains_key(key) <==> self.children@[idx].in_order().contains(key),
    {
        self.lemma_membership(key);
        if self.contains_key(key) {
            if self.keys@.contains(key) {
                let j = choose|j: int| 0 <= j < self.keys@.len() && self.keys@[j] == key;
                assert(false);
            }
            let j = choose|j: int|
                0 <= j < self.children@.len() && (#[trigger] self.children@[j]).in_order().contains(key);
            if j < idx {
                assert(self.children@[j].all_below(self.keys@[j]));
                assert(key < self.keys@[j]);
                assert(false);
            } else if j > idx {
                assert(self.children@[(j - 1) + 1].all_above(self.keys@[j - 1]));
                assert(key > self.keys@[j - 1]);
                assert(false);
            }
        }
        if self.children@[idx].in_order().contains(key) {
            assert(exists|j: int|
                0 <= j < self.children@.len() && (#[trigger] self.children@[j]).in_order().contains(key));
        }
    }

    /// The in-order sequence of a well-formed subtree is strictly ascending.
    pub proof fn lemma_sorted_in_order(self)
        requires
            self.inv_loose(),
        ensures
            sorted_strict(self.in_order()),
        decreases self, self.keys@.len() + 1int,
    {
        if self.children@.len() != 0 {
            self.lemma_sorted_from(0);
        }
    }

    /// The suffix sequence from position `i` is strictly ascending, and, past
    /// the first position, bounded below by the key before it.
    pub proof fn lemma_sorted_from(self, i: int)
        requires
            self.inv_loose(),
            self.children@.len() == self.keys@.len() + 1,
            0 <= i <= self.keys@.len(),
        ensures
            sorted_strict(self.in_order_from(i)),
            i > 0 ==> forall|x: u64| #[trigger]
                self.in_order_from(i).contains(x) ==> x > self.keys@[i - 1],
        decreases self, self.keys@.len() - i,
    {
        assert(self.children@[i].inv());
        self.children@[i].lemma_sorted_in_order();
        if i == self.keys@.len() {
            if i > 0 {
                assert(self.children@[(i - 1) + 1].all_above(self.keys@[i - 1]));
            }
        } else {
            self.lemma_sorted_from(i + 1);
            assert(self.children@[i].all_below(self.keys@[i]));
            assert forall|x: u64| #[trigger] self.in_order_from(i + 1).contains(x) implies x
                > self.keys@[i] by {}
            lemma_sorted_glue(
                self.children@[i].in_order(),
                self.keys@[i],
                self.in_order_from(i + 1),
            );
            assert forall|x: u64| #[trigger] self.in_order_from(i).contains(x) && i > 0 implies x
                > self.keys@[i - 1] by {
                lemma_concat_contains(
                    self.children@[i].in_order() + seq![self.keys@[i]],
                    self.in_order_from(i + 1),
                    x,
                );
                lemma_concat_contains(self.children@[i].in_order(), seq![self.keys@[i]], x);
                lemma_singleton_contains(self.keys@[i], x);
                if self.children@[i].in_order().contains(x) {
                    assert(self.children@[((i - 1) + 1)].all_above(self.keys@[i - 1]));
                } else if x == self.keys@[i] {
                    assert(self.keys@[i - 1] < self.keys@[i]);
                } else {
                    assert(x > self.keys@[i]);
                    assert(self.keys@[i - 1] < self.keys@[i]);
                }
            }
        }
    }
}

/// Two nodes whose key and child runs agree from positions `i` and `i + d` on
/// have the same suffix sequences from there.
proof fn lemma_from_shifted(s: Node, t: Node, i: int, d: int)
    requires
        s.children@.len() == s.keys@.len() + 1,
        t.children@.len() == t.keys@.len() + 1,
        0 <= i <= t.keys@.len(),
        0 <= i + d <= s.keys@.len(),
        t.keys@.len() - i == s.keys@.len() - (i + d),
        forall|j: int| i <= j < t.keys@.len() ==> #[trigger] t.keys@[j] == s.keys@[j + d],
        forall|j: int| i <= j < t.children@.len() ==> #[trigger] t.children@[j] == s.children@[j + d],
    ensures
        t.in_order_from(i) == s.in_order_from(i + d),
    decreases t.keys@.len() - i,
{
    assert(t.children@[i] == s.children@[i + d]);
    if i == t.keys@.len() {
    } else {
        assert(t.keys@[i] == s.keys@[i + d]);
        lemma_from_shifted(s, t, i + 1, d);
    }
}

/// Cutting an overflowing node at `sa` splits its suffix sequence from any
/// position `i` at or before the cut into the left half's suffix, the median
/// key, and the whole right half.
proof fn lemma_split_from(c: Node, left: Node, right: Node, sa: int, i: int)
    requires
        c.children@.len() == c.keys@.len() + 1,
        0 <= sa < c.keys@.len(),
        left.keys@ == c.keys@.subrange(0, sa),
        left.children@ == c.children@.subrange(0, sa + 1),
        right.keys@ == c.keys@.subrange(sa + 1, c.keys@.len() as int),
        right.children@ == c.children@.subrange(sa + 1, c.children@.len() as int),
        0 <= i <= sa,
    ensures
        c.in_order_from(i) == left.in_order_from(i) + seq![c.keys@[sa]] + right.in_order_from(0),
    decreases sa - i,
{
    if i == sa {
        assert(left.in_order_from(i) == left.children@[i].in_order());
        assert(left.children@[i] == c.children@[i]);
        lemma_from_shifted(c, right, 0, sa + 1);
        assert(c.in_order_from(sa) == c.children@[sa].in_order() + seq![c.keys@[sa]]
            + c.in_order_from(sa + 1));
    } else {
        lemma_split_from(c, left, right, sa, i + 1);
        assert(left.keys@[i] == c.keys@[i]);
        assert(left.children@[i] == c.children@[i]);
        assert(c.in_order_from(i) == c.children@[i].in_order() + seq![c.keys@[i]]
            + c.in_order_from(i + 1));
        assert(left.in_order_from(i) == left.children@[i].in_order() + seq![left.keys@[i]]
            + left.in_order_from(i + 1));
        assert(c.children@[i].in_order() + seq![c.keys@[i]] + (left.in_order_from(i + 1)
            + seq![c.keys@[sa]] + right.in_order_from(0)) =~= (c.children@[i].in_order()
            + seq![c.keys@[i]] + left.in_order_from(i + 1)) + seq![c.keys@[sa]]
            + right.in_order_from(0));
    }
}

/// Splitting an overflowing node at `order / 2` yields two well-formed halves
/// of the same height whose sequences, around the promoted median, rebuild the
/// original sequence; the median strictly separates the halves.
pub proof fn lemma_split_parts(c: Node, left: Node, right: Node)
    requires
        c.inv_loose(),
        c.keys@.len() == c.order,
        left.order == c.order,
        right.order == c.order,
        left.kind == right.kind,
        left.keys@ == c.keys@.subrange(0, c.order as int / 2),
        right.keys@ == c.keys@.subrange(c.order as int / 2 + 1, c.keys@.len() as int),
        c.children@.len() == 0 ==> {
            &&& left.children@.len() == 0
            &&& right.children@.len() == 0
            &&& (left.kind == NodeKind::Leaf || left.kind == NodeKind::Root)
        },
        c.children@.len() != 0 ==> {
            &&& left.children@ == c.children@.subrange(0, c.order as int / 2 + 1)
            &&& right.children@ == c.children@.subrange(
                c.order as int / 2 + 1,
                c.children@.len() as int,
            )
            &&& (left.kind == NodeKind::Internal || left.kind == NodeKind::Root)
        },
    ensures
        left.inv(),
        right.inv(),
        left.height() == c.height(),
        right.height() == c.height(),
        c.in_order() == left.in_order() + seq![c.keys@[c.order as int / 2]] + right.in_order(),
        left.all_below(c.keys@[c.order as int / 2]),
        right.all_above(c.keys@[c.order as int / 2]),
        left.keys@.len() < c.order,
        right.keys@.len() < c.order,
{
    let sa = c.order as int / 2;
    let m = c.keys@[sa];
    assert(1 <= sa < c.order);
    assert(left.keys@.len() == sa);
    assert(right.keys@.len() == c.order - sa - 1);
    assert(sorted_strict(left.keys@)) by {
        assert forall|i: int, j: int| 0 <= i < j < left.keys@.len() implies left.keys@[i]
            < left.keys@[j] by {
            assert(left.keys@[i] == c.keys@[i]);
            assert(left.keys@[j] == c.keys@[j]);
        }
    }
    assert(sorted_strict(right.keys@)) by {
        assert forall|i: int, j: int| 0 <= i < j < right.keys@.len() implies right.keys@[i]
            < right.keys@[j] by {
            assert(right.keys@[i] == c.keys@[sa + 1 + i]);
            assert(right.keys@[j] == c.keys@[sa + 1 + j]);
        }
    }
    // the sequence decomposition
    if c.children@.len() == 0 {
        assert(c.in_order() =~= left.in_order() + seq![m] + right.in_order());
    } else {
        lemma_split_from(c, left, right, sa, 0);
        assert(left.children@.len() == left.keys@.len() + 1);
        assert(left.in_order() == left.in_order_from(0));
        assert(right.children@.len() == right.keys@.len() + 1);
        assert(right.in_order() == right.in_order_from(0));
        assert(c.in_order() == c.in_order_from(0));
    }
    // the median bounds both halves
    c.lemma_sorted_in_order();
    lemma_sorted_cut(left.in_order(), m, right.in_order());
    // well-formedness of the halves
    if c.children@.len() == 0 {
        assert(left.inv());
        assert(right.inv());
    } else {
        assert(c.children@.len() == c.order + 1);
        assert(left.children@.len() == sa + 1);
        assert(right.children@.len() == c.order + 1 - (sa + 1));
        assert(sa + 1 >= (c.order + 1) / 2);
        assert(c.order - sa >= (c.order + 1) / 2);
        assert forall|i: int| 0 <= i < left.children@.len() implies (#[trigger] left.children@[i]).inv()
            && left.children@[i].order == left.order && left.children@[i].height() + 1
            == c.height() by {
            assert(left.children@[i] == c.children@[i]);
            assert(c.children@[i].inv());
        }
        assert(left.height() == c.height()) by {
            assert(left.children@[0] == c.children@[0]);
        }
        assert forall|i: int| 0 <= i < left.keys@.len() implies left.children@[i].all_below(
            #[trigger] left.keys@[i],
        ) && left.children@[i + 1].all_above(left.keys@[i]) by {
            assert(left.keys@[i] == c.keys@[i]);
            assert(left.children@[i] == c.children@[i]);
            assert(left.children@[i + 1] == c.children@[i + 1]);
            assert(c.children@[i].all_below(c.keys@[i]));
            assert(c.children@[i + 1].all_above(c.keys@[i]));
        }
        assert(left.inv());
        assert forall|i: int| 0 <= i < right.children@.len() implies (#[trigger] right.children@[i]).inv()
            && right.children@[i].order == right.order && right.children@[i].height() + 1
            == c.height() by {
            assert(right.children@[i] == c.children@[sa + 1 + i]);
            assert(c.children@[sa + 1 + i].inv());
        }
        assert(right.height() == c.height()) by {
            assert(right.children@[0] == c.children@[sa + 1]);
        }
        assert forall|i: int| 0 <= i < right.keys@.len() implies right.children@[i].all_below(
            #[trigger] right.keys@[i],
        ) && right.children@[i + 1].all_above(right.keys@[i]) by {
            assert(right.keys@[i] == c.keys@[sa + 1 + i]);
            assert(right.children@[i] == c.children@[sa + 1 + i]);
            assert(right.children@[i + 1] == c.children@[sa + 1 + i + 1]);
            assert(c.children@[sa + 1 + i].all_below(c.keys@[sa + 1 + i]));
            assert(c.children@[(sa + i + 1) + 1].all_above(c.keys@[sa + 1 + i]));
        }
        assert(right.inv());
    }
}

/// Replacing child `index` by its two halves around the promoted median leaves
/// the parent's suffix sequence unchanged from any position at or before the
/// splice point.
proof fn lemma_parent_split_from(s: Node, t: Node, index: int, i: int)
    requires
        s.children@.len() == s.keys@.len() + 1,
        t.children@.len() == t.keys@.len() + 1,
        t.keys@.len() == s.keys@.len() + 1,
        0 <= index <= s.keys@.len(),
        forall|j: int| 0 <= j < index ==> #[trigger] t.keys@[j] == s.keys@[j],
        forall|j: int| index < j < t.keys@.len() ==> #[trigger] t.keys@[j] == s.keys@[j - 1],
        forall|j: int| 0 <= j < index ==> #[trigger] t.children@[j] == s.children@[j],
        forall|j: int|
            index + 1 < j < t.children@.len() ==> #[trigger] t.children@[j] == s.children@[j - 1],
        s.children@[index].in_order() == t.children@[index].in_order() + seq![t.keys@[index]]
            + t.children@[index + 1].in_order(),
        0 <= i <= index,
    ensures
        t.in_order_from(i) == s.in_order_from(i),
    decreases index - i,
{
    if i == index {
        if index == s.keys@.len() {
            assert(s.in_order_from(index) == s.children@[index].in_order());
            assert(t.in_order_from(index) == t.children@[index].in_order()
                + seq![t.keys@[index]] + t.in_order_from(index + 1));
            assert(t.in_order_from(index + 1) == t.children@[index + 1].in_order());
        } else {
            lemma_from_shifted(s, t, index + 2, -1);
            assert(t.in_order_from(index + 2) == s.in_order_from(index + 1));
            assert(t.keys@[index + 1] == s.keys@[index]);
            assert(t.in_order_from(index + 1) == t.children@[index + 1].in_order()
                + seq![t.keys@[index + 1]] + t.in_order_from(index + 2));
            assert(t.in_order_from(index) == t.children@[index].in_order()
                + seq![t.keys@[index]] + t.in_order_from(index + 1));
            assert(s.in_order_from(index) == s.children@[index].in_order()
                + seq![s.keys@[index]] + s.in_order_from(index + 1));
            assert(t.children@[index].in_order() + seq![t.keys@[index]]
                + (t.children@[index + 1].in_order() + seq![s.keys@[index]]
                + s.in_order_from(index + 1)) =~= (t.children@[index].in_order()
                + seq![t.keys@[index]] + t.children@[index + 1].in_order())
                + seq![s.keys@[index]] + s.in_order_from(index + 1));
        }
    } else {
        lemma_parent_split_from(s, t, index, i + 1);
        assert(t.keys@[i] == s.keys@[i]);
        assert(t.children@[i] == s.children@[i]);
        assert(t.in_order_from(i) == t.children@[i].in_order() + seq![t.keys@[i]]
            + t.in_order_from(i + 1));
        assert(s.in_order_from(i) == s.children@[i].in_order() + seq![s.keys@[i]]
            + s.in_order_from(i + 1));
    }
}

/// Binary search over a strictly sorted key run: `Ok(i)` when `keys[i] == key`,
/// otherwise `Err(i)` with `i` the position at which `key` would be inserted.
fn search_keys(keys: &Vec<u64>, key: u64) -> (r: Result<usize, usize>)
    requires
        sorted_strict(keys@),
    ensures
        match r {
            Ok(i) => 0 <= i < keys@.len() && keys@[i as int] == key,
            Err(i) => {
                &&& 0 <= i <= keys@.len()
                &&& (forall|j: int| 0 <= j < i ==> keys@[j] < key)
                &&& (forall|j: int| i <= j < keys@.len() ==> key < keys@[j])
            },
        },
{
    let mut lo: usize = 0;
    let mut hi: usize = keys.len();
    while lo < hi
        invariant
            lo <= hi <= keys@.len(),
            sorted_strict(keys@),
            forall|j: int| 0 <= j < lo ==> keys@[j] < key,
            forall|j: int| hi <= j < keys@.len() ==> key < keys@[j],
        decreases hi - lo,
    {
        let mid = lo + (hi - lo) / 2;
        let k = keys[mid];
        if k == key {
            return Ok(mid);
        } else if k < key {
            proof {
                assert forall|j: int| 0 <= j < mid + 1 implies keys@[j] < key by {
                    if j < mid {
                        assert(keys@[j] < keys@[mid as int]);
                    }
                }
            }
            lo = mid + 1;
        } else {
            proof {
                assert forall|j: int| mid <= j < keys@.len() implies key < keys@[j] by {
                    if j > mid {
                        assert(keys@[mid as int] < keys@[j]);
                    }
                }
            }
            hi = mid;
        }
    }
    Err(lo)
}

} // verus!
