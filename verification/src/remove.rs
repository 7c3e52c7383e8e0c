//! Removal, with the rebalancing that keeps every node below the root from
//! running short of keys.

use crate::layout::{
    after, before, lemma_interleave_join, lemma_interleave_merged, lemma_interleave_pair,
    lemma_interleave_single, lemma_interleave_window,
};
use crate::node::Node;
use crate::order::{
    entry, has_key, lemma_key_sits_at_rank, lemma_lt_asymmetric, lemma_lt_irreflexive,
    lemma_lt_total, lemma_lt_transitive, lemma_rank_of_member, lemma_remove_from_window,
    lemma_remove_sorted, lemma_sorted_means, lemma_sorted_pair, lemma_sorted_small,
    lemma_three_parts, rank, removed, sorted,
};
use crate::value::BTreeValue;
use std::cmp::Ordering;
use std::rc::Rc;
use vstd::prelude::*;

verus! {

/// What a removal did to a node.
pub enum Remove<A, const B: usize> {
    /// No element was filed under the key; the subtree holds what it held.
    NoChange,
    /// The element was taken out and the node is still the root of its
    /// subtree.
    Removed(A),
    /// The element was taken out and the node gave its last key to the merge
    /// of its two children; the caller puts the merged node in its place.
    Update(A, Node<A, B>),
}

/// What a node does to take out a key, decided from the sizes of the
/// children around it.
pub(crate) enum RemoveAction {
    /// Take the key at this index out of a leaf.
    DeleteAt(usize),
    /// Take the key at the first index of a leaf child, put it in the place
    /// of the key at the second index, and that key is out; the third index
    /// is the slot of the child.
    PullUp(usize, usize, usize),
    /// Merge the children around the key at this index with the key, and take
    /// the key out of the merged child.
    Merge(usize),
    /// Rotate a key from the left sibling into the child in this slot, and
    /// take the key out of the child.
    StealFromLeft(usize),
    /// Rotate a key from the right sibling into the child in this slot, and
    /// take the key out of the child.
    StealFromRight(usize),
    /// Where the key is there at all, merge the children around the key at
    /// this index and take the key out of the merged child.
    MergeFirst(usize),
    /// Take the key out of the child in this slot, which has keys to spare.
    ContinueDown(usize),
}

impl<A: BTreeValue, const B: usize> Node<A, B> {
    /// Whether the node has too few keys to give one up.
    pub(crate) fn too_small(&self) -> (small: bool)
        requires
            Self::fanout_ok(),
        ensures
            small == (self.keys.len() < Self::median()),
    {
        self.keys.len() < (B + 1) / 2
    }

    /// Whether the node is a leaf.
    pub(crate) fn is_leaf(&self) -> (leaf: bool)
        requires
            self.children.len() > 0,
        ensures
            leaf == (self.children[0] is None),
    {
        self.children[0].is_none()
    }

    /// The recorded length of the child in a slot, zero for an empty slot.
    pub(crate) fn maybe_len(node_or: &Option<Rc<Node<A, B>>>) -> (n: usize)
        ensures
            n == match *node_or {
                Some(c) => c.count,
                None => 0usize,
            },
    {
        match node_or {
            None => 0,
            Some(node) => node.len(),
        }
    }

    /// One node of `left`, `middle` and `right`: the keys of `left`, then
    /// `middle`, then the keys of `right`, over the children of both.
    pub(crate) fn merge(middle: A, left: Node<A, B>, right: Node<A, B>) -> (merged: Node<A, B>)
        requires
            left.children.len() == left.keys.len() + 1,
            right.children.len() == right.keys.len() + 1,
            left.count + right.count < usize::MAX,
            left.keys.len() + right.keys.len() < usize::MAX - 2,
        ensures
            merged.keys@ == left.keys@.push(middle) + right.keys@,
            merged.children@ == left.children@ + right.children@,
            merged.count == left.count + right.count + 1,
            merged@ == left@.push(middle) + right@,
    {
        let count = left.len() + right.len() + 1;
        let ghost l = left;
        let ghost r = right;
        let mut left = left;
        let mut right = right;
        let mut keys: Vec<A> = Vec::new();
        std::mem::swap(&mut keys, &mut left.keys);
        keys.push(middle);
        keys.append(&mut right.keys);
        let mut children: Vec<Option<Rc<Node<A, B>>>> = Vec::new();
        std::mem::swap(&mut children, &mut left.children);
        children.append(&mut right.children);
        let merged = Node { count, keys, children };
        proof {
            l.lemma_view();
            r.lemma_view();
            merged.lemma_view();
            assert(merged.kids() =~= l.kids() + r.kids());
            lemma_interleave_join(l.keys@, l.kids(), middle, r.keys@, r.kids());
        }
        merged
    }

    /// Takes the least key off the node, with the child to its left.
    pub(crate) fn pop_min(&mut self) -> (popped: (A, Option<Rc<Node<A, B>>>))
        requires
            old(self).children.len() == old(self).keys.len() + 1,
            old(self).keys.len() >= 1,
            old(self).count == old(self)@.len(),
            match old(self).children[0] {
                Some(c) => c.count == c@.len(),
                None => true,
            },
        ensures
            popped.0 == old(self).keys[0],
            popped.1 == old(self).children[0],
            final(self).keys@ == old(self).keys@.remove(0),
            final(self).children@ == old(self).children@.remove(0),
            old(self)@ == Self::below(popped.1).push(popped.0) + final(self)@,
            final(self).count == final(self)@.len(),
    {
        let ghost before_all = *self;
        let value = self.keys.remove(0);
        let child = self.children.remove(0);
        proof {
            before_all.lemma_view();
            self.lemma_view();
            let e = Seq::<A>::empty();
            lemma_interleave_join(e, seq![Self::below(child)], value, self.keys@, self.kids());
            lemma_interleave_single(Self::below(child));
            assert(e.push(value) + self.keys@ =~= before_all.keys@);
            assert(seq![Self::below(child)] + self.kids() =~= before_all.kids());
        }
        self.count = self.count - (1 + Self::maybe_len(&child));
        proof {
            let settled = Node::<A, B> {
                count: before_all.count,
                keys: self.keys,
                children: self.children,
            };
            Self::lemma_same_but_count(self, &settled);
        }
        (value, child)
    }

    /// Takes the greatest key off the node, with the child to its right.
    pub(crate) fn pop_max(&mut self) -> (popped: (A, Option<Rc<Node<A, B>>>))
        requires
            old(self).children.len() == old(self).keys.len() + 1,
            old(self).keys.len() >= 1,
            old(self).count == old(self)@.len(),
            match old(self).children[old(self).keys.len() as int] {
                Some(c) => c.count == c@.len(),
                None => true,
            },
        ensures
            popped.0 == old(self).keys[old(self).keys.len() - 1],
            popped.1 == old(self).children[old(self).keys.len() as int],
            final(self).keys@ == old(self).keys@.drop_last(),
            final(self).children@ == old(self).children@.drop_last(),
            old(self)@ == final(self)@.push(popped.0) + Self::below(popped.1),
            final(self).count == final(self)@.len(),
    {
        let ghost before_all = *self;
        let value = self.keys.pop().unwrap();
        let child = self.children.pop().unwrap();
        proof {
            before_all.lemma_view();
            self.lemma_view();
            let e = Seq::<A>::empty();
            lemma_interleave_join(self.keys@, self.kids(), value, e, seq![Self::below(child)]);
            lemma_interleave_single(Self::below(child));
            assert(self.keys@.push(value) + e =~= before_all.keys@);
            assert(self.kids() + seq![Self::below(child)] =~= before_all.kids());
        }
        self.count = self.count - (1 + Self::maybe_len(&child));
        proof {
            let settled = Node::<A, B> {
                count: before_all.count,
                keys: self.keys,
                children: self.children,
            };
            Self::lemma_same_but_count(self, &settled);
        }
        (value, child)
    }

    /// Puts a key before the least key of the node, with a child to its
    /// left.
    pub(crate) fn push_min(&mut self, child: Option<Rc<Node<A, B>>>, value: A)
        requires
            old(self).children.len() == old(self).keys.len() + 1,
            old(self).count == old(self)@.len(),
            match child {
                Some(c) => c.count == c@.len(),
                None => true,
            },
            old(self).count + 1 + Self::below(child).len() <= usize::MAX,
        ensures
            final(self).keys@ == old(self).keys@.insert(0, value),
            final(self).children@ == old(self).children@.insert(0, child),
            final(self)@ == Self::below(child).push(value) + old(self)@,
            final(self).count == final(self)@.len(),
    {
        let ghost before_all = *self;
        self.count = self.count + (1 + Self::maybe_len(&child));
        self.keys.insert(0, value);
        self.children.insert(0, child);
        proof {
            before_all.lemma_view();
            self.lemma_view();
            let e = Seq::<A>::empty();
            lemma_interleave_join(
                e,
                seq![Self::below(child)],
                value,
                before_all.keys@,
                before_all.kids(),
            );
            lemma_interleave_single(Self::below(child));
            assert(e.push(value) + before_all.keys@ =~= self.keys@);
            assert(seq![Self::below(child)] + before_all.kids() =~= self.kids());
        }
    }

    /// Puts a key after the greatest key of the node, with a child to its
    /// right.
    pub(crate) fn push_max(&mut self, child: Option<Rc<Node<A, B>>>, value: A)
        requires
            old(self).children.len() == old(self).keys.len() + 1,
            old(self).count == old(self)@.len(),
            match child {
                Some(c) => c.count == c@.len(),
                None => true,
            },
            old(self).count + 1 + Self::below(child).len() <= usize::MAX,
        ensures
            final(self).keys@ == old(self).keys@.push(value),
            final(self).children@ == old(self).children@.push(child),
            final(self)@ == old(self)@.push(value) + Self::below(child),
            final(self).count == final(self)@.len(),
    {
        let ghost before_all = *self;
        self.count = self.count + (1 + Self::maybe_len(&child));
        self.keys.push(value);
        self.children.push(child);
        proof {
            before_all.lemma_view();
            self.lemma_view();
            let e = Seq::<A>::empty();
            lemma_interleave_join(
                before_all.keys@,
                before_all.kids(),
                value,
                e,
                seq![Self::below(child)],
            );
            lemma_interleave_single(Self::below(child));
            assert(before_all.keys@.push(value) + e =~= self.keys@);
            assert(before_all.kids() + seq![Self::below(child)] =~= self.kids());
        }
    }

    /// Slots that are as a shape asks stay so when one is taken away.
    pub(crate) proof fn lemma_slots_ok_remove(slots: Seq<Option<Rc<Node<A, B>>>>, i: int, h: nat)
        requires
            Self::slots_ok(slots, h),
            0 <= i < slots.len(),
        ensures
            Self::slots_ok(slots.remove(i), h),
    {
        reveal(Node::slots_ok);
        let rem = slots.remove(i);
        assert forall|n: int| 0 <= n < rem.len() implies match #[trigger] rem[n] {
            Some(c) => h > 1 && c.shaped((h - 1) as nat, Self::min_keys(), B as nat),
            None => h == 1,
        } by {
            if n < i {
                assert(rem[n] == slots[n]);
            } else {
                assert(rem[n] == slots[n + 1]);
            }
        }
    }

    /// Slots that are as a shape asks stay so when one such slot is put in.
    pub(crate) proof fn lemma_slots_ok_insert(
        slots: Seq<Option<Rc<Node<A, B>>>>,
        i: int,
        slot: Option<Rc<Node<A, B>>>,
        h: nat,
    )
        requires
            Self::slots_ok(slots, h),
            Self::slots_ok(seq![slot], h),
            0 <= i <= slots.len(),
        ensures
            Self::slots_ok(slots.insert(i, slot), h),
    {
        reveal(Node::slots_ok);
        let ins = slots.insert(i, slot);
        assert forall|n: int| 0 <= n < ins.len() implies match #[trigger] ins[n] {
            Some(c) => h > 1 && c.shaped((h - 1) as nat, Self::min_keys(), B as nat),
            None => h == 1,
        } by {
            if n < i {
                assert(ins[n] == slots[n]);
            } else if n > i {
                assert(ins[n] == slots[n - 1]);
            } else {
                assert(ins[n] == seq![slot][0]);
            }
        }
    }

    /// Two rows of slots that are as a shape asks are so together.
    pub(crate) proof fn lemma_slots_ok_concat(
        a: Seq<Option<Rc<Node<A, B>>>>,
        b: Seq<Option<Rc<Node<A, B>>>>,
        h: nat,
    )
        requires
            Self::slots_ok(a, h),
            Self::slots_ok(b, h),
        ensures
            Self::slots_ok(a + b, h),
    {
        reveal(Node::slots_ok);
        let ab = a + b;
        assert forall|n: int| 0 <= n < ab.len() implies match #[trigger] ab[n] {
            Some(c) => h > 1 && c.shaped((h - 1) as nat, Self::min_keys(), B as nat),
            None => h == 1,
        } by {
            if n < a.len() {
                assert(ab[n] == a[n]);
            } else {
                assert(ab[n] == b[n - a.len()]);
            }
        }
    }

    /// What one slot that is as a shape asks holds.
    pub(crate) proof fn lemma_slot_ok(slots: Seq<Option<Rc<Node<A, B>>>>, i: int, h: nat)
        requires
            Self::slots_ok(slots, h),
            0 <= i < slots.len(),
        ensures
            Self::slots_ok(seq![slots[i]], h),
            match slots[i] {
                Some(c) => h > 1 && c.shaped((h - 1) as nat, Self::min_keys(), B as nat),
                None => h == 1,
            },
    {
        reveal(Node::slots_ok);
    }

    /// A node of the right shape makes a slot that is as the shape above it
    /// asks.
    pub(crate) proof fn lemma_slot_of(slot: Option<Rc<Node<A, B>>>, h: nat)
        requires
            match slot {
                Some(c) => h > 1 && c.shaped((h - 1) as nat, Self::min_keys(), B as nat),
                None => h == 1,
            },
        ensures
            Self::slots_ok(seq![slot], h),
    {
        reveal(Node::slots_ok);
    }

    /// Key `j` of a shaped and sorted node, and the two children around it.
    pub(crate) proof fn lemma_pair_parts(&self, h: nat, lo: nat, hi: nat, j: int)
        requires
            self.valid(h, lo, hi),
            0 <= j < self.keys.len(),
        ensures
            self.children.len() == self.keys.len() + 1,
            self.count == self@.len(),
            self.kids().len() == self.children.len(),
            Self::slots_ok(self.children@, h),
            self@ == before(self.keys@, self.kids(), j) + Self::below(self.children[j]) + seq![
                self.keys[j],
            ] + Self::below(self.children[j + 1]) + after(self.keys@, self.kids(), j + 1),
            j > 0 ==> before(self.keys@, self.kids(), j).len() > 0 && before(
                self.keys@,
                self.kids(),
                j,
            ).last() == self.keys[j - 1],
            j + 1 < self.keys.len() ==> after(self.keys@, self.kids(), j + 1).len() > 0 && after(
                self.keys@,
                self.kids(),
                j + 1,
            )[0] == self.keys[j + 1],
            j == 0 ==> before(self.keys@, self.kids(), j).len() == 0,
            j + 1 == self.keys.len() ==> after(self.keys@, self.kids(), j + 1).len() == 0,
            self.key_pos(j) == before(self.keys@, self.kids(), j).len() + Self::below(
                self.children[j],
            ).len(),
            h >= 1,
            h > 1 ==> self.children[j] is Some && self.children[j + 1] is Some,
            h == 1 ==> self.children[j] is None && self.children[j + 1] is None,
    {
        self.lemma_view();
        self.lemma_shaped_parts(h, lo, hi);
        lemma_interleave_pair(
            self.keys@,
            self.kids(),
            j,
            self.kids()[j],
            self.keys[j],
            self.kids()[j + 1],
        );
        Self::lemma_slot_ok(self.children@, j, h);
        Self::lemma_slot_ok(self.children@, j + 1, h);
    }

    /// A child of a shaped and sorted node: its parts and its own shape.
    pub(crate) proof fn lemma_kid(&self, h: nat, lo: nat, hi: nat, i: int)
        requires
            self.valid(h, lo, hi),
            h > 1,
            0 <= i <= self.keys.len(),
        ensures
            match self.children[i] {
                Some(c) => {
                    &&& c.shaped((h - 1) as nat, Self::min_keys(), B as nat)
                    &&& c.children.len() == c.keys.len() + 1
                    &&& c.count == c@.len()
                    &&& Self::min_keys() <= c.keys.len() <= B
                    &&& Self::slots_ok(c.children@, (h - 1) as nat)
                    &&& c.height() == h - 1
                    &&& c.wf()
                    &&& (h > 2 ==> c.keys.len() >= 1 && c.children[0] is Some)
                    &&& (h == 2 ==> c.children[0] is None && c@ == c.keys@)
                },
                None => false,
            },
    {
        self.lemma_child_valid(h, lo, hi, i);
        match self.children[i] {
            Some(c) => {
                c.lemma_shaped_parts((h - 1) as nat, Self::min_keys(), B as nat);
                c.lemma_child_valid((h - 1) as nat, Self::min_keys(), B as nat, 0);
            },
            None => {},
        }
    }

    /// The view of a node after key `j` and the slots around it were put to
    /// `k`, `ls` and `rs`.
    pub(crate) proof fn lemma_pair_replaced(
        orig: &Node<A, B>,
        fin: &Node<A, B>,
        j: int,
        ls: Option<Rc<Node<A, B>>>,
        k: A,
        rs: Option<Rc<Node<A, B>>>,
        h: nat,
    )
        requires
            orig.children.len() == orig.keys.len() + 1,
            0 <= j < orig.keys.len(),
            fin.keys@ == orig.keys@.update(j, k),
            fin.children@ == orig.children@.update(j, ls).update(j + 1, rs),
        ensures
            fin@ == before(orig.keys@, orig.kids(), j) + Self::below(ls) + seq![k] + Self::below(rs)
                + after(orig.keys@, orig.kids(), j + 1),
            (Self::slots_ok(orig.children@, h) && Self::slots_ok(seq![ls], h) && Self::slots_ok(
                seq![rs],
                h,
            )) ==> Self::slots_ok(fin.children@, h),
    {
        orig.lemma_view();
        fin.lemma_view();
        let cs = orig.kids();
        let cs2 = cs.update(j, Self::below(ls)).update(j + 1, Self::below(rs));
        assert(fin.kids() =~= cs2) by {
            assert forall|i: int| 0 <= i < cs2.len() implies fin.kids()[i] == cs2[i] by {
                assert(fin.children[i] == fin.children@[i]);
                if i != j && i != j + 1 {
                    assert(fin.children@[i] == orig.children@[i]);
                    assert(cs[i] == Self::below(orig.children[i]));
                }
            }
        }
        lemma_interleave_pair(orig.keys@, cs, j, Self::below(ls), k, Self::below(rs));
        if Self::slots_ok(orig.children@, h) && Self::slots_ok(seq![ls], h) && Self::slots_ok(
            seq![rs],
            h,
        ) {
            reveal(Node::slots_ok);
            assert forall|i: int| 0 <= i < fin.children@.len() implies match #[trigger] fin.children@[i] {
                Some(c) => h > 1 && c.shaped((h - 1) as nat, Self::min_keys(), B as nat),
                None => h == 1,
            } by {
                if i == j {
                    assert(fin.children@[i] == seq![ls][0]);
                } else if i == j + 1 {
                    assert(fin.children@[i] == seq![rs][0]);
                } else {
                    assert(fin.children@[i] == orig.children@[i]);
                }
            }
        }
    }

    /// The view of a node after key `j` was taken away and the two slots
    /// around it gave way to `slot`.
    pub(crate) proof fn lemma_merged_in(
        orig: &Node<A, B>,
        fin: &Node<A, B>,
        j: int,
        slot: Option<Rc<Node<A, B>>>,
        h: nat,
    )
        requires
            orig.children.len() == orig.keys.len() + 1,
            0 <= j < orig.keys.len(),
            fin.keys@ == orig.keys@.remove(j),
            fin.children@ == orig.children@.remove(j).update(j, slot),
        ensures
            fin@ == before(orig.keys@, orig.kids(), j) + Self::below(slot) + after(
                orig.keys@,
                orig.kids(),
                j + 1,
            ),
            (Self::slots_ok(orig.children@, h) && Self::slots_ok(seq![slot], h))
                ==> Self::slots_ok(fin.children@, h),
    {
        orig.lemma_view();
        fin.lemma_view();
        let cs = orig.kids();
        let cs2 = cs.remove(j).update(j, Self::below(slot));
        assert(fin.kids() =~= cs2) by {
            assert forall|i: int| 0 <= i < cs2.len() implies fin.kids()[i] == cs2[i] by {
                assert(fin.children[i] == fin.children@[i]);
                if i < j {
                    assert(fin.children@[i] == orig.children@[i]);
                    assert(cs[i] == Self::below(orig.children[i]));
                } else if i > j {
                    assert(fin.children@[i] == orig.children@[i + 1]);
                    assert(cs[i + 1] == Self::below(orig.children[i + 1]));
                }
            }
        }
        lemma_interleave_merged(orig.keys@, cs, j, Self::below(slot));
        if Self::slots_ok(orig.children@, h) && Self::slots_ok(seq![slot], h) {
            reveal(Node::slots_ok);
            assert forall|i: int| 0 <= i < fin.children@.len() implies match #[trigger] fin.children@[i] {
                Some(c) => h > 1 && c.shaped((h - 1) as nat, Self::min_keys(), B as nat),
                None => h == 1,
            } by {
                if i < j {
                    assert(fin.children@[i] == orig.children@[i]);
                } else if i > j {
                    assert(fin.children@[i] == orig.children@[i + 1]);
                } else {
                    assert(fin.children@[i] == seq![slot][0]);
                }
            }
        }
    }

    /// In a sorted leaf, key `i` is element `i` of the view.
    pub(crate) proof fn lemma_leaf_key_pos(&self, lo: nat, hi: nat, i: int)
        requires
            self.valid(1, lo, hi),
            0 <= i < self.keys.len(),
        ensures
            self@ == self.keys@,
            self.key_pos(i) == i,
    {
        self.lemma_child_valid(1, lo, hi, i);
        self.lemma_key_at(i);
        lemma_rank_of_member(self@, self.key_pos(i));
        lemma_rank_of_member(self@, i);
    }

    /// The child in slot `i`.
    pub(crate) open spec fn kid(&self, i: int) -> Node<A, B> {
        *self.children[i].unwrap()
    }

    /// A removal makes the node give way to the merge of its children: the
    /// node has one key, and each of the two children around it has too few
    /// keys to give one up.
    pub open(crate) spec fn collapses(&self) -> bool {
        &&& self.keys.len() == 1
        &&& self.children.len() == 2
        &&& self.children[0] is Some
        &&& self.children[1] is Some
        &&& self.kid(0).keys.len() < Self::median()
        &&& self.kid(1).keys.len() < Self::median()
    }

    /// What `index` must be for the removal of `k` from this node of height
    /// `h`: the index of a key of the node, which above a leaf is filed under
    /// `k`, or the index at which `k` would be inserted among the keys.
    pub(crate) open spec fn index_ok(&self, index: Result<usize, usize>, k: A::Key, h: nat) -> bool {
        match index {
            Ok(i) => i < self.keys.len() && (h > 1 ==> self.keys[i as int].key() == k),
            Err(i) => {
                &&& i <= self.keys.len()
                &&& forall|j: int| 0 <= j < i ==> A::key_lt((#[trigger] self.keys[j]).key(), k)
                &&& forall|j: int|
                    i <= j < self.keys.len() ==> A::key_lt(k, (#[trigger] self.keys[j]).key())
            },
        }
    }

    /// The place in the view of the element that a removal at `index` takes
    /// out.
    pub(crate) open spec fn target(&self, index: Result<usize, usize>, k: A::Key) -> int {
        match index {
            Ok(i) => self.key_pos(i as int),
            Err(_) => rank(self@, k),
        }
    }

    /// `k` lies between the keys on either side of key `j`.
    pub(crate) open spec fn bracket(&self, j: int, k: A::Key) -> bool {
        &&& 0 <= j < self.keys.len()
        &&& j > 0 ==> A::key_lt(self.keys[j - 1].key(), k)
        &&& j + 1 < self.keys.len() ==> A::key_lt(k, self.keys[j + 1].key())
    }

    /// The outcome of a removal that took the element at `pos` out of a node
    /// of height `h` that had `n` keys and the view `was`.
    pub(crate) open spec fn took(
        outcome: Remove<A, B>,
        was: Seq<A>,
        pos: int,
        now: Node<A, B>,
        h: nat,
        n: nat,
    ) -> bool {
        match outcome {
            Remove::NoChange => false,
            Remove::Removed(v) => {
                &&& 0 <= pos < was.len()
                &&& v == was[pos]
                &&& now@ == was.remove(pos)
                &&& now.shaped(h, (n - 1) as nat, n)
            },
            Remove::Update(v, root) => {
                &&& 0 <= pos < was.len()
                &&& v == was[pos]
                &&& root@ == was.remove(pos)
                &&& h > 1
                &&& n == 1
                &&& root.shaped((h - 1) as nat, 0, B as nat)
                &&& now.shaped(1, 0, 0)
                &&& now@ == Seq::<A>::empty()
            },
        }
    }

    /// Whether an action is the one for a removal at `index` from this node
    /// of height `h`.
    pub(crate) open spec fn applies(
        &self,
        action: RemoveAction,
        index: Result<usize, usize>,
        h: nat,
    ) -> bool {
        match action {
            RemoveAction::DeleteAt(i) => h == 1 && index == Ok::<usize, usize>(i),
            RemoveAction::PullUp(t, dst, ci) => {
                &&& h == 2
                &&& index == Ok::<usize, usize>(dst)
                &&& self.kid(ci as int).keys.len() >= Self::median()
                &&& (ci == dst && t + 1 == self.kid(ci as int).keys.len()) || (ci == dst + 1 && t
                    == 0)
            },
            RemoveAction::Merge(i) => {
                &&& h > 1
                &&& index == Ok::<usize, usize>(i)
                &&& self.kid(i as int).keys.len() < Self::median()
                &&& self.kid(i + 1).keys.len() < Self::median()
            },
            RemoveAction::StealFromLeft(i) => {
                &&& h > 1
                &&& 1 <= i <= self.keys.len()
                &&& self.kid(i - 1).keys.len() >= Self::median()
                &&& match index {
                    Ok(d) => i == d + 1 && h > 2,
                    Err(d) => i == d && self.kid(i as int).keys.len() < Self::median(),
                }
            },
            RemoveAction::StealFromRight(i) => {
                &&& h > 1
                &&& i < self.keys.len()
                &&& self.kid(i + 1).keys.len() >= Self::median()
                &&& self.kid(i as int).keys.len() < Self::median()
                &&& match index {
                    Ok(d) => i == d && h > 2,
                    Err(d) => i == d,
                }
            },
            RemoveAction::MergeFirst(i) => {
                &&& h > 1
                &&& i < self.keys.len()
                &&& self.kid(i as int).keys.len() < Self::median()
                &&& self.kid(i + 1).keys.len() < Self::median()
                &&& match index {
                    Ok(_) => false,
                    Err(d) => d == i || d == i + 1,
                }
            },
            RemoveAction::ContinueDown(i) => {
                &&& h > 1
                &&& index == Err::<usize, usize>(i)
                &&& self.kid(i as int).keys.len() >= Self::median()
            },
        }
    }

    /// Whether the child in slot `i` has too few keys to give one up.
    pub(crate) fn child_too_small(&self, i: usize) -> (small: bool)
        requires
            Self::fanout_ok(),
            i < self.children.len(),
            self.children[i as int] is Some,
        ensures
            small == (self.kid(i as int).keys.len() < Self::median()),
    {
        match &self.children[i] {
            Some(child) => child.too_small(),
            None => false,
        }
    }

    /// Whether the child in slot `i` is a leaf.
    pub(crate) fn child_is_leaf(&self, i: usize) -> (leaf: bool)
        requires
            i < self.children.len(),
            self.children[i as int] is Some,
            self.kid(i as int).children.len() > 0,
        ensures
            leaf == (self.kid(i as int).children[0] is None),
    {
        match &self.children[i] {
            Some(child) => child.is_leaf(),
            None => false,
        }
    }

    /// The number of keys of the child in slot `i`.
    pub(crate) fn child_key_count(&self, i: usize) -> (n: usize)
        requires
            i < self.children.len(),
            self.children[i as int] is Some,
        ensures
            n == self.kid(i as int).keys.len(),
    {
        match &self.children[i] {
            Some(child) => child.keys.len(),
            None => 0,
        }
    }

    /// Whether the child in slot `index` holds an element filed under `key`.
    pub(crate) fn child_contains(&self, index: usize, key: &A::Key) -> (held: bool)
        requires
            index < self.children.len(),
            match self.children[index as int] {
                Some(c) => c.wf(),
                None => true,
            },
        ensures
            held == has_key(Self::below(self.children[index as int]), *key),
    {
        match &self.children[index] {
            Some(child) => child.lookup(key).is_some(),
            None => {
                assert(!has_key(Seq::<A>::empty(), *key));
                false
            },
        }
    }

    /// What the node does to take out the key at `index`, or nothing where
    /// the key belongs below a leaf.
    pub(crate) fn plan(&self, index: Result<usize, usize>, h: Ghost<nat>, k: Ghost<A::Key>) -> (action:
        Option<RemoveAction>)
        requires
            self.valid(h@, 0, (B + 1) as nat),
            self.index_ok(index, k@, h@),
        ensures
            match action {
                Some(a) => self.applies(a, index, h@),
                None => h@ == 1 && index is Err,
            },
    {
        match index {
            Ok(index) => {
                proof {
                    self.lemma_pair_parts(h@, 0, (B + 1) as nat, index as int);
                    if h@ > 1 {
                        self.lemma_kid(h@, 0, (B + 1) as nat, index as int);
                        self.lemma_kid(h@, 0, (B + 1) as nat, index as int + 1);
                    }
                }
                if self.children[index].is_none() {
                    Some(RemoveAction::DeleteAt(index))
                } else if !self.child_too_small(index) {
                    if self.child_is_leaf(index) {
                        Some(RemoveAction::PullUp(self.child_key_count(index) - 1, index, index))
                    } else {
                        Some(RemoveAction::StealFromLeft(index + 1))
                    }
                } else if !self.child_too_small(index + 1) {
                    if self.child_is_leaf(index + 1) {
                        Some(RemoveAction::PullUp(0, index, index + 1))
                    } else {
                        Some(RemoveAction::StealFromRight(index))
                    }
                } else {
                    Some(RemoveAction::Merge(index))
                }
            },
            Err(index) => {
                proof {
                    self.lemma_child_valid(h@, 0, (B + 1) as nat, index as int);
                    if h@ > 1 {
                        self.lemma_kid(h@, 0, (B + 1) as nat, index as int);
                        if index > 0 {
                            self.lemma_kid(h@, 0, (B + 1) as nat, index as int - 1);
                        }
                        if index < self.keys.len() {
                            self.lemma_kid(h@, 0, (B + 1) as nat, index as int + 1);
                        }
                    }
                }
                if self.children[index].is_none() {
                    None
                } else if self.child_too_small(index) {
                    if index > 0 && !self.child_too_small(index - 1) {
                        Some(RemoveAction::StealFromLeft(index))
                    } else if index < self.keys.len() && !self.child_too_small(index + 1) {
                        Some(RemoveAction::StealFromRight(index))
                    } else if index < self.keys.len() {
                        Some(RemoveAction::MergeFirst(index))
                    } else {
                        Some(RemoveAction::MergeFirst(index - 1))
                    }
                } else {
                    Some(RemoveAction::ContinueDown(index))
                }
            },
        }
    }

    /// A slot that is as a shape asks holds a child that records its own
    /// length rightly.
    pub(crate) proof fn lemma_slot_count(slots: Seq<Option<Rc<Node<A, B>>>>, i: int, h: nat)
        requires
            Self::slots_ok(slots, h),
            0 <= i < slots.len(),
        ensures
            Self::slots_ok(seq![slots[i]], h),
            match slots[i] {
                Some(c) => c.count == c@.len() && c.shaped(
                    (h - 1) as nat,
                    Self::min_keys(),
                    B as nat,
                ),
                None => true,
            },
    {
        Self::lemma_slot_ok(slots, i, h);
        match slots[i] {
            Some(c) => {
                c.lemma_shaped_parts((h - 1) as nat, Self::min_keys(), B as nat);
            },
            None => {},
        }
    }

    /// A node whose slots are those of a leaf has its keys for its view.
    pub(crate) proof fn lemma_leaf_from_slots(&self)
        requires
            self.children.len() == self.keys.len() + 1,
            Self::slots_ok(self.children@, 1),
        ensures
            self@ == self.keys@,
    {
        reveal(Node::slots_ok);
        assert forall|i: int| 0 <= i < self.children.len() implies self.children[i] is None by {
            assert(self.children@[i] == self.children[i]);
        }
        self.lemma_leaf_view();
    }

    /// Takes key `index` out of a leaf.
    pub(crate) fn delete_at(&mut self, index: usize) -> (outcome: Remove<A, B>)
        requires
            old(self).valid(1, 0, (B + 1) as nat),
            index < old(self).keys.len(),
        ensures
            outcome is Removed,
            Self::took(
                outcome,
                old(self)@,
                old(self).key_pos(index as int),
                *final(self),
                1,
                old(self).keys.len() as nat,
            ),
    {
        let ghost orig = *self;
        let ghost n = self.keys.len() as nat;
        proof {
            orig.lemma_leaf_key_pos(0, (B + 1) as nat, index as int);
            orig.lemma_shaped_parts(1, 0, (B + 1) as nat);
        }
        let value = self.keys.remove(index);
        self.children.remove(index);
        self.count = self.count - 1;
        proof {
            Self::lemma_slots_ok_remove(orig.children@, index as int, 1);
            self.lemma_leaf_from_slots();
            self.lemma_shaped_parts(1, (n - 1) as nat, n);
        }
        Remove::Removed(value)
    }

    /// Takes the element filed under `key` out of child `index`, which has
    /// keys to spare.
    pub(crate) fn continue_down(&mut self, index: usize, key: &A::Key, h: Ghost<nat>) -> (outcome:
        Remove<A, B>)
        requires
            old(self).valid(h@, 0, (B + 1) as nat),
            h@ > 1,
            old(self).index_ok(Err(index), *key, h@),
            old(self).kid(index as int).keys.len() >= Self::median(),
        ensures
            !(outcome is Update),
            match outcome {
                Remove::NoChange => {
                    &&& !has_key(old(self)@, *key)
                    &&& final(self)@ == old(self)@
                    &&& final(self).shaped(
                        h@,
                        old(self).keys.len() as nat,
                        old(self).keys.len() as nat,
                    )
                },
                _ => {
                    &&& has_key(old(self)@, *key)
                    &&& Self::took(
                        outcome,
                        old(self)@,
                        rank(old(self)@, *key),
                        *final(self),
                        h@,
                        old(self).keys.len() as nat,
                    )
                },
            },
        decreases h@, 0nat,
    {
        let ghost orig = *self;
        let ghost s = self@;
        let ghost k = *key;
        let ghost n = self.keys.len() as nat;
        let ghost p = before(orig.keys@, orig.kids(), index as int);
        let ghost c = Self::below(orig.children[index as int]);
        let ghost t = after(orig.keys@, orig.kids(), index as int);
        proof {
            orig.lemma_view();
            orig.lemma_shaped_parts(h@, 0, (B + 1) as nat);
            orig.lemma_kid(h@, 0, (B + 1) as nat, index as int);
            orig.lemma_child_valid(h@, 0, (B + 1) as nat, index as int);
            lemma_interleave_window(orig.keys@, orig.kids(), index as int);
            lemma_remove_from_window(s, p, c, t, k);
        }
        let mut child = self.take_child(index);
        let ghost nc = child.keys.len() as nat;
        proof {
            child.lemma_same(&orig.kid(index as int));
            child.lemma_shaped_widen(
                (h@ - 1) as nat,
                Self::min_keys(),
                B as nat,
                0,
                (B + 1) as nat,
            );
        }
        match child.remove_key(key, Ghost((h@ - 1) as nat)) {
            Remove::NoChange => {
                proof {
                    child.lemma_shaped_widen((h@ - 1) as nat, nc, nc, Self::min_keys(), B as nat);
                }
                let slot = Some(Rc::new(child));
                let ghost gs = slot;
                self.children[index] = slot;
                proof {
                    assert(self.children@ =~= orig.children@.update(index as int, gs));
                    Self::lemma_slot_of(gs, h@);
                    Self::lemma_replaced_view(&orig, self, index as int, gs, h@);
                    self.lemma_shaped_parts(h@, n, n);
                }
                Remove::NoChange
            },
            Remove::Removed(value) => {
                proof {
                    child.lemma_shaped_widen(
                        (h@ - 1) as nat,
                        (nc - 1) as nat,
                        nc,
                        Self::min_keys(),
                        B as nat,
                    );
                }
                self.count = self.count - 1;
                let slot = Some(Rc::new(child));
                let ghost gs = slot;
                self.children[index] = slot;
                proof {
                    assert(self.children@ =~= orig.children@.update(index as int, gs));
                    Self::lemma_slot_of(gs, h@);
                    Self::lemma_replaced_view(&orig, self, index as int, gs, h@);
                    self.lemma_shaped_parts(h@, (n - 1) as nat, n);
                }
                Remove::Removed(value)
            },
            Remove::Update(value, new_child) => {
                proof {
                    assert(false);
                }
                Remove::NoChange
            },
        }
    }

    /// Takes out key `dst`, above leaves, and puts in its place the key next
    /// to it in order, which it takes from child `child_index` at `target`:
    /// the last key of the child to the left, or the first key of the child to
    /// the right.
    pub(crate) fn pull_up(
        &mut self,
        target: usize,
        dst: usize,
        child_index: usize,
        key: &A::Key,
        h: Ghost<nat>,
    ) -> (outcome: Remove<A, B>)
        requires
            old(self).valid(h@, 0, (B + 1) as nat),
            h@ == 2,
            dst < old(self).keys.len(),
            old(self).kid(child_index as int).keys.len() >= Self::median(),
            (child_index == dst && target + 1 == old(self).kid(child_index as int).keys.len()) || (
            child_index == dst + 1 && target == 0),
        ensures
            outcome is Removed,
            Self::took(
                outcome,
                old(self)@,
                old(self).key_pos(dst as int),
                *final(self),
                h@,
                old(self).keys.len() as nat,
            ),
        decreases h@, 0nat,
    {
        let ghost orig = *self;
        let ghost s = self@;
        let ghost n = self.keys.len() as nat;
        let ghost p = before(orig.keys@, orig.kids(), dst as int);
        let ghost l = Self::below(orig.children[dst as int]);
        let ghost r = Self::below(orig.children[dst as int + 1]);
        let ghost t = after(orig.keys@, orig.kids(), dst as int + 1);
        proof {
            orig.lemma_pair_parts(h@, 0, (B + 1) as nat, dst as int);
            orig.lemma_kid(h@, 0, (B + 1) as nat, child_index as int);
            orig.lemma_child_valid(h@, 0, (B + 1) as nat, child_index as int);
            Self::lemma_slot_ok(orig.children@, dst as int, h@);
            Self::lemma_slot_ok(orig.children@, dst as int + 1, h@);
        }
        let mut child = self.take_child(child_index);
        let ghost nc = child.keys.len() as nat;
        let ghost cv = child@;
        proof {
            child.lemma_same(&orig.kid(child_index as int));
            child.lemma_shaped_widen(1, Self::min_keys(), B as nat, 0, (B + 1) as nat);
            child.lemma_leaf_key_pos(0, (B + 1) as nat, target as int);
        }
        match child.remove_index(Ok(target), key, Ghost(1)) {
            Remove::Removed(pulled) => {
                proof {
                    child.lemma_shaped_widen(1, (nc - 1) as nat, nc, Self::min_keys(), B as nat);
                }
                let mut value = pulled;
                std::mem::swap(&mut self.keys[dst], &mut value);
                self.count = self.count - 1;
                let slot = Some(Rc::new(child));
                let ghost gs = slot;
                self.children[child_index] = slot;
                proof {
                    Self::lemma_slot_of(gs, h@);
                    if child_index == dst {
                        assert(self.children@ =~= orig.children@.update(dst as int, gs).update(
                            dst as int + 1,
                            orig.children[dst as int + 1],
                        ));
                        Self::lemma_pair_replaced(
                            &orig,
                            self,
                            dst as int,
                            gs,
                            pulled,
                            orig.children[dst as int + 1],
                            h@,
                        );
                        assert(p + cv.remove(target as int) + seq![pulled] + r + t =~= s.remove(
                            (p.len() + l.len()) as int,
                        ));
                    } else {
                        assert(self.children@ =~= orig.children@.update(
                            dst as int,
                            orig.children[dst as int],
                        ).update(dst as int + 1, gs));
                        Self::lemma_pair_replaced(
                            &orig,
                            self,
                            dst as int,
                            orig.children[dst as int],
                            pulled,
                            gs,
                            h@,
                        );
                        assert(p + l + seq![pulled] + cv.remove(target as int) + t =~= s.remove(
                            (p.len() + l.len()) as int,
                        ));
                    }
                    self.lemma_shaped_parts(h@, (n - 1) as nat, n);
                }
                Remove::Removed(value)
            },
            _ => {
                proof {
                    assert(false);
                }
                Remove::NoChange
            },
        }
    }

    /// Merges the children on either side of key `index` and that key into
    /// one child, and takes the element filed under `key` out of it. Where
    /// that was the last key of the node, the merged child is the new root.
    pub(crate) fn merge_at(&mut self, index: usize, key: &A::Key, h: Ghost<nat>) -> (outcome:
        Remove<A, B>)
        requires
            old(self).valid(h@, 0, (B + 1) as nat),
            h@ > 1,
            old(self).bracket(index as int, *key),
            old(self).kid(index as int).keys.len() < Self::median(),
            old(self).kid(index + 1).keys.len() < Self::median(),
            has_key(old(self)@, *key),
        ensures
            outcome is Update <==> old(self).keys.len() == 1,
            Self::took(
                outcome,
                old(self)@,
                rank(old(self)@, *key),
                *final(self),
                h@,
                old(self).keys.len() as nat,
            ),
        decreases h@, 0nat,
    {
        let ghost orig = *self;
        let ghost s = self@;
        let ghost k = *key;
        let ghost n = self.keys.len() as nat;
        let ghost p = before(orig.keys@, orig.kids(), index as int);
        let ghost l = Self::below(orig.children[index as int]);
        let ghost r = Self::below(orig.children[index as int + 1]);
        let ghost t = after(orig.keys@, orig.kids(), index as int + 1);
        let ghost x = l.push(orig.keys[index as int]) + r;
        proof {
            orig.lemma_pair_parts(h@, 0, (B + 1) as nat, index as int);
            orig.lemma_kid(h@, 0, (B + 1) as nat, index as int);
            orig.lemma_kid(h@, 0, (B + 1) as nat, index as int + 1);
            assert(s =~= p + x + t);
            lemma_remove_from_window(s, p, x, t, k);
            lemma_three_parts(s, p, x, t);
        }
        let left = self.take_child(index);
        let right = self.take_child(index + 1);
        self.children.remove(index);
        let middle = self.keys.remove(index);
        proof {
            left.lemma_same(&orig.kid(index as int));
            right.lemma_same(&orig.kid(index as int + 1));
            left.lemma_shaped_parts((h@ - 1) as nat, Self::min_keys(), B as nat);
            right.lemma_shaped_parts((h@ - 1) as nat, Self::min_keys(), B as nat);
            Self::lemma_slots_ok_concat(left.children@, right.children@, (h@ - 1) as nat);
        }
        let mut merged = Self::merge(middle, left, right);
        let ghost nm = merged.keys.len() as nat;
        proof {
            merged.lemma_shaped_parts((h@ - 1) as nat, 0, (B + 1) as nat);
        }
        match merged.remove_key(key, Ghost((h@ - 1) as nat)) {
            Remove::Removed(value) => {
                if self.keys.is_empty() {
                    self.count = 0;
                    proof {
                        merged.lemma_shaped_widen(
                            (h@ - 1) as nat,
                            (nm - 1) as nat,
                            nm,
                            0,
                            B as nat,
                        );
                        assert(self.children@ =~= seq![None]);
                        Self::lemma_slot_of(None, 1);
                        self.lemma_leaf_from_slots();
                        self.lemma_shaped_parts(1, 0, 0);
                        assert(p + merged@ + t =~= merged@);
                        assert(value == s[rank(s, k)]);
                        assert(merged@ == s.remove(rank(s, k)));
                        assert(n == 1);
                        assert(merged.shaped((h@ - 1) as nat, 0, B as nat));
                        assert(self.shaped(1, 0, 0));
                        assert(self@ == Seq::<A>::empty());
                    }
                    Remove::Update(value, merged)
                } else {
                    proof {
                        merged.lemma_shaped_widen(
                            (h@ - 1) as nat,
                            (nm - 1) as nat,
                            nm,
                            Self::min_keys(),
                            B as nat,
                        );
                    }
                    self.count = self.count - 1;
                    let slot = Some(Rc::new(merged));
                    let ghost gs = slot;
                    self.children[index] = slot;
                    proof {
                        assert(self.children@ =~= orig.children@.remove(index as int).update(
                            index as int,
                            gs,
                        ));
                        Self::lemma_slot_of(gs, h@);
                        Self::lemma_merged_in(&orig, self, index as int, gs, h@);
                        self.lemma_shaped_parts(h@, (n - 1) as nat, n);
                        assert(value == s[rank(s, k)]);
                        assert(self@ == s.remove(rank(s, k)));
                        assert(self.shaped(h@, (n - 1) as nat, n));
                    }
                    Remove::Removed(value)
                }
            },
            _ => {
                proof {
                    assert(false);
                }
                Remove::NoChange
            },
        }
    }

    /// Puts `left` and `right` into the slots around key `j`, and records
    /// that the subtree has lost an element.
    pub(crate) fn install_pair(
        &mut self,
        j: usize,
        left: Node<A, B>,
        right: Node<A, B>,
        orig: Ghost<Node<A, B>>,
        h: Ghost<nat>,
    )
        requires
            h@ > 1,
            orig@.children.len() == orig@.keys.len() + 1,
            Self::slots_ok(orig@.children@, h@),
            j < orig@.keys.len(),
            old(self).keys@ == orig@.keys@.update(j as int, old(self).keys[j as int]),
            old(self).children.len() == orig@.children.len(),
            old(self).children@.update(j as int, None).update(j + 1, None)
                == orig@.children@.update(j as int, None).update(j + 1, None),
            old(self).count >= 1,
            left.shaped((h@ - 1) as nat, Self::min_keys(), B as nat),
            right.shaped((h@ - 1) as nat, Self::min_keys(), B as nat),
        ensures
            final(self)@ == before(orig@.keys@, orig@.kids(), j as int) + left@.push(
                old(self).keys[j as int],
            ) + right@ + after(orig@.keys@, orig@.kids(), j + 1),
            final(self).keys@ == old(self).keys@,
            final(self).count == old(self).count - 1,
            final(self).children.len() == final(self).keys.len() + 1,
            Self::slots_ok(final(self).children@, h@),
    {
        let ghost kj = self.keys[j as int];
        self.count = self.count - 1;
        let left_slot = Some(Rc::new(left));
        let right_slot = Some(Rc::new(right));
        let ghost ls = left_slot;
        let ghost rs = right_slot;
        self.children[j] = left_slot;
        self.children[j + 1] = right_slot;
        proof {
            assert(self.children@ =~= old(self).children@.update(j as int, None).update(
                j + 1,
                None,
            ).update(j as int, ls).update(j + 1, rs));
            assert(self.children@ =~= orig@.children@.update(j as int, ls).update(j + 1, rs));
            Self::lemma_slot_of(ls, h@);
            Self::lemma_slot_of(rs, h@);
            Self::lemma_pair_replaced(&orig@, self, j as int, ls, kj, rs, h@);
            assert(before(orig@.keys@, orig@.kids(), j as int) + left@ + seq![kj] + right@ + after(
                orig@.keys@,
                orig@.kids(),
                j + 1,
            ) =~= before(orig@.keys@, orig@.kids(), j as int) + left@.push(kj) + right@ + after(
                orig@.keys@,
                orig@.kids(),
                j + 1,
            ));
        }
    }

    /// Takes the children around key `index - 1` out of their slots, moves
    /// the last key of the left one up to that key, and the key down to the
    /// front of the right one, with the child that hung to its left.
    pub(crate) fn rotate_from_left(&mut self, index: usize, h: Ghost<nat>) -> (pair: (
        Node<A, B>,
        Node<A, B>,
    ))
        requires
            old(self).valid(h@, 0, (B + 1) as nat),
            h@ > 1,
            1 <= index <= old(self).keys.len(),
            old(self).kid(index - 1).keys.len() >= Self::median(),
        ensures
            final(self).keys@ == old(self).keys@.update(index - 1, final(self).keys[index - 1]),
            final(self).children@ == old(self).children@.update(index - 1, None).update(
                index as int,
                None,
            ),
            final(self).count == old(self).count,
            old(self)@ == before(old(self).keys@, old(self).kids(), index - 1) + pair.0@.push(
                final(self).keys[index - 1],
            ) + pair.1@ + after(old(self).keys@, old(self).kids(), index as int),
            A::key_lt(final(self).keys[index - 1].key(), old(self).keys[index - 1].key()),
            pair.0.shaped(
                (h@ - 1) as nat,
                (old(self).kid(index - 1).keys.len() - 1) as nat,
                (old(self).kid(index - 1).keys.len() - 1) as nat,
            ),
            pair.1.shaped(
                (h@ - 1) as nat,
                (old(self).kid(index as int).keys.len() + 1) as nat,
                (old(self).kid(index as int).keys.len() + 1) as nat,
            ),
            pair.1@.len() <= old(self)@.len(),
    {
        let ghost j = index as int - 1;
        let ghost orig = *self;
        let ghost s = self@;
        let ghost p = before(orig.keys@, orig.kids(), j);
        let ghost l = Self::below(orig.children[j]);
        let ghost c = Self::below(orig.children[j + 1]);
        let ghost t = after(orig.keys@, orig.kids(), j + 1);
        let ghost sep0 = orig.keys[j];
        proof {
            orig.lemma_pair_parts(h@, 0, (B + 1) as nat, j);
            orig.lemma_kid(h@, 0, (B + 1) as nat, j);
            orig.lemma_kid(h@, 0, (B + 1) as nat, j + 1);
        }
        let mut left = self.take_child(index - 1);
        let mut child = self.take_child(index);
        let ghost left0 = left;
        let ghost child0 = child;
        proof {
            left.lemma_same(&orig.kid(j));
            child.lemma_same(&orig.kid(j + 1));
            Self::lemma_slot_count(left.children@, left.keys.len() as int, (h@ - 1) as nat);
        }
        let (left_value, moved) = left.pop_max();
        let mut sep = left_value;
        std::mem::swap(&mut self.keys[index - 1], &mut sep);
        proof {
            Self::lemma_rotated(s, p, left@, left_value, Self::below(moved), sep0, c, t);
        }
        child.push_min(moved, sep);
        proof {
            Self::lemma_slots_ok_insert(child0.children@, 0, moved, (h@ - 1) as nat);
            child.lemma_shaped_parts(
                (h@ - 1) as nat,
                (child0.keys.len() + 1) as nat,
                (child0.keys.len() + 1) as nat,
            );
            Self::lemma_slots_ok_remove(
                left0.children@,
                left0.children.len() - 1,
                (h@ - 1) as nat,
            );
            assert(left.children@ =~= left0.children@.remove(left0.children.len() - 1));
            left.lemma_shaped_parts(
                (h@ - 1) as nat,
                (left0.keys.len() - 1) as nat,
                (left0.keys.len() - 1) as nat,
            );
        }
        (left, child)
    }

    /// The parts of a sorted view around a key, after the last key of what
    /// lies to its left has changed places with it.
    pub(crate) proof fn lemma_rotated(
        s: Seq<A>,
        p: Seq<A>,
        lv: Seq<A>,
        kv: A,
        mv: Seq<A>,
        sep: A,
        c: Seq<A>,
        t: Seq<A>,
    )
        requires
            sorted(s),
            s == p + (lv.push(kv) + mv) + seq![sep] + c + t,
        ensures
            s == p + lv.push(kv) + (mv.push(sep) + c) + t,
            A::key_lt(kv.key(), sep.key()),
            (mv.push(sep) + c).len() <= s.len(),
    {
        assert(s =~= p + lv.push(kv) + (mv.push(sep) + c) + t);
        lemma_sorted_pair(
            s,
            (p.len() + lv.len()) as int,
            (p.len() + lv.len() + 1 + mv.len()) as int,
        );
    }

    /// Gives the first key of `child` back to `left` through key `index - 1`,
    /// where `child` has a key too many.
    pub(crate) fn rotate_back_left(
        &mut self,
        index: usize,
        left: &mut Node<A, B>,
        child: &mut Node<A, B>,
        h: Ghost<nat>,
    )
        requires
            h@ > 1,
            1 <= index <= old(self).keys.len(),
            old(child).keys.len() >= 2,
            old(left).shaped(
                (h@ - 1) as nat,
                old(left).keys.len() as nat,
                old(left).keys.len() as nat,
            ),
            old(child).shaped(
                (h@ - 1) as nat,
                old(child).keys.len() as nat,
                old(child).keys.len() as nat,
            ),
            old(left)@.len() + old(child)@.len() < usize::MAX,
        ensures
            final(self).keys@ == old(self).keys@.update(index - 1, final(self).keys[index - 1]),
            final(self).children@ == old(self).children@,
            final(self).count == old(self).count,
            final(left)@.push(final(self).keys[index - 1]) + final(child)@ == old(left)@.push(
                old(self).keys[index - 1],
            ) + old(child)@,
            final(left).shaped(
                (h@ - 1) as nat,
                (old(left).keys.len() + 1) as nat,
                (old(left).keys.len() + 1) as nat,
            ),
            final(child).shaped(
                (h@ - 1) as nat,
                (old(child).keys.len() - 1) as nat,
                (old(child).keys.len() - 1) as nat,
            ),
    {
        let ghost left0 = *left;
        let ghost child0 = *child;
        let ghost up0 = self.keys[index - 1];
        proof {
            left0.lemma_shaped_parts(
                (h@ - 1) as nat,
                left0.keys.len() as nat,
                left0.keys.len() as nat,
            );
            child0.lemma_shaped_parts(
                (h@ - 1) as nat,
                child0.keys.len() as nat,
                child0.keys.len() as nat,
            );
            Self::lemma_slot_count(child0.children@, 0, (h@ - 1) as nat);
        }
        let (first, back) = child.pop_min();
        let mut up = first;
        std::mem::swap(&mut self.keys[index - 1], &mut up);
        proof {
            assert(left0@.push(up0) + child0@ =~= (left0@.push(up0) + Self::below(back)).push(first)
                + child@);
            Self::lemma_slots_ok_remove(child0.children@, 0, (h@ - 1) as nat);
            Self::lemma_slots_ok_insert(
                left0.children@,
                left0.children.len() as int,
                back,
                (h@ - 1) as nat,
            );
        }
        left.push_max(back, up);
        proof {
            assert(left.children@ =~= left0.children@.insert(left0.children.len() as int, back));
            left.lemma_shaped_parts(
                (h@ - 1) as nat,
                (left0.keys.len() + 1) as nat,
                (left0.keys.len() + 1) as nat,
            );
            child.lemma_shaped_parts(
                (h@ - 1) as nat,
                (child0.keys.len() - 1) as nat,
                (child0.keys.len() - 1) as nat,
            );
        }
    }

    /// Moves the last key of the child to the left of child `index` up to
    /// the key between the two, and that key down to the front of child
    /// `index`, with the child that hung to its left; then takes the element
    /// filed under `key` out of child `index`. Where child `index` was full
    /// and is still a key over, its first key goes back the same way.
    pub(crate) fn steal_from_left(&mut self, index: usize, key: &A::Key, h: Ghost<nat>) -> (outcome:
        Remove<A, B>)
        requires
            old(self).valid(h@, 0, (B + 1) as nat),
            h@ > 1,
            index >= 1,
            old(self).bracket(index - 1, *key),
            !A::key_lt(*key, old(self).keys[index - 1].key()),
            old(self).kid(index - 1).keys.len() >= Self::median(),
            has_key(old(self)@, *key),
        ensures
            outcome is Removed,
            Self::took(
                outcome,
                old(self)@,
                rank(old(self)@, *key),
                *final(self),
                h@,
                old(self).keys.len() as nat,
            ),
        decreases h@, 0nat,
    {
        let ghost j = index as int - 1;
        let ghost orig = *self;
        let ghost s = self@;
        let ghost k = *key;
        let ghost n = self.keys.len() as nat;
        let ghost p = before(orig.keys@, orig.kids(), j);
        let ghost t = after(orig.keys@, orig.kids(), j + 1);
        proof {
            orig.lemma_pair_parts(h@, 0, (B + 1) as nat, j);
            orig.lemma_kid(h@, 0, (B + 1) as nat, j);
            orig.lemma_kid(h@, 0, (B + 1) as nat, j + 1);
        }
        let (left, child) = self.rotate_from_left(index, h);
        let mut left = left;
        let mut child = child;
        let ghost kv = self.keys[j];
        let ghost x = child@;
        let ghost lv0 = left@;
        let ghost nl = (orig.kid(j).keys.len() - 1) as nat;
        let ghost nx = (orig.kid(j + 1).keys.len() + 1) as nat;
        proof {
            left.lemma_shaped_parts((h@ - 1) as nat, nl, nl);
            child.lemma_shaped_parts((h@ - 1) as nat, nx, nx);
            child.lemma_shaped_parts((h@ - 1) as nat, 0, (B + 1) as nat);
            Self::lemma_steal_window(s, p, left@.push(kv), x, t, k, orig.keys[j].key());
        }
        match child.remove_key(key, Ghost((h@ - 1) as nat)) {
            Remove::Removed(value) => {
                proof {
                    child.lemma_shaped_parts((h@ - 1) as nat, (nx - 1) as nat, nx);
                    child.lemma_shaped_parts(
                        (h@ - 1) as nat,
                        child.keys.len() as nat,
                        child.keys.len() as nat,
                    );
                }
                let ghost x2 = child@;
                let ghost n2 = child.keys.len() as nat;
                if child.keys.len() > B {
                    self.rotate_back_left(index, &mut left, &mut child, h);
                    proof {
                        left.lemma_shaped_parts((h@ - 1) as nat, nl + 1, nl + 1);
                        child.lemma_shaped_parts(
                            (h@ - 1) as nat,
                            (n2 - 1) as nat,
                            (n2 - 1) as nat,
                        );
                    }
                }
                proof {
                    left.lemma_shaped_parts((h@ - 1) as nat, Self::min_keys(), B as nat);
                    child.lemma_shaped_parts((h@ - 1) as nat, Self::min_keys(), B as nat);
                    assert(self.keys@ =~= orig.keys@.update(j, self.keys[j]));
                    assert(self.children@.update(j, None).update(j + 1, None)
                        =~= orig.children@.update(j, None).update(j + 1, None));
                }
                let ghost lf = left@;
                let ghost cf = child@;
                let ghost kf = self.keys[j];
                self.install_pair(index - 1, left, child, Ghost(orig), h);
                proof {
                    assert(p + lf.push(kf) + cf + t =~= p + (lf.push(kf) + cf) + t);
                    assert(p + lv0.push(kv) + x2 + t =~= p + (lv0.push(kv) + x2) + t);
                    self.lemma_shaped_parts(h@, (n - 1) as nat, n);
                }
                Remove::Removed(value)
            },
            _ => {
                proof {
                    assert(false);
                }
                Remove::NoChange
            },
        }
    }

    /// The window of a sorted view that a rotation has prepared, with `k`
    /// between what lies before and after it.
    pub(crate) proof fn lemma_steal_window(
        s: Seq<A>,
        p: Seq<A>,
        lk: Seq<A>,
        x: Seq<A>,
        t: Seq<A>,
        k: A::Key,
        sep: A::Key,
    )
        requires
            sorted(s),
            s == p + lk + x + t,
            lk.len() > 0,
            A::key_lt(lk.last().key(), sep),
            !A::key_lt(k, sep),
            t.len() > 0 ==> A::key_lt(k, t[0].key()),
            has_key(s, k),
        ensures
            sorted(x),
            has_key(x, k),
            0 <= rank(x, k) < x.len(),
            s[rank(s, k)] == x[rank(x, k)],
            p + lk + x.remove(rank(x, k)) + t == s.remove(rank(s, k)),
            0 <= rank(s, k) < s.len(),
            x.len() <= s.len(),
    {
        let pp = p + lk;
        assert(pp.last() == lk.last());
        if A::key_lt(sep, k) {
            lemma_lt_transitive::<A>(lk.last().key(), sep, k);
        } else {
            lemma_lt_total::<A>(sep, k);
        }
        lemma_remove_from_window(s, pp, x, t, k);
        lemma_three_parts(s, pp, x, t);
    }

    /// Takes the children around key `index` out of their slots, moves the
    /// first key of the right one up to that key, and the key down to the
    /// back of the left one, with the child that hung to its right.
    pub(crate) fn rotate_from_right(&mut self, index: usize, h: Ghost<nat>) -> (pair: (
        Node<A, B>,
        Node<A, B>,
    ))
        requires
            old(self).valid(h@, 0, (B + 1) as nat),
            h@ > 1,
            index < old(self).keys.len(),
            old(self).kid(index + 1).keys.len() >= Self::median(),
        ensures
            final(self).keys@ == old(self).keys@.update(index as int, final(self).keys[index as int]),
            final(self).children@ == old(self).children@.update(index as int, None).update(
                index + 1,
                None,
            ),
            final(self).count == old(self).count,
            old(self)@ == before(old(self).keys@, old(self).kids(), index as int) + pair.0@ + (seq![
                final(self).keys[index as int],
            ] + pair.1@ + after(old(self).keys@, old(self).kids(), index + 1)),
            A::key_lt(old(self).keys[index as int].key(), final(self).keys[index as int].key()),
            pair.0.shaped(
                (h@ - 1) as nat,
                (old(self).kid(index as int).keys.len() + 1) as nat,
                (old(self).kid(index as int).keys.len() + 1) as nat,
            ),
            pair.1.shaped(
                (h@ - 1) as nat,
                (old(self).kid(index + 1).keys.len() - 1) as nat,
                (old(self).kid(index + 1).keys.len() - 1) as nat,
            ),
            pair.0@.len() <= old(self)@.len(),
    {
        let ghost j = index as int;
        let ghost orig = *self;
        let ghost s = self@;
        let ghost p = before(orig.keys@, orig.kids(), j);
        let ghost c = Self::below(orig.children[j]);
        let ghost t = after(orig.keys@, orig.kids(), j + 1);
        let ghost sep0 = orig.keys[j];
        proof {
            orig.lemma_pair_parts(h@, 0, (B + 1) as nat, j);
            orig.lemma_kid(h@, 0, (B + 1) as nat, j);
            orig.lemma_kid(h@, 0, (B + 1) as nat, j + 1);
        }
        let mut child = self.take_child(index);
        let mut right = self.take_child(index + 1);
        let ghost right0 = right;
        let ghost child0 = child;
        proof {
            child.lemma_same(&orig.kid(j));
            right.lemma_same(&orig.kid(j + 1));
            Self::lemma_slot_count(right.children@, 0, (h@ - 1) as nat);
        }
        let (right_value, moved) = right.pop_min();
        let mut sep = right_value;
        std::mem::swap(&mut self.keys[index], &mut sep);
        proof {
            Self::lemma_rotated_right(s, p, c, sep0, Self::below(moved), right_value, right@, t);
        }
        child.push_max(moved, sep);
        proof {
            Self::lemma_slots_ok_insert(
                child0.children@,
                child0.children.len() as int,
                moved,
                (h@ - 1) as nat,
            );
            assert(child.children@ =~= child0.children@.insert(
                child0.children.len() as int,
                moved,
            ));
            child.lemma_shaped_parts(
                (h@ - 1) as nat,
                (child0.keys.len() + 1) as nat,
                (child0.keys.len() + 1) as nat,
            );
            Self::lemma_slots_ok_remove(right0.children@, 0, (h@ - 1) as nat);
            right.lemma_shaped_parts(
                (h@ - 1) as nat,
                (right0.keys.len() - 1) as nat,
                (right0.keys.len() - 1) as nat,
            );
        }
        (child, right)
    }

    /// The parts of a sorted view around a key, after the first key of what
    /// lies to its right has changed places with it.
    pub(crate) proof fn lemma_rotated_right(
        s: Seq<A>,
        p: Seq<A>,
        c: Seq<A>,
        sep: A,
        mv: Seq<A>,
        kv: A,
        rv: Seq<A>,
        t: Seq<A>,
    )
        requires
            sorted(s),
            s == p + c + seq![sep] + (mv.push(kv) + rv) + t,
        ensures
            s == p + (c.push(sep) + mv) + (seq![kv] + rv + t),
            A::key_lt(sep.key(), kv.key()),
            (c.push(sep) + mv).len() <= s.len(),
    {
        assert(s =~= p + (c.push(sep) + mv) + (seq![kv] + rv + t));
        lemma_sorted_pair(
            s,
            (p.len() + c.len()) as int,
            (p.len() + c.len() + 1 + mv.len()) as int,
        );
    }

    /// Moves the first key of the child to the right of child `index` up to
    /// the key between the two, and that key down to the back of child
    /// `index`, with the child that hung to its right; then takes the element
    /// filed under `key` out of child `index`.
    pub(crate) fn steal_from_right(&mut self, index: usize, key: &A::Key, h: Ghost<nat>) -> (outcome:
        Remove<A, B>)
        requires
            old(self).valid(h@, 0, (B + 1) as nat),
            h@ > 1,
            old(self).bracket(index as int, *key),
            !A::key_lt(old(self).keys[index as int].key(), *key),
            old(self).kid(index + 1).keys.len() >= Self::median(),
            old(self).kid(index as int).keys.len() < Self::median(),
            has_key(old(self)@, *key),
        ensures
            outcome is Removed,
            Self::took(
                outcome,
                old(self)@,
                rank(old(self)@, *key),
                *final(self),
                h@,
                old(self).keys.len() as nat,
            ),
        decreases h@, 0nat,
    {
        let ghost j = index as int;
        let ghost orig = *self;
        let ghost s = self@;
        let ghost k = *key;
        let ghost n = self.keys.len() as nat;
        let ghost p = before(orig.keys@, orig.kids(), j);
        let ghost t = after(orig.keys@, orig.kids(), j + 1);
        proof {
            orig.lemma_pair_parts(h@, 0, (B + 1) as nat, j);
            orig.lemma_kid(h@, 0, (B + 1) as nat, j);
            orig.lemma_kid(h@, 0, (B + 1) as nat, j + 1);
        }
        let (child, right) = self.rotate_from_right(index, h);
        let mut child = child;
        let ghost kv = self.keys[j];
        let ghost x = child@;
        let ghost tt = seq![kv] + right@ + t;
        let ghost nr = (orig.kid(j + 1).keys.len() - 1) as nat;
        let ghost nx = (orig.kid(j).keys.len() + 1) as nat;
        proof {
            right.lemma_shaped_parts((h@ - 1) as nat, nr, nr);
            child.lemma_shaped_parts((h@ - 1) as nat, nx, nx);
            child.lemma_shaped_parts((h@ - 1) as nat, 0, (B + 1) as nat);
            if A::key_lt(k, orig.keys[j].key()) {
                lemma_lt_transitive::<A>(k, orig.keys[j].key(), kv.key());
            } else {
                lemma_lt_total::<A>(orig.keys[j].key(), k);
            }
            lemma_remove_from_window(s, p, x, tt, k);
            lemma_three_parts(s, p, x, tt);
        }
        match child.remove_key(key, Ghost((h@ - 1) as nat)) {
            Remove::Removed(value) => {
                proof {
                    child.lemma_shaped_parts((h@ - 1) as nat, (nx - 1) as nat, nx);
                    right.lemma_shaped_parts((h@ - 1) as nat, Self::min_keys(), B as nat);
                    child.lemma_shaped_parts((h@ - 1) as nat, Self::min_keys(), B as nat);
                    assert(self.keys@ =~= orig.keys@.update(j, self.keys[j]));
                    assert(self.children@.update(j, None).update(j + 1, None)
                        =~= orig.children@.update(j, None).update(j + 1, None));
                }
                self.install_pair(index, child, right, Ghost(orig), h);
                proof {
                    assert(p + x.remove(rank(x, k)).push(kv) + right@ + t =~= p + x.remove(
                        rank(x, k),
                    ) + tt);
                    self.lemma_shaped_parts(h@, (n - 1) as nat, n);
                }
                Remove::Removed(value)
            },
            _ => {
                proof {
                    assert(false);
                }
                Remove::NoChange
            },
        }
    }

    /// Takes the element filed under `key` out of the subtree, whose root
    /// has height `h`.
    pub(crate) fn remove_key(&mut self, key: &A::Key, h: Ghost<nat>) -> (outcome: Remove<A, B>)
        requires
            old(self).valid(h@, 0, (B + 1) as nat),
        ensures
            outcome is Update <==> has_key(old(self)@, *key) && old(self).collapses(),
            match outcome {
                Remove::NoChange => {
                    &&& !has_key(old(self)@, *key)
                    &&& final(self)@ == old(self)@
                    &&& final(self).shaped(
                        h@,
                        old(self).keys.len() as nat,
                        old(self).keys.len() as nat,
                    )
                },
                _ => {
                    &&& has_key(old(self)@, *key)
                    &&& Self::took(
                        outcome,
                        old(self)@,
                        rank(old(self)@, *key),
                        *final(self),
                        h@,
                        old(self).keys.len() as nat,
                    )
                },
            },
        decreases h@, 2nat,
    {
        proof {
            self.lemma_shaped_parts(h@, 0, (B + 1) as nat);
            self.lemma_keys_sorted();
            lemma_sorted_means(self.keys@);
        }
        let index = A::search_key(self.keys.as_slice(), key);
        proof {
            match index {
                Ok(i) => {
                    self.lemma_key_at(i as int);
                    lemma_rank_of_member(self@, self.key_pos(i as int));
                },
                Err(_) => {},
            }
        }
        self.remove_index(index, key, h)
    }

    /// Takes out the key at `index`, or the element filed under `key` below
    /// the child at which `index` says it belongs.
    pub(crate) fn remove_index(
        &mut self,
        index: Result<usize, usize>,
        key: &A::Key,
        h: Ghost<nat>,
    ) -> (outcome: Remove<A, B>)
        requires
            old(self).valid(h@, 0, (B + 1) as nat),
            old(self).index_ok(index, *key, h@),
        ensures
            outcome is Update <==> (index is Ok || has_key(old(self)@, *key)) && old(
                self,
            ).collapses(),
            match outcome {
                Remove::NoChange => {
                    &&& index is Err
                    &&& !has_key(old(self)@, *key)
                    &&& final(self)@ == old(self)@
                    &&& final(self).shaped(
                        h@,
                        old(self).keys.len() as nat,
                        old(self).keys.len() as nat,
                    )
                },
                _ => {
                    &&& index is Err ==> has_key(old(self)@, *key)
                    &&& Self::took(
                        outcome,
                        old(self)@,
                        old(self).target(index, *key),
                        *final(self),
                        h@,
                        old(self).keys.len() as nat,
                    )
                },
            },
        decreases h@, 1nat,
    {
        let ghost orig = *self;
        let ghost s = self@;
        let ghost k = *key;
        let ghost n = self.keys.len() as nat;
        let action = self.plan(index, h, Ghost(k));
        proof {
            orig.lemma_shaped_parts(h@, 0, (B + 1) as nat);
            orig.lemma_shaped_parts(h@, n, n);
            orig.lemma_child_valid(h@, 0, (B + 1) as nat, 0);
            if h@ > 1 {
                orig.lemma_kid(h@, 0, (B + 1) as nat, 0);
                orig.lemma_kid(h@, 0, (B + 1) as nat, 1);
            }
        }
        match action {
            None => {
                proof {
                    orig.lemma_descend(index.unwrap_err() as int, k);
                    orig.lemma_child_valid(h@, 0, (B + 1) as nat, index.unwrap_err() as int);
                    assert(!has_key(Seq::<A>::empty(), k));
                }
                Remove::NoChange
            },
            Some(RemoveAction::DeleteAt(i)) => self.delete_at(i),
            Some(RemoveAction::ContinueDown(i)) => self.continue_down(i, key, h),
            Some(RemoveAction::PullUp(target, dst, child_index)) => self.pull_up(
                target,
                dst,
                child_index,
                key,
                h,
            ),
            Some(RemoveAction::Merge(i)) => {
                proof {
                    orig.lemma_found_here(i as int, k);
                }
                self.merge_at(i, key, h)
            },
            Some(RemoveAction::StealFromLeft(i)) => {
                let absent = match index {
                    Ok(_) => false,
                    Err(_) => {
                        proof {
                            orig.lemma_child_valid(h@, 0, (B + 1) as nat, i as int);
                            orig.lemma_descend(i as int, k);
                            lemma_lt_asymmetric::<A>(orig.keys[i - 1].key(), k);
                        }
                        !self.child_contains(i, key)
                    },
                };
                if absent {
                    Remove::NoChange
                } else {
                    proof {
                        if index is Ok {
                            orig.lemma_found_here(i - 1, k);
                            lemma_lt_irreflexive::<A>(k);
                        }
                    }
                    self.steal_from_left(i, key, h)
                }
            },
            Some(RemoveAction::StealFromRight(i)) => {
                let absent = match index {
                    Ok(_) => false,
                    Err(_) => {
                        proof {
                            orig.lemma_child_valid(h@, 0, (B + 1) as nat, i as int);
                            orig.lemma_descend(i as int, k);
                            lemma_lt_asymmetric::<A>(k, orig.keys[i as int].key());
                        }
                        !self.child_contains(i, key)
                    },
                };
                if absent {
                    Remove::NoChange
                } else {
                    proof {
                        if index is Ok {
                            orig.lemma_found_here(i as int, k);
                            lemma_lt_irreflexive::<A>(k);
                        }
                    }
                    self.steal_from_right(i, key, h)
                }
            },
            Some(RemoveAction::MergeFirst(i)) => {
                proof {
                    orig.lemma_child_valid(h@, 0, (B + 1) as nat, i as int);
                    orig.lemma_child_valid(h@, 0, (B + 1) as nat, i + 1);
                    orig.lemma_descend(index.unwrap_err() as int, k);
                }
                if !self.key_matches(i, key) && !self.child_contains(i, key)
                    && !self.child_contains(i + 1, key) {
                    Remove::NoChange
                } else {
                    proof {
                        if orig.key_at(i) == k {
                            orig.lemma_found_here(i as int, k);
                        } else if has_key(Self::below(orig.children[i as int]), k) {
                            orig.lemma_below_in_view(i as int, k);
                        } else {
                            orig.lemma_below_in_view(i + 1, k);
                        }
                    }
                    self.merge_at(i, key, h)
                }
            },
        }
    }

    /// Where key `i` of a sorted node is filed under `k`: `k` lies between
    /// the keys around it, and the view holds the key at the rank of `k`.
    pub(crate) proof fn lemma_found_here(&self, i: int, k: A::Key)
        requires
            self.children.len() == self.keys.len() + 1,
            sorted(self@),
            0 <= i < self.keys.len(),
            self.keys[i].key() == k,
        ensures
            self.bracket(i, k),
            has_key(self@, k),
            rank(self@, k) == self.key_pos(i),
    {
        self.lemma_keys_sorted();
        lemma_sorted_means(self.keys@);
        self.lemma_key_at(i);
        lemma_rank_of_member(self@, self.key_pos(i));
    }

    /// Takes the element filed under `key` out of the tree.
    ///
    /// The outcome tells what became of the node. After `NoChange` the tree
    /// holds what it held. After `Removed` the node is the root of the tree
    /// without the element. After `Update` the node is empty, and the node
    /// that comes with the outcome is the root of the tree without the
    /// element, one level lower.
    pub fn remove(&mut self, key: &A::Key) -> (outcome: Remove<A, B>)
        requires
            old(self).wf(),
        ensures
            final(self).wf(),
            outcome is NoChange <==> !has_key(old(self)@, *key),
            outcome is Update <==> has_key(old(self)@, *key) && old(self).collapses(),
            match outcome {
                Remove::Update(_, root) => root@ == removed(old(self)@, *key),
                _ => final(self)@ == removed(old(self)@, *key),
            },
            match outcome {
                Remove::NoChange => {
                    &&& !has_key(old(self)@, *key)
                    &&& final(self)@ == old(self)@
                    &&& final(self).height() == old(self).height()
                    &&& final(self).own_keys().len() == old(self).own_keys().len()
                },
                Remove::Removed(value) => {
                    &&& entry(old(self)@, *key) == Some(value)
                    &&& value.key() == *key
                    &&& final(self)@ == old(self)@.remove(rank(old(self)@, *key))
                    &&& final(self).height() == old(self).height()
                },
                Remove::Update(value, root) => {
                    &&& entry(old(self)@, *key) == Some(value)
                    &&& value.key() == *key
                    &&& root@ == old(self)@.remove(rank(old(self)@, *key))
                    &&& root.wf()
                    &&& root.height() + 1 == old(self).height()
                    &&& old(self).own_keys().len() == 1
                    &&& final(self)@ == Seq::<A>::empty()
                },
            },
    {
        let ghost h = self.height();
        let ghost s = self@;
        let ghost n = self.keys.len() as nat;
        proof {
            self.lemma_shaped_parts(h, 0, B as nat);
            self.lemma_shaped_widen(h, 0, B as nat, 0, (B + 1) as nat);
            lemma_key_sits_at_rank(s, *key);
        }
        let outcome = self.remove_key(key, Ghost(h));
        proof {
            match &outcome {
                Remove::NoChange => {
                    self.lemma_shaped_parts(h, n, n);
                    self.lemma_shaped_widen(h, n, n, 0, B as nat);
                    self.lemma_shaped_height(h, 0, B as nat);
                },
                Remove::Removed(_) => {
                    lemma_remove_sorted(s, rank(s, *key));
                    self.lemma_shaped_widen(h, (n - 1) as nat, n, 0, B as nat);
                    self.lemma_shaped_height(h, 0, B as nat);
                },
                Remove::Update(_, root) => {
                    lemma_remove_sorted(s, rank(s, *key));
                    root.lemma_shaped_height((h - 1) as nat, 0, B as nat);
                    self.lemma_shaped_widen(1, 0, 0, 0, B as nat);
                    self.lemma_shaped_height(1, 0, B as nat);
                    lemma_sorted_small(self@);
                },
            }
        }
        outcome
    }
}

impl<A: BTreeValue, const B: usize> Node<A, B> {
    /// Whether key `index` of the node is filed under `key`.
    pub(crate) fn key_matches(&self, index: usize, key: &A::Key) -> (same: bool)
        requires
            self.has_index(index),
        ensures
            same == (self.key_at(index) == *key),
    {
        proof {
            lemma_lt_irreflexive::<A>(*key);
        }
        match self.keys[index].cmp_keys(key) {
            Ordering::Equal => true,
            _ => false,
        }
    }
}

} // verus!
