//! Insertion, and the split of a node that has no room.

use crate::layout::{
    after, before, lemma_interleave_join, lemma_interleave_key_replaced, lemma_interleave_replaced,
    lemma_interleave_spliced,
};
use crate::node::{Node, unshare};
use crate::order::{
    entry, has_key, inserted, lemma_insert_in_window, lemma_insert_sorted, lemma_key_sits_at_rank,
    lemma_lt_asymmetric, lemma_rank_is, lemma_rank_of_member, lemma_sorted_means,
    lemma_sorted_small, lemma_sorted_subrange, lemma_update_in_window, lemma_update_sorted, rank,
    sorted, splits_at,
};
use crate::value::BTreeValue;
use std::rc::Rc;
use vstd::prelude::*;

verus! {

/// What an insertion did to a node.
pub enum Insert<A, const B: usize> {
    /// The element is new to the subtree and the node has taken it in.
    Added,
    /// The element took the place of this one, which was filed under its key.
    Replaced(A),
    /// Never the outcome of an insertion.
    Update(Node<A, B>),
    /// The node had no room and has split in two around a median; the caller
    /// installs the three in its place.
    Split(Node<A, B>, A, Node<A, B>),
}

impl<A: BTreeValue, const B: usize> Node<A, B> {
    /// The median index.
    pub(crate) fn median_index() -> (m: usize)
        requires
            Self::fanout_ok(),
        ensures
            m == Self::median(),
            m == Self::min_keys() + 1,
            2 * m == B,
    {
        (B + 1) / 2
    }

    /// Whether the node can take in one more key.
    pub(crate) fn has_room(&self) -> (room: bool)
        ensures
            room == (self.keys.len() < B),
    {
        self.keys.len() < B
    }

    /// Splits a full node around the median of its keys and `value`, which
    /// belongs at `index` with `ins_left` and `ins_right` on its two sides.
    ///
    /// Where `index` is below the median index the new key goes to the left
    /// half, where it is above to the right half, and where it is the median
    /// index the new key is the median itself. Either half has as many keys
    /// as the median index says. The node itself is left empty.
    pub(crate) fn split(
        &mut self,
        index: usize,
        value: A,
        ins_left: Option<Node<A, B>>,
        ins_right: Option<Node<A, B>>,
        h: Ghost<nat>,
    ) -> (outcome: Insert<A, B>)
        requires
            Self::fanout_ok(),
            h >= 1,
            old(self).keys.len() == B,
            old(self).children.len() == B + 1,
            index <= B,
            Self::slots_ok(old(self).children@.remove(index as int), h@),
            match (ins_left, ins_right) {
                (Some(l), Some(r)) => {
                    &&& h@ > 1
                    &&& l.shaped((h@ - 1) as nat, Self::min_keys(), B as nat)
                    &&& r.shaped((h@ - 1) as nat, Self::min_keys(), B as nat)
                },
                (None, None) => h@ == 1,
                _ => false,
            },
            before(old(self).keys@, old(self).kids(), index as int).len() + Self::inside(
                ins_left,
            ).len() + 1 + Self::inside(ins_right).len() + after(
                old(self).keys@,
                old(self).kids(),
                index as int,
            ).len() <= usize::MAX,
        ensures
            match outcome {
                Insert::Split(left, median, right) => {
                    &&& left@.push(median) + right@ == before(
                        old(self).keys@,
                        old(self).kids(),
                        index as int,
                    ) + Self::inside(ins_left) + seq![value] + Self::inside(ins_right) + after(
                        old(self).keys@,
                        old(self).kids(),
                        index as int,
                    )
                    &&& left.shaped(h@, Self::median(), Self::median())
                    &&& right.shaped(h@, Self::median(), Self::median())
                    &&& (Self::dense_slots(old(self).children@.remove(index as int))
                        && Self::dense_inside(ins_left) && Self::dense_inside(ins_right))
                        ==> left.dense() && right.dense()
                },
                _ => false,
            },
            final(self).shaped(1, 0, 0),
            final(self)@ == Seq::<A>::empty(),
            final(self).dense(),
    {
        let ghost h = h@;
        let ghost before_all = *self;
        let left_child = match ins_left {
            Some(node) => Some(Rc::new(node)),
            None => None,
        };
        let right_child = match ins_right {
            Some(node) => Some(Rc::new(node)),
            None => None,
        };
        let ghost ls = left_child;
        let ghost rs = right_child;
        self.children[index] = left_child;
        self.keys.insert(index, value);
        self.children.insert(index + 1, right_child);
        let ghost whole = *self;
        proof {
            assert(Self::slots_ok(seq![ls, rs], h)) by {
                reveal(Node::slots_ok);
            }
            if Self::dense_inside(ins_left) && Self::dense_inside(ins_right) {
                assert(Self::dense_slots(seq![ls, rs])) by {
                    reveal(Node::dense_slots);
                }
            }
            Self::lemma_spliced_view(&before_all, &whole, index as int, value, ls, rs, h);
        }
        let m = Self::median_index();
        let right_keys = self.keys.split_off(m + 1);
        let median = self.keys.pop().unwrap();
        let right_children = self.children.split_off(m + 1);
        let mut left_keys: Vec<A> = Vec::new();
        std::mem::swap(&mut self.keys, &mut left_keys);
        let mut left_children: Vec<Option<Rc<Node<A, B>>>> = Vec::new();
        std::mem::swap(&mut self.children, &mut left_children);
        self.children.push(None);
        self.count = 0;
        let ghost left_half = Node::<A, B> { count: 0, keys: left_keys, children: left_children };
        let ghost right_half = Node::<A, B> {
            count: 0,
            keys: right_keys,
            children: right_children,
        };
        proof {
            assert(self.keys@ =~= Seq::<A>::empty());
            self.lemma_leaf_view();
            assert(Self::slots_ok(self.children@, 1)) by {
                reveal(Node::slots_ok);
            }
            assert(Self::dense_slots(self.children@)) by {
                reveal(Node::dense_slots);
            }
            self.lemma_dense();
            self.lemma_shaped_parts(1, 0, 0);
            assert(left_keys@ =~= whole.keys@.take(m as int));
            assert(right_keys@ =~= whole.keys@.skip(m as int + 1));
            assert(left_children@ =~= whole.children@.take(m as int + 1));
            assert(right_children@ =~= whole.children@.skip(m as int + 1));
            Self::lemma_cut_view(&whole, &left_half, median, &right_half, m as int, h);
            left_half.lemma_view_len(h);
            right_half.lemma_view_len(h);
            assert((left_half@.push(median) + right_half@).len() == left_half@.len() + 1
                + right_half@.len());
        }
        let left_count = m + Self::sum_up_children(&left_children);
        let right_count = m + Self::sum_up_children(&right_children);
        let left = Node { count: left_count, keys: left_keys, children: left_children };
        let right = Node { count: right_count, keys: right_keys, children: right_children };
        proof {
            Self::lemma_same_but_count(&left, &left_half);
            Self::lemma_same_but_count(&right, &right_half);
            left.lemma_shaped_parts(h, Self::median(), Self::median());
            right.lemma_shaped_parts(h, Self::median(), Self::median());
            left.lemma_dense();
            right.lemma_dense();
            left_half.lemma_dense();
            right_half.lemma_dense();
        }
        Insert::Split(left, median, right)
    }

    /// Nodes with the same keys and child handles have the same view.
    pub(crate) proof fn lemma_same_but_count(a: &Node<A, B>, b: &Node<A, B>)
        requires
            a.keys@ == b.keys@,
            a.children@ == b.children@,
        ensures
            a@ == b@,
            a.kids() == b.kids(),
    {
        reveal(Node::view);
        reveal(Node::kids);
        assert forall|i: int| 0 <= i < a.children.len() implies a.children[i] == b.children[i] by {
            assert(a.children@[i] == b.children@[i]);
        }
        assert(a.kids() =~= b.kids());
    }

    /// The view of a node after a key went in at `index`, with `ls` put into
    /// slot `index` and `rs` into a new slot after it.
    pub(crate) proof fn lemma_spliced_view(
        old_node: &Node<A, B>,
        new_node: &Node<A, B>,
        index: int,
        value: A,
        ls: Option<Rc<Node<A, B>>>,
        rs: Option<Rc<Node<A, B>>>,
        h: nat,
    )
        requires
            old_node.children.len() == old_node.keys.len() + 1,
            0 <= index <= old_node.keys.len(),
            new_node.keys@ == old_node.keys@.insert(index, value),
            new_node.children@ == old_node.children@.update(index, ls).insert(index + 1, rs),
        ensures
            new_node@ == before(old_node.keys@, old_node.kids(), index) + Self::below(ls)
                + seq![value] + Self::below(rs) + after(old_node.keys@, old_node.kids(), index),
            new_node.kids() == old_node.kids().update(index, Self::below(ls)).insert(
                index + 1,
                Self::below(rs),
            ),
            (Self::slots_ok(old_node.children@.remove(index), h) && Self::slots_ok(
                seq![ls, rs],
                h,
            )) ==> Self::slots_ok(new_node.children@, h),
            (Self::dense_slots(old_node.children@.remove(index)) && Self::dense_slots(
                seq![ls, rs],
            )) ==> Self::dense_slots(new_node.children@),
    {
        if Self::dense_slots(old_node.children@.remove(index)) && Self::dense_slots(seq![ls, rs]) {
            let made = new_node.children@;
            let a = old_node.children@.remove(index);
            let b = seq![ls, rs];
            assert forall|n: int| 0 <= n < made.len() implies a.contains(#[trigger] made[n])
                || b.contains(made[n]) by {
                if n < index {
                    assert(a[n] == made[n]);
                } else if n > index + 1 {
                    assert(a[n - 2] == made[n]);
                } else {
                    assert(b[n - index] == made[n]);
                }
            }
            Self::lemma_dense_made_of(made, a, b);
        }
        reveal(Node::slots_ok);
        old_node.lemma_view();
        new_node.lemma_view();
        let cs = old_node.kids();
        let cs2 = cs.update(index, Self::below(ls)).insert(index + 1, Self::below(rs));
        let slots = old_node.children@;
        let slots2 = new_node.children@;
        assert(new_node.kids() =~= cs2) by {
            assert forall|i: int| 0 <= i < cs2.len() implies new_node.kids()[i] == cs2[i] by {
                assert(new_node.children[i] == slots2[i]);
                if i < index {
                    assert(slots2[i] == slots[i]);
                    assert(cs[i] == Self::below(old_node.children[i]));
                } else if i > index + 1 {
                    assert(slots2[i] == slots[i - 1]);
                    assert(cs[i - 1] == Self::below(old_node.children[i - 1]));
                }
            }
        }
        lemma_interleave_spliced(
            old_node.keys@,
            cs,
            index,
            Self::below(ls),
            value,
            Self::below(rs),
        );
        if Self::slots_ok(slots.remove(index), h) && Self::slots_ok(seq![ls, rs], h) {
            assert forall|i: int| 0 <= i < slots2.len() implies match #[trigger] slots2[i] {
                Some(c) => h > 1 && c.shaped((h - 1) as nat, Self::min_keys(), B as nat),
                None => h == 1,
            } by {
                if i < index {
                    assert(slots2[i] == slots.remove(index)[i]);
                } else if i > index + 1 {
                    assert(slots2[i] == slots.remove(index)[i - 2]);
                } else if i == index {
                    assert(slots2[i] == seq![ls, rs][0]);
                } else {
                    assert(slots2[i] == seq![ls, rs][1]);
                }
            }
        }
    }

    /// The views of the two halves of a node cut at key `m`.
    pub(crate) proof fn lemma_cut_view(
        whole: &Node<A, B>,
        left: &Node<A, B>,
        median: A,
        right: &Node<A, B>,
        m: int,
        h: nat,
    )
        requires
            whole.children.len() == whole.keys.len() + 1,
            0 <= m < whole.keys.len(),
            left.keys@ == whole.keys@.take(m),
            left.children@ == whole.children@.take(m + 1),
            median == whole.keys@[m],
            right.keys@ == whole.keys@.skip(m + 1),
            right.children@ == whole.children@.skip(m + 1),
        ensures
            left@.push(median) + right@ == whole@,
            Self::slots_ok(whole.children@, h) ==> Self::slots_ok(left.children@, h)
                && Self::slots_ok(right.children@, h),
            Self::dense_slots(whole.children@) ==> left.dense() && right.dense(),
    {
        if Self::dense_slots(whole.children@) {
            let a = whole.children@;
            assert forall|n: int| 0 <= n < left.children@.len() implies a.contains(
                #[trigger] left.children@[n],
            ) || a.contains(left.children@[n]) by {
                assert(a[n] == left.children@[n]);
            }
            Self::lemma_dense_made_of(left.children@, a, a);
            assert forall|n: int| 0 <= n < right.children@.len() implies a.contains(
                #[trigger] right.children@[n],
            ) || a.contains(right.children@[n]) by {
                assert(a[n + m + 1] == right.children@[n]);
            }
            Self::lemma_dense_made_of(right.children@, a, a);
            left.lemma_dense();
            right.lemma_dense();
        }
        reveal(Node::slots_ok);
        whole.lemma_view();
        left.lemma_view();
        right.lemma_view();
        let ks = whole.keys@;
        let cs = whole.kids();
        assert(left.kids() =~= cs.take(m + 1)) by {
            assert forall|i: int| 0 <= i < m + 1 implies left.kids()[i] == cs[i] by {
                assert(left.children[i] == whole.children@[i]);
                assert(cs[i] == Self::below(whole.children[i]));
            }
        }
        assert(right.kids() =~= cs.skip(m + 1)) by {
            assert forall|j: int| 0 <= j < cs.len() - m - 1 implies right.kids()[j] == cs[j + m
                + 1] by {
                assert(right.children[j] == whole.children@[j + m + 1]);
                assert(cs[j + m + 1] == Self::below(whole.children[j + m + 1]));
            }
        }
        lemma_interleave_join(ks.take(m), cs.take(m + 1), ks[m], ks.skip(m + 1), cs.skip(m + 1));
        assert(ks.take(m).push(ks[m]) + ks.skip(m + 1) =~= ks);
        assert(cs.take(m + 1) + cs.skip(m + 1) =~= cs);
        if Self::slots_ok(whole.children@, h) {
            assert forall|i: int| 0 <= i < left.children@.len() implies match #[trigger] left.children@[i] {
                Some(c) => h > 1 && c.shaped((h - 1) as nat, Self::min_keys(), B as nat),
                None => h == 1,
            } by {
                assert(left.children@[i] == whole.children@[i]);
            }
            assert forall|i: int| 0 <= i < right.children@.len() implies match #[trigger] right.children@[i] {
                Some(c) => h > 1 && c.shaped((h - 1) as nat, Self::min_keys(), B as nat),
                None => h == 1,
            } by {
                assert(right.children@[i] == whole.children@[i + m + 1]);
            }
        }
    }

    /// The view of a node after slot `index` was put to `slot`.
    pub(crate) proof fn lemma_replaced_view(
        old_node: &Node<A, B>,
        new_node: &Node<A, B>,
        index: int,
        slot: Option<Rc<Node<A, B>>>,
        h: nat,
    )
        requires
            old_node.children.len() == old_node.keys.len() + 1,
            0 <= index <= old_node.keys.len(),
            new_node.keys@ == old_node.keys@,
            new_node.children@ == old_node.children@.update(index, slot),
        ensures
            new_node@ == before(old_node.keys@, old_node.kids(), index) + Self::below(slot)
                + after(old_node.keys@, old_node.kids(), index),
            new_node.kids() == old_node.kids().update(index, Self::below(slot)),
            before(new_node.keys@, new_node.kids(), index) == before(
                old_node.keys@,
                old_node.kids(),
                index,
            ),
            after(new_node.keys@, new_node.kids(), index) == after(
                old_node.keys@,
                old_node.kids(),
                index,
            ),
            (Self::slots_ok(old_node.children@.remove(index), h) && Self::slots_ok(seq![slot], h))
                ==> Self::slots_ok(new_node.children@, h),
            Self::slots_ok(old_node.children@, h) ==> Self::slots_ok(
                old_node.children@.remove(index),
                h,
            ),
            (Self::dense_slots(old_node.children@.remove(index)) && Self::dense_slots(seq![slot]))
                ==> new_node.dense(),
    {
        if Self::dense_slots(old_node.children@.remove(index)) && Self::dense_slots(seq![slot]) {
            let made = new_node.children@;
            let a = old_node.children@.remove(index);
            let b = seq![slot];
            assert forall|n: int| 0 <= n < made.len() implies a.contains(#[trigger] made[n])
                || b.contains(made[n]) by {
                if n < index {
                    assert(a[n] == made[n]);
                } else if n > index {
                    assert(a[n - 1] == made[n]);
                } else {
                    assert(b[0] == made[n]);
                }
            }
            Self::lemma_dense_made_of(made, a, b);
            new_node.lemma_dense();
        }
        reveal(Node::slots_ok);
        old_node.lemma_view();
        new_node.lemma_view();
        let cs = old_node.kids();
        let cs2 = cs.update(index, Self::below(slot));
        let slots = old_node.children@;
        let slots2 = new_node.children@;
        assert(new_node.kids() =~= cs2) by {
            assert forall|i: int| 0 <= i < cs2.len() implies new_node.kids()[i] == cs2[i] by {
                assert(new_node.children[i] == slots2[i]);
                if i != index {
                    assert(slots2[i] == slots[i]);
                    assert(cs[i] == Self::below(old_node.children[i]));
                }
            }
        }
        lemma_interleave_replaced(old_node.keys@, cs, index, Self::below(slot));
        if Self::slots_ok(slots.remove(index), h) && Self::slots_ok(seq![slot], h) {
            assert forall|i: int| 0 <= i < slots2.len() implies match #[trigger] slots2[i] {
                Some(c) => h > 1 && c.shaped((h - 1) as nat, Self::min_keys(), B as nat),
                None => h == 1,
            } by {
                if i < index {
                    assert(slots2[i] == slots.remove(index)[i]);
                } else if i > index {
                    assert(slots2[i] == slots.remove(index)[i - 1]);
                } else {
                    assert(slots2[i] == seq![slot][0]);
                }
            }
        }
        if Self::slots_ok(slots, h) {
            let rem = slots.remove(index);
            assert forall|i: int| 0 <= i < rem.len() implies match #[trigger] rem[i] {
                Some(c) => h > 1 && c.shaped((h - 1) as nat, Self::min_keys(), B as nat),
                None => h == 1,
            } by {
                if i < index {
                    assert(rem[i] == slots[i]);
                } else {
                    assert(rem[i] == slots[i + 1]);
                }
            }
        }
    }

    /// The view of a node after key `index` was put to `value`.
    pub(crate) proof fn lemma_key_replaced_view(
        old_node: &Node<A, B>,
        new_node: &Node<A, B>,
        index: int,
        value: A,
    )
        requires
            old_node.children.len() == old_node.keys.len() + 1,
            0 <= index < old_node.keys.len(),
            new_node.keys@ == old_node.keys@.update(index, value),
            new_node.children@ == old_node.children@,
        ensures
            0 <= old_node.key_pos(index) < old_node@.len(),
            old_node@[old_node.key_pos(index)] == old_node.keys[index],
            new_node@ == old_node@.update(old_node.key_pos(index), value),
    {
        old_node.lemma_view();
        new_node.lemma_view();
        assert forall|i: int| 0 <= i < old_node.children.len() implies new_node.children[i]
            == old_node.children[i] by {
            assert(new_node.children@[i] == old_node.children@[i]);
        }
        assert(new_node.kids() =~= old_node.kids());
        lemma_interleave_key_replaced(old_node.keys@, old_node.kids(), index, value);
    }

    /// Takes the child out of slot `index`, which it leaves empty: the node
    /// itself where no other tree shares it, a copy of it where one does.
    pub(crate) fn take_child(&mut self, index: usize) -> (child: Node<A, B>)
        requires
            index < old(self).children.len(),
            old(self).children[index as int] is Some,
        ensures
            child.same_as(&*old(self).children[index as int].unwrap()),
            final(self).keys@ == old(self).keys@,
            final(self).count == old(self).count,
            final(self).children@ == old(self).children@.update(index as int, None),
    {
        let taken = self.children[index].take();
        unshare(taken.unwrap())
    }

    /// Puts `child` into slot `index`.
    pub(crate) fn put_child(&mut self, index: usize, child: Node<A, B>, h: Ghost<nat>)
        requires
            old(self).children.len() == old(self).keys.len() + 1,
            index <= old(self).keys.len(),
            h@ > 1,
            Self::slots_ok(old(self).children@.remove(index as int), h@),
            child.shaped((h@ - 1) as nat, Self::min_keys(), B as nat),
        ensures
            final(self).keys@ == old(self).keys@,
            final(self).count == old(self).count,
            final(self).children.len() == old(self).children.len(),
            final(self).children@.remove(index as int) == old(self).children@.remove(index as int),
            final(self).children[index as int] is Some,
            *final(self).children[index as int].unwrap() == child,
            Self::slots_ok(final(self).children@, h@),
            final(self)@ == before(old(self).keys@, old(self).kids(), index as int) + child@
                + after(old(self).keys@, old(self).kids(), index as int),
            before(final(self).keys@, final(self).kids(), index as int) == before(
                old(self).keys@,
                old(self).kids(),
                index as int,
            ),
            after(final(self).keys@, final(self).kids(), index as int) == after(
                old(self).keys@,
                old(self).kids(),
                index as int,
            ),
            (Self::dense_slots(old(self).children@.remove(index as int)) && child.dense()
                && child.keys.len() >= Self::median()) ==> final(self).dense(),
    {
        let ghost before_all = *self;
        let slot = Some(Rc::new(child));
        let ghost gs = slot;
        self.children[index] = slot;
        proof {
            assert(Self::slots_ok(seq![gs], h@)) by {
                reveal(Node::slots_ok);
            }
            if child.dense() && child.keys.len() >= Self::median() {
                assert(Self::dense_slots(seq![gs])) by {
                    reveal(Node::dense_slots);
                }
            }
            Self::lemma_replaced_view(&before_all, self, index as int, gs, h@);
            assert(self.children@.remove(index as int) =~= before_all.children@.remove(
                index as int,
            ));
        }
    }

    /// Puts `value` at `index` with `ins_left` and `ins_right` on its two
    /// sides, here if the node has room, and by a split if it has none.
    pub(crate) fn insert_here(
        &mut self,
        index: usize,
        value: A,
        ins_left: Option<Node<A, B>>,
        ins_right: Option<Node<A, B>>,
        h: Ghost<nat>,
    ) -> (outcome: Insert<A, B>)
        requires
            Self::fanout_ok(),
            h@ >= 1,
            old(self).keys.len() <= B,
            old(self).children.len() == old(self).keys.len() + 1,
            index <= old(self).keys.len(),
            Self::slots_ok(old(self).children@.remove(index as int), h@),
            match (ins_left, ins_right) {
                (Some(l), Some(r)) => {
                    &&& h@ > 1
                    &&& l.shaped((h@ - 1) as nat, Self::min_keys(), B as nat)
                    &&& r.shaped((h@ - 1) as nat, Self::min_keys(), B as nat)
                },
                (None, None) => h@ == 1,
                _ => false,
            },
            old(self).count + 1 == before(old(self).keys@, old(self).kids(), index as int).len()
                + Self::inside(ins_left).len() + 1 + Self::inside(ins_right).len() + after(
                old(self).keys@,
                old(self).kids(),
                index as int,
            ).len(),
            old(self).count < usize::MAX,
        ensures
            outcome is Added <==> old(self).keys.len() < B,
            match outcome {
                Insert::Added => {
                    &&& final(self)@ == before(old(self).keys@, old(self).kids(), index as int)
                        + Self::inside(ins_left) + seq![value] + Self::inside(ins_right) + after(
                        old(self).keys@,
                        old(self).kids(),
                        index as int,
                    )
                    &&& final(self).shaped(h@, old(self).keys.len() as nat, B as nat)
                    &&& (Self::dense_slots(old(self).children@.remove(index as int))
                        && Self::dense_inside(ins_left) && Self::dense_inside(ins_right))
                        ==> final(self).dense()
                },
                Insert::Split(left, median, right) => {
                    &&& left@.push(median) + right@ == before(
                        old(self).keys@,
                        old(self).kids(),
                        index as int,
                    ) + Self::inside(ins_left) + seq![value] + Self::inside(ins_right) + after(
                        old(self).keys@,
                        old(self).kids(),
                        index as int,
                    )
                    &&& left.shaped(h@, Self::median(), Self::median())
                    &&& right.shaped(h@, Self::median(), Self::median())
                    &&& old(self).keys.len() == B
                    &&& final(self).shaped(1, 0, 0)
                    &&& final(self)@ == Seq::<A>::empty()
                    &&& final(self).dense()
                    &&& (Self::dense_slots(old(self).children@.remove(index as int))
                        && Self::dense_inside(ins_left) && Self::dense_inside(ins_right))
                        ==> left.dense() && right.dense()
                },
                _ => false,
            },
    {
        if self.has_room() {
            let ghost before_all = *self;
            let left_child = match ins_left {
                Some(node) => Some(Rc::new(node)),
                None => None,
            };
            let right_child = match ins_right {
                Some(node) => Some(Rc::new(node)),
                None => None,
            };
            let ghost ls = left_child;
            let ghost rs = right_child;
            self.children[index] = left_child;
            self.keys.insert(index, value);
            self.children.insert(index + 1, right_child);
            self.count = self.count + 1;
            proof {
                assert(Self::slots_ok(seq![ls, rs], h@)) by {
                    reveal(Node::slots_ok);
                }
                if Self::dense_inside(ins_left) && Self::dense_inside(ins_right) {
                    assert(Self::dense_slots(seq![ls, rs])) by {
                        reveal(Node::dense_slots);
                    }
                }
                Self::lemma_spliced_view(&before_all, self, index as int, value, ls, rs, h@);
                self.lemma_shaped_parts(h@, before_all.keys.len() as nat, B as nat);
                self.lemma_dense();
            }
            Insert::Added
        } else {
            self.split(index, value, ins_left, ins_right, h)
        }
    }

    /// What an insertion of `value` into the node `was` has done, where `now`
    /// is the node afterwards.
    pub(crate) open spec fn insert_post(
        was: Node<A, B>,
        now: Node<A, B>,
        value: A,
        outcome: Insert<A, B>,
    ) -> bool {
        &&& now.wf()
        &&& was.dense() ==> now.dense()
        &&& outcome matches Insert::Split(left, _, right) ==> (was.dense() ==> left.dense()
            && right.dense())
        &&& outcome is Replaced <==> has_key(was@, value.key())
        &&& outcome is Split <==> !has_key(was@, value.key()) && was.overflows(value.key())
        &&& match outcome {
            Insert::Split(left, median, right) => left@.push(median) + right@ == inserted(
                was@,
                value,
            ),
            _ => now@ == inserted(was@, value),
        }
        &&& match outcome {
            Insert::Added => {
                &&& !has_key(was@, value.key())
                &&& now@ == was@.insert(rank(was@, value.key()), value)
                &&& now.height() == was.height()
                &&& now.own_keys().len() >= was.own_keys().len()
            },
            Insert::Replaced(displaced) => {
                &&& entry(was@, value.key()) == Some(displaced)
                &&& displaced.key() == value.key()
                &&& now@ == was@.update(rank(was@, value.key()), value)
                &&& now.height() == was.height()
                &&& now.own_keys().len() == was.own_keys().len()
            },
            Insert::Split(left, median, right) => {
                &&& !has_key(was@, value.key())
                &&& left@.push(median) + right@ == was@.insert(rank(was@, value.key()), value)
                &&& sorted(left@.push(median) + right@)
                &&& left@.len() + right@.len() == was@.len()
                &&& left.wf_inner()
                &&& right.wf_inner()
                &&& left.height() == was.height()
                &&& right.height() == was.height()
                &&& left.own_keys().len() == Self::median()
                &&& right.own_keys().len() == Self::median()
                &&& was.own_keys().len() == B
                &&& now@ == Seq::<A>::empty()
            },
            Insert::Update(_) => false,
        }
    }

    /// Files `value` in the subtree, in the place of the element with its
    /// key if there is one.
    ///
    /// The outcome tells what became of the node. After `Added` and
    /// `Replaced` the node is the root of the subtree with the element in it.
    /// After `Split` the node is empty, and the two halves and the median
    /// hold the elements. The node splits just when the element is new and
    /// neither the node nor any node on the way down to the leaf where the
    /// element belongs has room.
    pub fn insert(&mut self, value: A) -> (outcome: Insert<A, B>)
        requires
            old(self).wf(),
            old(self)@.len() < usize::MAX,
        ensures
            final(self).wf(),
            old(self).dense() ==> final(self).dense(),
            outcome matches Insert::Split(left, _, right) ==> (old(self).dense() ==> left.dense()
                && right.dense()),
            outcome is Replaced <==> has_key(old(self)@, value.key()),
            outcome is Split <==> !has_key(old(self)@, value.key()) && old(self).overflows(
                value.key(),
            ),
            match outcome {
                Insert::Split(left, median, right) => left@.push(median) + right@ == inserted(
                    old(self)@,
                    value,
                ),
                _ => final(self)@ == inserted(old(self)@, value),
            },
            match outcome {
                Insert::Added => {
                    &&& !has_key(old(self)@, value.key())
                    &&& final(self)@ == old(self)@.insert(rank(old(self)@, value.key()), value)
                    &&& final(self).height() == old(self).height()
                    &&& final(self).own_keys().len() >= old(self).own_keys().len()
                },
                Insert::Replaced(displaced) => {
                    &&& entry(old(self)@, value.key()) == Some(displaced)
                    &&& displaced.key() == value.key()
                    &&& final(self)@ == old(self)@.update(rank(old(self)@, value.key()), value)
                    &&& final(self).height() == old(self).height()
                    &&& final(self).own_keys().len() == old(self).own_keys().len()
                },
                Insert::Split(left, median, right) => {
                    &&& !has_key(old(self)@, value.key())
                    &&& left@.push(median) + right@ == old(self)@.insert(
                        rank(old(self)@, value.key()),
                        value,
                    )
                    &&& sorted(left@.push(median) + right@)
                    &&& left@.len() + right@.len() == old(self)@.len()
                    &&& left.wf_inner()
                    &&& right.wf_inner()
                    &&& left.height() == old(self).height()
                    &&& right.height() == old(self).height()
                    &&& left.own_keys().len() == Self::median()
                    &&& right.own_keys().len() == Self::median()
                    &&& old(self).own_keys().len() == B
                    &&& final(self)@ == Seq::<A>::empty()
                },
                Insert::Update(_) => false,
            },
        decreases old(self).height(), 2nat,
    {
        let ghost h = self.height();
        let ghost s = self@;
        let ghost k = value.key();
        let ghost before_all = *self;
        proof {
            self.lemma_child_valid(h, 0, B as nat, 0);
            self.lemma_shaped_parts(h, 0, B as nat);
            self.lemma_keys_sorted();
            lemma_key_sits_at_rank(s, k);
            lemma_sorted_means(self.keys@);
        }
        match A::search_value(self.keys.as_slice(), &value) {
            Ok(index) => {
                let mut displaced = value;
                std::mem::swap(&mut self.keys[index], &mut displaced);
                proof {
                    self.lemma_dense_same(&before_all);
                    Self::lemma_key_replaced_view(&before_all, self, index as int, value);
                    let p = before_all.key_pos(index as int);
                    lemma_rank_of_member(s, p);
                    lemma_update_sorted(s, p, value);
                    self.lemma_shaped_parts(h, 0, B as nat);
                    self.lemma_shaped_height(h, 0, B as nat);
                }
                Insert::Replaced(displaced)
            },
            Err(index) => {
                proof {
                    assert(splits_at(before_all.keys@, k, index as int)) by {
                        assert forall|j: int| index <= j < before_all.keys@.len() implies !A::key_lt(
                            (#[trigger] before_all.keys@[j]).key(),
                            k,
                        ) by {
                            lemma_lt_asymmetric::<A>(k, before_all.keys@[j].key());
                        }
                    }
                }
                self.insert_at(index, value)
            },
        }
    }

    /// Files `value`, which is new to the keys of the node and belongs at
    /// `index` among them: here where the node is a leaf, and below the child
    /// in slot `index` where it is not.
    pub(crate) fn insert_at(&mut self, index: usize, value: A) -> (outcome: Insert<A, B>)
        requires
            old(self).wf(),
            old(self)@.len() < usize::MAX,
            splits_at(old(self).keys@, value.key(), index as int),
            index < old(self).keys.len() ==> A::key_lt(
                value.key(),
                old(self).keys[index as int].key(),
            ),
        ensures
            Self::insert_post(*old(self), *final(self), value, outcome),
        decreases old(self).height(), 1nat,
    {
        let ghost h = self.height();
        let ghost s = self@;
        let ghost k = value.key();
        let ghost before_all = *self;
        proof {
            before_all.lemma_shaped_parts(h, 0, B as nat);
            before_all.lemma_child_valid(h, 0, B as nat, index as int);
            before_all.lemma_descend(index as int, k);
            lemma_key_sits_at_rank(s, k);
            lemma_rank_is(before_all.keys@, k, index as int);
        }
        if self.children[index].is_none() {
            let ghost p = before(before_all.keys@, before_all.kids(), index as int);
            let ghost c = Self::below(before_all.children[index as int]);
            let ghost t = after(before_all.keys@, before_all.kids(), index as int);
            let ghost rc = rank(c, k);
            proof {
                lemma_key_sits_at_rank(c, k);
                assert(before_all.children@.update(index as int, before_all.children[index as int])
                    =~= before_all.children@);
                Self::lemma_replaced_view(
                    &before_all,
                    &before_all,
                    index as int,
                    before_all.children[index as int],
                    h,
                );
                assert(!has_key(c, k));
                assert(c.insert(rc, value) =~= Seq::<A>::empty() + seq![value] + Seq::<A>::empty());
                assert(p + Seq::<A>::empty() + seq![value] + Seq::<A>::empty() + t =~= p + c.insert(
                    rc,
                    value,
                ) + t);
                lemma_insert_in_window(p, c, t, rc, value);
                lemma_insert_sorted(s, value);
                before_all.lemma_leaf_dense(h);
            }
            let outcome = self.insert_here(index, value, None, None, Ghost(h));
            proof {
                Self::lemma_insert_outcome(
                    outcome,
                    self,
                    h,
                    before_all.keys.len() as nat,
                    s.insert(rank(s, k), value),
                );
            }
            outcome
        } else {
            self.insert_below(index, value)
        }
    }

    /// Files `value` below the child in slot `index`, and takes in what the
    /// child hands up where it has split.
    pub(crate) fn insert_below(&mut self, index: usize, value: A) -> (outcome: Insert<A, B>)
        requires
            old(self).wf(),
            old(self)@.len() < usize::MAX,
            splits_at(old(self).keys@, value.key(), index as int),
            index < old(self).keys.len() ==> A::key_lt(
                value.key(),
                old(self).keys[index as int].key(),
            ),
            old(self).children[index as int] is Some,
        ensures
            Self::insert_post(*old(self), *final(self), value, outcome),
        decreases old(self).height(), 0nat,
    {
        let ghost h = self.height();
        let ghost s = self@;
        let ghost k = value.key();
        let ghost before_all = *self;
        let ghost p = before(before_all.keys@, before_all.kids(), index as int);
        let ghost c = Self::below(before_all.children[index as int]);
        let ghost t = after(before_all.keys@, before_all.kids(), index as int);
        let ghost rc = rank(c, k);
        proof {
            before_all.lemma_shaped_parts(h, 0, B as nat);
            before_all.lemma_child_valid(h, 0, B as nat, index as int);
            before_all.lemma_descend(index as int, k);
            lemma_key_sits_at_rank(s, k);
            lemma_key_sits_at_rank(c, k);
            lemma_rank_is(before_all.keys@, k, index as int);
            if before_all.dense() {
                before_all.lemma_dense();
                Self::lemma_dense_slot(before_all.children@, index as int);
            }
        }
        let mut child = self.take_child(index);
        let ghost hollow = *self;
        proof {
            child.lemma_same(&*before_all.children[index as int].unwrap());
            child.lemma_same_overflows(&*before_all.children[index as int].unwrap(), k);
            child.lemma_dense_same(&*before_all.children[index as int].unwrap());
            Self::lemma_replaced_view(&before_all, &hollow, index as int, None, h);
            assert(hollow.children@.remove(index as int) =~= before_all.children@.remove(
                index as int,
            ));
        }
        match child.insert(value) {
            Insert::Added => {
                proof {
                    child.lemma_shaped_parts((h - 1) as nat, 0, B as nat);
                    child.lemma_shaped_parts((h - 1) as nat, Self::min_keys(), B as nat);
                    lemma_insert_in_window(p, c, t, rc, value);
                    lemma_insert_sorted(s, value);
                }
                self.put_child(index, child, Ghost(h));
                let ghost settled = *self;
                self.count = self.count + 1;
                proof {
                    Self::lemma_same_but_count(self, &settled);
                    self.lemma_dense_same(&settled);
                    self.lemma_shaped_parts(h, 0, B as nat);
                    self.lemma_shaped_height(h, 0, B as nat);
                }
                Insert::Added
            },
            Insert::Replaced(displaced) => {
                proof {
                    child.lemma_shaped_parts((h - 1) as nat, 0, B as nat);
                    child.lemma_shaped_parts((h - 1) as nat, Self::min_keys(), B as nat);
                    lemma_update_in_window(p, c, t, rc, value);
                    lemma_update_sorted(s, rank(s, k), value);
                }
                self.put_child(index, child, Ghost(h));
                proof {
                    self.lemma_shaped_parts(h, 0, B as nat);
                    self.lemma_shaped_height(h, 0, B as nat);
                }
                Insert::Replaced(displaced)
            },
            Insert::Update(_) => {
                proof {
                    assert(false);
                }
                Insert::Added
            },
            Insert::Split(left, median, right) => {
                proof {
                    assert(p + left@ + seq![median] + right@ + t =~= p + (left@.push(median)
                        + right@) + t);
                    lemma_insert_in_window(p, c, t, rc, value);
                    lemma_insert_sorted(s, value);
                }
                let outcome = self.insert_here(index, median, Some(left), Some(right), Ghost(h));
                proof {
                    Self::lemma_insert_outcome(
                        outcome,
                        self,
                        h,
                        before_all.keys.len() as nat,
                        s.insert(rank(s, k), value),
                    );
                }
                outcome
            },
        }
    }

    /// A leaf is dense, and so is a row of its slots without one.
    pub(crate) proof fn lemma_leaf_dense(&self, h: nat)
        requires
            self.children.len() == self.keys.len() + 1,
            Self::slots_ok(self.children@, h),
            h == 1,
        ensures
            self.dense(),
            forall|i: int|
                0 <= i < self.children.len() ==> Self::dense_slots(
                    #[trigger] self.children@.remove(i),
                ),
    {
        reveal(Node::slots_ok);
        reveal(Node::dense_slots);
        assert forall|i: int| 0 <= i < self.children.len() implies Self::dense_slots(
            #[trigger] self.children@.remove(i),
        ) by {
            let rem = self.children@.remove(i);
            assert forall|n: int| 0 <= n < rem.len() implies match #[trigger] rem[n] {
                Some(c) => c.keys.len() >= Self::median() && c.dense(),
                None => true,
            } by {
                if n < i {
                    assert(rem[n] == self.children@[n]);
                } else {
                    assert(rem[n] == self.children@[n + 1]);
                }
            }
        }
        self.lemma_dense();
    }

    /// What the outcome of putting a key into a node says of the node and of
    /// the halves of a split, where the elements are sorted.
    pub(crate) proof fn lemma_insert_outcome(
        outcome: Insert<A, B>,
        node: &Node<A, B>,
        h: nat,
        lo: nat,
        whole: Seq<A>,
    )
        requires
            Self::fanout_ok(),
            sorted(whole),
            match outcome {
                Insert::Added => node@ == whole && node.shaped(h, lo, B as nat),
                Insert::Split(left, median, right) => {
                    &&& left@.push(median) + right@ == whole
                    &&& left.shaped(h, Self::median(), Self::median())
                    &&& right.shaped(h, Self::median(), Self::median())
                    &&& node.shaped(1, 0, 0)
                    &&& node@ == Seq::<A>::empty()
                },
                _ => false,
            },
        ensures
            node.wf(),
            match outcome {
                Insert::Added => node.height() == h && node.own_keys().len() >= lo,
                Insert::Split(left, median, right) => {
                    &&& left.wf_inner()
                    &&& right.wf_inner()
                    &&& left.height() == h
                    &&& right.height() == h
                    &&& left.own_keys().len() == Self::median()
                    &&& right.own_keys().len() == Self::median()
                },
                _ => false,
            },
    {
        match outcome {
            Insert::Added => {
                node.lemma_shaped_parts(h, lo, B as nat);
                node.lemma_shaped_widen(h, lo, B as nat, 0, B as nat);
                node.lemma_shaped_height(h, 0, B as nat);
            },
            Insert::Split(left, median, right) => {
                left.lemma_shaped_height(h, Self::median(), Self::median());
                right.lemma_shaped_height(h, Self::median(), Self::median());
                left.lemma_shaped_parts(h, Self::median(), Self::median());
                right.lemma_shaped_parts(h, Self::median(), Self::median());
                left.lemma_shaped_parts(h, Self::min_keys(), B as nat);
                right.lemma_shaped_parts(h, Self::min_keys(), B as nat);
                lemma_sorted_subrange(whole, 0, left@.len() as int);
                lemma_sorted_subrange(whole, left@.len() as int + 1, whole.len() as int);
                assert(whole.subrange(0, left@.len() as int) =~= left@);
                assert(whole.subrange(left@.len() as int + 1, whole.len() as int) =~= right@);
                node.lemma_shaped_height(1, 0, 0);
                node.lemma_shaped_widen(1, 0, 0, 0, B as nat);
                lemma_sorted_small(node@);
            },
            _ => {},
        }
    }

    /// A subtree that is about to be installed, if there is one, is dense
    /// and has keys enough.
    pub open(crate) spec fn dense_inside(node: Option<Node<A, B>>) -> bool {
        match node {
            Some(n) => n.keys.len() >= Self::median() && n.dense(),
            None => true,
        }
    }

    /// The elements of a subtree that is about to be installed, if there is
    /// one.
    pub open(crate) spec fn inside(node: Option<Node<A, B>>) -> Seq<A> {
        match node {
            Some(n) => n@,
            None => Seq::empty(),
        }
    }
}

} // verus!
