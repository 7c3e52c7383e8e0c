//! The tree node, its abstract view and its invariant.

use crate::handle::{make_unique, share};
use crate::layout::{
    after, before, interleave, lemma_before_grows, lemma_before_step, lemma_interleave_join,
    lemma_interleave_key_replaced, lemma_interleave_len, lemma_interleave_replaced,
    lemma_interleave_single, lemma_interleave_window, place, total_len,
};
use crate::order::{
    entry, has_key, lemma_key_sits_at_rank, lemma_rank_in_window, lemma_rank_of_member,
    lemma_sorted_means, lemma_sorted_small, lemma_sorted_subrange, lemma_update_in_window,
    lemma_update_sorted, rank, sorted,
};
use crate::value::BTreeValue;
use std::rc::Rc;
use vstd::prelude::*;

verus! {

/// A node of a B-tree of fanout `B`, and with it the subtree below.
///
/// A node holds up to `B` keys in ascending order and one child slot more than
/// it has keys. In a leaf every slot is empty; in an internal node every slot
/// holds a handle to a child, and the elements below child `i` lie between
/// key `i - 1` and key `i`.
pub struct Node<A, const B: usize> {
    pub(crate) count: usize,
    pub(crate) keys: Vec<A>,
    pub(crate) children: Vec<Option<Rc<Node<A, B>>>>,
}

impl<A, const B: usize> Node<A, B> {
    /// The elements of the subtree in order.
    #[verifier::opaque]
    pub open(crate) spec fn view(&self) -> Seq<A>
        decreases self, 1nat,
    {
        interleave(self.keys@, self.kids())
    }

    /// For each child slot, the elements below it in order.
    #[verifier::opaque]
    pub open(crate) spec fn kids(&self) -> Seq<Seq<A>>
        decreases self, 0nat,
    {
        Seq::new(
            self.children.len() as nat,
            |i: int|
                if 0 <= i < self.children.len() {
                    match self.children[i] {
                        Some(c) => c.view(),
                        None => Seq::empty(),
                    }
                } else {
                    Seq::empty()
                },
        )
    }

    /// The elements below a child slot in order.
    pub open(crate) spec fn below(child: Option<Rc<Node<A, B>>>) -> Seq<A> {
        match child {
            Some(c) => c@,
            None => Seq::empty(),
        }
    }

    /// The keys of this node itself.
    pub open(crate) spec fn own_keys(&self) -> Seq<A> {
        self.keys@
    }

    /// The child slots of this node.
    pub open(crate) spec fn slots(&self) -> Seq<Option<Node<A, B>>> {
        Seq::new(
            self.children.len() as nat,
            |i: int|
                match self.children[i] {
                    Some(c) => Some(*c),
                    None => None,
                },
        )
    }

    /// The place of key `i` in the view.
    pub open(crate) spec fn key_pos(&self, i: int) -> int {
        place(self.keys@, self.kids(), i)
    }

    /// The number of elements that the node records for its subtree.
    pub open(crate) spec fn recorded_len(&self) -> nat {
        self.count as nat
    }

    /// The number of levels from this node down its first children to a leaf.
    #[verifier::opaque]
    pub open(crate) spec fn height(&self) -> nat
        decreases self,
    {
        if self.children.len() > 0 {
            match self.children[0] {
                Some(c) => c.height() + 1,
                None => 1,
            }
        } else {
            1
        }
    }

    /// The fanouts that a tree can have: even, at least four, and small enough
    /// to count one slot more than a node may briefly hold.
    pub open spec fn fanout_ok() -> bool {
        4 <= B && B % 2 == 0 && B + 2 <= usize::MAX
    }

    /// The median index: half the fanout. A split leaves this many keys in
    /// each half, and a node with fewer keys is too small to give one up.
    pub open spec fn median() -> nat {
        ((B + 1) / 2) as nat
    }

    /// The least number of keys in a node that is not the root.
    pub open spec fn min_keys() -> nat {
        (Self::median() - 1) as nat
    }

    /// The view is the layout of the keys and of what lies below the slots.
    pub(crate) proof fn lemma_view(&self)
        ensures
            self@ == interleave(self.keys@, self.kids()),
            self.kids().len() == self.children.len(),
            forall|i: int|
                0 <= i < self.children.len() ==> #[trigger] self.kids()[i] == Self::below(
                    self.children[i],
                ),
    {
        reveal(Node::view);
        reveal(Node::kids);
    }

    /// The shape of a subtree of height `h` whose root has between `lo` and
    /// `hi` keys: one slot more than keys, every slot empty at height one and
    /// filled above it, every node below the root within the bounds of a node
    /// that is not the root, and the recorded length that of the view.
    #[verifier::opaque]
    pub open(crate) spec fn shaped(&self, h: nat, lo: nat, hi: nat) -> bool
        decreases h,
    {
        &&& h >= 1
        &&& lo <= self.keys.len() <= hi
        &&& self.children.len() == self.keys.len() + 1
        &&& self.count == self@.len()
        &&& h > 1 ==> self.keys.len() >= 1
        &&& forall|i: int|
            0 <= i < self.children.len() ==> match #[trigger] self.children[i] {
                Some(c) => h > 1 && c.shaped((h - 1) as nat, Self::min_keys(), B as nat),
                None => h == 1,
            }
    }

    /// Every slot of a node of height `h` is as the node's shape asks: empty
    /// at height one, and above it filled with a subtree one level lower that
    /// has the shape of a node below the root.
    #[verifier::opaque]
    pub open(crate) spec fn slots_ok(slots: Seq<Option<Rc<Node<A, B>>>>, h: nat) -> bool {
        forall|i: int|
            0 <= i < slots.len() ==> match #[trigger] slots[i] {
                Some(c) => h > 1 && c.shaped((h - 1) as nat, Self::min_keys(), B as nat),
                None => h == 1,
            }
    }

    /// A node is shaped where its own parts are and its slots are.
    pub(crate) proof fn lemma_shaped_parts(&self, h: nat, lo: nat, hi: nat)
        ensures
            self.shaped(h, lo, hi) <==> {
                &&& h >= 1
                &&& lo <= self.keys.len() <= hi
                &&& self.children.len() == self.keys.len() + 1
                &&& self.count == self@.len()
                &&& (h > 1 ==> self.keys.len() >= 1)
                &&& Self::slots_ok(self.children@, h)
            },
    {
        reveal(Node::shaped);
        reveal(Node::slots_ok);
        if self.shaped(h, lo, hi) {
            assert forall|i: int| 0 <= i < self.children@.len() implies match #[trigger] self.children@[i] {
                Some(c) => h > 1 && c.shaped((h - 1) as nat, Self::min_keys(), B as nat),
                None => h == 1,
            } by {
                assert(self.children@[i] == self.children[i]);
            }
        }
        if Self::slots_ok(self.children@, h) {
            assert forall|i: int| 0 <= i < self.children.len() implies match #[trigger] self.children[i] {
                Some(c) => h > 1 && c.shaped((h - 1) as nat, Self::min_keys(), B as nat),
                None => h == 1,
            } by {
                assert(self.children@[i] == self.children[i]);
            }
        }
    }

    /// Where the slots are as a shape asks, the length of the view is the
    /// number of keys and the recorded lengths of the children.
    pub(crate) proof fn lemma_view_len(&self, h: nat)
        requires
            self.children.len() == self.keys.len() + 1,
            Self::slots_ok(self.children@, h),
        ensures
            self@.len() == self.keys.len() + Self::slots_len(
                self.children@,
                self.children.len() as int,
            ),
    {
        reveal(Node::shaped);
        reveal(Node::slots_ok);
        assert forall|i: int| 0 <= i < self.children.len() implies match #[trigger] self.children[i] {
            Some(c) => c.count == c@.len(),
            None => true,
        } by {
            assert(self.children@[i] == self.children[i]);
            match self.children[i] {
                Some(c) => {
                    assert(c.shaped((h - 1) as nat, Self::min_keys(), B as nat));
                },
                None => {},
            }
        }
        self.lemma_view();
        self.lemma_counts(self.children.len() as int);
        assert(self.kids().take(self.children.len() as int) =~= self.kids());
        lemma_interleave_len(self.keys@, self.kids());
    }

    /// Every child in the slots has at least as many keys as the median index
    /// says, and so has every node below it.
    #[verifier::opaque]
    pub open(crate) spec fn dense_slots(slots: Seq<Option<Rc<Node<A, B>>>>) -> bool {
        forall|i: int|
            0 <= i < slots.len() ==> match #[trigger] slots[i] {
                Some(c) => c.keys.len() >= Self::median() && c.dense(),
                None => true,
            }
    }

    /// Every node below this one has at least as many keys as the median
    /// index says: no removal has left a node with the least number of keys
    /// that a node below the root may have.
    #[verifier::opaque]
    pub open(crate) spec fn dense(&self) -> bool
        decreases self,
    {
        forall|i: int|
            0 <= i < self.children.len() ==> match #[trigger] self.children[i] {
                Some(c) => c.keys.len() >= Self::median() && c.dense(),
                None => true,
            }
    }

    /// A node is dense where its slots are.
    pub(crate) proof fn lemma_dense(&self)
        ensures
            self.dense() <==> Self::dense_slots(self.children@),
    {
        reveal(Node::dense);
        reveal(Node::dense_slots);
        if self.dense() {
            assert forall|i: int| 0 <= i < self.children@.len() implies match #[trigger] self.children@[i] {
                Some(c) => c.keys.len() >= Self::median() && c.dense(),
                None => true,
            } by {
                assert(self.children@[i] == self.children[i]);
            }
        }
        if Self::dense_slots(self.children@) {
            assert forall|i: int| 0 <= i < self.children.len() implies match #[trigger] self.children[i] {
                Some(c) => c.keys.len() >= Self::median() && c.dense(),
                None => true,
            } by {
                assert(self.children@[i] == self.children[i]);
            }
        }
    }

    /// What one dense slot holds, and that a row of slots without one of its
    /// slots is dense where the row is.
    pub(crate) proof fn lemma_dense_slot(slots: Seq<Option<Rc<Node<A, B>>>>, i: int)
        requires
            Self::dense_slots(slots),
            0 <= i < slots.len(),
        ensures
            Self::dense_slots(seq![slots[i]]),
            Self::dense_slots(slots.remove(i)),
            match slots[i] {
                Some(c) => c.keys.len() >= Self::median() && c.dense(),
                None => true,
            },
    {
        reveal(Node::dense_slots);
        let rem = slots.remove(i);
        assert forall|n: int| 0 <= n < rem.len() implies match #[trigger] rem[n] {
            Some(c) => c.keys.len() >= Self::median() && c.dense(),
            None => true,
        } by {
            if n < i {
                assert(rem[n] == slots[n]);
            } else {
                assert(rem[n] == slots[n + 1]);
            }
        }
    }

    /// A row of slots is dense where it is made of the slots of dense rows.
    pub(crate) proof fn lemma_dense_made_of(
        made: Seq<Option<Rc<Node<A, B>>>>,
        a: Seq<Option<Rc<Node<A, B>>>>,
        b: Seq<Option<Rc<Node<A, B>>>>,
    )
        requires
            Self::dense_slots(a),
            Self::dense_slots(b),
            forall|n: int|
                0 <= n < made.len() ==> a.contains(#[trigger] made[n]) || b.contains(made[n]),
        ensures
            Self::dense_slots(made),
    {
        reveal(Node::dense_slots);
        assert forall|n: int| 0 <= n < made.len() implies match #[trigger] made[n] {
            Some(c) => c.keys.len() >= Self::median() && c.dense(),
            None => true,
        } by {
            if a.contains(made[n]) {
                let j = choose|j: int| 0 <= j < a.len() && a[j] == made[n];
                assert(a[j] == made[n]);
            } else {
                let j = choose|j: int| 0 <= j < b.len() && b[j] == made[n];
                assert(b[j] == made[n]);
            }
        }
    }

    /// Nodes with the same child handles are dense alike.
    pub(crate) proof fn lemma_dense_same(&self, other: &Node<A, B>)
        requires
            self.children@ == other.children@,
        ensures
            self.dense() == other.dense(),
    {
        self.lemma_dense();
        other.lemma_dense();
    }

    /// A shaped node has the height that it is shaped for.
    pub(crate) proof fn lemma_shaped_height(&self, h: nat, lo: nat, hi: nat)
        requires
            self.shaped(h, lo, hi),
        ensures
            self.height() == h,
        decreases h,
    {
        reveal(Node::height);
        reveal(Node::shaped);
        match self.children[0] {
            Some(c) => {
                c.lemma_shaped_height((h - 1) as nat, Self::min_keys(), B as nat);
            },
            None => {},
        }
    }

    /// Wider bounds on the root's keys admit the same node.
    pub(crate) proof fn lemma_shaped_widen(&self, h: nat, lo: nat, hi: nat, lo2: nat, hi2: nat)
        requires
            self.shaped(h, lo, hi),
            lo2 <= lo,
            hi <= hi2,
        ensures
            self.shaped(h, lo2, hi2),
    {
        reveal(Node::shaped);
    }

    /// The node has the recorded length, the keys and the child handles of
    /// `other`.
    pub open(crate) spec fn same_as(&self, other: &Node<A, B>) -> bool {
        &&& self.count == other.count
        &&& self.keys@ == other.keys@
        &&& self.children@ == other.children@
    }

    /// Nodes with the same parts have the same view, height and shape.
    pub(crate) proof fn lemma_same(&self, other: &Node<A, B>)
        requires
            self.same_as(other),
        ensures
            self@ == other@,
            self.kids() == other.kids(),
            self.height() == other.height(),
            forall|h: nat, lo: nat, hi: nat|
                self.shaped(h, lo, hi) == #[trigger] other.shaped(h, lo, hi),
    {
        reveal(Node::view);
        reveal(Node::kids);
        reveal(Node::height);
        reveal(Node::shaped);
        assert(self.children.len() == other.children.len());
        assert forall|i: int| 0 <= i < self.children.len() implies self.children[i]
            == other.children[i] by {
            assert(self.children@[i] == other.children@[i]);
        }
        assert(self.kids() =~= other.kids());
        assert forall|h: nat, lo: nat, hi: nat|
            self.shaped(h, lo, hi) == #[trigger] other.shaped(h, lo, hi) by {
            assert(self.keys.len() == other.keys.len());
        }
    }

    /// The sum of the recorded lengths of the children in the slots.
    pub(crate) fn sum_up_children(children: &Vec<Option<Rc<Node<A, B>>>>) -> (sum: usize)
        requires
            Self::slots_len(children@, children@.len() as int) <= usize::MAX,
        ensures
            sum == Self::slots_len(children@, children@.len() as int),
    {
        let mut sum: usize = 0;
        let mut i: usize = 0;
        while i < children.len()
            invariant
                i <= children.len(),
                sum == Self::slots_len(children@, i as int),
                Self::slots_len(children@, children@.len() as int) <= usize::MAX,
            decreases children.len() - i,
        {
            proof {
                Self::lemma_slots_len_grows(children@, i as int + 1, children@.len() as int);
            }
            match &children[i] {
                None => {},
                Some(node) => {
                    sum = sum + node.count;
                },
            }
            i = i + 1;
        }
        sum
    }

    /// The sum of the recorded lengths of the children in the first `n` slots.
    pub open(crate) spec fn slots_len(slots: Seq<Option<Rc<Node<A, B>>>>, n: int) -> nat
        decreases n,
    {
        if n <= 0 {
            0
        } else {
            Self::slots_len(slots, n - 1) + match slots[n - 1] {
                Some(c) => c.count as nat,
                None => 0nat,
            }
        }
    }

    /// The sum over more slots is no less.
    pub(crate) proof fn lemma_slots_len_grows(slots: Seq<Option<Rc<Node<A, B>>>>, i: int, j: int)
        requires
            0 <= i <= j,
        ensures
            Self::slots_len(slots, i) <= Self::slots_len(slots, j),
        decreases j - i,
    {
        if i < j {
            Self::lemma_slots_len_grows(slots, i, j - 1);
        }
    }

    /// Where every child records its own length rightly, the recorded
    /// lengths of the children add up to the length of what lies below them.
    pub(crate) proof fn lemma_counts(&self, n: int)
        requires
            0 <= n <= self.children.len(),
            forall|i: int|
                0 <= i < self.children.len() ==> match #[trigger] self.children[i] {
                    Some(c) => c.count == c@.len(),
                    None => true,
                },
        ensures
            Self::slots_len(self.children@, n) == total_len(self.kids().take(n)),
        decreases n,
    {
        reveal(total_len);
        self.lemma_view();
        if n > 0 {
            self.lemma_counts(n - 1);
            assert(self.kids().take(n).drop_last() =~= self.kids().take(n - 1));
            assert(self.kids().take(n).last() == Self::below(self.children[n - 1]));
        }
    }

    /// In a leaf the view is the keys.
    pub(crate) proof fn lemma_leaf_view(&self)
        requires
            self.children.len() == self.keys.len() + 1,
            forall|i: int| 0 <= i < self.children.len() ==> self.children[i] is None,
        ensures
            self@ == self.keys@,
        decreases self.keys.len(),
    {
        self.lemma_view();
        Self::lemma_leaf_layout(self.keys@, self.kids());
    }

    /// The layout of keys around empty children is the keys.
    pub(crate) proof fn lemma_leaf_layout(ks: Seq<A>, cs: Seq<Seq<A>>)
        requires
            cs.len() == ks.len() + 1,
            forall|i: int| 0 <= i < cs.len() ==> cs[i].len() == 0,
        ensures
            interleave(ks, cs) == ks,
        decreases ks.len(),
    {
        reveal(interleave);
        if ks.len() > 0 {
            Self::lemma_leaf_layout(ks.drop_last(), cs.drop_last());
            assert(interleave(ks, cs) =~= ks);
        } else {
            assert(interleave(ks, cs) =~= ks);
        }
    }
}

impl<A: BTreeValue, const B: usize> Node<A, B> {
    /// An element filed under `k` would find no room on its way down from
    /// this node: the node is full, and so is every node below it on the path
    /// to the leaf where `k` belongs.
    pub open(crate) spec fn overflows(&self, k: A::Key) -> bool
        decreases self,
    {
        &&& self.keys.len() >= B
        &&& 0 <= rank(self.keys@, k) < self.children.len() ==> match self.children[rank(
            self.keys@,
            k,
        )] {
            Some(c) => c.overflows(k),
            None => true,
        }
    }

    /// Nodes with the same parts overflow alike.
    pub(crate) proof fn lemma_same_overflows(&self, other: &Node<A, B>, k: A::Key)
        requires
            self.same_as(other),
        ensures
            self.overflows(k) == other.overflows(k),
    {
        assert(self.children.len() == other.children.len());
        let r = rank(self.keys@, k);
        if 0 <= r < self.children.len() {
            assert(self.children@[r] == other.children@[r]);
        }
    }

    /// The invariant of a subtree of height `h` whose root has between `lo`
    /// and `hi` keys: its shape, and that its elements ascend strictly.
    pub open(crate) spec fn valid(&self, h: nat, lo: nat, hi: nat) -> bool {
        &&& Self::fanout_ok()
        &&& self.shaped(h, lo, hi)
        &&& sorted(self@)
    }

    /// The invariant of a tree, stated of its root: the root has at most `B`
    /// keys and may have none.
    pub open(crate) spec fn wf(&self) -> bool {
        self.valid(self.height(), 0, B as nat)
    }

    /// The invariant of a subtree below the root: as `wf`, and the node has
    /// the least number of keys of a node that is not the root.
    pub open(crate) spec fn wf_inner(&self) -> bool {
        self.valid(self.height(), Self::min_keys(), B as nat)
    }

    /// Key `i` lies in the view after what lies before child `i` and after
    /// child `i` itself.
    pub(crate) proof fn lemma_key_at(&self, i: int)
        requires
            self.children.len() == self.keys.len() + 1,
            0 <= i < self.keys.len(),
        ensures
            self@ == before(self.keys@, self.kids(), i) + self.kids()[i] + after(
                self.keys@,
                self.kids(),
                i,
            ),
            0 <= self.key_pos(i) < self@.len(),
            self@[self.key_pos(i)] == self.keys[i],
            before(self.keys@, self.kids(), i + 1).len() == self.key_pos(i) + 1,
    {
        self.lemma_view();
        lemma_interleave_window(self.keys@, self.kids(), i);
        lemma_before_step(self.keys@, self.kids(), i);
    }

    /// The keys of a node whose view is sorted are sorted.
    pub(crate) proof fn lemma_keys_sorted(&self)
        requires
            self.children.len() == self.keys.len() + 1,
            sorted(self@),
        ensures
            sorted(self.keys@),
    {
        reveal(sorted);
        let ks = self.keys@;
        let cs = self.kids();
        self.lemma_view();
        assert forall|i: int, j: int| 0 <= i < j < ks.len() implies A::key_lt(
            ks[i].key(),
            ks[j].key(),
        ) by {
            self.lemma_key_at(i);
            self.lemma_key_at(j);
            lemma_before_grows(ks, cs, i + 1, j);
            assert(self.key_pos(i) < self.key_pos(j));
            assert(self@[self.key_pos(i)] == ks[i] && self@[self.key_pos(j)] == ks[j]);
        }
    }

    /// Where `k` belongs between key `i - 1` and key `i`, its rank in the view
    /// and the element filed under it are found below child `i`.
    pub(crate) proof fn lemma_descend(&self, i: int, k: A::Key)
        requires
            self.children.len() == self.keys.len() + 1,
            sorted(self@),
            0 <= i <= self.keys.len(),
            i > 0 ==> A::key_lt(self.keys[i - 1].key(), k),
            i < self.keys.len() ==> A::key_lt(k, self.keys[i].key()),
        ensures
            self@ == before(self.keys@, self.kids(), i) + Self::below(self.children[i]) + after(
                self.keys@,
                self.kids(),
                i,
            ),
            sorted(Self::below(self.children[i])),
            rank(self@, k) == before(self.keys@, self.kids(), i).len() + rank(
                Self::below(self.children[i]),
                k,
            ),
            has_key(self@, k) <==> has_key(Self::below(self.children[i]), k),
            entry(self@, k) == entry(Self::below(self.children[i]), k),
    {
        self.lemma_view();
        let ks = self.keys@;
        let cs = self.kids();
        lemma_interleave_window(ks, cs, i);
        let a = before(ks, cs, i).len() as int;
        let b = a + cs[i].len();
        assert(self@.subrange(a, b) =~= cs[i]);
        lemma_rank_in_window(self@, a, b, k);
    }

    /// An element filed under `k` below a slot is an element of the node's
    /// view.
    pub(crate) proof fn lemma_below_in_view(&self, i: int, k: A::Key)
        requires
            self.children.len() == self.keys.len() + 1,
            0 <= i <= self.keys.len(),
            has_key(Self::below(self.children[i]), k),
        ensures
            has_key(self@, k),
    {
        self.lemma_view();
        lemma_interleave_window(self.keys@, self.kids(), i);
        let c = Self::below(self.children[i]);
        let p = before(self.keys@, self.kids(), i);
        let at = choose|at: int| 0 <= at < c.len() && (#[trigger] c[at]).key() == k;
        assert(self@[p.len() + at] == c[at]);
    }

    /// The key that key `i` of the node is filed under.
    pub(crate) open spec fn key_at(&self, i: usize) -> A::Key {
        self.keys[i as int].key()
    }

    /// Whether the node has a key `i`.
    pub(crate) open spec fn has_index(&self, i: usize) -> bool {
        i < self.keys.len()
    }

    /// The subtree below a slot of a valid node is sorted, and where the node
    /// is not a leaf it is a valid subtree one level lower.
    pub(crate) proof fn lemma_child_valid(&self, h: nat, lo: nat, hi: nat, i: int)
        requires
            self.valid(h, lo, hi),
            0 <= i <= self.keys.len(),
        ensures
            self@ == before(self.keys@, self.kids(), i) + Self::below(self.children[i]) + after(
                self.keys@,
                self.kids(),
                i,
            ),
            sorted(Self::below(self.children[i])),
            match self.children[i] {
                Some(c) => h > 1 && c.valid((h - 1) as nat, Self::min_keys(), B as nat)
                    && c.height() == h - 1 && c.wf() && c.wf_inner() && c@.len() >= 1
                    && Self::min_keys() <= c.keys.len() <= B && c.count == c@.len(),
                None => h == 1,
            },
            self.height() == h,
            h >= 1,
            self.children.len() == self.keys.len() + 1,
            self.count == self@.len(),
            lo <= self.keys.len() <= hi,
            h > 1 ==> self.keys.len() >= 1,
            h == 1 ==> self@ == self.keys@,
    {
        reveal(Node::shaped);
        self.lemma_view();
        let ks = self.keys@;
        let cs = self.kids();
        lemma_interleave_window(ks, cs, i);
        let a = before(ks, cs, i).len() as int;
        let b = a + cs[i].len();
        assert(self@.subrange(a, b) =~= cs[i]);
        lemma_sorted_subrange(self@, a, b);
        self.lemma_shaped_height(h, lo, hi);
        if h <= 1 {
            self.lemma_leaf_view();
        }
        match self.children[i] {
            Some(c) => {
                assert(c.shaped((h - 1) as nat, Self::min_keys(), B as nat));
                c.lemma_shaped_height((h - 1) as nat, Self::min_keys(), B as nat);
                c.lemma_view();
                lemma_interleave_len(c.keys@, c.kids());
            },
            None => {},
        }
    }

    /// An empty tree.
    pub fn new() -> (node: Self)
        requires
            Self::fanout_ok(),
        ensures
            node.wf(),
            node@ == Seq::<A>::empty(),
            node.own_keys() == Seq::<A>::empty(),
            node.height() == 1,
            node.dense(),
    {
        Self::default()
    }

    /// A tree of one element.
    pub fn unit(value: A) -> (node: Self)
        requires
            Self::fanout_ok(),
        ensures
            node.wf(),
            node@ == seq![value],
            node.own_keys() == seq![value],
            node.height() == 1,
            node.dense(),
    {
        let mut children: Vec<Option<Rc<Node<A, B>>>> = Vec::new();
        children.push(None);
        children.push(None);
        let mut keys: Vec<A> = Vec::new();
        keys.push(value);
        let node = Node { count: 1, keys, children };
        proof {
            node.lemma_leaf_view();
            assert(node@ =~= seq![value]);
            lemma_sorted_small(node@);
            assert(Self::slots_ok(node.children@, 1)) by {
                reveal(Node::slots_ok);
            }
            assert(Self::dense_slots(node.children@)) by {
                reveal(Node::dense_slots);
            }
            node.lemma_dense();
            node.lemma_shaped_parts(1, 0, B as nat);
            node.lemma_shaped_height(1, 0, B as nat);
        }
        node
    }

    /// A tree whose root holds `median` alone, above `left` and `right`: the
    /// new root after the old one has split.
    pub fn from_split(left: Node<A, B>, median: A, right: Node<A, B>) -> (node: Self)
        requires
            left.wf_inner(),
            right.wf_inner(),
            left.height() == right.height(),
            sorted(left@.push(median) + right@),
            left@.len() + right@.len() < usize::MAX,
        ensures
            node.wf(),
            node@ == left@.push(median) + right@,
            node.own_keys() == seq![median],
            node.slots() == seq![Some(left), Some(right)],
            node.height() == left.height() + 1,
            (left.dense() && right.dense() && left.own_keys().len() >= Self::median()
                && right.own_keys().len() >= Self::median()) ==> node.dense(),
    {
        proof {
            left.lemma_shaped_widen(left.height(), Self::min_keys(), B as nat, 0, B as nat);
            right.lemma_shaped_widen(right.height(), Self::min_keys(), B as nat, 0, B as nat);
        }
        let count = left.len() + right.len() + 1;
        let ghost h = left.height();
        let ghost l = left;
        let ghost r = right;
        let mut keys: Vec<A> = Vec::new();
        keys.push(median);
        let mut children: Vec<Option<Rc<Node<A, B>>>> = Vec::new();
        children.push(Some(Rc::new(left)));
        children.push(Some(Rc::new(right)));
        let node = Node { count, keys, children };
        proof {
            node.lemma_view();
            let e = Seq::<A>::empty();
            lemma_interleave_join(e, seq![l@], median, e, seq![r@]);
            assert(node.keys@ =~= e.push(median) + e);
            assert(node.kids() =~= seq![l@] + seq![r@]);
            reveal(Node::shaped);
            lemma_interleave_single(l@);
            lemma_interleave_single(r@);
            assert(node@ == l@.push(median) + r@);
            assert forall|i: int| 0 <= i < node.children.len() implies match #[trigger] node.children[i] {
                Some(c) => h + 1 > 1 && c.shaped(h, Self::min_keys(), B as nat),
                None => false,
            } by {
                if i == 0 {
                    assert(*node.children[0].unwrap() == l);
                } else {
                    assert(*node.children[1].unwrap() == r);
                }
            }
            assert(node.shaped(h + 1, 0, B as nat));
            node.lemma_shaped_height(h + 1, 0, B as nat);
            if l.dense() && r.dense() && l.keys.len() >= Self::median() && r.keys.len()
                >= Self::median() {
                assert(Self::dense_slots(node.children@)) by {
                    reveal(Node::dense_slots);
                    assert forall|i: int| 0 <= i < node.children@.len() implies match #[trigger] node.children@[i] {
                        Some(c) => c.keys.len() >= Self::median() && c.dense(),
                        None => true,
                    } by {
                        if i == 0 {
                            assert(*node.children@[0].unwrap() == l);
                        } else {
                            assert(*node.children@[1].unwrap() == r);
                        }
                    }
                }
                node.lemma_dense();
            }
        }
        node
    }

    /// The number of elements in the subtree.
    pub fn len(&self) -> (n: usize)
        ensures
            n == self.recorded_len(),
            self.wf() ==> n == self@.len(),
    {
        proof {
            self.lemma_shaped_parts(self.height(), 0, B as nat);
        }
        self.count
    }

    /// The keys of this node itself, in order.
    pub fn keys(&self) -> (keys: &[A])
        ensures
            keys@ == self.own_keys(),
    {
        self.keys.as_slice()
    }

    /// The child in slot `index`, if the slot holds one.
    pub fn child(&self, index: usize) -> (child: Option<&Node<A, B>>)
        requires
            index < self.slots().len(),
        ensures
            match child {
                Some(c) => self.slots()[index as int] == Some(*c),
                None => self.slots()[index as int] is None,
            },
    {
        match &self.children[index] {
            Some(node) => Some(&**node),
            None => None,
        }
    }

    /// The number of child slots of this node.
    pub fn slot_count(&self) -> (n: usize)
        ensures
            n == self.slots().len(),
    {
        self.children.len()
    }

    /// The number of levels of the tree.
    pub fn depth(&self) -> (levels: usize)
        requires
            self.wf(),
        ensures
            levels == self.height(),
        decreases self,
    {
        proof {
            self.lemma_child_valid(self.height(), 0, B as nat, 0);
        }
        match &self.children[0] {
            None => 1,
            Some(child) => {
                let below = child.depth();
                proof {
                    Self::lemma_height_bounded(self);
                }
                below + 1
            },
        }
    }

    /// A tree with a key is no higher than it has elements, so that its
    /// height is a machine number.
    pub(crate) proof fn lemma_height_bounded(node: &Node<A, B>)
        requires
            node.wf(),
        ensures
            node.keys.len() >= 1 ==> node.height() <= node@.len(),
            node.height() <= node@.len() + 1,
            node.count == node@.len(),
        decreases node.height(),
    {
        let h = node.height();
        node.lemma_child_valid(h, 0, B as nat, 0);
        node.lemma_view();
        lemma_interleave_window(node.keys@, node.kids(), 0);
        lemma_interleave_len(node.keys@, node.kids());
        match node.children[0] {
            Some(c) => {
                Self::lemma_height_bounded(&*c);
            },
            None => {},
        }
    }

    /// The least element of the tree.
    pub fn min(&self) -> (least: Option<&A>)
        requires
            self.wf(),
        ensures
            match least {
                Some(v) => self@.len() > 0 && *v == self@[0],
                None => self@.len() == 0,
            },
        decreases self,
    {
        proof {
            self.lemma_child_valid(self.height(), 0, B as nat, 0);
            self.lemma_view();
            lemma_interleave_window(self.keys@, self.kids(), 0);
        }
        match &self.children[0] {
            None => {
                if self.keys.len() > 0 {
                    Some(&self.keys[0])
                } else {
                    None
                }
            },
            Some(child) => child.min(),
        }
    }

    /// The greatest element of the tree.
    pub fn max(&self) -> (greatest: Option<&A>)
        requires
            self.wf(),
        ensures
            match greatest {
                Some(v) => self@.len() > 0 && *v == self@.last(),
                None => self@.len() == 0,
            },
        decreases self,
    {
        let n = self.keys.len();
        proof {
            self.lemma_child_valid(self.height(), 0, B as nat, n as int);
            self.lemma_view();
            lemma_interleave_window(self.keys@, self.kids(), n as int);
        }
        match &self.children[n] {
            None => {
                if n > 0 {
                    Some(&self.keys[n - 1])
                } else {
                    None
                }
            },
            Some(child) => child.max(),
        }
    }

    /// The element filed under `key`, if the tree holds one.
    pub fn lookup(&self, key: &A::Key) -> (found: Option<&A>)
        requires
            self.wf(),
        ensures
            match found {
                Some(v) => entry(self@, *key) == Some(*v) && v.key() == *key,
                None => entry(self@, *key) is None,
            },
        decreases self,
    {
        proof {
            self.lemma_child_valid(self.height(), 0, B as nat, 0);
            self.lemma_keys_sorted();
            self.lemma_view();
            lemma_sorted_means(self.keys@);
            lemma_key_sits_at_rank(self@, *key);
        }
        if self.keys.is_empty() {
            return None;
        }
        match A::search_key(self.keys.as_slice(), key) {
            Ok(index) => {
                proof {
                    self.lemma_key_at(index as int);
                    lemma_rank_of_member(self@, self.key_pos(index as int));
                }
                Some(&self.keys[index])
            },
            Err(index) => {
                proof {
                    self.lemma_child_valid(self.height(), 0, B as nat, index as int);
                    self.lemma_descend(index as int, *key);
                }
                match &self.children[index] {
                    None => {
                        proof {
                            assert(!has_key(Seq::<A>::empty(), *key));
                        }
                        None
                    },
                    Some(node) => node.lookup(key),
                }
            },
        }
    }
}

impl<A: BTreeValue, const B: usize> Node<A, B> {
    /// The element filed under `key`, to be changed in place. No other tree
    /// that shares nodes with this one sees the change.
    ///
    /// The tree stays a tree as long as the element stays filed under `key`.
    pub fn lookup_mut(&mut self, key: &A::Key) -> (found: Option<&mut A>)
        requires
            old(self).wf(),
        ensures
            found matches Some(v) ==> entry(old(self)@, *key) == Some(*v) && v.key() == *key,
            found matches Some(v) ==> final(self)@ == old(self)@.update(
                rank(old(self)@, *key),
                *final(v),
            ),
            found matches Some(v) ==> (final(v).key() == *key ==> final(self).wf()),
            found matches Some(v) ==> (final(v).key() == *key ==> final(self).height() == old(
                self,
            ).height()),
            found is None ==> entry(old(self)@, *key) is None,
            found is None ==> final(self)@ == old(self)@,
            found is None ==> final(self).wf(),
            found is None ==> final(self).height() == old(self).height(),
            final(self).own_keys().len() == old(self).own_keys().len(),
        decreases old(self).height(), 1nat,
    {
        let ghost h = self.height();
        let ghost s = self@;
        let ghost orig = *self;
        proof {
            self.lemma_child_valid(h, 0, B as nat, 0);
            self.lemma_shaped_parts(h, 0, B as nat);
            self.lemma_keys_sorted();
            lemma_sorted_means(self.keys@);
            lemma_key_sits_at_rank(s, *key);
        }
        match A::search_key(self.keys.as_slice(), key) {
            Ok(index) => {
                proof {
                    orig.lemma_key_at(index as int);
                    lemma_rank_of_member(s, orig.key_pos(index as int));
                    Self::lemma_key_change(&orig, index as int, h);
                }
                Some(&mut self.keys[index])
            },
            Err(index) => self.lookup_mut_below(index, key),
        }
    }

    /// The element filed under `key` below the child in slot `index`, where
    /// `key` belongs, to be changed in place.
    pub(crate) fn lookup_mut_below(&mut self, index: usize, key: &A::Key) -> (found: Option<&mut A>)
        requires
            old(self).wf(),
            index <= old(self).keys.len(),
            index > 0 ==> A::key_lt(old(self).keys[index - 1].key(), *key),
            index < old(self).keys.len() ==> A::key_lt(*key, old(self).keys[index as int].key()),
        ensures
            found matches Some(v) ==> entry(old(self)@, *key) == Some(*v) && v.key() == *key,
            found matches Some(v) ==> final(self)@ == old(self)@.update(
                rank(old(self)@, *key),
                *final(v),
            ),
            found matches Some(v) ==> (final(v).key() == *key ==> final(self).wf()),
            found matches Some(v) ==> (final(v).key() == *key ==> final(self).height() == old(
                self,
            ).height()),
            found is None ==> entry(old(self)@, *key) is None,
            found is None ==> final(self)@ == old(self)@,
            found is None ==> final(self).wf(),
            found is None ==> final(self).height() == old(self).height(),
            final(self).own_keys().len() == old(self).own_keys().len(),
        decreases old(self).height(), 0nat,
    {
        let ghost h = self.height();
        let ghost s = self@;
        let ghost orig = *self;
        let ghost c = Self::below(orig.children[index as int]);
        proof {
            orig.lemma_shaped_parts(h, 0, B as nat);
            orig.lemma_child_valid(h, 0, B as nat, index as int);
            orig.lemma_descend(index as int, *key);
            lemma_key_sits_at_rank(s, *key);
            lemma_key_sits_at_rank(c, *key);
            Self::lemma_child_change(&orig, index as int, h);
        }
        match &mut self.children[index] {
            None => {
                proof {
                    assert(!has_key(Seq::<A>::empty(), *key));
                }
                None
            },
            Some(child_ref) => {
                let child = make_unique(child_ref);
                proof {
                    child.lemma_same(&orig.kid(index as int));
                    Self::lemma_element_change(&orig, index as int, *key, h);
                }
                child.lookup_mut(key)
            },
        }
    }

    /// What becomes of a node when key `i` is changed for an element with
    /// the same key.
    pub(crate) proof fn lemma_key_change(orig: &Node<A, B>, i: int, h: nat)
        requires
            orig.valid(h, 0, B as nat),
            0 <= i < orig.keys.len(),
        ensures
            forall|now: Node<A, B>|
                #![trigger now@]
                #![trigger now.wf()]
                #![trigger now.height()]
                now.count == orig.count && now.children@ == orig.children@ && now.keys@
                    == orig.keys@.update(i, now.keys@[i]) ==> {
                    &&& now@ == orig@.update(orig.key_pos(i), now.keys@[i])
                    &&& now.keys@[i].key() == orig.keys[i].key() ==> now.wf() && now.height() == h
                },
    {
        assert forall|now: Node<A, B>|
            #![trigger now@]
            #![trigger now.wf()]
            #![trigger now.height()]
            now.count == orig.count && now.children@ == orig.children@ && now.keys@
                == orig.keys@.update(i, now.keys@[i]) implies {
            &&& now@ == orig@.update(orig.key_pos(i), now.keys@[i])
            &&& now.keys@[i].key() == orig.keys[i].key() ==> now.wf() && now.height() == h
        } by {
            orig.lemma_view();
            now.lemma_view();
            orig.lemma_shaped_parts(h, 0, B as nat);
            assert forall|n: int| 0 <= n < orig.children.len() implies now.children[n]
                == orig.children[n] by {
                assert(now.children@[n] == orig.children@[n]);
            }
            assert(now.kids() =~= orig.kids());
            lemma_interleave_key_replaced(orig.keys@, orig.kids(), i, now.keys@[i]);
            if now.keys@[i].key() == orig.keys[i].key() {
                orig.lemma_key_at(i);
                lemma_update_sorted(orig@, orig.key_pos(i), now.keys@[i]);
                now.lemma_shaped_parts(h, 0, B as nat);
                now.lemma_shaped_height(h, 0, B as nat);
            }
        }
    }

    /// The element at the rank of `k` below the child in slot `i`.
    pub(crate) open spec fn held_below(&self, orig: &Node<A, B>, i: int, k: A::Key) -> A {
        Self::below(self.children@[i])[rank(Self::below(orig.children[i]), k)]
    }

    /// The node is `orig` but for the element filed under `k` below the child
    /// in slot `i`.
    pub(crate) open spec fn differs_below(&self, orig: &Node<A, B>, i: int, k: A::Key) -> bool {
        &&& has_key(Self::below(orig.children[i]), k)
        &&& self.count == orig.count
        &&& self.keys@ == orig.keys@
        &&& self.children@ == orig.children@.update(i, self.children@[i])
        &&& Self::below(self.children@[i]) == Self::below(orig.children[i]).update(
            rank(Self::below(orig.children[i]), k),
            self.held_below(orig, i, k),
        )
    }

    /// The child in slot `i` is a tree of height `h - 1` with keys enough for
    /// a node below the root.
    pub(crate) open spec fn child_fits(&self, i: int, h: nat) -> bool {
        match self.children@[i] {
            Some(c) => c.wf() && c.height() == h - 1 && c.keys.len() >= Self::min_keys(),
            None => false,
        }
    }

    /// What becomes of a node when an element below the child in slot `i` is
    /// changed.
    pub(crate) proof fn lemma_element_change(orig: &Node<A, B>, i: int, k: A::Key, h: nat)
        requires
            orig.valid(h, 0, B as nat),
            h > 1,
            0 <= i <= orig.keys.len(),
            i > 0 ==> A::key_lt(orig.keys[i - 1].key(), k),
            i < orig.keys.len() ==> A::key_lt(k, orig.keys[i].key()),
        ensures
            forall|now: Node<A, B>|
                #![trigger now@]
                now.differs_below(orig, i, k) ==> now@ == orig@.update(
                    rank(orig@, k),
                    now.held_below(orig, i, k),
                ),
            forall|now: Node<A, B>|
                #![trigger now.wf()]
                #![trigger now.height()]
                now.differs_below(orig, i, k) && now.held_below(orig, i, k).key() == k
                    && now.child_fits(i, h) ==> now.wf() && now.height() == h,
    {
        let c = Self::below(orig.children[i]);
        let p = before(orig.keys@, orig.kids(), i);
        let t = after(orig.keys@, orig.kids(), i);
        let r = rank(c, k);
        orig.lemma_shaped_parts(h, 0, B as nat);
        orig.lemma_descend(i, k);
        lemma_key_sits_at_rank(c, k);
        lemma_key_sits_at_rank(orig@, k);
        Self::lemma_child_change(orig, i, h);
        assert forall|now: Node<A, B>|
            #![trigger now@]
            now.differs_below(orig, i, k) implies now@ == orig@.update(
            rank(orig@, k),
            now.held_below(orig, i, k),
        ) by {
            let x = now.held_below(orig, i, k);
            lemma_update_in_window(p, c, t, r, x);
            assert(now@ == p + Self::below(now.children@[i]) + t);
        }
        assert forall|now: Node<A, B>|
            #![trigger now.wf()]
            #![trigger now.height()]
            now.differs_below(orig, i, k) && now.held_below(orig, i, k).key() == k
                && now.child_fits(i, h) implies now.wf() && now.height() == h by {
            let x = now.held_below(orig, i, k);
            lemma_update_in_window(p, c, t, r, x);
            assert(now@ == p + Self::below(now.children@[i]) + t);
            assert(now@ == orig@.update(rank(orig@, k), x));
            lemma_update_sorted(orig@, rank(orig@, k), x);
            assert(sorted(now@));
            assert(Self::below(now.children@[i]).len() == c.len());
        }
    }

    /// What becomes of a node when the child in slot `i` is changed for one
    /// of the same shape.
    pub(crate) proof fn lemma_child_change(orig: &Node<A, B>, i: int, h: nat)
        requires
            orig.valid(h, 0, B as nat),
            0 <= i <= orig.keys.len(),
        ensures
            forall|now: Node<A, B>|
                #![trigger now@]
                #![trigger now.wf()]
                #![trigger now.height()]
                now.count == orig.count && now.keys@ == orig.keys@ && now.children@
                    == orig.children@.update(i, now.children@[i]) ==> {
                    &&& now@ == before(orig.keys@, orig.kids(), i) + Self::below(now.children@[i])
                        + after(orig.keys@, orig.kids(), i)
                    &&& (match now.children@[i] {
                        Some(c) => h > 1 && c.wf() && c.height() == h - 1 && c@.len()
                            == Self::below(orig.children[i]).len() && c.keys.len()
                            >= Self::min_keys(),
                        None => h == 1,
                    } && sorted(now@)) ==> now.wf() && now.height() == h
                },
    {
        assert forall|now: Node<A, B>|
            #![trigger now@]
            #![trigger now.wf()]
            #![trigger now.height()]
            now.count == orig.count && now.keys@ == orig.keys@ && now.children@
                == orig.children@.update(i, now.children@[i]) implies {
            &&& now@ == before(orig.keys@, orig.kids(), i) + Self::below(now.children@[i]) + after(
                orig.keys@,
                orig.kids(),
                i,
            )
            &&& (match now.children@[i] {
                Some(c) => h > 1 && c.wf() && c.height() == h - 1 && c@.len() == Self::below(
                    orig.children[i],
                ).len() && c.keys.len() >= Self::min_keys(),
                None => h == 1,
            } && sorted(now@)) ==> now.wf() && now.height() == h
        } by {
            orig.lemma_view();
            now.lemma_view();
            orig.lemma_shaped_parts(h, 0, B as nat);
            assert(now.children@.len() == orig.children@.len());
            assert(orig.kids()[i] == Self::below(orig.children[i]));
            let slot = now.children@[i];
            let cs2 = orig.kids().update(i, Self::below(slot));
            assert(now.kids() =~= cs2) by {
                assert forall|n: int| 0 <= n < cs2.len() implies now.kids()[n] == cs2[n] by {
                    assert(now.children[n] == now.children@[n]);
                    if n != i {
                        assert(now.children@[n] == orig.children@[n]);
                        assert(orig.kids()[n] == Self::below(orig.children[n]));
                    }
                }
            }
            lemma_interleave_replaced(orig.keys@, orig.kids(), i, Self::below(slot));
            lemma_interleave_window(orig.keys@, orig.kids(), i);
            if (match slot {
                Some(c) => h > 1 && c.wf() && c.height() == h - 1 && c@.len() == Self::below(
                    orig.children[i],
                ).len() && c.keys.len() >= Self::min_keys(),
                None => h == 1,
            }) && sorted(now@) {
                match slot {
                    Some(c) => {
                        c.lemma_shaped_parts((h - 1) as nat, 0, B as nat);
                        c.lemma_shaped_parts((h - 1) as nat, Self::min_keys(), B as nat);
                    },
                    None => {},
                }
                orig.lemma_child_valid(h, 0, B as nat, i);
                assert(Self::below(slot).len() == Self::below(orig.children[i]).len());
                assert(now@.len() == orig@.len());
                assert(Self::slots_ok(now.children@, h)) by {
                    reveal(Node::slots_ok);
                    assert forall|n: int| 0 <= n < now.children@.len() implies match #[trigger] now.children@[n] {
                        Some(c) => h > 1 && c.shaped((h - 1) as nat, Self::min_keys(), B as nat),
                        None => h == 1,
                    } by {
                        if n != i {
                            assert(now.children@[n] == orig.children@[n]);
                        }
                    }
                }
                now.lemma_shaped_parts(h, 0, B as nat);
                now.lemma_shaped_height(h, 0, B as nat);
            }
        }
    }
}

impl<A: BTreeValue, const B: usize> Default for Node<A, B> {
    /// An empty node.
    fn default() -> (node: Self)
        ensures
            node@ == Seq::<A>::empty(),
            node.own_keys() == Seq::<A>::empty(),
            node.dense(),
            Self::fanout_ok() ==> node.wf() && node.height() == 1,
    {
        let mut children: Vec<Option<Rc<Node<A, B>>>> = Vec::new();
        children.push(None);
        let node = Node { count: 0, keys: Vec::new(), children };
        proof {
            node.lemma_leaf_view();
            lemma_sorted_small(node@);
            assert(Self::slots_ok(node.children@, 1)) by {
                reveal(Node::slots_ok);
            }
            node.lemma_shaped_parts(1, 0, B as nat);
            if Self::fanout_ok() {
                node.lemma_shaped_height(1, 0, B as nat);
            }
            assert(Self::dense_slots(node.children@)) by {
                reveal(Node::dense_slots);
            }
            node.lemma_dense();
        }
        node
    }
}

impl<A: BTreeValue, const B: usize> Clone for Node<A, B> {
    /// A copy of the tree, which shares every child of the root with the
    /// tree. The copy holds what the tree holds, and stays as it is whatever
    /// is done to the tree afterwards.
    fn clone(&self) -> (copy: Self)
        ensures
            copy.same_as(self),
            copy@ == self@,
            copy.own_keys() == self.own_keys(),
            copy.height() == self.height(),
            self.wf() ==> copy.wf(),
            copy.dense() == self.dense(),
    {
        let mut keys: Vec<A> = Vec::new();
        let mut i: usize = 0;
        while i < self.keys.len()
            invariant
                i <= self.keys.len(),
                keys@ == self.keys@.take(i as int),
            decreases self.keys.len() - i,
        {
            let key = self.keys[i].clone();
            proof {
                A::clone_is_exact(self.keys[i as int], key);
            }
            keys.push(key);
            assert(keys@ =~= self.keys@.take(i + 1));
            i = i + 1;
        }
        let mut children: Vec<Option<Rc<Node<A, B>>>> = Vec::new();
        let mut j: usize = 0;
        while j < self.children.len()
            invariant
                j <= self.children.len(),
                children@ == self.children@.take(j as int),
            decreases self.children.len() - j,
        {
            let slot = match &self.children[j] {
                Some(child) => Some(share(child)),
                None => None,
            };
            children.push(slot);
            assert(children@ =~= self.children@.take(j + 1));
            j = j + 1;
        }
        assert(keys@ =~= self.keys@);
        assert(children@ =~= self.children@);
        let copy = Node { count: self.count, keys, children };
        proof {
            copy.lemma_same(self);
            copy.lemma_dense_same(self);
        }
        copy
    }
}

/// The node behind a handle: the node itself where the handle is the only
/// one, a copy that shares its children where it is not.
pub(crate) fn unshare<A: BTreeValue, const B: usize>(handle: Rc<Node<A, B>>) -> (node: Node<A, B>)
    ensures
        node.same_as(&*handle),
{
    match Rc::try_unwrap(handle) {
        Ok(node) => node,
        Err(shared) => (*shared).clone(),
    }
}

} // verus!
