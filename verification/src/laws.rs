//! What holds of every tree, and of the operations taken together.

use crate::diff::{Change, diff};
use crate::layout::{
    after, before, interleave, lemma_interleave_len, lemma_interleave_window, total_len,
};
use crate::node::Node;
use crate::order::{
    entry, has_key, inserted, lemma_insert_sorted, lemma_key_sits_at_rank, lemma_rank_of_member,
    lemma_sorted_pair, lemma_update_sorted, rank, removed, sorted,
};
use crate::value::BTreeValue;
use vstd::multiset::Multiset;
use vstd::prelude::*;
use vstd::std_specs::cmp::PartialEqSpec;

verus! {

impl<A: BTreeValue, const B: usize> Node<A, B> {
    /// Every node of a tree has one child slot more than it has keys.
    pub proof fn law_one_slot_more_than_keys(&self)
        requires
            self.wf(),
        ensures
            self.slots().len() == self.own_keys().len() + 1,
            self.own_keys().len() <= B,
    {
        self.lemma_shaped_parts(self.height(), 0, B as nat);
    }

    /// The child slots of a node are all empty, which makes it a leaf of
    /// height one, or all filled; and every child is itself a tree, one level
    /// lower than its parent, with at least the least number of keys of a node
    /// below the root. So every leaf lies at the same depth, and what holds of
    /// the root of a tree holds of every node in it.
    pub proof fn law_children(&self, i: int)
        requires
            self.wf(),
            0 <= i < self.slots().len(),
        ensures
            self.height() >= 1,
            self.height() == 1 <==> self.slots()[i] is None,
            self.height() > 1 ==> self.own_keys().len() >= 1,
            match self.slots()[i] {
                Some(child) => {
                    &&& child.wf()
                    &&& child.wf_inner()
                    &&& child.height() + 1 == self.height()
                    &&& child.own_keys().len() >= Self::min_keys()
                    &&& Self::min_keys() >= 1
                },
                None => true,
            },
    {
        self.lemma_shaped_parts(self.height(), 0, B as nat);
        self.lemma_child_valid(self.height(), 0, B as nat, i);
    }

    /// In a tree that only insertions have built, every node below the root
    /// has at least as many keys as the median index says, and the same holds
    /// of the tree below each child. Such a tree is dense: an empty tree is,
    /// a tree of one element is, and an insertion into a dense tree leaves it
    /// dense, halves of a split and new root included. A removal may leave a
    /// node with one key less, which is the least that a node below the root
    /// may have.
    pub proof fn law_dense_children(&self, i: int)
        requires
            self.wf(),
            self.dense(),
            0 <= i < self.slots().len(),
        ensures
            match self.slots()[i] {
                Some(child) => child.own_keys().len() >= Self::median() && child.dense()
                    && child.wf(),
                None => true,
            },
    {
        self.lemma_shaped_parts(self.height(), 0, B as nat);
        self.lemma_child_valid(self.height(), 0, B as nat, i);
        self.lemma_dense();
        Self::lemma_dense_slot(self.children@, i);
    }

    /// The keys of a node ascend strictly.
    pub proof fn law_keys_sorted(&self)
        requires
            self.wf(),
        ensures
            sorted(self.own_keys()),
    {
        self.lemma_shaped_parts(self.height(), 0, B as nat);
        self.lemma_keys_sorted();
    }

    /// Every element below child `i` lies after key `i - 1` and before key
    /// `i`.
    pub proof fn law_separators_bound_children(&self, i: int, j: int)
        requires
            self.wf(),
            0 <= i < self.slots().len(),
            self.slots()[i] is Some,
            0 <= j < self.slots()[i].unwrap()@.len(),
        ensures
            i > 0 ==> A::key_lt(
                self.own_keys()[i - 1].key(),
                self.slots()[i].unwrap()@[j].key(),
            ),
            i < self.own_keys().len() ==> A::key_lt(
                self.slots()[i].unwrap()@[j].key(),
                self.own_keys()[i].key(),
            ),
    {
        self.lemma_shaped_parts(self.height(), 0, B as nat);
        self.lemma_view();
        let ks = self.keys@;
        let cs = self.kids();
        lemma_interleave_window(ks, cs, i);
        let p = before(ks, cs, i);
        let c = cs[i];
        let t = after(ks, cs, i);
        assert(self@[p.len() + j] == c[j]);
        if i > 0 {
            assert(self@[p.len() - 1] == ks[i - 1]);
            lemma_sorted_pair(self@, p.len() - 1, p.len() + j);
        }
        if i < ks.len() {
            assert(self@[(p.len() + c.len()) as int] == ks[i]);
            lemma_sorted_pair(self@, p.len() + j, (p.len() + c.len()) as int);
        }
    }

    /// The view of a node is its keys with the views of its children between
    /// and around them, and it ascends strictly; the length that the node
    /// records is the length of the view: the number of its keys and of all
    /// elements below its children.
    pub proof fn law_count(&self)
        requires
            self.wf(),
        ensures
            self@ == interleave(self.own_keys(), self.kids()),
            sorted(self@),
            self.recorded_len() == self@.len(),
            self@.len() == self.own_keys().len() + total_len(self.kids()),
            self.kids().len() == self.slots().len(),
            forall|i: int|
                0 <= i < self.slots().len() ==> #[trigger] self.kids()[i] == match self.slots()[i] {
                    Some(child) => child@,
                    None => Seq::<A>::empty(),
                },
    {
        self.lemma_shaped_parts(self.height(), 0, B as nat);
        self.lemma_view();
        lemma_interleave_len(self.keys@, self.kids());
    }
}

/// Inserting an element a second time changes nothing: after the first
/// insertion the sequence holds the element under its key, so that the second
/// finds it, gives it back as the one displaced, and leaves the sequence as
/// it was.
pub proof fn law_insert_twice<A: BTreeValue>(s: Seq<A>, v: A)
    requires
        sorted(s),
    ensures
        sorted(inserted(s, v)),
        has_key(inserted(s, v), v.key()),
        entry(inserted(s, v), v.key()) == Some(v),
        inserted(inserted(s, v), v) == inserted(s, v),
{
    let k = v.key();
    let r = rank(s, k);
    lemma_key_sits_at_rank(s, k);
    let s1 = inserted(s, v);
    if has_key(s, k) {
        lemma_update_sorted(s, r, v);
    } else {
        lemma_insert_sorted(s, v);
    }
    assert(s1[r] == v);
    lemma_rank_of_member(s1, r);
    assert(s1.update(r, v) =~= s1);
}

/// Removing the key of an element that was just inserted gives the element
/// back; and where the key was new, the sequence is again what it was before
/// the insertion, so that the size is restored.
pub proof fn law_remove_after_insert<A: BTreeValue>(s: Seq<A>, v: A)
    requires
        sorted(s),
    ensures
        entry(inserted(s, v), v.key()) == Some(v),
        !has_key(s, v.key()) ==> removed(inserted(s, v), v.key()) == s,
        removed(inserted(s, v), v.key()).len() == removed(s, v.key()).len(),
{
    let k = v.key();
    let r = rank(s, k);
    law_insert_twice(s, v);
    lemma_key_sits_at_rank(s, k);
    let s1 = inserted(s, v);
    assert(s1[r] == v);
    if has_key(s, k) {
        lemma_update_sorted(s, r, v);
    } else {
        lemma_insert_sorted(s, v);
    }
    lemma_rank_of_member(s1, r);
    if !has_key(s, k) {
        assert(s1.remove(r) =~= s);
    }
}

/// A lookup finds an element just when a removal of the same key would take
/// one out.
pub proof fn law_lookup_agrees_with_remove<A: BTreeValue>(s: Seq<A>, k: A::Key)
    requires
        sorted(s),
    ensures
        entry(s, k) is Some <==> has_key(s, k),
        entry(s, k) is Some <==> removed(s, k).len() + 1 == s.len(),
        entry(s, k) is None <==> removed(s, k) == s,
{
    lemma_key_sits_at_rank(s, k);
}

/// What has come out of the front of a traversal of `s` after `moves`, each
/// of which takes the next element from the front (`true`) or from the back
/// (`false`), and takes nothing once the two ends have met.
pub open spec fn from_front<A>(s: Seq<A>, moves: Seq<bool>) -> Seq<A>
    decreases moves.len(),
{
    if moves.len() == 0 || s.len() == 0 {
        Seq::empty()
    } else if moves[0] {
        seq![s[0]] + from_front(s.skip(1), moves.skip(1))
    } else {
        from_front(s.drop_last(), moves.skip(1))
    }
}

/// What has come out of the back of a traversal of `s` after `moves`, in the
/// order in which it came out.
pub open spec fn from_back<A>(s: Seq<A>, moves: Seq<bool>) -> Seq<A>
    decreases moves.len(),
{
    if moves.len() == 0 || s.len() == 0 {
        Seq::empty()
    } else if moves[0] {
        from_back(s.skip(1), moves.skip(1))
    } else {
        seq![s.last()] + from_back(s.drop_last(), moves.skip(1))
    }
}

/// What a traversal of `s` still holds after `moves`.
pub open spec fn left_over<A>(s: Seq<A>, moves: Seq<bool>) -> Seq<A>
    decreases moves.len(),
{
    if moves.len() == 0 || s.len() == 0 {
        s
    } else if moves[0] {
        left_over(s.skip(1), moves.skip(1))
    } else {
        left_over(s.drop_last(), moves.skip(1))
    }
}

/// However a traversal is driven from its two ends, every element comes out
/// once and no more: what came out of the front, then what is left, then
/// what came out of the back in reverse, is the sequence that was traversed.
/// After as many moves as there are elements nothing is left.
pub proof fn law_ends_meet<A>(s: Seq<A>, moves: Seq<bool>)
    ensures
        from_front(s, moves) + left_over(s, moves) + from_back(s, moves).reverse() == s,
        from_front(s, moves).len() + from_back(s, moves).len() + left_over(s, moves).len()
            == s.len(),
        moves.len() >= s.len() ==> left_over(s, moves).len() == 0,
    decreases moves.len(),
{
    if moves.len() == 0 || s.len() == 0 {
        assert(from_front(s, moves) + left_over(s, moves) + from_back(s, moves).reverse() =~= s);
    } else if moves[0] {
        law_ends_meet(s.skip(1), moves.skip(1));
        let f = from_front(s.skip(1), moves.skip(1));
        let l = left_over(s.skip(1), moves.skip(1));
        let b = from_back(s.skip(1), moves.skip(1));
        assert(seq![s[0]] + (f + l + b.reverse()) =~= s);
        assert((seq![s[0]] + f) + l + b.reverse() =~= seq![s[0]] + (f + l + b.reverse()));
    } else {
        law_ends_meet(s.drop_last(), moves.skip(1));
        let f = from_front(s.drop_last(), moves.skip(1));
        let l = left_over(s.drop_last(), moves.skip(1));
        let b = from_back(s.drop_last(), moves.skip(1));
        assert((seq![s.last()] + b).reverse() =~= b.reverse().push(s.last()));
        assert(f + l + b.reverse().push(s.last()) =~= (f + l + b.reverse()).push(s.last()));
        assert(s.drop_last().push(s.last()) =~= s);
    }
}

/// A traversal from the front alone hands out the elements in ascending
/// order, and one from the back alone hands out the same elements in the
/// reverse order.
pub proof fn law_iteration_order<A: BTreeValue>(s: Seq<A>, i: int, j: int)
    requires
        sorted(s),
        0 <= i < j < s.len(),
    ensures
        A::key_lt(s[i].key(), s[j].key()),
        from_front(s, Seq::new(s.len(), |n: int| true)) == s,
        from_back(s, Seq::new(s.len(), |n: int| false)) == s.reverse(),
{
    lemma_sorted_pair(s, i, j);
    lemma_one_way(s);
}

/// What comes out of a traversal that is driven from one end only.
pub proof fn lemma_one_way<A>(s: Seq<A>)
    ensures
        from_front(s, Seq::new(s.len(), |n: int| true)) == s,
        from_back(s, Seq::new(s.len(), |n: int| false)) == s.reverse(),
    decreases s.len(),
{
    let fwd = Seq::new(s.len(), |n: int| true);
    let bwd = Seq::new(s.len(), |n: int| false);
    if s.len() == 0 {
        assert(from_front(s, fwd) =~= s);
        assert(from_back(s, bwd) =~= s.reverse());
    } else {
        lemma_one_way(s.skip(1));
        lemma_one_way(s.drop_last());
        assert(fwd.skip(1) =~= Seq::new(s.skip(1).len(), |n: int| true));
        assert(bwd.skip(1) =~= Seq::new(s.drop_last().len(), |n: int| false));
        assert(seq![s[0]] + s.skip(1) =~= s);
        assert(seq![s.last()] + s.drop_last().reverse() =~= s.reverse());
    }
}

/// The elements after a difference has been applied to them.
pub open spec fn applied<A>(held: Multiset<A>, change: Change<A>) -> Multiset<A> {
    match change {
        Change::Add(v) => held.insert(v),
        Change::Update(o, n) => held.remove(o).insert(n),
        Change::Remove(v) => held.remove(v),
    }
}

/// The elements after a sequence of differences has been applied to them
/// one after the other.
pub open spec fn patched<A>(held: Multiset<A>, changes: Seq<Change<A>>) -> Multiset<A>
    decreases changes.len(),
{
    if changes.len() == 0 {
        held
    } else {
        patched(applied(held, changes[0]), changes.skip(1))
    }
}

/// The differences between an old sequence and a new one, applied to the
/// elements of the old one, give the elements of the new one. Here two
/// elements that the type calls equal are the same element.
pub proof fn law_diff_patches<A: BTreeValue + PartialEq>(o: Seq<A>, n: Seq<A>)
    requires
        forall|a: A, b: A| #[trigger] a.eq_spec(&b) ==> a == b,
    ensures
        patched(o.to_multiset(), diff(o, n)) == n.to_multiset(),
{
    lemma_diff_patches_beside(Multiset::empty(), o, n);
    assert(Multiset::<A>::empty().add(o.to_multiset()) =~= o.to_multiset());
    assert(Multiset::<A>::empty().add(n.to_multiset()) =~= n.to_multiset());
}

/// The law of `law_diff_patches`, beside elements that the differences do
/// not touch.
pub proof fn lemma_diff_patches_beside<A: BTreeValue + PartialEq>(
    beside: Multiset<A>,
    o: Seq<A>,
    n: Seq<A>,
)
    requires
        forall|a: A, b: A| #[trigger] a.eq_spec(&b) ==> a == b,
    ensures
        patched(beside.add(o.to_multiset()), diff(o, n)) == beside.add(n.to_multiset()),
    decreases o.len() + n.len(),
{
    broadcast use vstd::seq_lib::group_to_multiset_ensures;

    let d = diff(o, n);
    if o.len() == 0 && n.len() == 0 {
    } else {
        if o.len() > 0 {
            assert(seq![o[0]] + o.skip(1) =~= o);
            vstd::seq_lib::lemma_multiset_commutative(seq![o[0]], o.skip(1));
            assert(seq![o[0]].to_multiset() =~= Multiset::singleton(o[0])) by {
                assert(seq![o[0]] =~= Seq::<A>::empty().push(o[0]));
            }
        }
        if n.len() > 0 {
            assert(seq![n[0]] + n.skip(1) =~= n);
            vstd::seq_lib::lemma_multiset_commutative(seq![n[0]], n.skip(1));
            assert(seq![n[0]].to_multiset() =~= Multiset::singleton(n[0])) by {
                assert(seq![n[0]] =~= Seq::<A>::empty().push(n[0]));
            }
        }
        if o.len() == 0 || (n.len() > 0 && !A::key_lt(o[0].key(), n[0].key()) && A::key_lt(
            n[0].key(),
            o[0].key(),
        )) {
            let b2 = beside.insert(n[0]);
            lemma_diff_patches_beside(b2, o, n.skip(1));
            assert(d.skip(1) =~= diff(o, n.skip(1)));
            assert(applied(beside.add(o.to_multiset()), d[0]) =~= b2.add(o.to_multiset()));
            assert(b2.add(n.skip(1).to_multiset()) =~= beside.add(n.to_multiset()));
        } else if n.len() == 0 || A::key_lt(o[0].key(), n[0].key()) {
            lemma_diff_patches_beside(beside, o.skip(1), n);
            assert(d.skip(1) =~= diff(o.skip(1), n));
            assert(applied(beside.add(o.to_multiset()), d[0]) =~= beside.add(
                o.skip(1).to_multiset(),
            ));
        } else {
            let os = o.skip(1).to_multiset();
            let ns = n.skip(1).to_multiset();
            if !o[0].eq_spec(&n[0]) {
                let b2 = beside.insert(n[0]);
                lemma_diff_patches_beside(b2, o.skip(1), n.skip(1));
                assert(d.skip(1) =~= diff(o.skip(1), n.skip(1)));
                assert(applied(beside.add(o.to_multiset()), d[0]) =~= b2.add(os));
                assert(b2.add(ns) =~= beside.add(n.to_multiset()));
            } else {
                let b2 = beside.insert(o[0]);
                lemma_diff_patches_beside(b2, o.skip(1), n.skip(1));
                assert(beside.add(o.to_multiset()) =~= b2.add(os));
                assert(b2.add(ns) =~= beside.add(n.to_multiset()));
            }
        }
    }
}

} // verus!
