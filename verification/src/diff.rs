//! The difference between two trees, found by walking both in step.

use crate::iter::{
    all_ok, Iter, IterItem, lemma_stack_popped, lemma_stack_pushed, pieces, solid, weights,
};
use crate::layout::{join_down, sum};
use crate::node::Node;
use crate::value::{BTreeValue, value_lt};
use vstd::prelude::*;
use vstd::std_specs::cmp::PartialEqSpec;

verus! {

/// One difference between an old tree and a new one.
#[derive(PartialEq, Eq)]
pub enum DiffItem<'a, A> {
    /// The new tree holds this element and the old one holds none with its
    /// key.
    Add(&'a A),
    /// Both trees hold an element with this key, and the two are not equal.
    Update { old: &'a A, new: &'a A },
    /// The old tree holds this element and the new one holds none with its
    /// key.
    Remove(&'a A),
}

/// A difference between two sequences of elements, as a value.
pub enum Change<A> {
    Add(A),
    Update(A, A),
    Remove(A),
}

impl<'a, A> DiffItem<'a, A> {
    /// The difference as a value.
    pub open spec fn view(self) -> Change<A> {
        match self {
            DiffItem::Add(v) => Change::Add(*v),
            DiffItem::Update { old: o, new: n } => Change::Update(*o, *n),
            DiffItem::Remove(v) => Change::Remove(*v),
        }
    }
}

/// The differences between two sequences in the order of the keys: each
/// element of `o` whose key `n` lacks is removed, each element of `n` whose
/// key `o` lacks is added, and where both hold the key and the elements are
/// not equal, the one is updated to the other.
pub open spec fn diff<A: BTreeValue + PartialEq>(o: Seq<A>, n: Seq<A>) -> Seq<Change<A>>
    decreases o.len() + n.len(),
{
    if o.len() == 0 && n.len() == 0 {
        Seq::empty()
    } else if o.len() == 0 {
        seq![Change::Add(n[0])] + diff(o, n.skip(1))
    } else if n.len() == 0 {
        seq![Change::Remove(o[0])] + diff(o.skip(1), n)
    } else if A::key_lt(o[0].key(), n[0].key()) {
        seq![Change::Remove(o[0])] + diff(o.skip(1), n)
    } else if A::key_lt(n[0].key(), o[0].key()) {
        seq![Change::Add(n[0])] + diff(o, n.skip(1))
    } else if !o[0].eq_spec(&n[0]) {
        seq![Change::Update(o[0], n[0])] + diff(o.skip(1), n.skip(1))
    } else {
        diff(o.skip(1), n.skip(1))
    }
}

/// A walk over the differences between an old tree and a new one.
pub struct DiffIter<'a, A, const B: usize> {
    old_stack: Vec<IterItem<'a, A, B>>,
    new_stack: Vec<IterItem<'a, A, B>>,
}

impl<'a, A: BTreeValue + PartialEq, const B: usize> DiffIter<'a, A, B> {
    /// The elements of the old tree that the walk has not passed, in order.
    pub closed spec fn old_ahead(self) -> Seq<A> {
        join_down(pieces(self.old_stack@))
    }

    /// The elements of the new tree that the walk has not passed, in order.
    pub closed spec fn new_ahead(self) -> Seq<A> {
        join_down(pieces(self.new_stack@))
    }

    /// The differences that the walk has not handed out, in order.
    pub closed spec fn view(self) -> Seq<Change<A>> {
        diff(self.old_ahead(), self.new_ahead())
    }

    /// The invariant of a walk: both stacks hold valid subtrees, each with a
    /// key of its own.
    pub closed spec fn wf(self) -> bool {
        &&& all_ok(self.old_stack@)
        &&& all_ok(self.new_stack@)
        &&& solid(self.old_stack@)
        &&& solid(self.new_stack@)
    }

    /// A walk over the differences between all of `old_root` and all of
    /// `new_root`.
    pub fn new(old_root: &'a Node<A, B>, new_root: &'a Node<A, B>) -> (iter: Self)
        requires
            old_root.wf(),
            new_root.wf(),
        ensures
            iter.wf(),
            iter@ == diff(old_root@, new_root@),
    {
        let mut old_stack: Vec<IterItem<'a, A, B>> = Vec::new();
        let mut new_stack: Vec<IterItem<'a, A, B>> = Vec::new();
        let ghost e = Seq::<IterItem<'a, A, B>>::empty();
        proof {
            lemma_stack_popped(e);
            old_root.lemma_child_valid(old_root.height(), 0, B as nat, 0);
            new_root.lemma_child_valid(new_root.height(), 0, B as nat, 0);
        }
        if !old_root.keys.is_empty() {
            proof {
                lemma_stack_pushed(e, IterItem::Consider(old_root));
            }
            old_stack.push(IterItem::Consider(old_root));
        }
        if !new_root.keys.is_empty() {
            proof {
                lemma_stack_pushed(e, IterItem::Consider(new_root));
            }
            new_stack.push(IterItem::Consider(new_root));
        }
        let iter = DiffIter { old_stack, new_stack };
        proof {
            assert(iter.old_ahead() =~= old_root@);
            assert(iter.new_ahead() =~= new_root@);
        }
        iter
    }

    /// The next difference, or nothing once both trees have been walked.
    pub fn next(&mut self) -> (item: Option<DiffItem<'a, A>>)
        requires
            old(self).wf(),
            A::obeys_eq_spec(),
        ensures
            final(self).wf(),
            match item {
                Some(change) => old(self)@.len() > 0 && change@ == old(self)@[0] && final(self)@
                    == old(self)@.skip(1),
                None => old(self)@.len() == 0 && final(self)@.len() == 0,
            },
    {
        loop
            invariant
                self.wf(),
                self@ == old(self)@,
                A::obeys_eq_spec(),
            decreases sum(weights(self.old_stack@)) + sum(weights(self.new_stack@)),
        {
            let ghost olds = self.old_stack@;
            let ghost news = self.new_stack@;
            let ghost o = self.old_ahead();
            let ghost n = self.new_ahead();
            proof {
                lemma_stack_popped(olds);
                lemma_stack_popped(news);
            }
            let old_top = self.old_stack.pop();
            let new_top = self.new_stack.pop();
            proof {
                if olds.len() > 0 {
                    assert(self.old_stack@ =~= olds.drop_last());
                }
                if news.len() > 0 {
                    assert(self.new_stack@ =~= news.drop_last());
                }
            }
            match (old_top, new_top) {
                (None, None) => {
                    return None;
                },
                (None, Some(new_item)) => match new_item {
                    IterItem::Consider(node) => {
                        Iter::push(&mut self.new_stack, node);
                    },
                    IterItem::Yield(value) => {
                        proof {
                            assert(n.skip(1) =~= self.new_ahead());
                            assert(diff(o, n) =~= seq![Change::Add(n[0])] + diff(o, n.skip(1)));
                            assert((seq![Change::Add(n[0])] + diff(o, n.skip(1))).skip(1) =~= diff(
                                o,
                                n.skip(1),
                            ));
                        }
                        return Some(DiffItem::Add(value));
                    },
                },
                (Some(old_item), None) => match old_item {
                    IterItem::Consider(node) => {
                        Iter::push(&mut self.old_stack, node);
                    },
                    IterItem::Yield(value) => {
                        proof {
                            assert(o.skip(1) =~= self.old_ahead());
                            assert((seq![Change::Remove(o[0])] + diff(o.skip(1), n)).skip(1)
                                =~= diff(o.skip(1), n));
                        }
                        return Some(DiffItem::Remove(value));
                    },
                },
                (Some(old_item), Some(new_item)) => match (old_item, new_item) {
                    (IterItem::Consider(old_node), IterItem::Consider(new_node)) => {
                        let ghost rest_old = self.old_stack@;
                        let ghost rest_new = self.new_stack@;
                        proof {
                            lemma_stack_pushed(rest_old, IterItem::Consider(old_node));
                            lemma_stack_pushed(rest_new, IterItem::Consider(new_node));
                        }
                        if value_lt(&old_node.keys[0], &new_node.keys[0]) {
                            Iter::push(&mut self.old_stack, old_node);
                            self.new_stack.push(IterItem::Consider(new_node));
                        } else if value_lt(&new_node.keys[0], &old_node.keys[0]) {
                            self.old_stack.push(IterItem::Consider(old_node));
                            Iter::push(&mut self.new_stack, new_node);
                        } else {
                            Iter::push(&mut self.old_stack, old_node);
                            Iter::push(&mut self.new_stack, new_node);
                        }
                    },
                    (IterItem::Consider(old_node), IterItem::Yield(new_value)) => {
                        proof {
                            lemma_stack_pushed(self.new_stack@, IterItem::Yield(new_value));
                        }
                        Iter::push(&mut self.old_stack, old_node);
                        self.new_stack.push(IterItem::Yield(new_value));
                    },
                    (IterItem::Yield(old_value), IterItem::Consider(new_node)) => {
                        proof {
                            lemma_stack_pushed(self.old_stack@, IterItem::Yield(old_value));
                        }
                        self.old_stack.push(IterItem::Yield(old_value));
                        Iter::push(&mut self.new_stack, new_node);
                    },
                    (IterItem::Yield(old_value), IterItem::Yield(new_value)) => {
                        proof {
                            assert(o.skip(1) =~= self.old_ahead());
                            assert(n.skip(1) =~= self.new_ahead());
                            assert(o[0] == *old_value && n[0] == *new_value);
                        }
                        if value_lt(old_value, new_value) {
                            proof {
                                lemma_stack_pushed(self.new_stack@, IterItem::Yield(new_value));
                                assert(seq![*new_value] + n.skip(1) =~= n);
                                assert((seq![Change::Remove(o[0])] + diff(o.skip(1), n)).skip(1)
                                    =~= diff(o.skip(1), n));
                            }
                            self.new_stack.push(IterItem::Yield(new_value));
                            return Some(DiffItem::Remove(old_value));
                        } else if value_lt(new_value, old_value) {
                            proof {
                                lemma_stack_pushed(self.old_stack@, IterItem::Yield(old_value));
                                assert(seq![*old_value] + o.skip(1) =~= o);
                                assert((seq![Change::Add(n[0])] + diff(o, n.skip(1))).skip(1)
                                    =~= diff(o, n.skip(1)));
                            }
                            self.old_stack.push(IterItem::Yield(old_value));
                            return Some(DiffItem::Add(new_value));
                        } else if !(*old_value == *new_value) {
                            proof {
                                assert((seq![Change::Update(o[0], n[0])] + diff(
                                    o.skip(1),
                                    n.skip(1),
                                )).skip(1) =~= diff(o.skip(1), n.skip(1)));
                            }
                            return Some(DiffItem::Update { old: old_value, new: new_value });
                        }
                    },
                },
            }
        }
    }
}

} // verus!
