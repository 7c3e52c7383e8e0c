//! In-order traversal of a tree from both ends.

use crate::layout::{
    after, before, join_down, join_up, lemma_after_step, lemma_before_step, lemma_interleave_len,
    lemma_interleave_window, lemma_popped, lemma_pushed, sum,
};
use crate::node::Node;
use crate::order::{lemma_sorted_pair, lemma_sorted_small, lemma_sorted_subrange, sorted};
use crate::value::{BTreeValue, value_lt};
use std::rc::Rc;
use vstd::prelude::*;

verus! {

/// An entry of a traversal's work stack: a subtree that is still to be
/// taken apart, or an element that is ready to be handed out.
pub(crate) enum IterItem<'a, A, const B: usize> {
    Consider(&'a Node<A, B>),
    Yield(&'a A),
}

impl<'a, A: BTreeValue, const B: usize> IterItem<'a, A, B> {
    /// The elements that the entry stands for, in order.
    pub(crate) open spec fn piece(self) -> Seq<A> {
        match self {
            IterItem::Consider(node) => node@,
            IterItem::Yield(value) => seq![*value],
        }
    }

    /// A bound on the work that the entry still asks for.
    pub(crate) open spec fn weight(self) -> nat {
        match self {
            IterItem::Consider(node) => 3 * node@.len() + 1,
            IterItem::Yield(_) => 1,
        }
    }

    /// The subtree of the entry, if it is one, is a valid tree.
    pub(crate) open spec fn ok(self) -> bool {
        match self {
            IterItem::Consider(node) => node.wf(),
            IterItem::Yield(_) => true,
        }
    }
}

/// The pieces of the entries of a stack, from the bottom up.
pub(crate) open spec fn pieces<'a, A: BTreeValue, const B: usize>(
    stack: Seq<IterItem<'a, A, B>>,
) -> Seq<Seq<A>> {
    Seq::new(stack.len(), |i: int| stack[i].piece())
}

/// The weights of the entries of a stack, from the bottom up.
pub(crate) open spec fn weights<'a, A: BTreeValue, const B: usize>(
    stack: Seq<IterItem<'a, A, B>>,
) -> Seq<nat> {
    Seq::new(stack.len(), |i: int| stack[i].weight())
}

/// Every subtree on the stack is a valid tree.
pub(crate) open spec fn all_ok<'a, A: BTreeValue, const B: usize>(
    stack: Seq<IterItem<'a, A, B>>,
) -> bool {
    forall|i: int| 0 <= i < stack.len() ==> (#[trigger] stack[i]).ok()
}

/// Every subtree on the stack has a key of its own.
pub(crate) open spec fn solid<'a, A: BTreeValue, const B: usize>(
    stack: Seq<IterItem<'a, A, B>>,
) -> bool {
    forall|i: int|
        0 <= i < stack.len() ==> match #[trigger] stack[i] {
            IterItem::Consider(node) => node.own_keys().len() >= 1,
            IterItem::Yield(_) => true,
        }
}

/// What pushing an entry does to the pieces and weights of a stack.
pub(crate) proof fn lemma_stack_pushed<'a, A: BTreeValue, const B: usize>(
    stack: Seq<IterItem<'a, A, B>>,
    item: IterItem<'a, A, B>,
)
    ensures
        join_down(pieces(stack.push(item))) == item.piece() + join_down(pieces(stack)),
        join_up(pieces(stack.push(item))) == join_up(pieces(stack)) + item.piece(),
        sum(weights(stack.push(item))) == sum(weights(stack)) + item.weight(),
        all_ok(stack) && item.ok() ==> all_ok(stack.push(item)),
{
    assert(pieces(stack.push(item)) =~= pieces(stack).push(item.piece()));
    assert(weights(stack.push(item)) =~= weights(stack).push(item.weight()));
    lemma_pushed(pieces(stack), weights(stack), item.piece(), item.weight());
}

/// What popping an entry does to the pieces and weights of a stack.
pub(crate) proof fn lemma_stack_popped<'a, A: BTreeValue, const B: usize>(
    stack: Seq<IterItem<'a, A, B>>,
)
    ensures
        stack.len() > 0 ==> {
            &&& join_down(pieces(stack)) == stack.last().piece() + join_down(
                pieces(stack.drop_last()),
            )
            &&& join_up(pieces(stack)) == join_up(pieces(stack.drop_last()))
                + stack.last().piece()
            &&& sum(weights(stack)) == sum(weights(stack.drop_last())) + stack.last().weight()
            &&& (all_ok(stack) ==> all_ok(stack.drop_last()) && stack.last().ok())
        },
        stack.len() == 0 ==> {
            &&& join_down(pieces(stack)) == Seq::<A>::empty()
            &&& join_up(pieces(stack)) == Seq::<A>::empty()
            &&& sum(weights(stack)) == 0
        },
{
    if stack.len() > 0 {
        assert(pieces(stack).drop_last() =~= pieces(stack.drop_last()));
        assert(weights(stack).drop_last() =~= weights(stack.drop_last()));
    }
    lemma_popped(pieces(stack), weights(stack));
}

/// A traversal of a tree in order, from the front, from the back, or from
/// both until the two meet.
pub struct Iter<'a, A, const B: usize> {
    fwd_last: Option<&'a A>,
    fwd_stack: Vec<IterItem<'a, A, B>>,
    back_last: Option<&'a A>,
    back_stack: Vec<IterItem<'a, A, B>>,
    remaining: usize,
}

impl<'a, A: BTreeValue, const B: usize> Iter<'a, A, B> {
    /// The elements that the front stack still holds, in order.
    pub closed spec fn ahead(self) -> Seq<A> {
        join_down(pieces(self.fwd_stack@))
    }

    /// The elements that the back stack still holds, in order.
    pub closed spec fn behind(self) -> Seq<A> {
        join_up(pieces(self.back_stack@))
    }

    /// The elements that the traversal has not handed out, in order.
    pub closed spec fn view(self) -> Seq<A> {
        self.ahead().take(self.remaining as int)
    }

    /// The invariant of a traversal: both stacks hold valid subtrees and are
    /// sorted; the elements not handed out are the first of the front stack
    /// and the last of the back stack; and each end remembers the element
    /// that it handed out last, which is where the other end stops.
    pub closed spec fn wf(self) -> bool {
        &&& all_ok(self.fwd_stack@)
        &&& all_ok(self.back_stack@)
        &&& sorted(self.ahead())
        &&& sorted(self.behind())
        &&& self.remaining <= self.ahead().len()
        &&& self.remaining <= self.behind().len()
        &&& self.ahead().take(self.remaining as int) == self.behind().skip(
            self.behind().len() - self.remaining,
        )
        &&& (self.ahead().len() == 0 && self.behind().len() == 0 && self.remaining == 0) || {
            &&& match self.back_last {
                Some(x) => self.remaining < self.ahead().len() && self.ahead()[self.remaining as int]
                    == *x,
                None => self.remaining == self.ahead().len(),
            }
            &&& match self.fwd_last {
                Some(y) => self.remaining < self.behind().len() && self.behind()[self.behind().len()
                    - self.remaining - 1] == *y,
                None => self.remaining == self.behind().len(),
            }
        }
    }

    /// A traversal of all of `root`.
    pub fn new(root: &'a Node<A, B>) -> (iter: Self)
        requires
            root.wf(),
        ensures
            iter.wf(),
            iter@ == root@,
    {
        let mut fwd_stack: Vec<IterItem<'a, A, B>> = Vec::new();
        fwd_stack.push(IterItem::Consider(root));
        let mut back_stack: Vec<IterItem<'a, A, B>> = Vec::new();
        back_stack.push(IterItem::Consider(root));
        let iter = Iter {
            fwd_last: None,
            fwd_stack,
            back_last: None,
            back_stack,
            remaining: root.len(),
        };
        proof {
            let e = Seq::<IterItem<'a, A, B>>::empty();
            lemma_stack_pushed(e, IterItem::Consider(root));
            lemma_stack_popped(e);
            assert(iter.fwd_stack@ =~= e.push(IterItem::Consider(root)));
            assert(iter.back_stack@ =~= e.push(IterItem::Consider(root)));
            assert(iter.ahead() =~= root@);
            assert(iter.behind() =~= root@);
            assert(iter.ahead().take(iter.remaining as int) =~= root@);
            assert(iter.behind().skip(0) =~= root@);
        }
        iter
    }

    /// The subtree in a child slot, if there is one, goes onto the stack.
    pub(crate) fn push_node(
        stack: &mut Vec<IterItem<'a, A, B>>,
        maybe_node: &'a Option<Rc<Node<A, B>>>,
    )
        requires
            match *maybe_node {
                Some(node) => node.wf(),
                None => true,
            },
        ensures
            final(stack)@ == match *maybe_node {
                Some(node) => old(stack)@.push(IterItem::Consider(&*node)),
                None => old(stack)@,
            },
    {
        match maybe_node {
            Some(node) => {
                stack.push(IterItem::Consider(&**node));
            },
            None => {},
        }
    }

    /// Takes `node` apart onto a stack that is popped from the front of the
    /// order: its last child goes on first and its first child last, with the
    /// keys between them.
    pub(crate) fn push(stack: &mut Vec<IterItem<'a, A, B>>, node: &'a Node<A, B>)
        requires
            node.wf(),
            all_ok(old(stack)@),
        ensures
            all_ok(final(stack)@),
            join_down(pieces(final(stack)@)) == node@ + join_down(pieces(old(stack)@)),
            sum(weights(final(stack)@)) < sum(weights(old(stack)@)) + 3 * node@.len() + 1,
            solid(old(stack)@) ==> solid(final(stack)@),
    {
        let ghost h = node.height();
        let ghost ks = node.keys@;
        let ghost cs = node.kids();
        let ghost base = stack@;
        let len = node.keys.len();
        let mut n: usize = 0;
        let ghost mut kids_pushed: nat = 0;
        proof {
            node.lemma_view();
            node.lemma_child_valid(h, 0, B as nat, 0);
            lemma_interleave_window(ks, cs, len as int);
            lemma_interleave_len(ks, cs);
        }
        while n < len
            invariant
                n <= len,
                len == node.keys.len(),
                node.wf(),
                h == node.height(),
                ks == node.keys@,
                cs == node.kids(),
                cs.len() == ks.len() + 1,
                all_ok(stack@),
                join_down(pieces(stack@)) == after(ks, cs, len - n) + join_down(pieces(base)),
                solid(base) ==> solid(stack@),
                sum(weights(stack@)) + 2 * n == sum(weights(base)) + 3 * after(ks, cs, len - n).len()
                    + kids_pushed,
                kids_pushed <= n,
                h == 1 ==> kids_pushed == 0,
            decreases len - n,
        {
            let i = len - n;
            proof {
                node.lemma_child_valid(h, 0, B as nat, i as int);
                node.lemma_view();
                lemma_after_step(ks, cs, i as int);
                lemma_stack_pushed(stack@, IterItem::Consider(&*node.children[i as int].unwrap()));
            }
            let ghost mid = stack@;
            Self::push_node(stack, &node.children[i]);
            proof {
                lemma_stack_pushed(stack@, IterItem::Yield(&node.keys[i - 1]));
                if node.children[i as int] is Some {
                    kids_pushed = kids_pushed + 1;
                }
                assert(seq![ks[i - 1]] + (cs[i as int] + (after(ks, cs, i as int) + join_down(
                    pieces(base),
                ))) =~= seq![ks[i - 1]] + cs[i as int] + after(ks, cs, i as int) + join_down(
                    pieces(base),
                ));
                assert(seq![ks[i - 1]] + (after(ks, cs, i as int) + join_down(pieces(base)))
                    =~= seq![ks[i - 1]] + Seq::<A>::empty() + after(ks, cs, i as int) + join_down(
                    pieces(base),
                ));
            }
            stack.push(IterItem::Yield(&node.keys[i - 1]));
            n = n + 1;
        }
        proof {
            node.lemma_child_valid(h, 0, B as nat, 0);
            node.lemma_view();
            lemma_interleave_window(ks, cs, 0);
            lemma_stack_pushed(stack@, IterItem::Consider(&*node.children[0].unwrap()));
            assert(cs[0] + (after(ks, cs, 0) + join_down(pieces(base))) =~= cs[0] + after(ks, cs, 0)
                + join_down(pieces(base)));
            assert(Seq::<A>::empty() + cs[0] + after(ks, cs, 0) =~= cs[0] + after(ks, cs, 0));
        }
        Self::push_node(stack, &node.children[0]);
    }

    /// Takes `node` apart onto a stack that is popped from the back of the
    /// order: its first child goes on first and its last child last, with the
    /// keys between them.
    pub(crate) fn push_back(stack: &mut Vec<IterItem<'a, A, B>>, node: &'a Node<A, B>)
        requires
            node.wf(),
            all_ok(old(stack)@),
        ensures
            all_ok(final(stack)@),
            join_up(pieces(final(stack)@)) == join_up(pieces(old(stack)@)) + node@,
            sum(weights(final(stack)@)) < sum(weights(old(stack)@)) + 3 * node@.len() + 1,
    {
        let ghost h = node.height();
        let ghost ks = node.keys@;
        let ghost cs = node.kids();
        let ghost base = stack@;
        let len = node.keys.len();
        let mut i: usize = 0;
        let ghost mut kids_pushed: nat = 0;
        proof {
            node.lemma_view();
            node.lemma_child_valid(h, 0, B as nat, 0);
            lemma_interleave_window(ks, cs, 0);
            lemma_interleave_len(ks, cs);
        }
        while i < len
            invariant
                i <= len,
                len == node.keys.len(),
                node.wf(),
                h == node.height(),
                ks == node.keys@,
                cs == node.kids(),
                cs.len() == ks.len() + 1,
                all_ok(stack@),
                join_up(pieces(stack@)) == join_up(pieces(base)) + before(ks, cs, i as int),
                sum(weights(stack@)) + 2 * i == sum(weights(base)) + 3 * before(ks, cs, i as int).len()
                    + kids_pushed,
                kids_pushed <= i,
                h == 1 ==> kids_pushed == 0,
            decreases len - i,
        {
            proof {
                node.lemma_child_valid(h, 0, B as nat, i as int);
                node.lemma_view();
                lemma_before_step(ks, cs, i as int);
                lemma_stack_pushed(stack@, IterItem::Consider(&*node.children[i as int].unwrap()));
            }
            Self::push_node(stack, &node.children[i]);
            proof {
                lemma_stack_pushed(stack@, IterItem::Yield(&node.keys[i as int]));
                if node.children[i as int] is Some {
                    kids_pushed = kids_pushed + 1;
                }
                assert(join_up(pieces(base)) + before(ks, cs, i as int) + cs[i as int] + seq![
                    ks[i as int],
                ] =~= join_up(pieces(base)) + (before(ks, cs, i as int) + cs[i as int]).push(
                    ks[i as int],
                ));
                assert(join_up(pieces(base)) + before(ks, cs, i as int) + seq![ks[i as int]]
                    =~= join_up(pieces(base)) + (before(ks, cs, i as int) + Seq::<A>::empty()).push(
                    ks[i as int],
                ));
            }
            stack.push(IterItem::Yield(&node.keys[i]));
            i = i + 1;
        }
        proof {
            node.lemma_child_valid(h, 0, B as nat, len as int);
            node.lemma_view();
            lemma_interleave_window(ks, cs, len as int);
            lemma_stack_pushed(stack@, IterItem::Consider(&*node.children[len as int].unwrap()));
            assert(join_up(pieces(base)) + before(ks, cs, len as int) + cs[len as int]
                =~= join_up(pieces(base)) + (before(ks, cs, len as int) + cs[len as int]
                + Seq::<A>::empty()));
            assert(join_up(pieces(base)) + before(ks, cs, len as int) =~= join_up(pieces(base)) + (
            before(ks, cs, len as int) + Seq::<A>::empty() + Seq::<A>::empty()));
        }
        Self::push_node(stack, &node.children[len]);
    }

    /// The next element from the front, or nothing once the two ends have
    /// met.
    pub fn next(&mut self) -> (item: Option<&'a A>)
        requires
            old(self).wf(),
        ensures
            final(self).wf(),
            match item {
                Some(v) => old(self)@.len() > 0 && *v == old(self)@[0] && final(self)@ == old(
                    self,
                )@.skip(1),
                None => old(self)@.len() == 0 && final(self)@.len() == 0,
            },
    {
        loop
            invariant
                self.wf(),
                self@ == old(self)@,
            decreases sum(weights(self.fwd_stack@)),
        {
            let ghost stack0 = self.fwd_stack@;
            let ghost f = self.ahead();
            let ghost k = self.behind();
            let ghost r = self.remaining as int;
            proof {
                lemma_stack_popped(stack0);
            }
            match self.fwd_stack.pop() {
                None => {
                    self.remaining = 0;
                    return None;
                },
                Some(IterItem::Consider(node)) => {
                    proof {
                        assert(self.fwd_stack@ =~= stack0.drop_last());
                    }
                    Self::push(&mut self.fwd_stack, node);
                },
                Some(IterItem::Yield(value)) => {
                    proof {
                        assert(self.fwd_stack@ =~= stack0.drop_last());
                        assert(f[0] == *value);
                        assert(self.ahead() =~= f.skip(1));
                        lemma_sorted_subrange(f, 1, f.len() as int);
                        assert(f.subrange(1, f.len() as int) =~= f.skip(1));
                    }
                    let stop = match self.back_last {
                        Some(last) => !value_lt(value, last),
                        None => false,
                    };
                    if stop {
                        proof {
                            if r > 0 {
                                lemma_sorted_pair(f, 0, r);
                            }
                        }
                        self.fwd_stack.clear();
                        self.back_stack.clear();
                        self.remaining = 0;
                        proof {
                            lemma_stack_popped(self.fwd_stack@);
                            lemma_stack_popped(self.back_stack@);
                            lemma_sorted_small(self.ahead());
                            lemma_sorted_small(self.behind());
                            assert(self.ahead().take(0) =~= self.behind().skip(0));
                        }
                        return None;
                    }
                    proof {
                        if self.back_last is Some {
                            A::key_lt_is_strict_total_order();
                        }
                        assert(r >= 1);
                        assert(f.take(r)[0] == k.skip(k.len() - r)[0]);
                        let a = f.skip(1).take(r - 1);
                        let b = k.skip(k.len() - (r - 1));
                        assert forall|i: int| 0 <= i < r - 1 implies #[trigger] a[i] == b[i] by {
                            assert(f.take(r)[i + 1] == k.skip(k.len() - r)[i + 1]);
                        }
                        assert(f.skip(1).take(r - 1) =~= k.skip(k.len() - (r - 1)));
                        assert(f.skip(1).take(r - 1) =~= f.take(r).skip(1));
                    }
                    self.remaining = self.remaining - 1;
                    self.fwd_last = Some(value);
                    return Some(value);
                },
            }
        }
    }

    /// The next element from the back, or nothing once the two ends have
    /// met.
    pub fn next_back(&mut self) -> (item: Option<&'a A>)
        requires
            old(self).wf(),
        ensures
            final(self).wf(),
            match item {
                Some(v) => old(self)@.len() > 0 && *v == old(self)@.last() && final(self)@ == old(
                    self,
                )@.drop_last(),
                None => old(self)@.len() == 0 && final(self)@.len() == 0,
            },
    {
        loop
            invariant
                self.wf(),
                self@ == old(self)@,
            decreases sum(weights(self.back_stack@)),
        {
            let ghost stack0 = self.back_stack@;
            let ghost f = self.ahead();
            let ghost k = self.behind();
            let ghost r = self.remaining as int;
            proof {
                lemma_stack_popped(stack0);
            }
            match self.back_stack.pop() {
                None => {
                    self.remaining = 0;
                    proof {
                        assert(f.take(0) =~= Seq::<A>::empty());
                    }
                    return None;
                },
                Some(IterItem::Consider(node)) => {
                    proof {
                        assert(self.back_stack@ =~= stack0.drop_last());
                    }
                    Self::push_back(&mut self.back_stack, node);
                },
                Some(IterItem::Yield(value)) => {
                    proof {
                        assert(self.back_stack@ =~= stack0.drop_last());
                        assert(k.last() == *value);
                        assert(self.behind() =~= k.drop_last());
                        lemma_sorted_subrange(k, 0, k.len() - 1);
                        assert(k.subrange(0, k.len() - 1) =~= k.drop_last());
                    }
                    let stop = match self.fwd_last {
                        Some(last) => !value_lt(last, value),
                        None => false,
                    };
                    if stop {
                        proof {
                            if r > 0 {
                                lemma_sorted_pair(k, k.len() - r - 1, k.len() - 1);
                            }
                        }
                        self.fwd_stack.clear();
                        self.back_stack.clear();
                        self.remaining = 0;
                        proof {
                            lemma_stack_popped(self.fwd_stack@);
                            lemma_stack_popped(self.back_stack@);
                            lemma_sorted_small(self.ahead());
                            lemma_sorted_small(self.behind());
                            assert(self.ahead().take(0) =~= self.behind().skip(0));
                            assert(f.take(0) =~= Seq::<A>::empty());
                        }
                        return None;
                    }
                    proof {
                        if self.fwd_last is Some {
                            A::key_lt_is_strict_total_order();
                        }
                        assert(r >= 1);
                        assert(f.take(r)[r - 1] == k.skip(k.len() - r)[r - 1]);
                        let a = f.take(r - 1);
                        let b = k.drop_last().skip(k.len() - 1 - (r - 1));
                        assert forall|i: int| 0 <= i < r - 1 implies #[trigger] a[i] == b[i] by {
                            assert(f.take(r)[i] == k.skip(k.len() - r)[i]);
                        }
                        assert(f.take(r - 1) =~= k.drop_last().skip(k.len() - 1 - (r - 1)));
                        assert(f.take(r - 1) =~= f.take(r).drop_last());
                    }
                    self.remaining = self.remaining - 1;
                    self.back_last = Some(value);
                    return Some(value);
                },
            }
        }
    }

    /// What a traversal still holds ascends strictly, so that it hands its
    /// elements out in ascending order from the front and in descending order
    /// from the back.
    pub proof fn law_ascending(self)
        requires
            self.wf(),
        ensures
            sorted(self@),
    {
        lemma_sorted_subrange(self.ahead(), 0, self.remaining as int);
        assert(self.ahead().subrange(0, self.remaining as int) =~= self.ahead().take(
            self.remaining as int,
        ));
    }

    /// The number of elements still to come, as a lower and an upper bound.
    pub fn size_hint(&self) -> (hint: (usize, Option<usize>))
        requires
            self.wf(),
        ensures
            hint.0 == self@.len(),
            hint.1 == Some(hint.0),
    {
        (self.remaining, Some(self.remaining))
    }
}

} // verus!
