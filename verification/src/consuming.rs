//! In-order traversal, from both ends, of a tree that the traversal owns.

use crate::layout::{
    after, before, join_down, join_up, lemma_after_step, lemma_before_step, lemma_interleave_len,
    lemma_interleave_window, lemma_popped, lemma_pushed, sum,
};
use crate::node::{Node, unshare};
use crate::order::{lemma_sorted_pair, lemma_sorted_small, lemma_sorted_subrange, sorted};
use crate::value::{BTreeValue, value_lt};
use std::rc::Rc;
use vstd::prelude::*;

verus! {

/// An entry of an owning traversal's work stack: a subtree that is still to
/// be taken apart, or an element that is ready to be handed out.
pub(crate) enum ConsumingIterItem<A, const B: usize> {
    Consider(Node<A, B>),
    Yield(A),
}

impl<A: BTreeValue, const B: usize> ConsumingIterItem<A, B> {
    /// The elements that the entry stands for, in order.
    pub(crate) open spec fn piece(self) -> Seq<A> {
        match self {
            ConsumingIterItem::Consider(node) => node@,
            ConsumingIterItem::Yield(value) => seq![value],
        }
    }

    /// A bound on the work that the entry still asks for.
    pub(crate) open spec fn weight(self) -> nat {
        match self {
            ConsumingIterItem::Consider(node) => 3 * node@.len() + 1,
            ConsumingIterItem::Yield(_) => 1,
        }
    }

    /// The subtree of the entry, if it is one, is a valid tree.
    pub(crate) open spec fn ok(self) -> bool {
        match self {
            ConsumingIterItem::Consider(node) => node.wf(),
            ConsumingIterItem::Yield(_) => true,
        }
    }
}

/// The pieces of the entries of a stack, from the bottom up.
pub(crate) open spec fn owned_pieces<A: BTreeValue, const B: usize>(
    stack: Seq<ConsumingIterItem<A, B>>,
) -> Seq<Seq<A>> {
    Seq::new(stack.len(), |i: int| stack[i].piece())
}

/// The weights of the entries of a stack, from the bottom up.
pub(crate) open spec fn owned_weights<A: BTreeValue, const B: usize>(
    stack: Seq<ConsumingIterItem<A, B>>,
) -> Seq<nat> {
    Seq::new(stack.len(), |i: int| stack[i].weight())
}

/// Every subtree on the stack is a valid tree.
pub(crate) open spec fn owned_ok<A: BTreeValue, const B: usize>(
    stack: Seq<ConsumingIterItem<A, B>>,
) -> bool {
    forall|i: int| 0 <= i < stack.len() ==> (#[trigger] stack[i]).ok()
}

/// What pushing an entry does to the pieces and weights of a stack.
pub(crate) proof fn lemma_owned_pushed<A: BTreeValue, const B: usize>(
    stack: Seq<ConsumingIterItem<A, B>>,
    item: ConsumingIterItem<A, B>,
)
    ensures
        join_down(owned_pieces(stack.push(item))) == item.piece() + join_down(owned_pieces(stack)),
        join_up(owned_pieces(stack.push(item))) == join_up(owned_pieces(stack)) + item.piece(),
        sum(owned_weights(stack.push(item))) == sum(owned_weights(stack)) + item.weight(),
        owned_ok(stack) && item.ok() ==> owned_ok(stack.push(item)),
{
    assert(owned_pieces(stack.push(item)) =~= owned_pieces(stack).push(item.piece()));
    assert(owned_weights(stack.push(item)) =~= owned_weights(stack).push(item.weight()));
    lemma_pushed(owned_pieces(stack), owned_weights(stack), item.piece(), item.weight());
}

/// What popping an entry does to the pieces and weights of a stack.
pub(crate) proof fn lemma_owned_popped<A: BTreeValue, const B: usize>(
    stack: Seq<ConsumingIterItem<A, B>>,
)
    ensures
        stack.len() > 0 ==> {
            &&& join_down(owned_pieces(stack)) == stack.last().piece() + join_down(
                owned_pieces(stack.drop_last()),
            )
            &&& join_up(owned_pieces(stack)) == join_up(owned_pieces(stack.drop_last()))
                + stack.last().piece()
            &&& sum(owned_weights(stack)) == sum(owned_weights(stack.drop_last()))
                + stack.last().weight()
            &&& (owned_ok(stack) ==> owned_ok(stack.drop_last()) && stack.last().ok())
        },
        stack.len() == 0 ==> {
            &&& join_down(owned_pieces(stack)) == Seq::<A>::empty()
            &&& join_up(owned_pieces(stack)) == Seq::<A>::empty()
            &&& sum(owned_weights(stack)) == 0
        },
{
    if stack.len() > 0 {
        assert(owned_pieces(stack).drop_last() =~= owned_pieces(stack.drop_last()));
        assert(owned_weights(stack).drop_last() =~= owned_weights(stack.drop_last()));
    }
    lemma_popped(owned_pieces(stack), owned_weights(stack));
}

/// A traversal in order of a tree of its own, from the front, from the back,
/// or from both until the two meet.
pub struct ConsumingIter<A, const B: usize> {
    fwd_last: Option<A>,
    fwd_stack: Vec<ConsumingIterItem<A, B>>,
    back_last: Option<A>,
    back_stack: Vec<ConsumingIterItem<A, B>>,
    remaining: usize,
}

impl<A: BTreeValue, const B: usize> ConsumingIter<A, B> {
    /// The elements that the front stack still holds, in order.
    pub closed spec fn ahead(self) -> Seq<A> {
        join_down(owned_pieces(self.fwd_stack@))
    }

    /// The elements that the back stack still holds, in order.
    pub closed spec fn behind(self) -> Seq<A> {
        join_up(owned_pieces(self.back_stack@))
    }

    /// The elements that the traversal has not handed out, in order.
    pub closed spec fn view(self) -> Seq<A> {
        self.ahead().take(self.remaining as int)
    }

    /// The invariant of a traversal: both stacks hold valid subtrees and are
    /// sorted; the elements not handed out are the first of the front stack
    /// and the last of the back stack; and each end remembers the element
    /// that it handed out last, which is where the other end stops.
    pub closed spec fn wf(self) -> bool {
        &&& owned_ok(self.fwd_stack@)
        &&& owned_ok(self.back_stack@)
        &&& sorted(self.ahead())
        &&& sorted(self.behind())
        &&& self.remaining <= self.ahead().len()
        &&& self.remaining <= self.behind().len()
        &&& self.ahead().take(self.remaining as int) == self.behind().skip(
            self.behind().len() - self.remaining,
        )
        &&& (self.ahead().len() == 0 && self.behind().len() == 0 && self.remaining == 0) || {
            &&& match self.back_last {
                Some(x) => self.remaining < self.ahead().len() && self.ahead()[self.remaining as int]
                    == x,
                None => self.remaining == self.ahead().len(),
            }
            &&& match self.fwd_last {
                Some(y) => self.remaining < self.behind().len() && self.behind()[self.behind().len()
                    - self.remaining - 1] == y,
                None => self.remaining == self.behind().len(),
            }
        }
    }

    /// A traversal of all of `root`, which shares the nodes of `root` until
    /// it takes them apart.
    pub fn new(root: &Node<A, B>) -> (iter: Self)
        requires
            root.wf(),
        ensures
            iter.wf(),
            iter@ == root@,
    {
        let front = root.clone();
        let back = root.clone();
        proof {
            front.lemma_same(root);
            back.lemma_same(root);
        }
        let ghost front_item = ConsumingIterItem::Consider(front);
        let ghost back_item = ConsumingIterItem::Consider(back);
        let mut fwd_stack: Vec<ConsumingIterItem<A, B>> = Vec::new();
        fwd_stack.push(ConsumingIterItem::Consider(front));
        let mut back_stack: Vec<ConsumingIterItem<A, B>> = Vec::new();
        back_stack.push(ConsumingIterItem::Consider(back));
        let iter = ConsumingIter {
            fwd_last: None,
            fwd_stack,
            back_last: None,
            back_stack,
            remaining: root.len(),
        };
        proof {
            let e = Seq::<ConsumingIterItem<A, B>>::empty();
            lemma_owned_pushed(e, front_item);
            lemma_owned_pushed(e, back_item);
            lemma_owned_popped(e);
            assert(iter.fwd_stack@ =~= e.push(front_item));
            assert(iter.back_stack@ =~= e.push(back_item));
            assert(iter.ahead() =~= root@);
            assert(iter.behind() =~= root@);
            assert(iter.ahead().take(iter.remaining as int) =~= root@);
            assert(iter.behind().skip(0) =~= root@);
        }
        iter
    }

    /// The subtree behind a child handle, if there is one, goes onto the
    /// stack.
    pub(crate) fn push_node(
        stack: &mut Vec<ConsumingIterItem<A, B>>,
        maybe_node: Option<Rc<Node<A, B>>>,
    )
        requires
            match maybe_node {
                Some(node) => node.wf(),
                None => true,
            },
            owned_ok(old(stack)@),
        ensures
            owned_ok(final(stack)@),
            join_down(owned_pieces(final(stack)@)) == Node::<A, B>::below(maybe_node) + join_down(
                owned_pieces(old(stack)@),
            ),
            join_up(owned_pieces(final(stack)@)) == join_up(owned_pieces(old(stack)@))
                + Node::<A, B>::below(maybe_node),
            sum(owned_weights(final(stack)@)) == sum(owned_weights(old(stack)@)) + match maybe_node {
                Some(node) => 3 * node@.len() + 1,
                None => 0,
            },
    {
        match maybe_node {
            Some(handle) => {
                let node = unshare(handle);
                proof {
                    node.lemma_same(&*handle);
                    lemma_owned_pushed(stack@, ConsumingIterItem::Consider(node));
                }
                stack.push(ConsumingIterItem::Consider(node));
            },
            None => {
                proof {
                    assert(Seq::<A>::empty() + join_down(owned_pieces(stack@)) =~= join_down(
                        owned_pieces(stack@),
                    ));
                    assert(join_up(owned_pieces(stack@)) + Seq::<A>::empty() =~= join_up(
                        owned_pieces(stack@),
                    ));
                }
            },
        }
    }

    /// Takes `node` apart onto a stack that is popped from the front of the
    /// order: its last child goes on first and its first child last, with the
    /// keys between them.
    pub(crate) fn push(stack: &mut Vec<ConsumingIterItem<A, B>>, node: Node<A, B>)
        requires
            node.wf(),
            owned_ok(old(stack)@),
        ensures
            owned_ok(final(stack)@),
            join_down(owned_pieces(final(stack)@)) == node@ + join_down(owned_pieces(old(stack)@)),
            sum(owned_weights(final(stack)@)) < sum(owned_weights(old(stack)@)) + 3 * node@.len()
                + 1,
    {
        let ghost orig = node;
        let ghost h = node.height();
        let ghost ks = node.keys@;
        let ghost cs = node.kids();
        let ghost base = stack@;
        let mut node = node;
        let len = node.keys.len();
        let mut n: usize = 0;
        let ghost mut kids_pushed: nat = 0;
        proof {
            orig.lemma_view();
            orig.lemma_child_valid(h, 0, B as nat, 0);
            lemma_interleave_window(ks, cs, len as int);
            lemma_interleave_len(ks, cs);
        }
        while n < len
            invariant
                n <= len,
                len == orig.keys.len(),
                orig.wf(),
                h == orig.height(),
                ks == orig.keys@,
                cs == orig.kids(),
                cs.len() == ks.len() + 1,
                node.keys@ == ks.take(len - n),
                node.children@ == orig.children@.take(len - n + 1),
                owned_ok(stack@),
                join_down(owned_pieces(stack@)) == after(ks, cs, len - n) + join_down(
                    owned_pieces(base),
                ),
                sum(owned_weights(stack@)) + 2 * n == sum(owned_weights(base)) + 3 * after(
                    ks,
                    cs,
                    len - n,
                ).len() + kids_pushed,
                kids_pushed <= n,
                h == 1 ==> kids_pushed == 0,
            decreases len - n,
        {
            let ghost i = len - n;
            proof {
                orig.lemma_child_valid(h, 0, B as nat, i);
                orig.lemma_view();
                lemma_after_step(ks, cs, i);
            }
            let child = node.children.pop().unwrap();
            assert(child == orig.children[i]);
            Self::push_node(stack, child);
            let key = node.keys.pop().unwrap();
            proof {
                lemma_owned_pushed(stack@, ConsumingIterItem::Yield(key));
                if orig.children[i] is Some {
                    kids_pushed = kids_pushed + 1;
                }
                assert(seq![ks[i - 1]] + (cs[i] + (after(ks, cs, i) + join_down(
                    owned_pieces(base),
                ))) =~= seq![ks[i - 1]] + cs[i] + after(ks, cs, i) + join_down(owned_pieces(base)));
                assert(node.keys@ =~= ks.take(i - 1));
                assert(node.children@ =~= orig.children@.take(i));
            }
            stack.push(ConsumingIterItem::Yield(key));
            n = n + 1;
        }
        proof {
            orig.lemma_child_valid(h, 0, B as nat, 0);
            orig.lemma_view();
            lemma_interleave_window(ks, cs, 0);
            assert(cs[0] + (after(ks, cs, 0) + join_down(owned_pieces(base))) =~= cs[0] + after(
                ks,
                cs,
                0,
            ) + join_down(owned_pieces(base)));
            assert(Seq::<A>::empty() + cs[0] + after(ks, cs, 0) =~= cs[0] + after(ks, cs, 0));
        }
        let child = node.children.pop().unwrap();
        assert(child == orig.children[0]);
        Self::push_node(stack, child);
    }

    /// Takes `node` apart onto a stack that is popped from the back of the
    /// order: its first child goes on first and its last child last, with the
    /// keys between them.
    pub(crate) fn push_back(stack: &mut Vec<ConsumingIterItem<A, B>>, node: Node<A, B>)
        requires
            node.wf(),
            owned_ok(old(stack)@),
        ensures
            owned_ok(final(stack)@),
            join_up(owned_pieces(final(stack)@)) == join_up(owned_pieces(old(stack)@)) + node@,
            sum(owned_weights(final(stack)@)) < sum(owned_weights(old(stack)@)) + 3 * node@.len()
                + 1,
    {
        let ghost orig = node;
        let ghost h = node.height();
        let ghost ks = node.keys@;
        let ghost cs = node.kids();
        let ghost base = stack@;
        let mut node = node;
        let len = node.keys.len();
        let mut i: usize = 0;
        let ghost mut kids_pushed: nat = 0;
        proof {
            orig.lemma_view();
            orig.lemma_child_valid(h, 0, B as nat, 0);
            lemma_interleave_window(ks, cs, 0);
            lemma_interleave_len(ks, cs);
        }
        while i < len
            invariant
                i <= len,
                len == orig.keys.len(),
                orig.wf(),
                h == orig.height(),
                ks == orig.keys@,
                cs == orig.kids(),
                cs.len() == ks.len() + 1,
                node.keys@ == ks.skip(i as int),
                node.children@ == orig.children@.skip(i as int),
                owned_ok(stack@),
                join_up(owned_pieces(stack@)) == join_up(owned_pieces(base)) + before(
                    ks,
                    cs,
                    i as int,
                ),
                sum(owned_weights(stack@)) + 2 * i == sum(owned_weights(base)) + 3 * before(
                    ks,
                    cs,
                    i as int,
                ).len() + kids_pushed,
                kids_pushed <= i,
                h == 1 ==> kids_pushed == 0,
            decreases len - i,
        {
            proof {
                orig.lemma_child_valid(h, 0, B as nat, i as int);
                orig.lemma_view();
                lemma_before_step(ks, cs, i as int);
            }
            let child = node.children.remove(0);
            assert(child == orig.children[i as int]);
            Self::push_node(stack, child);
            let key = node.keys.remove(0);
            proof {
                lemma_owned_pushed(stack@, ConsumingIterItem::Yield(key));
                if orig.children[i as int] is Some {
                    kids_pushed = kids_pushed + 1;
                }
                assert(join_up(owned_pieces(base)) + before(ks, cs, i as int) + cs[i as int] + seq![
                    ks[i as int],
                ] =~= join_up(owned_pieces(base)) + (before(ks, cs, i as int) + cs[i as int]).push(
                    ks[i as int],
                ));
                assert(node.keys@ =~= ks.skip(i + 1));
                assert(node.children@ =~= orig.children@.skip(i + 1));
            }
            stack.push(ConsumingIterItem::Yield(key));
            i = i + 1;
        }
        proof {
            orig.lemma_child_valid(h, 0, B as nat, len as int);
            orig.lemma_view();
            lemma_interleave_window(ks, cs, len as int);
            assert(join_up(owned_pieces(base)) + before(ks, cs, len as int) + cs[len as int]
                =~= join_up(owned_pieces(base)) + (before(ks, cs, len as int) + cs[len as int]
                + Seq::<A>::empty()));
        }
        let child = node.children.pop().unwrap();
        assert(child == orig.children[len as int]);
        Self::push_node(stack, child);
    }

    /// The next element from the front, or nothing once the two ends have
    /// met.
    pub fn next(&mut self) -> (item: Option<A>)
        requires
            old(self).wf(),
        ensures
            final(self).wf(),
            match item {
                Some(v) => old(self)@.len() > 0 && v == old(self)@[0] && final(self)@ == old(
                    self,
                )@.skip(1),
                None => old(self)@.len() == 0 && final(self)@.len() == 0,
            },
    {
        loop
            invariant
                self.wf(),
                self@ == old(self)@,
            decreases sum(owned_weights(self.fwd_stack@)),
        {
            let ghost stack0 = self.fwd_stack@;
            let ghost f = self.ahead();
            let ghost k = self.behind();
            let ghost r = self.remaining as int;
            proof {
                lemma_owned_popped(stack0);
            }
            match self.fwd_stack.pop() {
                None => {
                    self.remaining = 0;
                    return None;
                },
                Some(ConsumingIterItem::Consider(node)) => {
                    proof {
                        assert(self.fwd_stack@ =~= stack0.drop_last());
                    }
                    Self::push(&mut self.fwd_stack, node);
                },
                Some(ConsumingIterItem::Yield(value)) => {
                    proof {
                        assert(self.fwd_stack@ =~= stack0.drop_last());
                        assert(f[0] == value);
                        assert(self.ahead() =~= f.skip(1));
                        lemma_sorted_subrange(f, 1, f.len() as int);
                        assert(f.subrange(1, f.len() as int) =~= f.skip(1));
                    }
                    let stop = match &self.back_last {
                        Some(last) => !value_lt(&value, last),
                        None => false,
                    };
                    if stop {
                        proof {
                            if r > 0 {
                                lemma_sorted_pair(f, 0, r);
                            }
                        }
                        self.fwd_stack.clear();
                        self.back_stack.clear();
                        self.remaining = 0;
                        proof {
                            lemma_owned_popped(self.fwd_stack@);
                            lemma_owned_popped(self.back_stack@);
                            lemma_sorted_small(self.ahead());
                            lemma_sorted_small(self.behind());
                            assert(self.ahead().take(0) =~= self.behind().skip(0));
                        }
                        return None;
                    }
                    proof {
                        if self.back_last is Some {
                            A::key_lt_is_strict_total_order();
                        }
                        assert(r >= 1);
                        assert(f.take(r)[0] == k.skip(k.len() - r)[0]);
                        let a = f.skip(1).take(r - 1);
                        let b = k.skip(k.len() - (r - 1));
                        assert forall|i: int| 0 <= i < r - 1 implies #[trigger] a[i] == b[i] by {
                            assert(f.take(r)[i + 1] == k.skip(k.len() - r)[i + 1]);
                        }
                        assert(f.skip(1).take(r - 1) =~= k.skip(k.len() - (r - 1)));
                        assert(f.skip(1).take(r - 1) =~= f.take(r).skip(1));
                    }
                    self.remaining = self.remaining - 1;
                    let last = value.clone();
                    proof {
                        A::clone_is_exact(value, last);
                    }
                    self.fwd_last = Some(last);
                    return Some(value);
                },
            }
        }
    }

    /// The next element from the back, or nothing once the two ends have
    /// met.
    pub fn next_back(&mut self) -> (item: Option<A>)
        requires
            old(self).wf(),
        ensures
            final(self).wf(),
            match item {
                Some(v) => old(self)@.len() > 0 && v == old(self)@.last() && final(self)@ == old(
                    self,
                )@.drop_last(),
                None => old(self)@.len() == 0 && final(self)@.len() == 0,
            },
    {
        loop
            invariant
                self.wf(),
                self@ == old(self)@,
            decreases sum(owned_weights(self.back_stack@)),
        {
            let ghost stack0 = self.back_stack@;
            let ghost f = self.ahead();
            let ghost k = self.behind();
            let ghost r = self.remaining as int;
            proof {
                lemma_owned_popped(stack0);
            }
            match self.back_stack.pop() {
                None => {
                    self.remaining = 0;
                    proof {
                        assert(f.take(0) =~= Seq::<A>::empty());
                    }
                    return None;
                },
                Some(ConsumingIterItem::Consider(node)) => {
                    proof {
                        assert(self.back_stack@ =~= stack0.drop_last());
                    }
                    Self::push_back(&mut self.back_stack, node);
                },
                Some(ConsumingIterItem::Yield(value)) => {
                    proof {
                        assert(self.back_stack@ =~= stack0.drop_last());
                        assert(k.last() == value);
                        assert(self.behind() =~= k.drop_last());
                        lemma_sorted_subrange(k, 0, k.len() - 1);
                        assert(k.subrange(0, k.len() - 1) =~= k.drop_last());
                    }
                    let stop = match &self.fwd_last {
                        Some(last) => !value_lt(last, &value),
                        None => false,
                    };
                    if stop {
                        proof {
                            if r > 0 {
                                lemma_sorted_pair(k, k.len() - r - 1, k.len() - 1);
                            }
                        }
                        self.fwd_stack.clear();
                        self.back_stack.clear();
                        self.remaining = 0;
                        proof {
                            lemma_owned_popped(self.fwd_stack@);
                            lemma_owned_popped(self.back_stack@);
                            lemma_sorted_small(self.ahead());
                            lemma_sorted_small(self.behind());
                            assert(self.ahead().take(0) =~= self.behind().skip(0));
                            assert(f.take(0) =~= Seq::<A>::empty());
                        }
                        return None;
                    }
                    proof {
                        if self.fwd_last is Some {
                            A::key_lt_is_strict_total_order();
                        }
                        assert(r >= 1);
                        assert(f.take(r)[r - 1] == k.skip(k.len() - r)[r - 1]);
                        let a = f.take(r - 1);
                        let b = k.drop_last().skip(k.len() - 1 - (r - 1));
                        assert forall|i: int| 0 <= i < r - 1 implies #[trigger] a[i] == b[i] by {
                            assert(f.take(r)[i] == k.skip(k.len() - r)[i]);
                        }
                        assert(f.take(r - 1) =~= k.drop_last().skip(k.len() - 1 - (r - 1)));
                        assert(f.take(r - 1) =~= f.take(r).drop_last());
                    }
                    self.remaining = self.remaining - 1;
                    let last = value.clone();
                    proof {
                        A::clone_is_exact(value, last);
                    }
                    self.back_last = Some(last);
                    return Some(value);
                },
            }
        }
    }

    /// What a traversal still holds ascends strictly, so that it hands its
    /// elements out in ascending order from the front and in descending order
    /// from the back.
    pub proof fn law_ascending(self)
        requires
            self.wf(),
        ensures
            sorted(self@),
    {
        lemma_sorted_subrange(self.ahead(), 0, self.remaining as int);
        assert(self.ahead().subrange(0, self.remaining as int) =~= self.ahead().take(
            self.remaining as int,
        ));
    }

    /// The number of elements still to come, as a lower and an upper bound.
    pub fn size_hint(&self) -> (hint: (usize, Option<usize>))
        requires
            self.wf(),
        ensures
            hint.0 == self@.len(),
            hint.1 == Some(hint.0),
    {
        (self.remaining, Some(self.remaining))
    }
}

} // verus!
