//! How the keys of a node and the elements below its children lie in order.

use vstd::prelude::*;

verus! {

/// The keys `ks` with the sequences `cs` between and around them:
/// `cs[0]`, `ks[0]`, `cs[1]`, `ks[1]`, and so on up to the last of `cs`.
#[verifier::opaque]
pub open spec fn interleave<A>(ks: Seq<A>, cs: Seq<Seq<A>>) -> Seq<A>
    decreases ks.len(),
{
    if cs.len() == 0 {
        Seq::empty()
    } else if ks.len() == 0 {
        cs[0]
    } else {
        interleave(ks.drop_last(), cs.drop_last()).push(ks.last()) + cs.last()
    }
}

/// Two layouts side by side, with a key between them, are one layout.
pub proof fn lemma_interleave_join<A>(
    ks1: Seq<A>,
    cs1: Seq<Seq<A>>,
    k: A,
    ks2: Seq<A>,
    cs2: Seq<Seq<A>>,
)
    requires
        cs1.len() == ks1.len() + 1,
        cs2.len() == ks2.len() + 1,
    ensures
        interleave(ks1.push(k) + ks2, cs1 + cs2) == interleave(ks1, cs1).push(k) + interleave(
            ks2,
            cs2,
        ),
    decreases ks2.len(),
{
    reveal(interleave);
    let ks = ks1.push(k) + ks2;
    let cs = cs1 + cs2;
    if ks2.len() == 0 {
        assert(ks.drop_last() =~= ks1);
        assert(cs.drop_last() =~= cs1);
        assert(cs.last() == cs2[0]);
    } else {
        let ks2p = ks2.drop_last();
        let cs2p = cs2.drop_last();
        lemma_interleave_join(ks1, cs1, k, ks2p, cs2p);
        assert(ks.drop_last() =~= ks1.push(k) + ks2p);
        assert(cs.drop_last() =~= cs1 + cs2p);
        assert(ks.last() == ks2.last());
        assert(cs.last() == cs2.last());
        assert(interleave(ks, cs) =~= interleave(ks1, cs1).push(k) + interleave(ks2, cs2));
    }
}

/// What lies before child `i`: the layout of the keys and children before
/// it, ending in the key to its left.
#[verifier::opaque]
pub open spec fn before<A>(ks: Seq<A>, cs: Seq<Seq<A>>, i: int) -> Seq<A> {
    if i <= 0 {
        Seq::empty()
    } else {
        interleave(ks.take(i - 1), cs.take(i)).push(ks[i - 1])
    }
}

/// What lies after child `i`: the key to its right, then the layout of the
/// keys and children after that.
#[verifier::opaque]
pub open spec fn after<A>(ks: Seq<A>, cs: Seq<Seq<A>>, i: int) -> Seq<A> {
    if i >= ks.len() {
        Seq::empty()
    } else {
        seq![ks[i]] + interleave(ks.skip(i + 1), cs.skip(i + 1))
    }
}

/// A layout is what lies before child `i`, then child `i`, then what lies
/// after it.
pub proof fn lemma_interleave_window<A>(ks: Seq<A>, cs: Seq<Seq<A>>, i: int)
    requires
        cs.len() == ks.len() + 1,
        0 <= i <= ks.len(),
    ensures
        interleave(ks, cs) == before(ks, cs, i) + cs[i] + after(ks, cs, i),
        interleave(ks.skip(i), cs.skip(i)) == cs[i] + after(ks, cs, i),
        i == 0 ==> before(ks, cs, i) == Seq::<A>::empty(),
        i > 0 ==> before(ks, cs, i).len() > 0 && before(ks, cs, i).last() == ks[i - 1],
        i == ks.len() ==> after(ks, cs, i) == Seq::<A>::empty(),
        i < ks.len() ==> after(ks, cs, i).len() > 0 && after(ks, cs, i)[0] == ks[i],
{
    reveal(before);
    reveal(after);
    reveal(interleave);
    // from child i on
    if i < ks.len() {
        lemma_interleave_join(Seq::empty(), seq![cs[i]], ks[i], ks.skip(i + 1), cs.skip(i + 1));
        assert(Seq::<A>::empty().push(ks[i]) + ks.skip(i + 1) =~= ks.skip(i));
        assert(seq![cs[i]] + cs.skip(i + 1) =~= cs.skip(i));
        assert(interleave(Seq::<A>::empty(), seq![cs[i]]) == cs[i]);
        assert(interleave(ks.skip(i), cs.skip(i)) =~= cs[i] + after(ks, cs, i));
    } else {
        assert(ks.skip(i).len() == 0);
        assert(cs.skip(i)[0] == cs[i]);
        assert(interleave(ks.skip(i), cs.skip(i)) =~= cs[i] + after(ks, cs, i));
    }
    // up to child i
    if i > 0 {
        lemma_interleave_join(ks.take(i - 1), cs.take(i), ks[i - 1], ks.skip(i), cs.skip(i));
        assert(ks.take(i - 1).push(ks[i - 1]) + ks.skip(i) =~= ks);
        assert(cs.take(i) + cs.skip(i) =~= cs);
        assert(interleave(ks, cs) =~= before(ks, cs, i) + cs[i] + after(ks, cs, i));
    } else {
        assert(ks.skip(0) =~= ks);
        assert(cs.skip(0) =~= cs);
        assert(interleave(ks, cs) =~= before(ks, cs, i) + cs[i] + after(ks, cs, i));
    }
}

/// What lies before child `i + 1` is what lies before child `i`, then child
/// `i`, then key `i`.
pub proof fn lemma_before_step<A>(ks: Seq<A>, cs: Seq<Seq<A>>, i: int)
    requires
        cs.len() == ks.len() + 1,
        0 <= i < ks.len(),
    ensures
        before(ks, cs, i + 1) == (before(ks, cs, i) + cs[i]).push(ks[i]),
{
    reveal(before);
    reveal(after);
    let kt = ks.take(i);
    let ct = cs.take(i + 1);
    lemma_interleave_window(kt, ct, i);
    assert(after(kt, ct, i) =~= Seq::<A>::empty());
    if i > 0 {
        assert(kt.take(i - 1) =~= ks.take(i - 1));
        assert(ct.take(i) =~= cs.take(i));
        assert(kt[i - 1] == ks[i - 1]);
    }
    assert(before(kt, ct, i) == before(ks, cs, i));
    assert(ct[i] == cs[i]);
    assert(interleave(kt, ct) =~= before(ks, cs, i) + cs[i]);
}

/// What lies before a child grows with the child's index.
pub proof fn lemma_before_grows<A>(ks: Seq<A>, cs: Seq<Seq<A>>, i: int, j: int)
    requires
        cs.len() == ks.len() + 1,
        0 <= i <= j <= ks.len(),
    ensures
        before(ks, cs, i).len() + (j - i) <= before(ks, cs, j).len(),
        before(ks, cs, i) == before(ks, cs, j).take(before(ks, cs, i).len() as int),
    decreases j - i,
{
    reveal(before);
    reveal(after);
    if i < j {
        lemma_before_grows(ks, cs, i, j - 1);
        lemma_before_step(ks, cs, j - 1);
        assert(before(ks, cs, i) =~= before(ks, cs, j).take(before(ks, cs, i).len() as int));
    } else {
        assert(before(ks, cs, i) =~= before(ks, cs, j).take(before(ks, cs, i).len() as int));
    }
}

/// The length of a layout: one for each key, and the lengths of the children.
#[verifier::opaque]
pub open spec fn total_len<A>(cs: Seq<Seq<A>>) -> nat
    decreases cs.len(),
{
    if cs.len() == 0 {
        0
    } else {
        total_len(cs.drop_last()) + cs.last().len()
    }
}

/// A layout is as long as its keys and its children together.
pub proof fn lemma_interleave_len<A>(ks: Seq<A>, cs: Seq<Seq<A>>)
    requires
        cs.len() == ks.len() + 1,
    ensures
        interleave(ks, cs).len() == ks.len() + total_len(cs),
    decreases ks.len(),
{
    reveal(interleave);
    reveal(total_len);
    if ks.len() == 0 {
        assert(cs.drop_last().len() == 0);
        assert(total_len(cs.drop_last()) == 0);
        assert(cs.last() == cs[0]);
    } else {
        lemma_interleave_len(ks.drop_last(), cs.drop_last());
    }
}

/// Replacing child `i` changes the layout between what lies before and
/// what lies after it, and nowhere else.
pub proof fn lemma_interleave_replaced<A>(ks: Seq<A>, cs: Seq<Seq<A>>, i: int, c: Seq<A>)
    requires
        cs.len() == ks.len() + 1,
        0 <= i <= ks.len(),
    ensures
        interleave(ks, cs.update(i, c)) == before(ks, cs, i) + c + after(ks, cs, i),
        before(ks, cs.update(i, c), i) == before(ks, cs, i),
        after(ks, cs.update(i, c), i) == after(ks, cs, i),
{
    reveal(before);
    reveal(after);
    let cs2 = cs.update(i, c);
    lemma_interleave_window(ks, cs2, i);
    assert(cs2.take(i) =~= cs.take(i));
    assert(cs2.skip(i + 1) =~= cs.skip(i + 1));
}

/// Putting a key at `i`, with `l` in child slot `i` and `r` in a new slot
/// after it, puts `l`, the key and `r` where child `i` lay.
pub proof fn lemma_interleave_spliced<A>(
    ks: Seq<A>,
    cs: Seq<Seq<A>>,
    i: int,
    l: Seq<A>,
    m: A,
    r: Seq<A>,
)
    requires
        cs.len() == ks.len() + 1,
        0 <= i <= ks.len(),
    ensures
        interleave(ks.insert(i, m), cs.update(i, l).insert(i + 1, r)) == before(ks, cs, i) + l
            + seq![m] + r + after(ks, cs, i),
{
    reveal(before);
    reveal(after);
    let ks2 = ks.insert(i, m);
    let cs2 = cs.update(i, l).insert(i + 1, r);
    lemma_interleave_window(ks2, cs2, i);
    if i > 0 {
        assert(ks2.take(i - 1) =~= ks.take(i - 1));
        assert(cs2.take(i) =~= cs.take(i));
    }
    assert(before(ks2, cs2, i) == before(ks, cs, i));
    let cs3 = cs.update(i, r);
    lemma_interleave_window(ks, cs3, i);
    lemma_interleave_replaced(ks, cs, i, r);
    assert(ks2.skip(i + 1) =~= ks.skip(i));
    assert(cs2.skip(i + 1) =~= cs3.skip(i));
    assert(after(ks2, cs2, i) =~= seq![m] + r + after(ks, cs, i));
    assert(interleave(ks2, cs2) =~= before(ks, cs, i) + l + seq![m] + r + after(ks, cs, i));
}

/// Taking key `i` away, with the two children around it giving way to `c`,
/// puts `c` where the two children and the key lay.
pub proof fn lemma_interleave_merged<A>(ks: Seq<A>, cs: Seq<Seq<A>>, i: int, c: Seq<A>)
    requires
        cs.len() == ks.len() + 1,
        0 <= i < ks.len(),
    ensures
        interleave(ks.remove(i), cs.remove(i).update(i, c)) == before(ks, cs, i) + c + after(
            ks,
            cs,
            i + 1,
        ),
        interleave(ks, cs) == before(ks, cs, i) + cs[i] + seq![ks[i]] + cs[i + 1] + after(
            ks,
            cs,
            i + 1,
        ),
{
    reveal(before);
    reveal(after);
    let ks2 = ks.remove(i);
    let cs2 = cs.remove(i).update(i, c);
    lemma_interleave_window(ks2, cs2, i);
    if i > 0 {
        assert(ks2.take(i - 1) =~= ks.take(i - 1));
        assert(cs2.take(i) =~= cs.take(i));
    }
    assert(before(ks2, cs2, i) == before(ks, cs, i));
    if i + 1 < ks.len() {
        assert(ks2.skip(i + 1) =~= ks.skip(i + 2));
        assert(cs2.skip(i + 1) =~= cs.skip(i + 2));
    }
    assert(after(ks2, cs2, i) =~= after(ks, cs, i + 1));
    lemma_interleave_window(ks, cs, i);
    lemma_interleave_window(ks, cs, i + 1);
    lemma_before_step(ks, cs, i);
    assert(interleave(ks, cs) =~= before(ks, cs, i) + cs[i] + seq![ks[i]] + cs[i + 1] + after(
        ks,
        cs,
        i + 1,
    ));
}

/// The place of key `i` in the layout.
pub open spec fn place<A>(ks: Seq<A>, cs: Seq<Seq<A>>, i: int) -> int {
    (before(ks, cs, i).len() + cs[i].len()) as int
}

/// Replacing key `i` changes the layout at the place of that key, and
/// nowhere else.
pub proof fn lemma_interleave_key_replaced<A>(ks: Seq<A>, cs: Seq<Seq<A>>, i: int, v: A)
    requires
        cs.len() == ks.len() + 1,
        0 <= i < ks.len(),
    ensures
        0 <= place(ks, cs, i) < interleave(ks, cs).len(),
        interleave(ks.update(i, v), cs) == interleave(ks, cs).update(place(ks, cs, i), v),
        interleave(ks, cs)[place(ks, cs, i)] == ks[i],
{
    reveal(before);
    reveal(after);
    let ks2 = ks.update(i, v);
    lemma_interleave_window(ks, cs, i);
    lemma_interleave_window(ks2, cs, i);
    if i > 0 {
        assert(ks2.take(i - 1) =~= ks.take(i - 1));
    }
    assert(before(ks2, cs, i) == before(ks, cs, i));
    assert(ks2.skip(i + 1) =~= ks.skip(i + 1));
    assert(interleave(ks2, cs) =~= interleave(ks, cs).update(place(ks, cs, i), v));
}

/// The layout of no keys around one child is that child.
pub proof fn lemma_interleave_single<A>(c: Seq<A>)
    ensures
        interleave(Seq::<A>::empty(), seq![c]) == c,
{
    reveal(interleave);
}

/// Replacing key `j` and the two children around it changes the layout
/// between what lies before child `j` and what lies after child `j + 1`, and
/// nowhere else.
pub proof fn lemma_interleave_pair<A>(ks: Seq<A>, cs: Seq<Seq<A>>, j: int, l: Seq<A>, k: A, r: Seq<A>)
    requires
        cs.len() == ks.len() + 1,
        0 <= j < ks.len(),
    ensures
        interleave(ks.update(j, k), cs.update(j, l).update(j + 1, r)) == before(ks, cs, j) + l
            + seq![k] + r + after(ks, cs, j + 1),
        interleave(ks, cs) == before(ks, cs, j) + cs[j] + seq![ks[j]] + cs[j + 1] + after(
            ks,
            cs,
            j + 1,
        ),
        j > 0 ==> before(ks, cs, j).len() > 0 && before(ks, cs, j).last() == ks[j - 1],
        j + 1 < ks.len() ==> after(ks, cs, j + 1).len() > 0 && after(ks, cs, j + 1)[0] == ks[j + 1],
        j == 0 ==> before(ks, cs, j).len() == 0,
        j + 1 == ks.len() ==> after(ks, cs, j + 1).len() == 0,
{
    let ks2 = ks.update(j, k);
    let cs2 = cs.update(j, l).update(j + 1, r);
    lemma_interleave_merged(ks, cs, j, l);
    lemma_interleave_window(ks, cs, j);
    lemma_interleave_window(ks, cs, j + 1);
    lemma_interleave_window(ks2, cs2, j);
    lemma_interleave_window(ks2, cs2, j + 1);
    assert(before(ks2, cs2, j) == before(ks, cs, j)) by {
        reveal(before);
        if j > 0 {
            assert(ks2.take(j - 1) =~= ks.take(j - 1));
            assert(cs2.take(j) =~= cs.take(j));
        }
    }
    assert(after(ks2, cs2, j + 1) == after(ks, cs, j + 1)) by {
        reveal(after);
        if j + 1 < ks.len() {
            assert(ks2.skip(j + 2) =~= ks.skip(j + 2));
            assert(cs2.skip(j + 2) =~= cs.skip(j + 2));
        }
    }
    assert(after(ks2, cs2, j) =~= seq![k] + r + after(ks, cs, j + 1)) by {
        reveal(after);
    }
    assert(interleave(ks2, cs2) =~= before(ks, cs, j) + l + seq![k] + r + after(ks, cs, j + 1));
}

/// What lies after child `i - 1` is key `i - 1`, then child `i`, then what
/// lies after child `i`.
pub proof fn lemma_after_step<A>(ks: Seq<A>, cs: Seq<Seq<A>>, i: int)
    requires
        cs.len() == ks.len() + 1,
        0 < i <= ks.len(),
    ensures
        after(ks, cs, i - 1) == seq![ks[i - 1]] + cs[i] + after(ks, cs, i),
{
    reveal(after);
    lemma_interleave_window(ks, cs, i);
    assert(after(ks, cs, i - 1) =~= seq![ks[i - 1]] + cs[i] + after(ks, cs, i));
}

/// The pieces of a stack joined from the top down: what comes out of the
/// stack, piece by piece, as it is popped.
pub open spec fn join_down<A>(pieces: Seq<Seq<A>>) -> Seq<A>
    decreases pieces.len(),
{
    if pieces.len() == 0 {
        Seq::empty()
    } else {
        pieces.last() + join_down(pieces.drop_last())
    }
}

/// The pieces of a stack joined from the bottom up.
pub open spec fn join_up<A>(pieces: Seq<Seq<A>>) -> Seq<A>
    decreases pieces.len(),
{
    if pieces.len() == 0 {
        Seq::empty()
    } else {
        join_up(pieces.drop_last()) + pieces.last()
    }
}

/// The sum of a sequence of numbers.
pub open spec fn sum(ws: Seq<nat>) -> nat
    decreases ws.len(),
{
    if ws.len() == 0 {
        0
    } else {
        sum(ws.drop_last()) + ws.last()
    }
}

/// What pushing a piece does to the joins and the sum.
pub proof fn lemma_pushed<A>(pieces: Seq<Seq<A>>, ws: Seq<nat>, piece: Seq<A>, w: nat)
    ensures
        join_down(pieces.push(piece)) == piece + join_down(pieces),
        join_up(pieces.push(piece)) == join_up(pieces) + piece,
        sum(ws.push(w)) == sum(ws) + w,
{
    assert(pieces.push(piece).drop_last() =~= pieces);
    assert(ws.push(w).drop_last() =~= ws);
}

/// What popping a piece does to the joins and the sum.
pub proof fn lemma_popped<A>(pieces: Seq<Seq<A>>, ws: Seq<nat>)
    ensures
        pieces.len() > 0 ==> join_down(pieces) == pieces.last() + join_down(pieces.drop_last()),
        pieces.len() > 0 ==> join_up(pieces) == join_up(pieces.drop_last()) + pieces.last(),
        ws.len() > 0 ==> sum(ws) == sum(ws.drop_last()) + ws.last(),
        pieces.len() == 0 ==> join_down(pieces) == Seq::<A>::empty() && join_up(pieces)
            == Seq::<A>::empty(),
        ws.len() == 0 ==> sum(ws) == 0,
{
}

} // verus!
