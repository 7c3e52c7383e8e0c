//! Sorted sequences of elements: what a tree holds, seen in order.

use crate::value::BTreeValue;
use vstd::prelude::*;

verus! {

/// The keys of `s` ascend strictly.
#[verifier::opaque]
pub open spec fn sorted<A: BTreeValue>(s: Seq<A>) -> bool {
    forall|i: int, j: int|
        #![trigger s[i], s[j]]
        0 <= i < j < s.len() ==> A::key_lt(s[i].key(), s[j].key())
}

/// Some element of `s` is filed under `k`.
pub open spec fn has_key<A: BTreeValue>(s: Seq<A>, k: A::Key) -> bool {
    exists|i: int| 0 <= i < s.len() && (#[trigger] s[i]).key() == k
}

/// The number of elements of `s` whose key is below `k`: in a sorted sequence,
/// the index of the element filed under `k`, or the index at which one would
/// be inserted.
#[verifier::opaque]
pub open spec fn rank<A: BTreeValue>(s: Seq<A>, k: A::Key) -> int
    decreases s.len(),
{
    if s.len() == 0 {
        0
    } else {
        rank(s.drop_last(), k) + if A::key_lt(s.last().key(), k) {
            1int
        } else {
            0int
        }
    }
}

/// The element of `s` that is filed under `k`, if there is one.
pub open spec fn entry<A: BTreeValue>(s: Seq<A>, k: A::Key) -> Option<A> {
    if has_key(s, k) {
        Some(s[rank(s, k)])
    } else {
        None
    }
}

/// The sequence after an insertion of `v`: `v` in the place of the element
/// with its key, or at the rank of its key where there is none.
pub open spec fn inserted<A: BTreeValue>(s: Seq<A>, v: A) -> Seq<A> {
    if has_key(s, v.key()) {
        s.update(rank(s, v.key()), v)
    } else {
        s.insert(rank(s, v.key()), v)
    }
}

/// The sequence after a removal of `k`: without the element filed under `k`,
/// or as it was where there is none.
pub open spec fn removed<A: BTreeValue>(s: Seq<A>, k: A::Key) -> Seq<A> {
    if has_key(s, k) {
        s.remove(rank(s, k))
    } else {
        s
    }
}

/// The first `r` elements of `s` are below `k` and no other element is.
pub open spec fn splits_at<A: BTreeValue>(s: Seq<A>, k: A::Key, r: int) -> bool {
    &&& 0 <= r <= s.len()
    &&& forall|i: int| 0 <= i < r ==> A::key_lt((#[trigger] s[i]).key(), k)
    &&& forall|i: int| r <= i < s.len() ==> !A::key_lt((#[trigger] s[i]).key(), k)
}

/// No key is below itself.
pub proof fn lemma_lt_irreflexive<A: BTreeValue>(a: A::Key)
    ensures
        !A::key_lt(a, a),
{
    A::key_lt_is_strict_total_order();
}

/// A key below a key that is below a third is below the third.
pub proof fn lemma_lt_transitive<A: BTreeValue>(a: A::Key, b: A::Key, c: A::Key)
    requires
        A::key_lt(a, b),
        A::key_lt(b, c),
    ensures
        A::key_lt(a, c),
{
    A::key_lt_is_strict_total_order();
}

/// Of two keys, one of which is below the other, the other is not below
/// the one, and the two differ.
pub proof fn lemma_lt_asymmetric<A: BTreeValue>(a: A::Key, b: A::Key)
    requires
        A::key_lt(a, b),
    ensures
        !A::key_lt(b, a),
        a != b,
{
    A::key_lt_is_strict_total_order();
    if A::key_lt(b, a) {
        lemma_lt_transitive::<A>(a, b, a);
    }
}

/// Of two different keys one is below the other.
pub proof fn lemma_lt_total<A: BTreeValue>(a: A::Key, b: A::Key)
    ensures
        a == b || A::key_lt(a, b) || A::key_lt(b, a),
{
    A::key_lt_is_strict_total_order();
}

/// Where a sequence splits at `r` around `k`, `r` is the rank of `k`.
pub proof fn lemma_rank_is<A: BTreeValue>(s: Seq<A>, k: A::Key, r: int)
    requires
        splits_at(s, k, r),
    ensures
        rank(s, k) == r,
    decreases s.len(),
{
    reveal(rank);
    if s.len() > 0 {
        let t = s.drop_last();
        if r == s.len() {
            assert(A::key_lt(s[s.len() - 1].key(), k));
            assert forall|i: int| 0 <= i < r - 1 implies A::key_lt((#[trigger] t[i]).key(), k) by {
                assert(t[i] == s[i]);
            }
            lemma_rank_is(t, k, r - 1);
        } else {
            assert(!A::key_lt(s[s.len() - 1].key(), k));
            assert forall|i: int| 0 <= i < r implies A::key_lt((#[trigger] t[i]).key(), k) by {
                assert(t[i] == s[i]);
            }
            assert forall|i: int| r <= i < t.len() implies !A::key_lt(
                (#[trigger] t[i]).key(),
                k,
            ) by {
                assert(t[i] == s[i]);
            }
            lemma_rank_is(t, k, r);
        }
    }
}

/// A sorted sequence splits around any key at the key's rank.
pub proof fn lemma_rank_splits<A: BTreeValue>(s: Seq<A>, k: A::Key)
    requires
        sorted(s),
    ensures
        splits_at(s, k, rank(s, k)),
    decreases s.len(),
{
    reveal(rank);
    reveal(sorted);
    if s.len() > 0 {
        let t = s.drop_last();
        let n = s.len() - 1;
        assert forall|i: int, j: int| 0 <= i < j < t.len() implies A::key_lt(
            t[i].key(),
            t[j].key(),
        ) by {
            assert(t[i] == s[i] && t[j] == s[j]);
        }
        lemma_rank_splits(t, k);
        let r = rank(t, k);
        if A::key_lt(s[n].key(), k) {
            assert forall|i: int| 0 <= i < n implies A::key_lt((#[trigger] s[i]).key(), k) by {
                lemma_lt_transitive::<A>(s[i].key(), s[n].key(), k);
            }
            assert(forall|i: int| r <= i < t.len() ==> !A::key_lt((#[trigger] t[i]).key(), k));
            if r < n {
                assert(t[r] == s[r]);
                assert(false);
            }
            assert(rank(s, k) == n + 1);
        } else {
            assert(rank(s, k) == r);
            assert forall|i: int| 0 <= i < r implies A::key_lt((#[trigger] s[i]).key(), k) by {
                assert(t[i] == s[i]);
            }
            assert forall|i: int| r <= i < s.len() implies !A::key_lt(
                (#[trigger] s[i]).key(),
                k,
            ) by {
                if i < n {
                    assert(t[i] == s[i]);
                }
            }
        }
    }
}

/// In a sorted sequence the element filed under `k`, if any, sits at the
/// rank of `k`.
pub proof fn lemma_key_sits_at_rank<A: BTreeValue>(s: Seq<A>, k: A::Key)
    requires
        sorted(s),
    ensures
        has_key(s, k) <==> (rank(s, k) < s.len() && s[rank(s, k)].key() == k),
        0 <= rank(s, k) <= s.len(),
{
    reveal(sorted);
    lemma_rank_splits(s, k);
    let r = rank(s, k);
    if has_key(s, k) {
        let i = choose|i: int| 0 <= i < s.len() && (#[trigger] s[i]).key() == k;
        lemma_lt_irreflexive::<A>(k);
        assert(i >= r);
        if i > r {
            assert(A::key_lt(s[r].key(), s[i].key()));
            assert(!A::key_lt(s[r].key(), k));
        }
    }
}

/// Where `i` holds the key `k` in a sorted sequence, `i` is the rank of `k`.
pub proof fn lemma_rank_of_member<A: BTreeValue>(s: Seq<A>, i: int)
    requires
        sorted(s),
        0 <= i < s.len(),
    ensures
        rank(s, s[i].key()) == i,
        has_key(s, s[i].key()),
{
    reveal(sorted);
    let k = s[i].key();
    assert forall|j: int| i <= j < s.len() implies !A::key_lt((#[trigger] s[j]).key(), k) by {
        if j == i {
            lemma_lt_irreflexive::<A>(k);
        } else {
            lemma_lt_asymmetric::<A>(s[i].key(), s[j].key());
        }
    }
    assert(splits_at(s, k, i));
    lemma_rank_is(s, k, i);
}

/// A stretch of a sorted sequence is sorted.
pub proof fn lemma_sorted_subrange<A: BTreeValue>(s: Seq<A>, a: int, b: int)
    requires
        sorted(s),
        0 <= a <= b <= s.len(),
    ensures
        sorted(s.subrange(a, b)),
{
    reveal(sorted);
    let t = s.subrange(a, b);
    assert forall|i: int, j: int| 0 <= i < j < t.len() implies A::key_lt(
        t[i].key(),
        t[j].key(),
    ) by {
        assert(t[i] == s[a + i] && t[j] == s[a + j]);
    }
}

/// Where the neighbours of a stretch of a sorted sequence lie on either side
/// of `k`, the rank of `k` and the element filed under it are those of the
/// stretch.
pub proof fn lemma_rank_in_window<A: BTreeValue>(s: Seq<A>, a: int, b: int, k: A::Key)
    requires
        sorted(s),
        0 <= a <= b <= s.len(),
        a > 0 ==> A::key_lt(s[a - 1].key(), k),
        b < s.len() ==> A::key_lt(k, s[b].key()),
    ensures
        sorted(s.subrange(a, b)),
        rank(s, k) == a + rank(s.subrange(a, b), k),
        has_key(s, k) <==> has_key(s.subrange(a, b), k),
        entry(s, k) == entry(s.subrange(a, b), k),
{
    reveal(sorted);
    let t = s.subrange(a, b);
    lemma_sorted_subrange(s, a, b);
    lemma_rank_splits(t, k);
    let r = rank(t, k);
    assert forall|i: int| 0 <= i < a + r implies A::key_lt((#[trigger] s[i]).key(), k) by {
        if i < a - 1 {
            assert(A::key_lt(s[i].key(), s[a - 1].key()));
            lemma_lt_transitive::<A>(s[i].key(), s[a - 1].key(), k);
        } else if i >= a {
            assert(t[i - a] == s[i]);
        }
    }
    assert forall|i: int| a + r <= i < s.len() implies !A::key_lt((#[trigger] s[i]).key(), k) by {
        if i < b {
            assert(t[i - a] == s[i]);
        } else {
            if i > b {
                assert(A::key_lt(s[b].key(), s[i].key()));
                lemma_lt_transitive::<A>(k, s[b].key(), s[i].key());
            }
            lemma_lt_asymmetric::<A>(k, s[i].key());
        }
    }
    assert(splits_at(s, k, a + r));
    lemma_rank_is(s, k, a + r);
    lemma_key_sits_at_rank(s, k);
    lemma_key_sits_at_rank(t, k);
    if a + r < s.len() && s[a + r].key() == k {
        if a + r >= b {
            lemma_lt_irreflexive::<A>(k);
            if a + r > b {
                assert(A::key_lt(s[b].key(), s[a + r].key()));
                lemma_lt_asymmetric::<A>(k, s[b].key());
            }
            assert(false);
        }
        assert(t[r] == s[a + r]);
    }
    if r < t.len() {
        assert(t[r] == s[a + r]);
    }
}

/// Putting an element at the rank of its key, where no element is filed
/// under that key, keeps a sorted sequence sorted.
pub proof fn lemma_insert_sorted<A: BTreeValue>(s: Seq<A>, v: A)
    requires
        sorted(s),
        !has_key(s, v.key()),
    ensures
        0 <= rank(s, v.key()) <= s.len(),
        sorted(s.insert(rank(s, v.key()), v)),
{
    reveal(sorted);
    let k = v.key();
    let r = rank(s, k);
    lemma_rank_splits(s, k);
    let t = s.insert(r, v);
    assert forall|i: int, j: int| 0 <= i < j < t.len() implies A::key_lt(
        t[i].key(),
        t[j].key(),
    ) by {
        if j == r {
            assert(t[i] == s[i]);
        } else if i == r {
            assert(t[j] == s[j - 1]);
            lemma_lt_total::<A>(s[j - 1].key(), k);
        } else {
            let a = if i < r { i } else { i - 1 };
            let b = if j < r { j } else { j - 1 };
            assert(t[i] == s[a] && t[j] == s[b]);
        }
    }
}

/// Putting an element in the place of one with the same key keeps a sorted
/// sequence sorted.
pub proof fn lemma_update_sorted<A: BTreeValue>(s: Seq<A>, i: int, v: A)
    requires
        sorted(s),
        0 <= i < s.len(),
        s[i].key() == v.key(),
    ensures
        sorted(s.update(i, v)),
{
    reveal(sorted);
    let t = s.update(i, v);
    assert forall|a: int, b: int| 0 <= a < b < t.len() implies A::key_lt(
        t[a].key(),
        t[b].key(),
    ) by {
        assert(t[a].key() == s[a].key() && t[b].key() == s[b].key());
        assert(A::key_lt(s[a].key(), s[b].key()));
    }
}

/// Taking an element away keeps a sorted sequence sorted.
pub proof fn lemma_remove_sorted<A: BTreeValue>(s: Seq<A>, i: int)
    requires
        sorted(s),
        0 <= i < s.len(),
    ensures
        sorted(s.remove(i)),
{
    reveal(sorted);
    let t = s.remove(i);
    assert forall|a: int, b: int| 0 <= a < b < t.len() implies A::key_lt(
        t[a].key(),
        t[b].key(),
    ) by {
        let a2 = if a < i { a } else { a + 1 };
        let b2 = if b < i { b } else { b + 1 };
        assert(t[a] == s[a2] && t[b] == s[b2]);
    }
}

/// What `sorted` says, spelled out.
pub proof fn lemma_sorted_means<A: BTreeValue>(s: Seq<A>)
    ensures
        sorted(s) <==> forall|i: int, j: int|
            0 <= i < j < s.len() ==> A::key_lt((#[trigger] s[i]).key(), (#[trigger] s[j]).key()),
{
    reveal(sorted);
}

/// A sequence of at most one element is sorted.
pub proof fn lemma_sorted_small<A: BTreeValue>(s: Seq<A>)
    requires
        s.len() <= 1,
    ensures
        sorted(s),
{
    reveal(sorted);
}

/// Putting an element into a stretch of a sequence puts it into the
/// sequence, as far along as the stretch begins.
pub proof fn lemma_insert_in_window<A>(p: Seq<A>, c: Seq<A>, t: Seq<A>, r: int, v: A)
    requires
        0 <= r <= c.len(),
    ensures
        p + c.insert(r, v) + t == (p + c + t).insert(p.len() + r, v),
        (p + c + t).len() == p.len() + c.len() + t.len(),
{
    assert(p + c.insert(r, v) + t =~= (p + c + t).insert(p.len() + r, v));
}

/// Replacing an element of a stretch of a sequence replaces it in the
/// sequence, as far along as the stretch begins.
pub proof fn lemma_update_in_window<A>(p: Seq<A>, c: Seq<A>, t: Seq<A>, r: int, v: A)
    requires
        0 <= r < c.len(),
    ensures
        p + c.update(r, v) + t == (p + c + t).update(p.len() + r, v),
{
    assert(p + c.update(r, v) + t =~= (p + c + t).update(p.len() + r, v));
}

/// Taking an element out of a stretch of a sequence takes it out of the
/// sequence, as far along as the stretch begins.
pub proof fn lemma_remove_in_window<A>(p: Seq<A>, c: Seq<A>, t: Seq<A>, r: int)
    requires
        0 <= r < c.len(),
    ensures
        p + c.remove(r) + t == (p + c + t).remove(p.len() + r),
        (p + c + t)[p.len() + r] == c[r],
{
    assert(p + c.remove(r) + t =~= (p + c + t).remove(p.len() + r));
}

/// The three parts of a sequence that is written as three parts.
pub proof fn lemma_three_parts<A>(s: Seq<A>, p: Seq<A>, x: Seq<A>, t: Seq<A>)
    requires
        s == p + x + t,
    ensures
        s.len() == p.len() + x.len() + t.len(),
        s.take(p.len() as int) == p,
        s.subrange(p.len() as int, (p.len() + x.len()) as int) == x,
        s.skip((p.len() + x.len()) as int) == t,
{
    assert(s.take(p.len() as int) =~= p);
    assert(s.subrange(p.len() as int, (p.len() + x.len()) as int) =~= x);
    assert(s.skip((p.len() + x.len()) as int) =~= t);
}

/// Where a sorted sequence is `p`, then `x`, then `t`, and the last of `p`
/// and the first of `t` lie on either side of `k`: the element filed under
/// `k` is in the sequence just when it is in `x`, at the rank it has in `x`
/// after the length of `p`, and taking it out of `x` takes it out of the
/// sequence.
pub proof fn lemma_remove_from_window<A: BTreeValue>(
    s: Seq<A>,
    p: Seq<A>,
    x: Seq<A>,
    t: Seq<A>,
    k: A::Key,
)
    requires
        sorted(s),
        s == p + x + t,
        p.len() > 0 ==> A::key_lt(p.last().key(), k),
        t.len() > 0 ==> A::key_lt(k, t[0].key()),
    ensures
        sorted(x),
        has_key(s, k) <==> has_key(x, k),
        entry(s, k) == entry(x, k),
        rank(s, k) == p.len() + rank(x, k),
        0 <= rank(x, k) <= x.len(),
        has_key(x, k) ==> {
            &&& rank(x, k) < x.len()
            &&& s[rank(s, k)] == x[rank(x, k)]
            &&& p + x.remove(rank(x, k)) + t == s.remove(rank(s, k))
            &&& sorted(s.remove(rank(s, k)))
            &&& s.remove(rank(s, k)).len() + 1 == s.len()
        },
{
    lemma_three_parts(s, p, x, t);
    let a = p.len() as int;
    let b = a + x.len();
    if a > 0 {
        assert(s[a - 1] == p.last());
    }
    if b < s.len() {
        assert(s[b] == t[0]);
    }
    lemma_rank_in_window(s, a, b, k);
    lemma_key_sits_at_rank(x, k);
    lemma_key_sits_at_rank(s, k);
    if has_key(x, k) {
        lemma_remove_in_window(p, x, t, rank(x, k));
        lemma_remove_sorted(s, rank(s, k));
    }
}

/// In a sorted sequence an element that comes earlier has the lesser key.
pub proof fn lemma_sorted_pair<A: BTreeValue>(s: Seq<A>, i: int, j: int)
    requires
        sorted(s),
        0 <= i < j < s.len(),
    ensures
        A::key_lt(s[i].key(), s[j].key()),
{
    reveal(sorted);
}

} // verus!
