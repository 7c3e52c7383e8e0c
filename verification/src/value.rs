//! The ordering interface that stored elements implement.

use std::cmp::Ordering;
use vstd::prelude::*;
use vstd::std_specs::cmp::PartialEqSpecImpl;

verus! {

/// An element that a tree can store: it projects to a key, and keys are
/// totally ordered.
///
/// Two elements take the same place in a tree exactly when their keys are
/// equal; `cmp_values` orders elements by their keys.
pub trait BTreeValue: Clone {
    /// The type by which elements are looked up.
    type Key;

    /// The key that an element is filed under.
    spec fn key(&self) -> Self::Key;

    /// The strict order on keys.
    spec fn key_lt(a: Self::Key, b: Self::Key) -> bool;

    /// `key_lt` is a strict total order.
    proof fn key_lt_is_strict_total_order()
        ensures
            forall|a: Self::Key| !Self::key_lt(a, a),
            forall|a: Self::Key, b: Self::Key, c: Self::Key|
                #![trigger Self::key_lt(a, b), Self::key_lt(b, c)]
                Self::key_lt(a, b) && Self::key_lt(b, c) ==> Self::key_lt(a, c),
            forall|a: Self::Key, b: Self::Key|
                a != b ==> #[trigger] Self::key_lt(a, b) || Self::key_lt(b, a),
    ;

    /// A clone of an element is the element.
    proof fn clone_is_exact(a: Self, b: Self)
        requires
            cloned::<Self>(a, b),
        ensures
            a == b,
    ;

    /// May answer `false` for equal elements, never `true` for different ones.
    fn ptr_eq(&self, other: &Self) -> (same: bool)
        ensures
            same ==> *self == *other,
    ;

    /// Binary search of a sorted slice for a key: `Ok` with the index of the
    /// element filed under it, or `Err` with the index at which such an
    /// element would be inserted.
    fn search_key(slice: &[Self], key: &Self::Key) -> (found: Result<usize, usize>)
        requires
            forall|i: int, j: int|
                0 <= i < j < slice@.len() ==> Self::key_lt(
                    (#[trigger] slice@[i]).key(),
                    (#[trigger] slice@[j]).key(),
                ),
        ensures
            match found {
                Ok(at) => at < slice@.len() && slice@[at as int].key() == *key,
                Err(at) => {
                    &&& at <= slice@.len()
                    &&& forall|i: int|
                        0 <= i < at ==> Self::key_lt((#[trigger] slice@[i]).key(), *key)
                    &&& forall|i: int|
                        at <= i < slice@.len() ==> Self::key_lt(
                            *key,
                            (#[trigger] slice@[i]).key(),
                        )
                },
            },
    ;

    /// Binary search of a sorted slice for the place of an element.
    fn search_value(slice: &[Self], value: &Self) -> (found: Result<usize, usize>)
        requires
            forall|i: int, j: int|
                0 <= i < j < slice@.len() ==> Self::key_lt(
                    (#[trigger] slice@[i]).key(),
                    (#[trigger] slice@[j]).key(),
                ),
        ensures
            match found {
                Ok(at) => at < slice@.len() && slice@[at as int].key() == value.key(),
                Err(at) => {
                    &&& at <= slice@.len()
                    &&& forall|i: int|
                        0 <= i < at ==> Self::key_lt((#[trigger] slice@[i]).key(), value.key())
                    &&& forall|i: int|
                        at <= i < slice@.len() ==> Self::key_lt(
                            value.key(),
                            (#[trigger] slice@[i]).key(),
                        )
                },
            },
    ;

    /// Three-way comparison of an element's key with a key.
    fn cmp_keys(&self, other: &Self::Key) -> (o: Ordering)
        ensures
            match o {
                Ordering::Less => Self::key_lt(self.key(), *other),
                Ordering::Equal => self.key() == *other,
                Ordering::Greater => Self::key_lt(*other, self.key()),
            },
    ;

    /// Three-way comparison of two elements by their keys.
    fn cmp_values(&self, other: &Self) -> (o: Ordering)
        ensures
            match o {
                Ordering::Less => Self::key_lt(self.key(), other.key()),
                Ordering::Equal => self.key() == other.key(),
                Ordering::Greater => Self::key_lt(other.key(), self.key()),
            },
    ;
}

/// Whether `a` comes before `b` in the order of elements.
pub fn value_lt<A: BTreeValue>(a: &A, b: &A) -> (lt: bool)
    ensures
        lt == A::key_lt(a.key(), b.key()),
{
    proof {
        A::key_lt_is_strict_total_order();
    }
    match a.cmp_values(b) {
        Ordering::Less => true,
        _ => false,
    }
}

/// Binary search of an ascending slice of integers.
fn search_u64(slice: &[u64], key: u64) -> (found: Result<usize, usize>)
    requires
        forall|i: int, j: int| 0 <= i < j < slice@.len() ==> slice@[i] < slice@[j],
    ensures
        match found {
            Ok(at) => at < slice@.len() && slice@[at as int] == key,
            Err(at) => {
                &&& at <= slice@.len()
                &&& forall|i: int| 0 <= i < at ==> slice@[i] < key
                &&& forall|i: int| at <= i < slice@.len() ==> key < slice@[i]
            },
        },
{
    let mut lo: usize = 0;
    let mut hi: usize = slice.len();
    while lo < hi
        invariant
            lo <= hi <= slice@.len(),
            forall|i: int, j: int| 0 <= i < j < slice@.len() ==> slice@[i] < slice@[j],
            forall|i: int| 0 <= i < lo ==> slice@[i] < key,
            forall|i: int| hi <= i < slice@.len() ==> key < slice@[i],
        decreases hi - lo,
    {
        let mid: usize = lo + (hi - lo) / 2;
        let middle: u64 = slice[mid];
        if middle == key {
            return Ok(mid);
        } else if middle < key {
            lo = mid + 1;
        } else {
            hi = mid;
        }
    }
    Err(lo)
}

impl BTreeValue for u64 {
    type Key = u64;

    open spec fn key(&self) -> u64 {
        *self
    }

    open spec fn key_lt(a: u64, b: u64) -> bool {
        a < b
    }

    proof fn key_lt_is_strict_total_order() {
    }

    proof fn clone_is_exact(a: u64, b: u64) {
    }

    /// Integers have no address of their own to compare: two are the same
    /// just when they are equal.
    fn ptr_eq(&self, other: &u64) -> (same: bool)
        ensures
            same == (*self == *other),
    {
        *self == *other
    }

    fn search_key(slice: &[u64], key: &u64) -> (found: Result<usize, usize>) {
        search_u64(slice, *key)
    }

    fn search_value(slice: &[u64], value: &u64) -> (found: Result<usize, usize>) {
        search_u64(slice, *value)
    }

    fn cmp_keys(&self, other: &u64) -> (o: Ordering) {
        if *self < *other {
            Ordering::Less
        } else if *self == *other {
            Ordering::Equal
        } else {
            Ordering::Greater
        }
    }

    fn cmp_values(&self, other: &u64) -> (o: Ordering) {
        self.cmp_keys(other)
    }
}

/// Binary search of a slice of pairs whose first components ascend.
fn search_pairs(slice: &[Pair], key: u64) -> (found: Result<usize, usize>)
    requires
        forall|i: int, j: int| 0 <= i < j < slice@.len() ==> slice@[i].key < slice@[j].key,
    ensures
        match found {
            Ok(at) => at < slice@.len() && slice@[at as int].key == key,
            Err(at) => {
                &&& at <= slice@.len()
                &&& forall|i: int| 0 <= i < at ==> slice@[i].key < key
                &&& forall|i: int| at <= i < slice@.len() ==> key < slice@[i].key
            },
        },
{
    let mut lo: usize = 0;
    let mut hi: usize = slice.len();
    while lo < hi
        invariant
            lo <= hi <= slice@.len(),
            forall|i: int, j: int| 0 <= i < j < slice@.len() ==> slice@[i].key < slice@[j].key,
            forall|i: int| 0 <= i < lo ==> slice@[i].key < key,
            forall|i: int| hi <= i < slice@.len() ==> key < slice@[i].key,
        decreases hi - lo,
    {
        let mid: usize = lo + (hi - lo) / 2;
        let middle: u64 = slice[mid].key;
        if middle == key {
            return Ok(mid);
        } else if middle < key {
            lo = mid + 1;
        } else {
            hi = mid;
        }
    }
    Err(lo)
}

/// A key with a value filed under it: the element of a map from integers to
/// integers. Pairs are ordered and found by their keys alone.
#[derive(Clone, Copy, Debug, Eq)]
pub struct Pair {
    pub key: u64,
    pub value: u64,
}

impl PartialEq for Pair {
    fn eq(&self, other: &Pair) -> (same: bool) {
        self.key == other.key && self.value == other.value
    }
}

impl PartialEqSpecImpl for Pair {
    open spec fn obeys_eq_spec() -> bool {
        true
    }

    open spec fn eq_spec(&self, other: &Pair) -> bool {
        self.key == other.key && self.value == other.value
    }
}

impl BTreeValue for Pair {
    type Key = u64;

    open spec fn key(&self) -> u64 {
        self.key
    }

    open spec fn key_lt(a: u64, b: u64) -> bool {
        a < b
    }

    proof fn key_lt_is_strict_total_order() {
    }

    proof fn clone_is_exact(a: Pair, b: Pair) {
    }

    /// Pairs have no address of their own to compare: two are the same just
    /// when their keys are equal and their values are.
    fn ptr_eq(&self, other: &Pair) -> (same: bool)
        ensures
            same == (self.key == other.key && self.value == other.value),
            same == (*self == *other),
    {
        self.key == other.key && self.value == other.value
    }

    fn search_key(slice: &[Pair], key: &u64) -> (found: Result<usize, usize>) {
        search_pairs(slice, *key)
    }

    fn search_value(slice: &[Pair], value: &Pair) -> (found: Result<usize, usize>) {
        search_pairs(slice, value.key)
    }

    fn cmp_keys(&self, other: &u64) -> (o: Ordering) {
        if self.key < *other {
            Ordering::Less
        } else if self.key == *other {
            Ordering::Equal
        } else {
            Ordering::Greater
        }
    }

    fn cmp_values(&self, other: &Pair) -> (o: Ordering) {
        self.cmp_keys(&other.key)
    }
}

} // verus!
