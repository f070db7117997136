//! The value store: the set of values a node has observed so far.
//!
//! Membership is monotone: a value, once inserted, is never removed. The
//! single mutation entry point is `test_and_insert`, which atomically (with
//! respect to one `&mut` borrow) reports prior presence and inserts, so a
//! caller can never race an existence check against an insertion.

use vstd::prelude::*;

verus! {

/// A set of observed `i64` values, created empty at node startup and only
/// ever grown through `test_and_insert`.
pub struct ValueStore {
    values: Vec<i64>,
}

impl ValueStore {
    /// The mathematical contents of the store: a set of values.
    pub closed spec fn view(&self) -> Set<i64> {
        self.values@.to_set()
    }

    /// Well-formedness: the backing vector holds each value at most once.
    pub closed spec fn wf(&self) -> bool {
        self.values@.no_duplicates()
    }

    /// A new store holds nothing.
    pub fn new() -> (s: ValueStore)
        ensures
            s.wf(),
            s@ == Set::<i64>::empty(),
    {
        let values: Vec<i64> = Vec::new();
        proof {
            assert(values@.to_set() =~= Set::<i64>::empty());
        }
        ValueStore { values }
    }

    /// Membership test.
    pub fn contains(&self, v: i64) -> (r: bool)
        ensures
            r == self@.contains(v),
    {
        let mut i: usize = 0;
        while i < self.values.len()
            invariant
                0 <= i <= self.values@.len(),
                forall|j: int| 0 <= j < i ==> self.values@[j] != v,
            decreases self.values@.len() - i,
        {
            if self.values[i] == v {
                proof {
                    assert(self.values@.contains(v));
                }
                return true;
            }
            i = i + 1;
        }
        proof {
            assert(!self.values@.contains(v));
        }
        false
    }

    /// Atomically reports whether `v` was already present and, if it was not,
    /// inserts it. Membership only grows; the result tells the caller whether
    /// this call was the one that added `v`.
    pub fn test_and_insert(&mut self, v: i64) -> (was_present: bool)
        requires
            old(self).wf(),
        ensures
            final(self).wf(),
            final(self)@ == old(self)@.insert(v),
            was_present == old(self)@.contains(v),
    {
        let was_present = self.contains(v);
        if !was_present {
            self.values.push(v);
            proof {
                let pre = old(self).values@;
                let post = self.values@;
                assert(post == pre.push(v));
                assert forall|i: int, j: int|
                    0 <= i < post.len() && 0 <= j < post.len() && i != j implies post[i]
                    != post[j] by {
                    if i < pre.len() && j < pre.len() {
                        assert(pre.no_duplicates());
                    } else if i == pre.len() {
                        assert(!pre.contains(v));
                        assert(post[j] == pre[j]);
                    } else {
                        assert(!pre.contains(v));
                        assert(post[i] == pre[i]);
                    }
                }
                assert forall|a: i64| post.to_set().contains(a) <==> old(self)@.insert(v).contains(
                    a,
                ) by {
                    if post.contains(a) {
                        let k = choose|k: int| 0 <= k < post.len() && post[k] == a;
                        if k < pre.len() {
                            assert(pre.contains(a));
                        }
                    }
                    if pre.contains(a) {
                        let k = choose|k: int| 0 <= k < pre.len() && pre[k] == a;
                        assert(post[k] == a);
                        assert(post.contains(a));
                    }
                    if a == v {
                        assert(post[pre.len() as int] == v);
                        assert(post.contains(v));
                    }
                }
                assert(final(self)@ =~= old(self)@.insert(v));
            }
        } else {
            proof {
                assert(final(self)@ =~= old(self)@.insert(v));
            }
        }
        was_present
    }

    /// A copy of everything currently stored, in no particular order, with no
    /// value repeated. Later mutations of the store do not touch the copy.
    pub fn snapshot(&self) -> (r: Vec<i64>)
        requires
            self.wf(),
        ensures
            r@.to_set() == self@,
            r@.no_duplicates(),
    {
        let mut r: Vec<i64> = Vec::new();
        let mut i: usize = 0;
        while i < self.values.len()
            invariant
                0 <= i <= self.values@.len(),
                r@ == self.values@.subrange(0, i as int),
            decreases self.values@.len() - i,
        {
            r.push(self.values[i]);
            i = i + 1;
        }
        proof {
            assert(r@ == self.values@);
        }
        r
    }

    /// How many distinct values the store holds.
    pub fn len(&self) -> (n: usize)
        requires
            self.wf(),
        ensures
            n == self@.len(),
    {
        proof {
            self.values@.unique_seq_to_set();
        }
        self.values.len()
    }
}

} // verus!
