//! Borrowing view over every pairing of a [`Many2Many`].

use vstd::prelude::*;

use crate::Many2Many;

verus! {

/// Yields every `(left, right)` pairing of the borrowed container exactly
/// once: the pairings of the first left key, then those of the second, and
/// so on.
pub struct Iter<'a, L, R> {
    m: &'a Many2Many<L, R>,
    outer: usize,
    inner: usize,
}

impl<'a, L, R> Clone for Iter<'a, L, R> {
    /// An independent view positioned at the same point.
    fn clone(&self) -> (res: Self)
        ensures
            res == *self,
    {
        Iter { m: self.m, outer: self.outer, inner: self.inner }
    }
}

impl<'a, L, R> Iter<'a, L, R> {
    /// The position either names an element of a forward bucket or rests
    /// just past the last bucket.
    pub closed spec fn valid(self) -> bool {
        &&& self.outer <= self.m.fwd@.len()
        &&& (self.outer as int) < self.m.fwd@.len() ==> (self.inner as int) < self.m.fwd@[
            self.outer as int]@.len()
        &&& self.outer == self.m.fwd@.len() ==> self.inner == 0
    }

    /// The pairings not yet yielded, in yield order.
    pub closed spec fn remaining(self) -> Seq<(L, R)> {
        if (self.outer as int) < self.m.fwd@.len() {
            self.m.bucket_seq(self.outer as int).skip(self.inner as int) + self.m.pairs_seq_from(
                self.outer as int + 1,
            )
        } else {
            Seq::empty()
        }
    }

    /// Yields the next pairing, or `None` once all have been yielded.
    pub fn next(&mut self) -> (r: Option<(&'a L, &'a R)>)
        requires
            old(self).valid(),
        ensures
            final(self).valid(),
            old(self).remaining().len() > 0 ==> {
                &&& r matches Some((a, b)) && (*a, *b) == old(self).remaining()[0]
                &&& final(self).remaining() == old(self).remaining().drop_first()
            },
            old(self).remaining().len() == 0 ==> r is None && *final(self) == *old(self),
    {
        proof {
            use_type_invariant(self.m);
        }
        if self.outer < self.m.fwd.len() {
            let idx = self.m.fwd[self.outer][self.inner];
            let a = &self.m.left_keys[self.outer];
            let b = &self.m.right_keys[idx];
            let ghost prev = *self;
            if self.inner < self.m.fwd[self.outer].len() - 1 {
                self.inner = self.inner + 1;
            } else {
                self.outer = self.outer + 1;
                self.inner = 0;
            }
            proof {
                let bucket = self.m.bucket_seq(prev.outer as int);
                let tail = self.m.pairs_seq_from(prev.outer as int + 1);
                assert(prev.remaining()[0] == bucket[prev.inner as int]);
                assert((*a, *b) == bucket[prev.inner as int]);
                if prev.inner as int + 1 < bucket.len() {
                    assert(final(self).remaining() =~= prev.remaining().drop_first());
                } else {
                    // the bucket is exhausted; what remains is the suffix
                    // starting at the next bucket
                    assert(bucket.skip(prev.inner as int).len() == 1);
                    if (self.outer as int) < self.m.fwd@.len() {
                        assert(final(self).remaining() =~= self.m.pairs_seq_from(
                            self.outer as int,
                        ));
                        assert(prev.remaining().drop_first() =~= tail);
                        assert(self.m.pairs_seq_from(self.outer as int) == self.m.bucket_seq(
                            self.outer as int,
                        ) + self.m.pairs_seq_from(self.outer as int + 1));
                        assert(self.m.bucket_seq(self.outer as int).skip(0) =~= self.m.bucket_seq(
                            self.outer as int,
                        ));
                    } else {
                        assert(self.m.pairs_seq_from(self.outer as int) =~= Seq::empty());
                        assert(prev.remaining().drop_first() =~= Seq::empty());
                    }
                }
            }
            Some((a, b))
        } else {
            None
        }
    }

    /// The exact number of pairings not yet yielded, summed over the
    /// buckets still to be visited.
    pub fn len(&self) -> (n: usize)
        requires
            self.valid(),
        ensures
            n == self.remaining().len(),
    {
        proof {
            use_type_invariant(self.m);
        }
        if self.outer >= self.m.fwd.len() {
            return 0;
        }
        proof {
            self.m.lemma_pairs_from_len_mono(0, self.outer as int);
        }
        let mut n: usize = self.m.fwd[self.outer].len() - self.inner;
        let mut idx: usize = self.outer + 1;
        while idx < self.m.fwd.len()
            invariant
                self.m.inv(),
                self.valid(),
                (self.outer as int) < self.m.fwd@.len(),
                self.outer < idx <= self.m.fwd@.len(),
                n + self.m.pairs_seq_from(idx as int).len() == self.remaining().len(),
                self.remaining().len() <= usize::MAX,
            decreases self.m.fwd@.len() - idx,
        {
            n = n + self.m.fwd[idx].len();
            idx = idx + 1;
        }
        n
    }
}

impl<L, R> Many2Many<L, R> {
    /// A view over every pairing: each held pairing is yielded exactly
    /// once, and there are as many of them as the container holds.
    pub fn iter(&self) -> (it: Iter<'_, L, R>)
        ensures
            it.valid(),
            it.remaining() == self.pairs_seq(),
            it.remaining().no_duplicates(),
            it.remaining().to_set() == self@,
            it.remaining().len() == self@.len(),
    {
        proof {
            use_type_invariant(self);
            self.lemma_pairs_props();
        }
        let it = Iter { m: self, outer: 0, inner: 0 };
        proof {
            if self.fwd@.len() > 0 {
                assert(self.bucket_seq(0).skip(0) =~= self.bucket_seq(0));
                assert(it.remaining() =~= self.pairs_seq());
            } else {
                assert(it.remaining() =~= self.pairs_seq());
            }
        }
        it
    }
}

} // verus!
