//! Borrowing view over the distinct right keys of a [`Many2Many`].

use vstd::prelude::*;

use crate::Many2Many;

verus! {

/// Yields each distinct right key of the borrowed container exactly once.
pub struct Rights<'a, L, R> {
    m: &'a Many2Many<L, R>,
    pos: usize,
}

impl<'a, L, R> Clone for Rights<'a, L, R> {
    /// An independent view positioned at the same point.
    fn clone(&self) -> (res: Self)
        ensures
            res == *self,
    {
        Rights { m: self.m, pos: self.pos }
    }
}

impl<'a, L, R> Rights<'a, L, R> {
    /// The position lies within the container's right-key arena.
    pub closed spec fn valid(self) -> bool {
        self.pos <= self.m.right_seq().len()
    }

    /// The right keys not yet yielded, in yield order.
    pub closed spec fn remaining(self) -> Seq<R> {
        self.m.right_seq().skip(self.pos as int)
    }

    /// Yields the next right key, or `None` once all have been yielded.
    pub fn next(&mut self) -> (r: Option<&'a R>)
        requires
            old(self).valid(),
        ensures
            final(self).valid(),
            old(self).remaining().len() > 0 ==> {
                &&& r matches Some(x) && *x == old(self).remaining()[0]
                &&& final(self).remaining() == old(self).remaining().drop_first()
            },
            old(self).remaining().len() == 0 ==> r is None && *final(self) == *old(self),
    {
        if self.pos < self.m.right_keys.len() {
            let x = &self.m.right_keys[self.pos];
            self.pos = self.pos + 1;
            proof {
                assert(final(self).remaining() =~= old(self).remaining().drop_first());
            }
            Some(x)
        } else {
            None
        }
    }

    /// The exact number of right keys not yet yielded.
    pub fn len(&self) -> (n: usize)
        requires
            self.valid(),
        ensures
            n == self.remaining().len(),
    {
        self.m.right_keys.len() - self.pos
    }
}

impl<L, R> Many2Many<L, R> {
    /// A view over the distinct right keys: each is yielded exactly once,
    /// and there are as many of them as the right-key set holds.
    pub fn rights(&self) -> (it: Rights<'_, L, R>)
        ensures
            it.valid(),
            it.remaining() == self.right_seq(),
            it.remaining().no_duplicates(),
            it.remaining().to_set() == self.right_key_set(),
            it.remaining().len() == self.right_key_set().len(),
    {
        proof {
            use_type_invariant(self);
            self.lemma_right_seq_props();
            assert(self.right_seq().skip(0) =~= self.right_seq());
        }
        Rights { m: self, pos: 0 }
    }
}

} // verus!
