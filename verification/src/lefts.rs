//! Borrowing view over the distinct left keys of a [`Many2Many`].

use vstd::prelude::*;

use crate::Many2Many;

verus! {

/// Yields each distinct left key of the borrowed container exactly once.
pub struct Lefts<'a, L, R> {
    m: &'a Many2Many<L, R>,
    pos: usize,
}

impl<'a, L, R> Clone for Lefts<'a, L, R> {
    /// An independent view positioned at the same point.
    fn clone(&self) -> (res: Self)
        ensures
            res == *self,
    {
        Lefts { m: self.m, pos: self.pos }
    }
}

impl<'a, L, R> Lefts<'a, L, R> {
    /// The position lies within the container's left-key arena.
    pub closed spec fn valid(self) -> bool {
        self.pos <= self.m.left_seq().len()
    }

    /// The left keys not yet yielded, in yield order.
    pub closed spec fn remaining(self) -> Seq<L> {
        self.m.left_seq().skip(self.pos as int)
    }

    /// Yields the next left key, or `None` once all have been yielded.
    pub fn next(&mut self) -> (r: Option<&'a L>)
        requires
            old(self).valid(),
        ensures
            final(self).valid(),
            old(self).remaining().len() > 0 ==> {
                &&& r matches Some(x) && *x == old(self).remaining()[0]
                &&& final(self).remaining() == old(self).remaining().drop_first()
            },
            old(self).remaining().len() == 0 ==> r is None && *final(self) == *old(self),
    {
        if self.pos < self.m.left_keys.len() {
            let x = &self.m.left_keys[self.pos];
            self.pos = self.pos + 1;
            proof {
                assert(final(self).remaining() =~= old(self).remaining().drop_first());
            }
            Some(x)
        } else {
            None
        }
    }

    /// The exact number of left keys not yet yielded.
    pub fn len(&self) -> (n: usize)
        requires
            self.valid(),
        ensures
            n == self.remaining().len(),
    {
        self.m.left_keys.len() - self.pos
    }
}

impl<L, R> Many2Many<L, R> {
    /// A view over the distinct left keys: each is yielded exactly once, and
    /// there are as many of them as the left-key set holds.
    pub fn lefts(&self) -> (it: Lefts<'_, L, R>)
        ensures
            it.valid(),
            it.remaining() == self.left_seq(),
            it.remaining().no_duplicates(),
            it.remaining().to_set() == self.left_key_set(),
            it.remaining().len() == self.left_key_set().len(),
    {
        proof {
            use_type_invariant(self);
            self.lemma_left_seq_props();
            assert(self.left_seq().skip(0) =~= self.left_seq());
        }
        Lefts { m: self, pos: 0 }
    }
}

} // verus!
