//! Consuming traversal over the distinct left keys of a [`Many2Many`].

use core::marker::PhantomData;

use vstd::prelude::*;

use crate::Many2Many;

verus! {

/// Drains a container, yielding each distinct left key exactly once, by
/// value.  The keys are handed out of the arena directly: no copy is made.
pub struct IntoLefts<L, R> {
    keys: Vec<L>,
    _rights: PhantomData<R>,
}

impl<L, R> IntoLefts<L, R> {
    /// The left keys not yet yielded, in yield order.
    pub closed spec fn remaining(self) -> Seq<L> {
        self.keys@
    }

    /// Yields the next left key, or `None` once all have been yielded.
    pub fn next(&mut self) -> (r: Option<L>)
        ensures
            old(self).remaining().len() > 0 ==> {
                &&& r matches Some(x) && x == old(self).remaining()[0]
                &&& final(self).remaining() == old(self).remaining().drop_first()
            },
            old(self).remaining().len() == 0 ==> r is None && final(self).remaining()
                == old(self).remaining(),
    {
        if self.keys.len() > 0 {
            let x = self.keys.remove(0);
            proof {
                assert(final(self).remaining() =~= old(self).remaining().drop_first());
            }
            Some(x)
        } else {
            None
        }
    }

    /// The exact number of left keys not yet yielded.
    pub fn len(&self) -> (n: usize)
        ensures
            n == self.remaining().len(),
    {
        self.keys.len()
    }
}

impl<L, R> Many2Many<L, R> {
    /// Consumes the container, yielding each distinct left key exactly
    /// once: the same keys, in the same order, as the borrowing `lefts`
    /// view.
    pub fn into_lefts(self) -> (it: IntoLefts<L, R>)
        ensures
            it.remaining() == self.left_seq(),
            it.remaining().no_duplicates(),
            it.remaining().to_set() == self.left_key_set(),
            it.remaining().len() == self.left_key_set().len(),
    {
        proof {
            use_type_invariant(&self);
            self.lemma_left_seq_props();
        }
        let Many2Many { left_keys, right_keys: _, fwd: _, rev: _ } = self;
        IntoLefts { keys: left_keys, _rights: PhantomData }
    }
}

} // verus!
