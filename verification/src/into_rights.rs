//! Consuming traversal over the distinct right keys of a [`Many2Many`].

use core::marker::PhantomData;

use vstd::prelude::*;

use crate::Many2Many;

verus! {

/// Drains a container, yielding each distinct right key exactly once, by
/// value.  The keys are handed out of the arena directly: no copy is made.
pub struct IntoRights<L, R> {
    keys: Vec<R>,
    _lefts: PhantomData<L>,
}

impl<L, R> IntoRights<L, R> {
    /// The right keys not yet yielded, in yield order.
    pub closed spec fn remaining(self) -> Seq<R> {
        self.keys@
    }

    /// Yields the next right key, or `None` once all have been yielded.
    pub fn next(&mut self) -> (r: Option<R>)
        ensures
            old(self).remaining().len() > 0 ==> {
                &&& r matches Some(x) && x == old(self).remaining()[0]
                &&& final(self).remaining() == old(self).remaining().drop_first()
            },
            old(self).remaining().len() == 0 ==> r is None && final(self).remaining()
                == old(self).remaining(),
    {
        if self.keys.len() > 0 {
            let x = self.keys.remove(0);
            proof {
                assert(final(self).remaining() =~= old(self).remaining().drop_first());
            }
            Some(x)
        } else {
            None
        }
    }

    /// The exact number of right keys not yet yielded.
    pub fn len(&self) -> (n: usize)
        ensures
            n == self.remaining().len(),
    {
        self.keys.len()
    }
}

impl<L, R> Many2Many<L, R> {
    /// Consumes the container, yielding each distinct right key exactly
    /// once: the same keys, in the same order, as the borrowing `rights`
    /// view.
    pub fn into_rights(self) -> (it: IntoRights<L, R>)
        ensures
            it.remaining() == self.right_seq(),
            it.remaining().no_duplicates(),
            it.remaining().to_set() == self.right_key_set(),
            it.remaining().len() == self.right_key_set().len(),
    {
        proof {
            use_type_invariant(&self);
            self.lemma_right_seq_props();
        }
        let Many2Many { left_keys: _, right_keys, fwd: _, rev: _ } = self;
        IntoRights { keys: right_keys, _lefts: PhantomData }
    }
}

} // verus!
