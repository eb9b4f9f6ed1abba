//! A bidirectional many-to-many associative container.
//!
//! `Many2Many<L, R>` maintains the complete set of pairings between two key
//! domains and supports lookup in both directions.  Every distinct key is
//! stored exactly once, in an arena; the two indices refer to keys by arena
//! position, so a key shared by many pairings is never duplicated.
//!
//! The container's abstract value (its [`View`]) is the finite set of
//! `(left, right)` pairings it holds.

use vstd::prelude::*;
use vstd::std_specs::cmp::PartialEqSpec;

mod into_lefts;
mod into_rights;
mod iter;
mod lefts;
mod rights;

pub use crate::into_lefts::IntoLefts;
pub use crate::into_rights::IntoRights;
pub use crate::iter::Iter;
pub use crate::lefts::Lefts;
pub use crate::rights::Rights;

verus! {

/// Holds when the executable equality of `T` coincides with logical equality:
/// `a == b` (as evaluated by `PartialEq::eq`) returns exactly whether the two
/// values are equal.  Key lookups are specified under this assumption, which
/// every ordinary key type (integers, booleans, and the like) satisfies.
pub open spec fn eq_is_exact<T: PartialEq>() -> bool {
    &&& T::obeys_eq_spec()
    &&& forall|a: T, b: T| (#[trigger] a.eq_spec(&b)) <==> a == b
}

/// The sequence of values behind a sequence of references.
pub open spec fn deref_seq<T>(v: Seq<&T>) -> Seq<T> {
    Seq::new(v.len(), |n: int| *v[n])
}

/// The left keys named by a sequence of pairings.
pub open spec fn pair_lefts<L, R>(pairs: Seq<(L, R)>) -> Set<L> {
    pairs.map_values(|p: (L, R)| p.0).to_set()
}

/// The right keys named by a sequence of pairings.
pub open spec fn pair_rights<L, R>(pairs: Seq<(L, R)>) -> Set<R> {
    pairs.map_values(|p: (L, R)| p.1).to_set()
}

/// Holds when cloning a `T` always returns exactly the value cloned: the
/// duplicating operations are specified under this assumption, which every
/// ordinary key type satisfies.
pub open spec fn clone_is_exact<T: Clone>() -> bool {
    forall|a: T, b: T| #[trigger] vstd::pervasive::cloned::<T>(a, b) ==> b == a
}

/// A bidirectional many-to-many map between left keys and right keys.
///
/// Each distinct left key is stored once in `left_keys` and each distinct
/// right key once in `right_keys`.  The forward index `fwd` gives, for the
/// left key at position `i`, the positions in `right_keys` of its associated
/// right keys; the reverse index `rev` mirrors it.
pub struct Many2Many<L, R> {
    left_keys: Vec<L>,
    right_keys: Vec<R>,
    fwd: Vec<Vec<usize>>,
    rev: Vec<Vec<usize>>,
}

impl<L, R> Many2Many<L, R> {
    /// The pairings held, bucket by bucket, starting at left position `i`:
    /// the concatenation over `i <= k < fwd.len()` of the pairs
    /// `(left_keys[k], right_keys[j])` for `j` in `fwd[k]`.
    pub(crate) closed spec fn pairs_seq_from(self, i: int) -> Seq<(L, R)>
        decreases self.fwd@.len() - i,
    {
        if i < 0 || i >= self.fwd@.len() {
            Seq::empty()
        } else {
            self.bucket_seq(i) + self.pairs_seq_from(i + 1)
        }
    }

    /// The pairings of the left key at position `i`, in index order.
    pub(crate) closed spec fn bucket_seq(self, i: int) -> Seq<(L, R)> {
        Seq::new(
            self.fwd@[i]@.len(),
            |k: int| (self.left_keys@[i], self.right_keys@[self.fwd@[i]@[k] as int]),
        )
    }

    /// All pairings, in iteration order; `iter` yields exactly this
    /// sequence.
    pub closed spec fn pairs_seq(self) -> Seq<(L, R)> {
        self.pairs_seq_from(0)
    }

    /// The set of left keys present.
    pub closed spec fn left_key_set(self) -> Set<L> {
        self.left_keys@.to_set()
    }

    /// The set of right keys present.
    pub closed spec fn right_key_set(self) -> Set<R> {
        self.right_keys@.to_set()
    }

    /// The left keys in iteration order; `lefts` and `into_lefts` both yield
    /// exactly this sequence.
    pub closed spec fn left_seq(self) -> Seq<L> {
        self.left_keys@
    }

    /// The right keys in iteration order; `rights` and `into_rights` both
    /// yield exactly this sequence.
    pub closed spec fn right_seq(self) -> Seq<R> {
        self.right_keys@
    }

    /// The right keys paired with `l`, read from the forward index.
    pub closed spec fn rights_of(self, l: L) -> Set<R> {
        Set::new(
            |r: R|
                exists|i: int, k: int|
                    {
                        &&& 0 <= i < self.fwd@.len()
                        &&& 0 <= k < self.fwd@[i]@.len()
                        &&& self.left_keys@[i] == l
                        &&& self.right_keys@[self.fwd@[i]@[k] as int] == r
                    },
        )
    }

    /// The left keys paired with `r`, read from the reverse index.
    pub closed spec fn lefts_of(self, r: R) -> Set<L> {
        Set::new(
            |l: L|
                exists|j: int, k: int|
                    {
                        &&& 0 <= j < self.rev@.len()
                        &&& 0 <= k < self.rev@[j]@.len()
                        &&& self.right_keys@[j] == r
                        &&& self.left_keys@[self.rev@[j]@[k] as int] == l
                    },
        )
    }

    /// Membership of `j` in the forward bucket of left position `i`.
    pub(crate) closed spec fn fwd_has(self, i: int, j: usize) -> bool {
        self.fwd@[i]@.contains(j)
    }

    /// Membership of `i` in the reverse bucket of right position `j`.
    pub(crate) closed spec fn rev_has(self, j: int, i: usize) -> bool {
        self.rev@[j]@.contains(i)
    }

    /// Structural well-formedness: the arenas hold distinct keys, every
    /// bucket lists distinct, in-range positions, every key is part of at
    /// least one pairing, and the two indices are mutually consistent.
    pub(crate) closed spec fn wf_core(self) -> bool {
        &&& self.fwd@.len() == self.left_keys@.len()
        &&& self.rev@.len() == self.right_keys@.len()
        // arenas hold each key once
        &&& forall|i1: int, i2: int|
            0 <= i1 < i2 < self.left_keys@.len() ==> self.left_keys@[i1] != self.left_keys@[i2]
        &&& forall|j1: int, j2: int|
            0 <= j1 < j2 < self.right_keys@.len() ==> self.right_keys@[j1] != self.right_keys@[j2]
        // buckets are in range, duplicate free, and nonempty
        &&& forall|i: int, k: int|
            0 <= i < self.fwd@.len() && 0 <= k < self.fwd@[i]@.len()
                ==> self.fwd@[i]@[k] < self.right_keys@.len()
        &&& forall|j: int, k: int|
            0 <= j < self.rev@.len() && 0 <= k < self.rev@[j]@.len()
                ==> self.rev@[j]@[k] < self.left_keys@.len()
        &&& forall|i: int| 0 <= i < self.fwd@.len() ==> (#[trigger] self.fwd@[i])@.no_duplicates()
        &&& forall|j: int| 0 <= j < self.rev@.len() ==> (#[trigger] self.rev@[j])@.no_duplicates()
        &&& forall|i: int| 0 <= i < self.fwd@.len() ==> (#[trigger] self.fwd@[i])@.len() >= 1
        &&& forall|j: int| 0 <= j < self.rev@.len() ==> (#[trigger] self.rev@[j])@.len() >= 1
        // the two indices describe the same pairings
        &&& forall|i: usize, j: usize|
            i < self.fwd@.len() && j < self.rev@.len()
                ==> (#[trigger] self.fwd_has(i as int, j) <==> #[trigger] self.rev_has(
                    j as int,
                    i,
                ))
    }

    /// The container invariant: structurally well formed, with a pairing
    /// count that fits in a machine word.
    #[verifier::type_invariant]
    pub closed spec fn inv(self) -> bool {
        &&& self.wf_core()
        &&& self.pairs_seq().len() <= usize::MAX
    }

    /// Constructs an empty container.
    pub fn new() -> (m: Many2Many<L, R>)
        ensures
            m@ == Set::<(L, R)>::empty(),
            m.left_key_set() == Set::<L>::empty(),
            m.right_key_set() == Set::<R>::empty(),
    {
        let m = Many2Many {
            left_keys: Vec::new(),
            right_keys: Vec::new(),
            fwd: Vec::new(),
            rev: Vec::new(),
        };
        proof {
            assert(m.pairs_seq() =~= Seq::empty());
            assert(m@ =~= Set::empty());
            assert(m.left_key_set() =~= Set::empty());
            assert(m.right_key_set() =~= Set::empty());
        }
        m
    }
}

/// A sequence extended by one element holds exactly the old elements and the
/// new one.
proof fn lemma_contains_push<T>(s: Seq<T>, v: T, x: T)
    ensures
        s.push(v).contains(x) <==> (s.contains(x) || x == v),
{
    assert(s.push(v)[s.len() as int] == v);
    if s.contains(x) {
        let k = choose|k: int| 0 <= k < s.len() && s[k] == x;
        assert(s.push(v)[k] == x);
    }
    if s.push(v).contains(x) {
        let k = choose|k: int| 0 <= k < s.push(v).len() && s.push(v)[k] == x;
        if k < s.len() {
            assert(s[k] == x);
        }
    }
}

/// Extending a sequence by one element adds exactly that element to the set
/// of its members.
proof fn lemma_to_set_push<T>(s: Seq<T>, v: T)
    ensures
        s.push(v).to_set() == s.to_set().insert(v),
{
    assert forall|x: T| #[trigger] s.push(v).contains(x) <==> (s.contains(x) || x == v) by {
        lemma_contains_push(s, v, x);
    }
    assert(s.push(v).to_set() =~= s.to_set().insert(v));
}

/// A nonempty sequence holds its head and the elements of its tail.
proof fn lemma_to_set_drop_first<T>(s: Seq<T>)
    requires
        s.len() > 0,
    ensures
        s.to_set() == s.drop_first().to_set().insert(s[0]),
{
    assert forall|x: T| #[trigger] s.contains(x) <==> (s.drop_first().contains(x) || x
        == s[0]) by {
        if s.contains(x) {
            let n = choose|n: int| 0 <= n < s.len() && s[n] == x;
            if n > 0 {
                assert(s.drop_first()[n - 1] == x);
            }
        }
        if s.drop_first().contains(x) {
            let n = choose|n: int| 0 <= n < s.drop_first().len() && s.drop_first()[n] == x;
            assert(s[n + 1] == x);
        }
    }
    assert(s.to_set() =~= s.drop_first().to_set().insert(s[0]));
}

/// Linear search for a key in an arena.  The answer is meaningful whenever
/// the key type's executable equality is exact.
fn find_key<T: PartialEq>(keys: &Vec<T>, x: &T) -> (r: Option<usize>)
    ensures
        r matches Some(i) ==> i < keys@.len(),
        eq_is_exact::<T>() ==> match r {
            Some(i) => i < keys@.len() && keys@[i as int] == *x,
            None => !keys@.contains(*x),
        },
{
    let n = keys.len();
    let mut i: usize = 0;
    while i < n
        invariant
            n == keys@.len(),
            i <= n,
            eq_is_exact::<T>() ==> forall|m: int| 0 <= m < i ==> keys@[m] != *x,
        decreases n - i,
    {
        if keys[i] == *x {
            return Some(i);
        }
        i = i + 1;
    }
    None
}

/// Linear search for a position in an index bucket.
fn bucket_has(bucket: &Vec<usize>, j: usize) -> (r: bool)
    ensures
        r == bucket@.contains(j),
{
    let n = bucket.len();
    let mut k: usize = 0;
    while k < n
        invariant
            n == bucket@.len(),
            k <= n,
            forall|m: int| 0 <= m < k ==> bucket@[m] != j,
        decreases n - k,
    {
        if bucket[k] == j {
            proof {
                assert(bucket@.contains(j));
            }
            return true;
        }
        k = k + 1;
    }
    false
}

impl<L, R> Many2Many<L, R> {
    /// Every pairing read off the forward index occurs in the pair sequence.
    proof fn lemma_pairs_from_contains(self, i0: int, i: int, k: int)
        requires
            0 <= i0 <= i < self.fwd@.len(),
            0 <= k < self.fwd@[i]@.len(),
        ensures
            self.pairs_seq_from(i0).contains(
                (self.left_keys@[i], self.right_keys@[self.fwd@[i]@[k] as int]),
            ),
        decreases i - i0,
    {
        let p = (self.left_keys@[i], self.right_keys@[self.fwd@[i]@[k] as int]);
        let whole = self.pairs_seq_from(i0);
        let bucket = self.bucket_seq(i0);
        let tail = self.pairs_seq_from(i0 + 1);
        assert(whole == bucket + tail);
        if i == i0 {
            assert(bucket[k] == p);
            assert(whole[k] == p);
        } else {
            self.lemma_pairs_from_contains(i0 + 1, i, k);
            let n = choose|n: int| 0 <= n < tail.len() && tail[n] == p;
            assert(whole[bucket.len() + n] == p);
        }
    }

    /// Every pairing in the pair sequence comes from some forward-index slot.
    proof fn lemma_pairs_from_inversion(self, i0: int, p: (L, R))
        requires
            0 <= i0,
            self.pairs_seq_from(i0).contains(p),
        ensures
            exists|i: int, k: int|
                {
                    &&& i0 <= i < self.fwd@.len()
                    &&& 0 <= k < self.fwd@[i]@.len()
                    &&& p == (self.left_keys@[i], self.right_keys@[(#[trigger] self.fwd@[i]@[k]) as int])
                },
        decreases self.fwd@.len() - i0,
    {
        let whole = self.pairs_seq_from(i0);
        let bucket = self.bucket_seq(i0);
        let tail = self.pairs_seq_from(i0 + 1);
        assert(whole == bucket + tail);
        let n = choose|n: int| 0 <= n < whole.len() && whole[n] == p;
        if n < bucket.len() {
            assert(bucket[n] == p);
            assert(0 <= n < self.fwd@[i0]@.len());
            assert(p == (self.left_keys@[i0], self.right_keys@[self.fwd@[i0]@[n] as int]));
        } else {
            assert(tail[n - bucket.len()] == p);
            assert(tail.contains(p));
            self.lemma_pairs_from_inversion(i0 + 1, p);
        }
    }

    /// Membership in the abstract pairing set, forward direction.
    pub(crate) proof fn lemma_view_has(self, i: int, j: usize)
        requires
            0 <= i < self.fwd@.len(),
            self.fwd_has(i, j),
        ensures
            self@.contains((self.left_keys@[i], self.right_keys@[j as int])),
    {
        let k = choose|k: int| 0 <= k < self.fwd@[i]@.len() && self.fwd@[i]@[k] == j;
        self.lemma_pairs_from_contains(0, i, k);
    }

    /// Membership in the abstract pairing set, inverse direction: every held
    /// pairing is recorded in some forward-index slot.
    pub(crate) proof fn lemma_view_inversion(self, p: (L, R))
        requires
            self@.contains(p),
        ensures
            exists|i: int, k: int|
                {
                    &&& 0 <= i < self.fwd@.len()
                    &&& 0 <= k < self.fwd@[i]@.len()
                    &&& p == (self.left_keys@[i], self.right_keys@[(#[trigger] self.fwd@[i]@[k]) as int])
                },
    {
        assert(self.pairs_seq().contains(p));
        self.lemma_pairs_from_inversion(0, p);
    }

    /// Under well-formedness the pair sequence has no duplicates.
    proof fn lemma_pairs_from_nodup(self, i0: int)
        requires
            self.wf_core(),
            0 <= i0,
        ensures
            self.pairs_seq_from(i0).no_duplicates(),
        decreases self.fwd@.len() - i0,
    {
        if i0 < self.fwd@.len() {
            self.lemma_pairs_from_nodup(i0 + 1);
            let whole = self.pairs_seq_from(i0);
            let bucket = self.bucket_seq(i0);
            let tail = self.pairs_seq_from(i0 + 1);
            assert(whole == bucket + tail);
            assert forall|m: int, n: int|
                0 <= m < whole.len() && 0 <= n < whole.len() && m != n implies whole[m]
                != whole[n] by {
                if m < bucket.len() && n < bucket.len() {
                    // distinct slots of one bucket name distinct right keys
                    assert(self.fwd@[i0]@[m] != self.fwd@[i0]@[n]);
                    assert(self.right_keys@[self.fwd@[i0]@[m] as int] != self.right_keys@[
                        self.fwd@[i0]@[n] as int]);
                } else if m >= bucket.len() && n >= bucket.len() {
                    assert(tail[m - bucket.len()] != tail[n - bucket.len()]);
                } else {
                    // one pair lies in this bucket, the other in a later one,
                    // so their left keys differ
                    let a = if m < bucket.len() {
                        n
                    } else {
                        m
                    };
                    assert(tail.contains(tail[a - bucket.len()]));
                    self.lemma_pairs_from_inversion(i0 + 1, tail[a - bucket.len()]);
                    let (i2, k2) = choose|i2: int, k2: int|
                        {
                            &&& i0 + 1 <= i2 < self.fwd@.len()
                            &&& 0 <= k2 < self.fwd@[i2]@.len()
                            &&& tail[a - bucket.len()] == (self.left_keys@[i2], self.right_keys@[(
                            #[trigger] self.fwd@[i2]@[k2]) as int])
                        };
                    assert(self.left_keys@[i0] != self.left_keys@[i2]);
                }
            }
        }
    }

    /// The pair sequence lists each held pairing exactly once, so the
    /// abstract set is finite and exactly as large.
    pub(crate) proof fn lemma_pairs_props(self)
        requires
            self.wf_core(),
        ensures
            self.pairs_seq().no_duplicates(),
            self.pairs_seq().to_set() == self@,
            self@.len() == self.pairs_seq().len(),
            self@.finite(),
    {
        broadcast use vstd::seq_lib::seq_to_set_is_finite;

        self.lemma_pairs_from_nodup(0);
        self.pairs_seq().unique_seq_to_set();
    }

    /// How the abstract pairing set evolves under insertion: if `c` extends
    /// `m0` by at most the keys `left` (at position `i`) and `right` (at
    /// position `j`), and its forward index holds exactly the old pairings
    /// plus the slot `(i, j)`, then `c` holds exactly the old pairings plus
    /// `(left, right)`.
    proof fn lemma_extended_view(m0: Self, c: Self, i: usize, j: usize, left: L, right: R)
        requires
            m0.wf_core(),
            c.wf_core(),
            m0.left_keys@.len() <= c.left_keys@.len(),
            m0.right_keys@.len() <= c.right_keys@.len(),
            forall|n: int| 0 <= n < m0.left_keys@.len() ==> c.left_keys@[n] == m0.left_keys@[n],
            forall|n: int|
                0 <= n < m0.right_keys@.len() ==> c.right_keys@[n] == m0.right_keys@[n],
            (i as int) < c.left_keys@.len() && c.left_keys@[i as int] == left,
            (j as int) < c.right_keys@.len() && c.right_keys@[j as int] == right,
            m0.fwd@.len() <= c.fwd@.len(),
            forall|i2: int, j2: usize|
                0 <= i2 < c.fwd@.len() && (j2 as int) < c.right_keys@.len()
                    ==> (#[trigger] c.fwd_has(i2, j2) <==> (i2 < m0.fwd@.len() && m0.fwd_has(
                        i2,
                        j2,
                    )) || (i2 == i as int && j2 == j)),
        ensures
            c@ == m0@.insert((left, right)),
    {
        let p = (left, right);
        assert forall|q: (L, R)| c@.contains(q) implies m0@.contains(q) || q == p by {
            c.lemma_view_inversion(q);
            let (i2, k2) = choose|i2: int, k2: int|
                {
                    &&& 0 <= i2 < c.fwd@.len()
                    &&& 0 <= k2 < c.fwd@[i2]@.len()
                    &&& q == (c.left_keys@[i2], c.right_keys@[(#[trigger] c.fwd@[i2]@[k2]) as int])
                };
            let j2 = c.fwd@[i2]@[k2];
            assert(c.fwd_has(i2, j2));
            assert((j2 as int) < c.right_keys@.len());
            if i2 < m0.fwd@.len() && m0.fwd_has(i2, j2) {
                let k3 = choose|k3: int|
                    0 <= k3 < m0.fwd@[i2]@.len() && m0.fwd@[i2]@[k3] == j2;
                m0.lemma_pairs_from_contains(0, i2, k3);
                assert(m0@.contains(
                    (m0.left_keys@[i2], m0.right_keys@[m0.fwd@[i2]@[k3] as int]),
                ));
                assert(m0.left_keys@[i2] == c.left_keys@[i2]);
                assert(m0.right_keys@[j2 as int] == c.right_keys@[j2 as int]);
            } else {
                assert(i2 == i as int && j2 == j);
            }
        }
        assert forall|q: (L, R)| m0@.contains(q) implies c@.contains(q) by {
            m0.lemma_view_inversion(q);
            let (i2, k2) = choose|i2: int, k2: int|
                {
                    &&& 0 <= i2 < m0.fwd@.len()
                    &&& 0 <= k2 < m0.fwd@[i2]@.len()
                    &&& q == (m0.left_keys@[i2], m0.right_keys@[(#[trigger] m0.fwd@[i2]@[k2])
                        as int])
                };
            let j2 = m0.fwd@[i2]@[k2];
            assert(m0.fwd_has(i2, j2));
            assert((j2 as int) < m0.right_keys@.len());
            assert(c.fwd_has(i2, j2));
            let k3 = choose|k3: int| 0 <= k3 < c.fwd@[i2]@.len() && c.fwd@[i2]@[k3] == j2;
            c.lemma_pairs_from_contains(0, i2, k3);
            assert(c@.contains((c.left_keys@[i2], c.right_keys@[j2 as int])));
        }
        assert(c@.contains(p)) by {
            assert(c.fwd_has(i as int, j));
            c.lemma_view_has(i as int, j);
        }
        assert(c@ =~= m0@.insert(p));
    }

    /// The single workhorse behind insertion: if `c` differs from the well
    /// formed container `m0` exactly by recording the fresh pairing of `gl`
    /// (at left position `i`) with `gr` (at right position `j`) — reusing an
    /// existing arena slot for a known key and appending a slot for a new one
    /// — then `c` is well formed and holds exactly the old pairings plus
    /// `(gl, gr)`.
    proof fn lemma_insert_shape(m0: Self, c: Self, i: usize, j: usize, gl: L, gr: R)
        requires
            m0.wf_core(),
            m0@.len() < usize::MAX,
            // the left arena: unchanged, or extended by the new key
            (i as int) < c.left_keys@.len(),
            c.left_keys@[i as int] == gl,
            (i as int) < m0.left_keys@.len() ==> c.left_keys@ == m0.left_keys@,
            (i as int) == m0.left_keys@.len() ==> c.left_keys@ == m0.left_keys@.push(gl)
                && !m0.left_keys@.contains(gl),
            (i as int) <= m0.left_keys@.len(),
            // the right arena, likewise
            (j as int) < c.right_keys@.len(),
            c.right_keys@[j as int] == gr,
            (j as int) < m0.right_keys@.len() ==> c.right_keys@ == m0.right_keys@,
            (j as int) == m0.right_keys@.len() ==> c.right_keys@ == m0.right_keys@.push(gr)
                && !m0.right_keys@.contains(gr),
            (j as int) <= m0.right_keys@.len(),
            // the forward index: bucket `i` gains `j`, the rest is unchanged
            c.fwd@.len() == c.left_keys@.len(),
            forall|n: int|
                0 <= n < c.fwd@.len() && n != i ==> n < m0.fwd@.len() && (#[trigger] c.fwd@[n])@
                    == m0.fwd@[n]@,
            (i as int) < m0.fwd@.len() ==> c.fwd@[i as int]@ == m0.fwd@[i as int]@.push(j)
                && !m0.fwd@[i as int]@.contains(j),
            (i as int) == m0.fwd@.len() ==> c.fwd@[i as int]@ == seq![j],
            // the reverse index: bucket `j` gains `i`, the rest is unchanged
            c.rev@.len() == c.right_keys@.len(),
            forall|n: int|
                0 <= n < c.rev@.len() && n != j ==> n < m0.rev@.len() && (#[trigger] c.rev@[n])@
                    == m0.rev@[n]@,
            (j as int) < m0.rev@.len() ==> c.rev@[j as int]@ == m0.rev@[j as int]@.push(i),
            (j as int) == m0.rev@.len() ==> c.rev@[j as int]@ == seq![i],
        ensures
            c.inv(),
            !m0@.contains((gl, gr)),
            c@ == m0@.insert((gl, gr)),
            c@.len() == m0@.len() + 1,
            c.left_key_set() == m0.left_key_set().insert(gl),
            c.right_key_set() == m0.right_key_set().insert(gr),
    {
        let p = (gl, gr);
        let nl0 = m0.left_keys@.len() as int;
        let nr0 = m0.right_keys@.len() as int;
        // the arena slot named by a fresh key holds no old pairing
        assert((j as int) == nr0 ==> forall|i2: int, k: int|
            0 <= i2 < m0.fwd@.len() && 0 <= k < m0.fwd@[i2]@.len() ==> (#[trigger] m0.fwd@[i2]@[
            k]) != j);
        assert((i as int) == nl0 ==> forall|j2: int, k: int|
            0 <= j2 < m0.rev@.len() && 0 <= k < m0.rev@[j2]@.len() ==> (#[trigger] m0.rev@[j2]@[
            k]) != i);
        // the old pairing `(i, j)` is absent from both old indices
        assert((i as int) < m0.fwd@.len() ==> !m0.fwd_has(i as int, j));
        assert((j as int) < m0.rev@.len() ==> !m0.rev_has(j as int, i)) by {
            if (j as int) < m0.rev@.len() {
                if (i as int) < m0.fwd@.len() {
                    assert(!m0.fwd_has(i as int, j));
                } else {
                    if m0.rev@[j as int]@.contains(i) {
                        let k = choose|k: int|
                            0 <= k < m0.rev@[j as int]@.len() && m0.rev@[j as int]@[k] == i;
                        assert(m0.rev@[j as int]@[k] < m0.left_keys@.len());
                        assert(false);
                    }
                }
            }
        }
        // the pairing itself is fresh
        assert(!m0@.contains(p)) by {
            if m0@.contains(p) {
                m0.lemma_view_inversion(p);
                let (i2, k2) = choose|i2: int, k2: int|
                    {
                        &&& 0 <= i2 < m0.fwd@.len()
                        &&& 0 <= k2 < m0.fwd@[i2]@.len()
                        &&& p == (m0.left_keys@[i2], m0.right_keys@[(#[trigger] m0.fwd@[i2]@[k2])
                            as int])
                    };
                let j2 = m0.fwd@[i2]@[k2];
                assert(m0.left_keys@[i2] == gl);
                assert((i as int) < nl0) by {
                    if (i as int) == nl0 {
                        assert(m0.left_keys@.contains(gl));
                        assert(false);
                    }
                }
                assert(m0.left_keys@[i as int] == gl);
                assert(i2 == i as int) by {
                    if i2 < i as int {
                        assert(m0.left_keys@[i2] != m0.left_keys@[i as int]);
                    } else if i2 > i as int {
                        assert(m0.left_keys@[i as int] != m0.left_keys@[i2]);
                    }
                }
                assert((j2 as int) < nr0);
                assert(m0.right_keys@[j2 as int] == gr);
                assert((j as int) < nr0) by {
                    if (j as int) == nr0 {
                        assert(m0.right_keys@.contains(gr));
                        assert(false);
                    }
                }
                assert(m0.right_keys@[j as int] == gr);
                assert(j2 == j) by {
                    if (j2 as int) < j as int {
                        assert(m0.right_keys@[j2 as int] != m0.right_keys@[j as int]);
                    } else if (j2 as int) > j as int {
                        assert(m0.right_keys@[j as int] != m0.right_keys@[j2 as int]);
                    }
                }
                assert(m0.fwd@[i as int]@.contains(j));
                assert(false);
            }
        }
        // membership in the new forward index
        assert forall|i2: int, j2: usize|
            0 <= i2 < c.fwd@.len() && (j2 as int) < c.right_keys@.len() implies (#[trigger]
        c.fwd_has(i2, j2) <==> (i2 < m0.fwd@.len() && m0.fwd_has(i2, j2)) || (i2 == i as int && j2
            == j)) by {
            if i2 == i as int {
                if (i as int) < m0.fwd@.len() {
                    lemma_contains_push(m0.fwd@[i as int]@, j, j2);
                } else {
                    assert(c.fwd@[i2]@ == seq![j]);
                    assert(c.fwd@[i2]@.contains(j2) <==> j2 == j) by {
                        assert(c.fwd@[i2]@[0] == j);
                        if c.fwd@[i2]@.contains(j2) {
                            let k = choose|k: int|
                                0 <= k < c.fwd@[i2]@.len() && c.fwd@[i2]@[k] == j2;
                            assert(k == 0);
                        }
                    }
                }
            }
        }
        // membership in the new reverse index
        assert forall|j2: int, i2: usize|
            0 <= j2 < c.rev@.len() && (i2 as int) < c.left_keys@.len() implies (#[trigger]
        c.rev_has(j2, i2) <==> (j2 < m0.rev@.len() && m0.rev_has(j2, i2)) || (j2 == j as int && i2
            == i)) by {
            if j2 == j as int {
                if (j as int) < m0.rev@.len() {
                    lemma_contains_push(m0.rev@[j as int]@, i, i2);
                    assert(!m0.rev_has(j as int, i));
                } else {
                    assert(c.rev@[j2]@ == seq![i]);
                    assert(c.rev@[j2]@.contains(i2) <==> i2 == i) by {
                        assert(c.rev@[j2]@[0] == i);
                        if c.rev@[j2]@.contains(i2) {
                            let k = choose|k: int|
                                0 <= k < c.rev@[j2]@.len() && c.rev@[j2]@[k] == i2;
                            assert(k == 0);
                        }
                    }
                }
            }
        }
        // well-formedness of the result
        assert(c.wf_core()) by {
            assert forall|i1: int, i2: int|
                0 <= i1 < i2 < c.left_keys@.len() implies c.left_keys@[i1] != c.left_keys@[
            i2] by {
                if i2 < nl0 {
                } else {
                    assert(c.left_keys@[i2] == gl);
                    assert(m0.left_keys@.contains(m0.left_keys@[i1]));
                }
            }
            assert forall|j1: int, j2: int|
                0 <= j1 < j2 < c.right_keys@.len() implies c.right_keys@[j1] != c.right_keys@[
            j2] by {
                if j2 < nr0 {
                } else {
                    assert(c.right_keys@[j2] == gr);
                    assert(m0.right_keys@.contains(m0.right_keys@[j1]));
                }
            }
            assert forall|i2: int, k: int|
                0 <= i2 < c.fwd@.len() && 0 <= k < c.fwd@[i2]@.len() implies c.fwd@[i2]@[k]
                < c.right_keys@.len() by {
                if i2 == i as int {
                    if (i as int) < m0.fwd@.len() {
                        if k < m0.fwd@[i2]@.len() {
                        } else {
                            assert(c.fwd@[i2]@[k] == j);
                        }
                    } else {
                        assert(c.fwd@[i2]@[k] == j);
                    }
                }
            }
            assert forall|j2: int, k: int|
                0 <= j2 < c.rev@.len() && 0 <= k < c.rev@[j2]@.len() implies c.rev@[j2]@[k]
                < c.left_keys@.len() by {
                if j2 == j as int {
                    if (j as int) < m0.rev@.len() {
                        if k < m0.rev@[j2]@.len() {
                        } else {
                            assert(c.rev@[j2]@[k] == i);
                        }
                    } else {
                        assert(c.rev@[j2]@[k] == i);
                    }
                }
            }
            assert forall|i2: int| 0 <= i2 < c.fwd@.len() implies (#[trigger] c.fwd@[
            i2])@.no_duplicates() by {
                if i2 == i as int {
                    if (i as int) < m0.fwd@.len() {
                        let s0 = m0.fwd@[i2]@;
                        assert forall|k1: int, k2: int|
                            0 <= k1 < c.fwd@[i2]@.len() && 0 <= k2 < c.fwd@[i2]@.len() && k1 != k2
                                implies c.fwd@[i2]@[k1] != c.fwd@[i2]@[k2] by {
                            if k1 < s0.len() && k2 < s0.len() {
                                assert(s0[k1] != s0[k2]);
                            } else if k1 < s0.len() {
                                assert(c.fwd@[i2]@[k2] == j && !s0.contains(s0[k1]) == false);
                                assert(s0.contains(s0[k1]));
                            } else {
                                assert(c.fwd@[i2]@[k1] == j);
                                assert(s0.contains(s0[k2]));
                            }
                        }
                    }
                }
            }
            assert forall|j2: int| 0 <= j2 < c.rev@.len() implies (#[trigger] c.rev@[
            j2])@.no_duplicates() by {
                if j2 == j as int {
                    if (j as int) < m0.rev@.len() {
                        let s0 = m0.rev@[j2]@;
                        assert(!s0.contains(i)) by {
                            assert(!m0.rev_has(j as int, i));
                        }
                        assert forall|k1: int, k2: int|
                            0 <= k1 < c.rev@[j2]@.len() && 0 <= k2 < c.rev@[j2]@.len() && k1 != k2
                                implies c.rev@[j2]@[k1] != c.rev@[j2]@[k2] by {
                            if k1 < s0.len() && k2 < s0.len() {
                                assert(s0[k1] != s0[k2]);
                            } else if k1 < s0.len() {
                                assert(c.rev@[j2]@[k2] == i);
                                assert(s0.contains(s0[k1]));
                            } else {
                                assert(c.rev@[j2]@[k1] == i);
                                assert(s0.contains(s0[k2]));
                            }
                        }
                    }
                }
            }
            assert forall|i2: usize, j2: usize|
                i2 < c.fwd@.len() && j2 < c.rev@.len() implies (#[trigger] c.fwd_has(i2 as int, j2)
                <==> #[trigger] c.rev_has(j2 as int, i2)) by {
                assert(c.fwd_has(i2 as int, j2) <==> (i2 < m0.fwd@.len() && m0.fwd_has(
                    i2 as int,
                    j2,
                )) || (i2 == i && j2 == j));
                assert(c.rev_has(j2 as int, i2) <==> ((j2 as int) < m0.rev@.len() && m0.rev_has(
                    j2 as int,
                    i2,
                )) || (j2 == j && i2 == i));
                if i2 < m0.fwd@.len() && (j2 as int) < m0.rev@.len() {
                    assert(m0.fwd_has(i2 as int, j2) <==> m0.rev_has(j2 as int, i2));
                } else if i2 < m0.fwd@.len() {
                    // `j2` names the appended right slot
                    assert(j2 == j);
                    assert(!m0.fwd_has(i2 as int, j2)) by {
                        if m0.fwd@[i2 as int]@.contains(j2) {
                            let k = choose|k: int|
                                0 <= k < m0.fwd@[i2 as int]@.len() && m0.fwd@[i2 as int]@[k] == j2;
                            assert(m0.fwd@[i2 as int]@[k] < m0.right_keys@.len());
                            assert(false);
                        }
                    }
                } else {
                    // `i2` names the appended left slot
                    assert(i2 == i);
                    if (j2 as int) < m0.rev@.len() {
                        assert(!m0.rev_has(j2 as int, i2)) by {
                            if m0.rev@[j2 as int]@.contains(i2) {
                                let k = choose|k: int|
                                    0 <= k < m0.rev@[j2 as int]@.len() && m0.rev@[j2 as int]@[k]
                                        == i2;
                                assert(m0.rev@[j2 as int]@[k] < m0.left_keys@.len());
                                assert(false);
                            }
                        }
                    }
                }
            }
        }
        // the abstract value gains exactly the new pairing
        Self::lemma_extended_view(m0, c, i, j, gl, gr);
        // key sets
        assert(c.left_key_set() == m0.left_key_set().insert(gl)) by {
            if (i as int) < nl0 {
                assert(m0.left_keys@.contains(gl));
                assert(c.left_key_set() =~= m0.left_key_set().insert(gl));
            } else {
                lemma_to_set_push(m0.left_keys@, gl);
            }
        }
        assert(c.right_key_set() == m0.right_key_set().insert(gr)) by {
            if (j as int) < nr0 {
                assert(m0.right_keys@.contains(gr));
                assert(c.right_key_set() =~= m0.right_key_set().insert(gr));
            } else {
                lemma_to_set_push(m0.right_keys@, gr);
            }
        }
        // cardinality, and the machine-word cap
        m0.lemma_pairs_props();
        c.lemma_pairs_props();
        assert(c@.len() == m0@.len() + 1);
        assert(c.pairs_seq().len() <= usize::MAX);
    }

    /// Later suffixes of the pair sequence are no longer than earlier ones.
    pub(crate) proof fn lemma_pairs_from_len_mono(self, a: int, b: int)
        requires
            0 <= a <= b,
        ensures
            self.pairs_seq_from(b).len() <= self.pairs_seq_from(a).len(),
        decreases b - a,
    {
        if a < b {
            self.lemma_pairs_from_len_mono(a + 1, b);
        }
    }

    /// The left-key sequence lists the distinct left keys: it has no
    /// duplicates, and its length is the cardinality of the left-key set.
    pub proof fn lemma_left_seq_props(self)
        requires
            self.inv(),
        ensures
            self.left_seq().no_duplicates(),
            self.left_seq().to_set() == self.left_key_set(),
            self.left_seq().len() == self.left_key_set().len(),
    {
        assert(self.left_seq().no_duplicates()) by {
            assert forall|i: int, j: int|
                0 <= i < self.left_seq().len() && 0 <= j < self.left_seq().len() && i != j
                    implies self.left_seq()[i] != self.left_seq()[j] by {
                if i < j {
                    assert(self.left_keys@[i] != self.left_keys@[j]);
                } else {
                    assert(self.left_keys@[j] != self.left_keys@[i]);
                }
            }
        }
        self.left_seq().unique_seq_to_set();
    }

    /// The right-key sequence lists the distinct right keys: it has no
    /// duplicates, and its length is the cardinality of the right-key set.
    pub proof fn lemma_right_seq_props(self)
        requires
            self.inv(),
        ensures
            self.right_seq().no_duplicates(),
            self.right_seq().to_set() == self.right_key_set(),
            self.right_seq().len() == self.right_key_set().len(),
    {
        assert(self.right_seq().no_duplicates()) by {
            assert forall|i: int, j: int|
                0 <= i < self.right_seq().len() && 0 <= j < self.right_seq().len() && i != j
                    implies self.right_seq()[i] != self.right_seq()[j] by {
                if i < j {
                    assert(self.right_keys@[i] != self.right_keys@[j]);
                } else {
                    assert(self.right_keys@[j] != self.right_keys@[i]);
                }
            }
        }
        self.right_seq().unique_seq_to_set();
    }
}

impl<L: PartialEq, R: PartialEq> Many2Many<L, R> {
    /// Inserts the pairing `(left, right)`.  Returns `true` and records the
    /// pairing if it was absent; returns `false` and changes nothing if it
    /// was already present.  Either way, both keys are present afterwards.
    pub fn insert(&mut self, left: L, right: R) -> (b: bool)
        requires
            eq_is_exact::<L>(),
            eq_is_exact::<R>(),
            old(self)@.len() < usize::MAX,
        ensures
            b == !old(self)@.contains((left, right)),
            final(self)@ == old(self)@.insert((left, right)),
            final(self).left_key_set() == old(self).left_key_set().insert(left),
            final(self).right_key_set() == old(self).right_key_set().insert(right),
            !b ==> *final(self) == *old(self),
    {
        let ghost m0 = *old(self);
        let ghost gl = left;
        let ghost gr = right;
        proof {
            use_type_invariant(&*self);
        }
        let mut tmp = Many2Many::new();
        core::mem::swap(self, &mut tmp);
        let Many2Many { mut left_keys, mut right_keys, mut fwd, mut rev } = tmp;
        let li = find_key(&left_keys, &left);
        let ri = find_key(&right_keys, &right);
        let b: bool;
        match (li, ri) {
            (Some(i), Some(j)) => {
                if bucket_has(&fwd[i], j) {
                    b = false;
                    proof {
                        let c = Many2Many::<L, R> { left_keys, right_keys, fwd, rev };
                        assert(c == m0);
                        m0.lemma_view_has(i as int, j);
                        assert(m0@.contains((gl, gr)));
                        assert(m0@.insert((gl, gr)) =~= m0@);
                        assert(m0.left_keys@.contains(gl));
                        assert(m0.left_key_set().insert(gl) =~= m0.left_key_set());
                        assert(m0.right_keys@.contains(gr));
                        assert(m0.right_key_set().insert(gr) =~= m0.right_key_set());
                    }
                } else {
                    fwd[i].push(j);
                    rev[j].push(i);
                    b = true;
                    proof {
                        let c = Many2Many::<L, R> { left_keys, right_keys, fwd, rev };
                        Self::lemma_insert_shape(m0, c, i, j, gl, gr);
                    }
                }
            }
            (Some(i), None) => {
                let j = right_keys.len();
                right_keys.push(right);
                fwd[i].push(j);
                let mut jb: Vec<usize> = Vec::new();
                jb.push(i);
                rev.push(jb);
                b = true;
                proof {
                    let c = Many2Many::<L, R> { left_keys, right_keys, fwd, rev };
                    assert(c.rev@[j as int]@ =~= seq![i]);
                    assert(!m0.fwd@[i as int]@.contains(j)) by {
                        if m0.fwd@[i as int]@.contains(j) {
                            let k = choose|k: int|
                                0 <= k < m0.fwd@[i as int]@.len() && m0.fwd@[i as int]@[k] == j;
                            assert(m0.fwd@[i as int]@[k] < m0.right_keys@.len());
                            assert(false);
                        }
                    }
                    Self::lemma_insert_shape(m0, c, i, j, gl, gr);
                }
            }
            (None, Some(j)) => {
                let i = left_keys.len();
                left_keys.push(left);
                let mut ib: Vec<usize> = Vec::new();
                ib.push(j);
                fwd.push(ib);
                rev[j].push(i);
                b = true;
                proof {
                    let c = Many2Many::<L, R> { left_keys, right_keys, fwd, rev };
                    assert(c.fwd@[i as int]@ =~= seq![j]);
                    Self::lemma_insert_shape(m0, c, i, j, gl, gr);
                }
            }
            (None, None) => {
                let i = left_keys.len();
                let j = right_keys.len();
                left_keys.push(left);
                right_keys.push(right);
                let mut ib: Vec<usize> = Vec::new();
                ib.push(j);
                fwd.push(ib);
                let mut jb: Vec<usize> = Vec::new();
                jb.push(i);
                rev.push(jb);
                b = true;
                proof {
                    let c = Many2Many::<L, R> { left_keys, right_keys, fwd, rev };
                    assert(c.fwd@[i as int]@ =~= seq![j]);
                    assert(c.rev@[j as int]@ =~= seq![i]);
                    Self::lemma_insert_shape(m0, c, i, j, gl, gr);
                }
            }
        }
        let m1 = Many2Many { left_keys, right_keys, fwd, rev };
        *self = m1;
        b
    }

    /// Adds every pairing of `pairs`, front to back, exactly as repeated
    /// `insert` calls would: pairings already present are skipped silently.
    pub fn extend_pairs(&mut self, pairs: Vec<(L, R)>)
        requires
            eq_is_exact::<L>(),
            eq_is_exact::<R>(),
            old(self)@.len() + pairs@.len() <= usize::MAX,
        ensures
            final(self)@ == old(self)@ + pairs@.to_set(),
            final(self).left_key_set() == old(self).left_key_set() + pair_lefts(pairs@),
            final(self).right_key_set() == old(self).right_key_set() + pair_rights(pairs@),
    {
        let ghost ps0 = pairs@;
        let mut ps = pairs;
        while ps.len() > 0
            invariant
                eq_is_exact::<L>(),
                eq_is_exact::<R>(),
                self@.len() + ps@.len() <= usize::MAX,
                self@ + ps@.to_set() == old(self)@ + ps0.to_set(),
                self.left_key_set() + pair_lefts(ps@) == old(self).left_key_set() + pair_lefts(
                    ps0,
                ),
                self.right_key_set() + pair_rights(ps@) == old(self).right_key_set() + pair_rights(
                    ps0,
                ),
            decreases ps@.len(),
        {
            let ghost view_a = self@;
            let ghost ps_a = ps@;
            let (l, r) = ps.remove(0);
            proof {
                use_type_invariant(&*self);
                self.lemma_pairs_props();
                assert(ps@ =~= ps_a.drop_first());
                lemma_to_set_drop_first(ps_a);
                assert(ps_a.map_values(|p: (L, R)| p.0).drop_first() =~= ps@.map_values(
                    |p: (L, R)| p.0,
                ));
                lemma_to_set_drop_first(ps_a.map_values(|p: (L, R)| p.0));
                assert(ps_a.map_values(|p: (L, R)| p.1).drop_first() =~= ps@.map_values(
                    |p: (L, R)| p.1,
                ));
                lemma_to_set_drop_first(ps_a.map_values(|p: (L, R)| p.1));
            }
            self.insert(l, r);
            proof {
                assert(self@ + ps@.to_set() =~= view_a + ps_a.to_set());
                assert(self.left_key_set() + pair_lefts(ps@) =~= old(self).left_key_set()
                    + pair_lefts(ps0));
                assert(self.right_key_set() + pair_rights(ps@) =~= old(self).right_key_set()
                    + pair_rights(ps0));
            }
        }
        proof {
            assert(ps@.to_set() =~= Set::empty());
            assert(pair_lefts(ps@) =~= Set::empty());
            assert(pair_rights(ps@) =~= Set::empty());
            assert(self@ =~= old(self)@ + ps0.to_set());
            assert(self.left_key_set() =~= old(self).left_key_set() + pair_lefts(ps0));
            assert(self.right_key_set() =~= old(self).right_key_set() + pair_rights(ps0));
        }
    }

    /// Builds a container from a sequence of pairings, front to back, as
    /// repeated `insert` calls would: duplicated pairings are kept once.
    pub fn from_pairs(pairs: Vec<(L, R)>) -> (m: Self)
        requires
            eq_is_exact::<L>(),
            eq_is_exact::<R>(),
        ensures
            m@ == pairs@.to_set(),
            m.left_key_set() == pair_lefts(pairs@),
            m.right_key_set() == pair_rights(pairs@),
    {
        let n = pairs.len();
        let mut m = Many2Many::new();
        proof {
            assert(m@.len() + pairs@.len() <= usize::MAX);
        }
        m.extend_pairs(pairs);
        proof {
            assert(m@ =~= pairs@.to_set());
            assert(m.left_key_set() =~= pair_lefts(pairs@));
            assert(m.right_key_set() =~= pair_rights(pairs@));
        }
        m
    }

    /// Looks up every right key paired with `left`.  Returns `None` exactly
    /// when `left` has never been inserted; otherwise the returned vector
    /// lists each associated right key exactly once, in no promised order.
    pub fn get_by_left(&self, left: &L) -> (r: Option<Vec<&R>>)
        requires
            eq_is_exact::<L>(),
        ensures
            match r {
                Some(v) => {
                    &&& self.left_key_set().contains(*left)
                    &&& deref_seq(v@).to_set() == self.rights_of(*left)
                    &&& deref_seq(v@).no_duplicates()
                    &&& v@.len() == self.rights_of(*left).len()
                },
                None => !self.left_key_set().contains(*left),
            },
    {
        proof {
            use_type_invariant(self);
        }
        match find_key(&self.left_keys, left) {
            Some(i) => {
                let bucket_len = self.fwd[i].len();
                let mut v: Vec<&R> = Vec::new();
                let mut k: usize = 0;
                while k < bucket_len
                    invariant
                        self.inv(),
                        (i as int) < self.fwd@.len(),
                        bucket_len == self.fwd@[i as int]@.len(),
                        k <= bucket_len,
                        v@.len() == k,
                        forall|n: int|
                            0 <= n < k ==> *(#[trigger] v@[n]) == self.right_keys@[self.fwd@[
                                i as int]@[n] as int],
                    decreases bucket_len - k,
                {
                    let idx = self.fwd[i][k];
                    v.push(&self.right_keys[idx]);
                    k = k + 1;
                }
                proof {
                    assert(self.left_keys@[i as int] == *left);
                    assert(self.left_keys@.contains(*left));
                    self.lemma_get_by_left_post(i, *left, v@);
                }
                Some(v)
            }
            None => {
                proof {
                    if self.left_keys@.contains(*left) {
                        assert(false);
                    }
                }
                None
            }
        }
    }

    /// Looks up every left key paired with `right`; the mirror image of
    /// `get_by_left`, answered from the reverse index.
    pub fn get_by_right(&self, right: &R) -> (r: Option<Vec<&L>>)
        requires
            eq_is_exact::<R>(),
        ensures
            match r {
                Some(v) => {
                    &&& self.right_key_set().contains(*right)
                    &&& deref_seq(v@).to_set() == self.lefts_of(*right)
                    &&& deref_seq(v@).no_duplicates()
                    &&& v@.len() == self.lefts_of(*right).len()
                },
                None => !self.right_key_set().contains(*right),
            },
    {
        proof {
            use_type_invariant(self);
        }
        match find_key(&self.right_keys, right) {
            Some(j) => {
                let bucket_len = self.rev[j].len();
                let mut v: Vec<&L> = Vec::new();
                let mut k: usize = 0;
                while k < bucket_len
                    invariant
                        self.inv(),
                        (j as int) < self.rev@.len(),
                        bucket_len == self.rev@[j as int]@.len(),
                        k <= bucket_len,
                        v@.len() == k,
                        forall|n: int|
                            0 <= n < k ==> *(#[trigger] v@[n]) == self.left_keys@[self.rev@[
                                j as int]@[n] as int],
                    decreases bucket_len - k,
                {
                    let idx = self.rev[j][k];
                    v.push(&self.left_keys[idx]);
                    k = k + 1;
                }
                proof {
                    assert(self.right_keys@[j as int] == *right);
                    assert(self.right_keys@.contains(*right));
                    self.lemma_get_by_right_post(j, *right, v@);
                }
                Some(v)
            }
            None => {
                proof {
                    if self.right_keys@.contains(*right) {
                        assert(false);
                    }
                }
                None
            }
        }
    }
}

impl<L, R> Many2Many<L, R> {
    /// Removes every pairing and every key.
    pub fn clear(&mut self)
        ensures
            final(self)@ == Set::<(L, R)>::empty(),
            final(self).left_key_set() == Set::<L>::empty(),
            final(self).right_key_set() == Set::<R>::empty(),
    {
        let mut tmp = Many2Many::new();
        core::mem::swap(self, &mut tmp);
    }

    /// A vector read off the forward bucket of left position `i` lists
    /// exactly the right keys paired with the key there.
    proof fn lemma_get_by_left_post(self, i: usize, l: L, v: Seq<&R>)
        requires
            self.wf_core(),
            (i as int) < self.fwd@.len(),
            self.left_keys@[i as int] == l,
            v.len() == self.fwd@[i as int]@.len(),
            forall|n: int|
                0 <= n < v.len() ==> *(#[trigger] v[n]) == self.right_keys@[self.fwd@[i as int]@[n]
                    as int],
        ensures
            deref_seq(v).to_set() == self.rights_of(l),
            deref_seq(v).no_duplicates(),
            v.len() == self.rights_of(l).len(),
    {
        let ii = i as int;
        // each vector slot is an associated right key
        assert forall|n: int| 0 <= n < v.len() implies self.rights_of(l).contains(
            *(#[trigger] v[n]),
        ) by {
            assert(self.right_keys@[self.fwd@[ii]@[n] as int] == *v[n]);
        }
        // distinct slots hold distinct keys
        assert forall|n1: int, n2: int| 0 <= n1 < n2 < v.len() implies *v[n1] != *v[n2] by {
            assert(self.fwd@[ii]@[n1] != self.fwd@[ii]@[n2]);
            assert(self.right_keys@[self.fwd@[ii]@[n1] as int] != self.right_keys@[self.fwd@[
                ii]@[n2] as int]);
        }
        // every associated right key appears in some slot
        assert forall|x: R| #[trigger] self.rights_of(l).contains(x) implies exists|n: int|
            0 <= n < v.len() && *(#[trigger] v[n]) == x by {
            let (i2, k2) = choose|i2: int, k2: int|
                {
                    &&& 0 <= i2 < self.fwd@.len()
                    &&& 0 <= k2 < self.fwd@[i2]@.len()
                    &&& self.left_keys@[i2] == l
                    &&& self.right_keys@[self.fwd@[i2]@[k2] as int] == x
                };
            assert(i2 == ii) by {
                if i2 < ii {
                    assert(self.left_keys@[i2] != self.left_keys@[ii]);
                } else if i2 > ii {
                    assert(self.left_keys@[ii] != self.left_keys@[i2]);
                }
            }
            assert(*v[k2] == x);
        }
        // therefore the association set is exactly as large as the vector
        let ds = deref_seq(v);
        assert(ds.no_duplicates());
        ds.unique_seq_to_set();
        assert(self.rights_of(l) =~= ds.to_set()) by {
            assert forall|x: R| ds.to_set().contains(x) implies self.rights_of(l).contains(x) by {
                let n = choose|n: int| 0 <= n < ds.len() && ds[n] == x;
                assert(self.rights_of(l).contains(*v[n]));
            }
            assert forall|x: R| self.rights_of(l).contains(x) implies ds.to_set().contains(x) by {
                let n = choose|n: int| 0 <= n < v.len() && *v[n] == x;
                assert(ds[n] == x);
            }
        }
    }

    /// The mirror image of `lemma_get_by_left_post`, over the reverse index.
    proof fn lemma_get_by_right_post(self, j: usize, r: R, v: Seq<&L>)
        requires
            self.wf_core(),
            (j as int) < self.rev@.len(),
            self.right_keys@[j as int] == r,
            v.len() == self.rev@[j as int]@.len(),
            forall|n: int|
                0 <= n < v.len() ==> *(#[trigger] v[n]) == self.left_keys@[self.rev@[j as int]@[n]
                    as int],
        ensures
            deref_seq(v).to_set() == self.lefts_of(r),
            deref_seq(v).no_duplicates(),
            v.len() == self.lefts_of(r).len(),
    {
        let jj = j as int;
        assert forall|n: int| 0 <= n < v.len() implies self.lefts_of(r).contains(
            *(#[trigger] v[n]),
        ) by {
            assert(self.left_keys@[self.rev@[jj]@[n] as int] == *v[n]);
        }
        assert forall|n1: int, n2: int| 0 <= n1 < n2 < v.len() implies *v[n1] != *v[n2] by {
            assert(self.rev@[jj]@[n1] != self.rev@[jj]@[n2]);
            assert(self.left_keys@[self.rev@[jj]@[n1] as int] != self.left_keys@[self.rev@[
                jj]@[n2] as int]);
        }
        assert forall|x: L| #[trigger] self.lefts_of(r).contains(x) implies exists|n: int|
            0 <= n < v.len() && *(#[trigger] v[n]) == x by {
            let (j2, k2) = choose|j2: int, k2: int|
                {
                    &&& 0 <= j2 < self.rev@.len()
                    &&& 0 <= k2 < self.rev@[j2]@.len()
                    &&& self.right_keys@[j2] == r
                    &&& self.left_keys@[self.rev@[j2]@[k2] as int] == x
                };
            assert(j2 == jj) by {
                if j2 < jj {
                    assert(self.right_keys@[j2] != self.right_keys@[jj]);
                } else if j2 > jj {
                    assert(self.right_keys@[jj] != self.right_keys@[j2]);
                }
            }
            assert(*v[k2] == x);
        }
        let ds = deref_seq(v);
        assert(ds.no_duplicates());
        ds.unique_seq_to_set();
        assert(self.lefts_of(r) =~= ds.to_set()) by {
            assert forall|x: L| ds.to_set().contains(x) implies self.lefts_of(r).contains(x) by {
                let n = choose|n: int| 0 <= n < ds.len() && ds[n] == x;
                assert(self.lefts_of(r).contains(*v[n]));
            }
            assert forall|x: L| self.lefts_of(r).contains(x) implies ds.to_set().contains(x) by {
                let n = choose|n: int| 0 <= n < v.len() && *v[n] == x;
                assert(ds[n] == x);
            }
        }
    }
}

impl<L, R> Many2Many<L, R> {
    /// A pairing whose keys sit at positions `i` and `j`, with `j` missing
    /// from the forward bucket of `i`, is not held.
    proof fn lemma_absent_pair(self, i: usize, j: usize, l: L, r: R)
        requires
            self.wf_core(),
            (i as int) < self.left_keys@.len(),
            self.left_keys@[i as int] == l,
            (j as int) < self.right_keys@.len(),
            self.right_keys@[j as int] == r,
            !self.fwd@[i as int]@.contains(j),
        ensures
            !self@.contains((l, r)),
    {
        if self@.contains((l, r)) {
            self.lemma_view_inversion((l, r));
            let (i2, k2) = choose|i2: int, k2: int|
                {
                    &&& 0 <= i2 < self.fwd@.len()
                    &&& 0 <= k2 < self.fwd@[i2]@.len()
                    &&& (l, r) == (self.left_keys@[i2], self.right_keys@[(#[trigger] self.fwd@[
                        i2]@[k2]) as int])
                };
            let j2 = self.fwd@[i2]@[k2];
            assert(i2 == i as int) by {
                if i2 < i as int {
                    assert(self.left_keys@[i2] != self.left_keys@[i as int]);
                } else if i2 > i as int {
                    assert(self.left_keys@[i as int] != self.left_keys@[i2]);
                }
            }
            assert((j2 as int) < self.right_keys@.len());
            assert(j2 == j) by {
                if (j2 as int) < j as int {
                    assert(self.right_keys@[j2 as int] != self.right_keys@[j as int]);
                } else if (j2 as int) > j as int {
                    assert(self.right_keys@[j as int] != self.right_keys@[j2 as int]);
                }
            }
            assert(self.fwd@[i as int]@.contains(j));
            assert(false);
        }
    }

    /// Both keys of a held pairing are present in their arenas.
    proof fn lemma_pair_needs_keys(self, l: L, r: R)
        requires
            self.wf_core(),
            self@.contains((l, r)),
        ensures
            self.left_keys@.contains(l),
            self.right_keys@.contains(r),
    {
        self.lemma_view_inversion((l, r));
        let (i2, k2) = choose|i2: int, k2: int|
            {
                &&& 0 <= i2 < self.fwd@.len()
                &&& 0 <= k2 < self.fwd@[i2]@.len()
                &&& (l, r) == (self.left_keys@[i2], self.right_keys@[(#[trigger] self.fwd@[i2]@[
                    k2]) as int])
            };
        let j2 = self.fwd@[i2]@[k2];
        assert(self.left_keys@[i2] == l);
        assert((j2 as int) < self.right_keys@.len());
        assert(self.right_keys@[j2 as int] == r);
    }
}

impl<L: PartialEq, R: PartialEq> Many2Many<L, R> {
    /// Does the container hold the pairing `(left, right)`?  The answer is
    /// meaningful whenever both key types' executable equality is exact.
    fn has_pair(&self, left: &L, right: &R) -> (r: bool)
        ensures
            eq_is_exact::<L>() && eq_is_exact::<R>() ==> r == self@.contains((*left, *right)),
    {
        proof {
            use_type_invariant(self);
        }
        let li = find_key(&self.left_keys, left);
        let ri = find_key(&self.right_keys, right);
        match (li, ri) {
            (Some(i), Some(j)) => {
                let has = bucket_has(&self.fwd[i], j);
                proof {
                    if eq_is_exact::<L>() && eq_is_exact::<R>() {
                        if has {
                            self.lemma_view_has(i as int, j);
                        } else {
                            self.lemma_absent_pair(i, j, *left, *right);
                        }
                    }
                }
                has
            }
            _ => {
                proof {
                    if eq_is_exact::<L>() && eq_is_exact::<R>() && self@.contains(
                        (*left, *right),
                    ) {
                        self.lemma_pair_needs_keys(*left, *right);
                        assert(false);
                    }
                }
                false
            }
        }
    }

    /// Is every pairing held here also held by `other`?  The answer is
    /// meaningful whenever both key types' executable equality is exact.
    fn subset_of(&self, other: &Self) -> (r: bool)
        ensures
            eq_is_exact::<L>() && eq_is_exact::<R>() ==> r == self@.subset_of(other@),
    {
        proof {
            use_type_invariant(self);
        }
        let mut i: usize = 0;
        while i < self.fwd.len()
            invariant
                self.inv(),
                i <= self.fwd@.len(),
                eq_is_exact::<L>() && eq_is_exact::<R>() ==> forall|i2: int, k: int|
                    0 <= i2 < i && 0 <= k < self.fwd@[i2]@.len() ==> other@.contains(
                        (
                            self.left_keys@[i2],
                            self.right_keys@[(#[trigger] self.fwd@[i2]@[k]) as int],
                        ),
                    ),
            decreases self.fwd@.len() - i,
        {
            let mut k: usize = 0;
            while k < self.fwd[i].len()
                invariant
                    self.inv(),
                    (i as int) < self.fwd@.len(),
                    k <= self.fwd@[i as int]@.len(),
                    eq_is_exact::<L>() && eq_is_exact::<R>() ==> forall|i2: int, k2: int|
                        0 <= i2 < i && 0 <= k2 < self.fwd@[i2]@.len() ==> other@.contains(
                            (
                                self.left_keys@[i2],
                                self.right_keys@[(#[trigger] self.fwd@[i2]@[k2]) as int],
                            ),
                        ),
                    eq_is_exact::<L>() && eq_is_exact::<R>() ==> forall|k2: int|
                        0 <= k2 < k ==> other@.contains(
                            (
                                self.left_keys@[i as int],
                                self.right_keys@[(#[trigger] self.fwd@[i as int]@[k2]) as int],
                            ),
                        ),
                decreases self.fwd@[i as int]@.len() - k,
            {
                let idx = self.fwd[i][k];
                if !other.has_pair(&self.left_keys[i], &self.right_keys[idx]) {
                    proof {
                        if eq_is_exact::<L>() && eq_is_exact::<R>() {
                            self.lemma_pairs_from_contains(0, i as int, k as int);
                            assert(self@.contains(
                                (
                                    self.left_keys@[i as int],
                                    self.right_keys@[self.fwd@[i as int]@[k as int] as int],
                                ),
                            ));
                        }
                    }
                    return false;
                }
                k = k + 1;
            }
            i = i + 1;
        }
        proof {
            if eq_is_exact::<L>() && eq_is_exact::<R>() {
                assert forall|p: (L, R)| self@.contains(p) implies other@.contains(p) by {
                    self.lemma_view_inversion(p);
                }
            }
        }
        true
    }
}

impl<L: PartialEq, R: PartialEq> PartialEq for Many2Many<L, R> {
    /// Two containers are equal when they hold the same set of pairings,
    /// whatever order those pairings were inserted in.
    fn eq(&self, other: &Self) -> (r: bool) {
        let forward = self.subset_of(other);
        let backward = other.subset_of(self);
        let r = forward && backward;
        proof {
            if eq_is_exact::<L>() && eq_is_exact::<R>() && r {
                assert(self@ =~= other@);
            }
        }
        r
    }
}

impl<L: PartialEq + Eq, R: PartialEq + Eq> Eq for Many2Many<L, R> {

}

impl<L: PartialEq, R: PartialEq> vstd::std_specs::cmp::PartialEqSpecImpl for Many2Many<L, R> {
    open spec fn obeys_eq_spec() -> bool {
        eq_is_exact::<L>() && eq_is_exact::<R>()
    }

    open spec fn eq_spec(&self, other: &Self) -> bool {
        self@ == other@
    }
}

impl<L, R> Many2Many<L, R> {
    /// Containers whose arenas and buckets agree slot for slot list the
    /// same pairings.
    proof fn lemma_pairs_from_congruence(ma: Self, mb: Self, i: int)
        requires
            ma.left_keys@ == mb.left_keys@,
            ma.right_keys@ == mb.right_keys@,
            ma.fwd@.len() == mb.fwd@.len(),
            forall|n: int| 0 <= n < ma.fwd@.len() ==> (#[trigger] ma.fwd@[n])@ == mb.fwd@[n]@,
        ensures
            ma.pairs_seq_from(i) == mb.pairs_seq_from(i),
        decreases ma.fwd@.len() - i,
    {
        if 0 <= i < ma.fwd@.len() {
            Self::lemma_pairs_from_congruence(ma, mb, i + 1);
            assert(ma.bucket_seq(i) =~= mb.bucket_seq(i));
            assert(ma.pairs_seq_from(i) =~= mb.pairs_seq_from(i));
        }
    }
}

impl<L: Clone, R: Clone> Many2Many<L, R> {
    /// A copy holding exactly the same pairings, in the same iteration
    /// order: what `clone` is for key types whose `clone` hands back its
    /// argument exactly.
    pub fn duplicate(&self) -> (m: Self)
        requires
            clone_is_exact::<L>(),
            clone_is_exact::<R>(),
        ensures
            m@ == self@,
            m.left_key_set() == self.left_key_set(),
            m.right_key_set() == self.right_key_set(),
            m.left_seq() == self.left_seq(),
            m.right_seq() == self.right_seq(),
            m.pairs_seq() == self.pairs_seq(),
    {
        proof {
            use_type_invariant(self);
        }
        let left_keys = self.left_keys.clone();
        let right_keys = self.right_keys.clone();
        let fwd = self.fwd.clone();
        let rev = self.rev.clone();
        proof {
            assert(left_keys@ =~= self.left_keys@);
            assert(right_keys@ =~= self.right_keys@);
            assert forall|n: int| 0 <= n < fwd@.len() implies (#[trigger] fwd@[n])@ == self.fwd@[
            n]@ by {
                assert(vstd::pervasive::cloned::<Vec<usize>>(self.fwd@[n], fwd@[n]));
                if fwd@[n] != self.fwd@[n] {
                    assert(fwd@[n]@ =~= self.fwd@[n]@);
                }
            }
            assert forall|n: int| 0 <= n < rev@.len() implies (#[trigger] rev@[n])@ == self.rev@[
            n]@ by {
                assert(vstd::pervasive::cloned::<Vec<usize>>(self.rev@[n], rev@[n]));
                if rev@[n] != self.rev@[n] {
                    assert(rev@[n]@ =~= self.rev@[n]@);
                }
            }
        }
        proof {
            let c = Many2Many::<L, R> { left_keys, right_keys, fwd, rev };
            Self::lemma_pairs_from_congruence(c, *self, 0);
            assert(c.wf_core()) by {
                assert forall|i2: int, k: int|
                    0 <= i2 < c.fwd@.len() && 0 <= k < c.fwd@[i2]@.len() implies c.fwd@[i2]@[k]
                    < c.right_keys@.len() by {
                    assert(c.fwd@[i2]@ == self.fwd@[i2]@);
                }
                assert forall|j2: int, k: int|
                    0 <= j2 < c.rev@.len() && 0 <= k < c.rev@[j2]@.len() implies c.rev@[j2]@[k]
                    < c.left_keys@.len() by {
                    assert(c.rev@[j2]@ == self.rev@[j2]@);
                }
                assert forall|i2: int| 0 <= i2 < c.fwd@.len() implies (#[trigger] c.fwd@[
                i2])@.no_duplicates() && c.fwd@[i2]@.len() >= 1 by {
                    assert(c.fwd@[i2]@ == self.fwd@[i2]@);
                }
                assert forall|j2: int| 0 <= j2 < c.rev@.len() implies (#[trigger] c.rev@[
                j2])@.no_duplicates() && c.rev@[j2]@.len() >= 1 by {
                    assert(c.rev@[j2]@ == self.rev@[j2]@);
                }
                assert forall|i2: usize, j2: usize|
                    i2 < c.fwd@.len() && j2 < c.rev@.len() implies (#[trigger] c.fwd_has(
                    i2 as int,
                    j2,
                ) <==> #[trigger] c.rev_has(j2 as int, i2)) by {
                    assert(c.fwd@[i2 as int]@ == self.fwd@[i2 as int]@);
                    assert(c.rev@[j2 as int]@ == self.rev@[j2 as int]@);
                    assert(self.fwd_has(i2 as int, j2) <==> self.rev_has(j2 as int, i2));
                }
            }
            assert(c.inv());
            assert(c.left_key_set() =~= self.left_key_set());
            assert(c.right_key_set() =~= self.right_key_set());
        }
        let m = Many2Many { left_keys, right_keys, fwd, rev };
        m
    }
}

impl<L, R> Many2Many<L, R> {
    /// Law: lookup is bidirectionally consistent.  A right key is among the
    /// associations of a left key exactly when the left key is among the
    /// associations of the right key — namely, exactly when the pairing is
    /// held.  `get_by_left` answers from the forward index and
    /// `get_by_right` from the reverse one, so this ties the two indices
    /// together.
    pub proof fn lemma_bidirectional(self, l: L, r: R)
        requires
            self.inv(),
        ensures
            self.rights_of(l).contains(r) <==> self@.contains((l, r)),
            self.lefts_of(r).contains(l) <==> self@.contains((l, r)),
            self.rights_of(l).contains(r) <==> self.lefts_of(r).contains(l),
    {
        assert(self.fwd@.len() <= usize::MAX) by {
            assert(self.fwd.len() == self.fwd@.len());
        }
        assert(self.rev@.len() <= usize::MAX) by {
            assert(self.rev.len() == self.rev@.len());
        }
        // the forward association set describes exactly the held pairings
        assert(self.rights_of(l).contains(r) <==> self@.contains((l, r))) by {
            if self.rights_of(l).contains(r) {
                let (i, k) = choose|i: int, k: int|
                    {
                        &&& 0 <= i < self.fwd@.len()
                        &&& 0 <= k < self.fwd@[i]@.len()
                        &&& self.left_keys@[i] == l
                        &&& self.right_keys@[self.fwd@[i]@[k] as int] == r
                    };
                self.lemma_pairs_from_contains(0, i, k);
            }
            if self@.contains((l, r)) {
                self.lemma_view_inversion((l, r));
                let (i, k) = choose|i: int, k: int|
                    {
                        &&& 0 <= i < self.fwd@.len()
                        &&& 0 <= k < self.fwd@[i]@.len()
                        &&& (l, r) == (self.left_keys@[i], self.right_keys@[(#[trigger] self.fwd@[
                            i]@[k]) as int])
                    };
                assert(self.rights_of(l).contains(r));
            }
        }
        // the reverse association set does too, through index consistency
        assert(self.lefts_of(r).contains(l) <==> self@.contains((l, r))) by {
            if self.lefts_of(r).contains(l) {
                let (j, k) = choose|j: int, k: int|
                    {
                        &&& 0 <= j < self.rev@.len()
                        &&& 0 <= k < self.rev@[j]@.len()
                        &&& self.right_keys@[j] == r
                        &&& self.left_keys@[self.rev@[j]@[k] as int] == l
                    };
                let iu = self.rev@[j]@[k];
                let ju = j as usize;
                assert(self.rev_has(j, iu));
                assert((iu as int) < self.fwd@.len());
                assert(self.fwd_has(iu as int, ju));
                self.lemma_view_has(iu as int, ju);
            }
            if self@.contains((l, r)) {
                self.lemma_view_inversion((l, r));
                let (i, k) = choose|i: int, k: int|
                    {
                        &&& 0 <= i < self.fwd@.len()
                        &&& 0 <= k < self.fwd@[i]@.len()
                        &&& (l, r) == (self.left_keys@[i], self.right_keys@[(#[trigger] self.fwd@[
                            i]@[k]) as int])
                    };
                let ju = self.fwd@[i]@[k];
                let iu = i as usize;
                assert(self.fwd_has(i, ju));
                assert((ju as int) < self.rev@.len());
                assert(self.rev_has(ju as int, iu));
                let k2 = choose|k2: int|
                    0 <= k2 < self.rev@[ju as int]@.len() && self.rev@[ju as int]@[k2] == iu;
                assert(self.left_keys@[self.rev@[ju as int]@[k2] as int] == l);
                assert(self.lefts_of(r).contains(l));
            }
        }
    }

    /// Law: a key is present exactly when some held pairing mentions it —
    /// no key outlives its pairings, and none is counted twice.
    pub proof fn lemma_key_sets_from_view(self)
        requires
            self.inv(),
        ensures
            forall|l: L|
                #[trigger] self.left_key_set().contains(l) <==> exists|r: R|
                    #[trigger] self@.contains((l, r)),
            forall|r: R|
                #[trigger] self.right_key_set().contains(r) <==> exists|l: L|
                    #[trigger] self@.contains((l, r)),
    {
        assert(self.fwd@.len() <= usize::MAX) by {
            assert(self.fwd.len() == self.fwd@.len());
        }
        assert(self.rev@.len() <= usize::MAX) by {
            assert(self.rev.len() == self.rev@.len());
        }
        assert forall|l: L| #[trigger] self.left_key_set().contains(l) implies exists|r: R|
            #[trigger] self@.contains((l, r)) by {
            let i = choose|i: int| 0 <= i < self.left_keys@.len() && self.left_keys@[i] == l;
            assert(self.fwd@[i]@.len() >= 1);
            let ju = self.fwd@[i]@[0];
            assert(self.fwd_has(i, ju));
            self.lemma_view_has(i, ju);
            assert(self@.contains((l, self.right_keys@[ju as int])));
        }
        assert forall|l: L| (exists|r: R| #[trigger] self@.contains((l, r)))
            implies #[trigger] self.left_key_set().contains(l) by {
            let r = choose|r: R| self@.contains((l, r));
            self.lemma_pair_needs_keys(l, r);
        }
        assert forall|r: R| #[trigger] self.right_key_set().contains(r) implies exists|l: L|
            #[trigger] self@.contains((l, r)) by {
            let j = choose|j: int| 0 <= j < self.right_keys@.len() && self.right_keys@[j] == r;
            assert(self.rev@[j]@.len() >= 1);
            let iu = self.rev@[j]@[0];
            assert(self.rev_has(j, iu));
            assert((iu as int) < self.fwd@.len());
            assert(self.fwd_has(iu as int, j as usize));
            self.lemma_view_has(iu as int, j as usize);
            assert(self@.contains((self.left_keys@[iu as int], r)));
        }
        assert forall|r: R| (exists|l: L| #[trigger] self@.contains((l, r)))
            implies #[trigger] self.right_key_set().contains(r) by {
            let l = choose|l: L| self@.contains((l, r));
            self.lemma_pair_needs_keys(l, r);
        }
    }

    /// Law: every query is a function of the pairing set alone.  Two
    /// containers holding the same pairings — in whatever insertion order —
    /// answer every lookup alike and hold the same keys.
    pub proof fn lemma_lookups_agree(self, other: Self)
        requires
            self.inv(),
            other.inv(),
            self@ == other@,
        ensures
            forall|l: L| #[trigger] self.rights_of(l) == other.rights_of(l),
            forall|r: R| #[trigger] self.lefts_of(r) == other.lefts_of(r),
            self.left_key_set() == other.left_key_set(),
            self.right_key_set() == other.right_key_set(),
    {
        assert forall|l: L| #[trigger] self.rights_of(l) == other.rights_of(l) by {
            assert forall|r: R|
                self.rights_of(l).contains(r) <==> other.rights_of(l).contains(r) by {
                self.lemma_bidirectional(l, r);
                other.lemma_bidirectional(l, r);
            }
            assert(self.rights_of(l) =~= other.rights_of(l));
        }
        assert forall|r: R| #[trigger] self.lefts_of(r) == other.lefts_of(r) by {
            assert forall|l: L|
                self.lefts_of(r).contains(l) <==> other.lefts_of(r).contains(l) by {
                self.lemma_bidirectional(l, r);
                other.lemma_bidirectional(l, r);
            }
            assert(self.lefts_of(r) =~= other.lefts_of(r));
        }
        self.lemma_key_sets_from_view();
        other.lemma_key_sets_from_view();
        assert(self.left_key_set() =~= other.left_key_set());
        assert(self.right_key_set() =~= other.right_key_set());
    }

    /// Law: insertion is idempotent.  By `insert`'s contract, inserting an
    /// absent pairing reports it new and adds it; `other` here is the
    /// container after that first call.  A second insertion of the same
    /// pairing reports it present and leaves the pairing set — and so, by
    /// `lemma_lookups_agree`, every lookup result — unchanged.
    pub proof fn lemma_insert_idempotent(self, other: Self, l: L, r: R)
        requires
            self.inv(),
            other.inv(),
            !self@.contains((l, r)),
            other@ == self@.insert((l, r)),
        ensures
            other@.contains((l, r)),
            other@.insert((l, r)) == other@,
    {
        assert(other@.insert((l, r)) =~= other@);
    }

    /// Law: the traversal of all pairings is exact.  The sequence `iter`
    /// yields lists each held pairing exactly once, so its length is the
    /// number of distinct pairings ever inserted.
    pub proof fn lemma_pairs_seq_props(self)
        requires
            self.inv(),
        ensures
            self.pairs_seq().no_duplicates(),
            self.pairs_seq().to_set() == self@,
            self.pairs_seq().len() == self@.len(),
    {
        self.lemma_pairs_props();
    }

    /// Law: consuming traversal is total.  An iterator obtained from
    /// `into_lefts` yields exactly the key sequence one obtained from
    /// `lefts` yields, so collecting and sorting the two gives equal lists.
    pub proof fn lemma_consuming_lefts_totality<'a>(
        m: &'a Many2Many<L, R>,
        bi: Lefts<'a, L, R>,
        ci: IntoLefts<L, R>,
    )
        requires
            call_ensures(Many2Many::<L, R>::lefts, (m,), bi),
            call_ensures(Many2Many::<L, R>::into_lefts, (*m,), ci),
        ensures
            ci.remaining() == bi.remaining(),
            ci.remaining().to_multiset() == bi.remaining().to_multiset(),
    {
    }

    /// Law: the mirror of `lemma_consuming_lefts_totality`, for right keys.
    pub proof fn lemma_consuming_rights_totality<'a>(
        m: &'a Many2Many<L, R>,
        bi: Rights<'a, L, R>,
        ci: IntoRights<L, R>,
    )
        requires
            call_ensures(Many2Many::<L, R>::rights, (m,), bi),
            call_ensures(Many2Many::<L, R>::into_rights, (*m,), ci),
        ensures
            ci.remaining() == bi.remaining(),
            ci.remaining().to_multiset() == bi.remaining().to_multiset(),
    {
    }
}

impl<L, R> Default for Many2Many<L, R> {
    /// Constructs an empty container, exactly as `new` does.
    fn default() -> (m: Self)
        ensures
            m@ == Set::<(L, R)>::empty(),
            m.left_key_set() == Set::<L>::empty(),
            m.right_key_set() == Set::<R>::empty(),
    {
        Many2Many::new()
    }
}

impl<L, R> View for Many2Many<L, R> {
    type V = Set<(L, R)>;

    /// The set of pairings held.
    closed spec fn view(&self) -> Set<(L, R)> {
        self.pairs_seq().to_set()
    }
}

} // verus!
