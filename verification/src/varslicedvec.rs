//! A segmented vector with variable-length segments: one flat buffer plus a
//! monotonic array of extents (a compressed sparse layout). Segment `i`
//! occupies the storage between `extents[i]` and `extents[i + 1]`.

use crate::slicedvec::vec_capacity;
use vstd::prelude::*;
use vstd::slice::{slice_subrange, slice_to_vec};

verus! {

/// The segments described by a buffer `st` and an extents array `ex`:
/// segment `i` is the storage between `ex[i]` and `ex[i + 1]`.
pub open spec fn segs<T>(st: Seq<T>, ex: Seq<usize>) -> Seq<Seq<T>> {
    Seq::new((ex.len() - 1) as nat, |i: int| st.subrange(ex[i] as int, ex[i + 1] as int))
}

/// A segmented vector whose segments may each have a different length,
/// zero included.
pub struct VarSlicedVec<T: Copy> {
    storage: Vec<T>,
    extents: Vec<usize>,
}

impl<T: Copy> View for VarSlicedVec<T> {
    type V = Seq<Seq<T>>;

    /// The container viewed as a sequence of segments.
    open spec fn view(&self) -> Seq<Seq<T>> {
        segs(self.storage_seq(), self.extents_seq())
    }
}

impl<T: Copy> VarSlicedVec<T> {
    /// The backing buffer as a flat sequence of elements.
    pub closed spec fn storage_seq(&self) -> Seq<T> {
        self.storage@
    }

    /// The extents array: cumulative offsets bracketing every segment.
    pub closed spec fn extents_seq(&self) -> Seq<usize> {
        self.extents@
    }

    /// Well-formedness: the extents array is non-empty, starts at zero,
    /// ends at the buffer length, and never decreases.
    pub open spec fn wf(&self) -> bool {
        &&& self.extents_seq().len() >= 1
        &&& self.extents_seq()[0] == 0
        &&& self.extents_seq().last() as int == self.storage_seq().len()
        &&& forall|i: int|
            0 <= i < self.extents_seq().len() - 1 ==> (#[trigger] self.extents_seq()[i])
                <= self.extents_seq()[i + 1]
    }

    /// The number of segments.
    pub open spec fn spec_len(&self) -> nat {
        (self.extents_seq().len() - 1) as nat
    }

    /// Creates an empty container.
    pub fn new() -> (r: Self)
        ensures
            r.wf(),
            r@ == Seq::<Seq<T>>::empty(),
            r.storage_seq() == Seq::<T>::empty(),
    {
        let mut extents: Vec<usize> = Vec::new();
        extents.push(0);
        let r = VarSlicedVec { storage: Vec::new(), extents };
        proof {
            assert(r@ =~= Seq::<Seq<T>>::empty());
        }
        r
    }

    /// Creates an empty container with room for `size` elements of
    /// backing storage.
    pub fn with_capacity(size: usize) -> (r: Self)
        ensures
            r.wf(),
            r@ == Seq::<Seq<T>>::empty(),
            r.storage_seq() == Seq::<T>::empty(),
    {
        let mut extents: Vec<usize> = Vec::new();
        extents.push(0);
        let r = VarSlicedVec { storage: Vec::with_capacity(size), extents };
        proof {
            assert(r@ =~= Seq::<Seq<T>>::empty());
        }
        r
    }

    /// The number of segments.
    pub fn len(&self) -> (r: usize)
        requires
            self.wf(),
        ensures
            r == self@.len(),
    {
        self.extents.len() - 1
    }

    /// Whether the container holds no segments.
    pub fn is_empty(&self) -> (r: bool)
        requires
            self.wf(),
        ensures
            r <==> self@.len() == 0,
    {
        self.len() == 0
    }

    /// The last extent: the current length of the backing buffer.
    fn last_extent(&self) -> (r: usize)
        requires
            self.wf(),
        ensures
            r as int == self.storage_seq().len(),
    {
        self.extents[self.extents.len() - 1]
    }

    /// Appends one segment (possibly empty) to the end.
    pub fn push(&mut self, segment: &[T])
        requires
            old(self).wf(),
            old(self).storage_seq().len() + segment@.len() <= usize::MAX,
        ensures
            final(self).wf(),
            final(self)@ == old(self)@.push(segment@),
            final(self).storage_seq() == old(self).storage_seq() + segment@,
    {
        let base = self.last_extent();
        self.extents.push(base + segment.len());
        let ghost pre = self.storage@;
        let mut k: usize = 0;
        #[verifier::loop_isolation(false)]
        while k < segment.len()
            invariant
                k <= segment@.len(),
                self.extents@ == old(self).extents@.push((base + segment@.len()) as usize),
                self.storage@ == pre + segment@.take(k as int),
            decreases segment@.len() - k,
        {
            self.storage.push(segment[k]);
            k += 1;
            proof {
                assert(self.storage@ =~= pre + segment@.take(k as int));
            }
        }
        proof {
            assert(self.storage@ =~= pre + segment@);
            assert forall|i: int| 0 <= i < old(self)@.len() implies self@[i] == old(self)@[i] by {
                lemma_mono_between(old(self).extents_seq(), i + 1, old(self).extents_seq().len() - 1);
                assert(self@[i] =~= old(self)@[i]);
            }
            assert(self@[old(self)@.len() as int] =~= segment@);
            assert(self@ =~~= old(self)@.push(segment@));
        }
    }

    /// Appends one segment handed over in a `Vec`.
    pub fn push_vec(&mut self, segment: Vec<T>)
        requires
            old(self).wf(),
            old(self).storage_seq().len() + segment@.len() <= usize::MAX,
        ensures
            final(self).wf(),
            final(self)@ == old(self)@.push(segment@),
            final(self).storage_seq() == old(self).storage_seq() + segment@,
    {
        self.push(segment.as_slice())
    }

    /// Removes and returns the last segment, or `None` when empty.
    pub fn pop(&mut self) -> (r: Option<Vec<T>>)
        requires
            old(self).wf(),
        ensures
            final(self).wf(),
            final(self).storage_seq().len() <= old(self).storage_seq().len(),
            match r {
                Some(s) => {
                    &&& old(self)@.len() > 0
                    &&& s@ == old(self)@.last()
                    &&& final(self)@ == old(self)@.drop_last()
                },
                None => old(self)@.len() == 0 && *final(self) == *old(self),
            },
    {
        if self.is_empty() {
            None
        } else {
            let n = self.len();
            let begin = self.extents[n - 1];
            let end = self.extents[n];
            let out = slice_to_vec(slice_subrange(self.storage.as_slice(), begin, end));
            self.extents.pop();
            self.storage.truncate(begin);
            proof {
                assert forall|i: int| 0 <= i < self@.len() implies self@[i] == old(self)@[i] by {
                    lemma_mono_between(old(self).extents_seq(), i + 1, n as int - 1);
                    assert(self@[i] =~= old(self)@[i]);
                }
                assert(self@ =~~= old(self)@.drop_last());
            }
            Some(out)
        }
    }

    /// Splits the container at segment index `at`: `self` keeps the
    /// segments before `at` and the returned container holds the rest.
    #[verifier::rlimit(50)]
    pub fn split_off(&mut self, at: usize) -> (r: Self)
        requires
            old(self).wf(),
            at <= old(self)@.len(),
        ensures
            final(self).wf(),
            r.wf(),
            final(self)@ == old(self)@.take(at as int),
            r@ == old(self)@.skip(at as int),
            final(self).storage_seq().len() + r.storage_seq().len() == old(
                self,
            ).storage_seq().len(),
    {
        let ne = self.extents.len();
        let cut = self.extents[at];
        proof {
            lemma_mono_between(self.extents_seq(), at as int, self.extents_seq().len() - 1);
        }
        let tail_storage = self.storage.split_off(cut);
        let mut tail_extents: Vec<usize> = Vec::new();
        tail_extents.push(0);
        let mut j: usize = at + 1;
        #[verifier::loop_isolation(false)]
        while j < self.extents.len()
            invariant
                at as int + 1 <= j as int <= self.extents@.len(),
                self.extents@ == old(self).extents_seq(),
                tail_extents@.len() == j - at,
                tail_extents@[0] == 0,
                forall|a: int|
                    0 <= a < tail_extents@.len() ==> (#[trigger] tail_extents@[a]) as int
                        == self.extents@[at as int + a] as int - cut as int,
            decreases self.extents@.len() - j,
        {
            let e = self.extents[j];
            proof {
                lemma_mono_between(old(self).extents_seq(), at as int, j as int);
            }
            tail_extents.push(e - cut);
            j += 1;
        }
        self.extents.truncate(at + 1);
        let r = VarSlicedVec { storage: tail_storage, extents: tail_extents };
        proof {
            assert(self.extents@ =~= old(self).extents_seq().take(at as int + 1));
            assert forall|i: int| 0 <= i < self@.len() implies self@[i] == old(self)@[i] by {
                lemma_mono_between(old(self).extents_seq(), i + 1, at as int);
                assert(self@[i] =~= old(self)@[i]);
            }
            assert(self@ =~~= old(self)@.take(at as int));
            assert forall|i: int| 0 <= i < r@.len() implies r@[i] == old(self)@[i + at] by {
                lemma_mono_between(old(self).extents_seq(), at as int, i + at);
                lemma_mono_between(old(self).extents_seq(), i + at + 1, old(
                    self,
                ).extents_seq().len() - 1);
                assert(r@[i] =~= old(self)@[i + at]);
            }
            assert(r@ =~~= old(self)@.skip(at as int));
        }
        r
    }

    /// Moves all segments of `other` to the end of `self`, leaving
    /// `other` empty.
    #[verifier::rlimit(50)]
    pub fn append(&mut self, other: &mut Self)
        requires
            old(self).wf(),
            old(other).wf(),
            old(self).storage_seq().len() + old(other).storage_seq().len() <= usize::MAX,
        ensures
            final(self).wf(),
            final(other).wf(),
            final(self)@ == old(self)@ + old(other)@,
            final(other)@ == Seq::<Seq<T>>::empty(),
            final(self).storage_seq().len() == old(self).storage_seq().len() + old(
                other,
            ).storage_seq().len(),
    {
        let base = self.last_extent();
        let ghost pre_extents = self.extents@;
        let mut j: usize = 1;
        #[verifier::loop_isolation(false)]
        while j < other.extents.len()
            invariant
                1 <= j as int <= other.extents@.len(),
                other.extents@ == old(other).extents_seq(),
                other.storage@ == old(other).storage_seq(),
                self.storage@ == old(self).storage_seq(),
                self.extents@.len() == pre_extents.len() + j - 1,
                forall|a: int| 0 <= a < pre_extents.len() ==> self.extents@[a] == pre_extents[a],
                forall|a: int|
                    pre_extents.len() <= a < self.extents@.len() ==> (
                    #[trigger] self.extents@[a]) as int == base + other.extents@[a
                        - pre_extents.len() + 1] as int,
            decreases other.extents@.len() - j,
        {
            let e = other.extents[j];
            proof {
                lemma_mono_between(other.extents_seq(), j as int, other.extents_seq().len() - 1);
            }
            self.extents.push(base + e);
            j += 1;
        }
        other.extents.truncate(1);
        self.storage.append(&mut other.storage);
        proof {
            assert(other.extents@ =~= old(other).extents_seq().take(1));
            assert(other@ =~= Seq::<Seq<T>>::empty());
            lemma_append_segs(
                old(self).storage_seq(),
                old(self).extents_seq(),
                old(other).storage_seq(),
                old(other).extents_seq(),
                self.extents_seq(),
            );
        }
    }

    /// Inserts a segment at position `at`, shifting the following
    /// segments one position to the right. Linear in the buffer length.
    pub fn insert(&mut self, at: usize, segment: &[T])
        requires
            old(self).wf(),
            at <= old(self)@.len(),
            old(self).storage_seq().len() + segment@.len() <= usize::MAX,
        ensures
            final(self).wf(),
            final(self)@ == old(self)@.insert(at as int, segment@),
            final(self).storage_seq().len() == old(self).storage_seq().len() + segment@.len(),
    {
        let mut back = self.split_off(at);
        self.push(segment);
        self.append(&mut back);
        proof {
            assert(self@ =~~= old(self)@.insert(at as int, segment@));
        }
    }

    /// Removes and returns the segment at `index`, shifting the following
    /// segments one position to the left. Linear in the buffer length.
    pub fn remove(&mut self, index: usize) -> (r: Vec<T>)
        requires
            old(self).wf(),
            index < old(self)@.len(),
        ensures
            final(self).wf(),
            r@ == old(self)@[index as int],
            final(self)@ == old(self)@.remove(index as int),
            final(self).storage_seq().len() <= old(self).storage_seq().len(),
    {
        if index == self.len() - 1 {
            let r = self.pop().unwrap();
            proof {
                assert(self@ =~~= old(self)@.remove(index as int));
            }
            r
        } else {
            let mut back = self.split_off(index + 1);
            let r = self.pop().unwrap();
            self.append(&mut back);
            proof {
                assert(r@ == old(self)@[index as int]);
                assert(self@ =~~= old(self)@.remove(index as int));
            }
            r
        }
    }

    /// Gets a read-only slice of segment `index`, or `None` when out of
    /// range.
    pub fn get(&self, index: usize) -> (r: Option<&[T]>)
        requires
            self.wf(),
        ensures
            match r {
                Some(s) => index < self@.len() && s@ == self@[index as int],
                None => index >= self@.len(),
            },
    {
        if index < self.len() {
            let begin = self.extents[index];
            let end = self.extents[index + 1];
            proof {
                lemma_mono_between(self.extents_seq(), index as int + 1, self.extents_seq().len()
                    - 1);
            }
            Some(slice_subrange(self.storage.as_slice(), begin, end))
        } else {
            None
        }
    }

    /// Gets a read-only slice of the first segment, or `None` when empty.
    pub fn first(&self) -> (r: Option<&[T]>)
        requires
            self.wf(),
        ensures
            match r {
                Some(s) => self@.len() > 0 && s@ == self@[0],
                None => self@.len() == 0,
            },
    {
        self.get(0)
    }

    /// Gets a read-only slice of the last segment, or `None` when empty.
    pub fn last(&self) -> (r: Option<&[T]>)
        requires
            self.wf(),
        ensures
            match r {
                Some(s) => self@.len() > 0 && s@ == self@.last(),
                None => self@.len() == 0,
            },
    {
        if self.is_empty() {
            None
        } else {
            self.get(self.len() - 1)
        }
    }

    /// The length of segment `index`, or `0` when `index` is out of range
    /// (indistinguishable from a genuine zero-length segment).
    pub fn segment_len(&self, index: usize) -> (r: usize)
        requires
            self.wf(),
        ensures
            index < self@.len() ==> r == self@[index as int].len(),
            index >= self@.len() ==> r == 0,
    {
        if index < self.len() {
            proof {
                lemma_mono_between(self.extents_seq(), index as int + 1, self.extents_seq().len()
                    - 1);
            }
            self.extents[index + 1] - self.extents[index]
        } else {
            0
        }
    }

    /// All segment lengths, in index order.
    pub fn lengths(&self) -> (r: Vec<usize>)
        requires
            self.wf(),
        ensures
            r@.len() == self@.len(),
            forall|i: int| 0 <= i < r@.len() ==> r@[i] == (#[trigger] self@[i]).len(),
    {
        let n = self.len();
        let mut r: Vec<usize> = Vec::new();
        let mut i: usize = 0;
        #[verifier::loop_isolation(false)]
        while i < n
            invariant
                i <= n,
                r@.len() == i,
                forall|a: int| 0 <= a < i as int ==> r@[a] == (#[trigger] self@[a]).len(),
            decreases n - i,
        {
            r.push(self.segment_len(i));
            i += 1;
        }
        r
    }

    /// All segments, materialized in index order as owned vectors.
    pub fn iter(&self) -> (r: Vec<Vec<T>>)
        requires
            self.wf(),
        ensures
            r@.len() == self@.len(),
            forall|i: int| 0 <= i < r@.len() ==> (#[trigger] r@[i])@ == self@[i],
    {
        let n = self.len();
        let mut r: Vec<Vec<T>> = Vec::new();
        let mut i: usize = 0;
        #[verifier::loop_isolation(false)]
        while i < n
            invariant
                i <= n,
                r@.len() == i,
                forall|a: int| 0 <= a < i as int ==> (#[trigger] r@[a])@ == self@[a],
            decreases n - i,
        {
            r.push(slice_to_vec(self.get(i).unwrap()));
            i += 1;
        }
        r
    }

    /// Empties the container, resetting the extents to the single
    /// sentinel.
    pub fn clear(&mut self)
        requires
            old(self).wf(),
        ensures
            final(self).wf(),
            final(self)@ == Seq::<Seq<T>>::empty(),
            final(self).storage_seq() == Seq::<T>::empty(),
    {
        self.storage.clear();
        self.extents.truncate(1);
        proof {
            assert(self@ =~= Seq::<Seq<T>>::empty());
        }
    }

    /// Overwrites segment `index` in place with `segment`, which must have
    /// the same length as the segment it replaces.
    #[verifier::rlimit(50)]
    pub fn set_segment(&mut self, index: usize, segment: &[T])
        requires
            old(self).wf(),
            index < old(self)@.len(),
            segment@.len() == old(self)@[index as int].len(),
        ensures
            final(self).wf(),
            final(self)@ == old(self)@.update(index as int, segment@),
    {
        let ne = self.extents.len();
        let begin = self.extents[index];
        let end = self.extents[index + 1];
        proof {
            lemma_mono_between(self.extents_seq(), index as int + 1, self.extents_seq().len()
                - 1);
            assert(begin <= end);
            assert(end as int <= self.storage@.len());
            assert(begin + segment@.len() == end);
        }
        let ghost pre = self.storage@;
        let mut k: usize = 0;
        #[verifier::loop_isolation(false)]
        while k < segment.len()
            invariant
                k <= segment@.len(),
                begin + segment@.len() == end,
                end as int <= pre.len(),
                self.extents@ == old(self).extents_seq(),
                self.storage@.len() == pre.len(),
                forall|j: int|
                    0 <= j < pre.len() && !(begin <= j < begin + k) ==> self.storage@[j] == pre[j],
                forall|j: int| begin <= j < begin + k ==> self.storage@[j] == segment@[j - begin],
            decreases segment@.len() - k,
        {
            let pos = begin + k;
            self.storage[pos] = segment[k];
            k += 1;
        }
        proof {
            lemma_update_segs(
                pre,
                self.storage@,
                old(self).extents_seq(),
                index as int,
                segment@,
            );
        }
    }

    /// The allocated room of the backing buffer, in elements.
    pub fn storage_capacity(&self) -> (r: usize)
        ensures
            r >= self.storage_seq().len(),
    {
        vec_capacity(&self.storage)
    }
}

impl<T: Copy> Default for VarSlicedVec<T> {
    /// An empty container, exactly as `new` builds it.
    fn default() -> (r: Self)
        ensures
            r.wf(),
            r@ == Seq::<Seq<T>>::empty(),
    {
        Self::new()
    }
}


/// Appending a second buffer and its extents (rebased by the first
/// buffer's length) concatenates the two segment views.
#[verifier::rlimit(100)]
proof fn lemma_append_segs<T>(
    s1: Seq<T>,
    e1: Seq<usize>,
    s2: Seq<T>,
    e2: Seq<usize>,
    e3: Seq<usize>,
)
    requires
        e1.len() >= 1,
        e1[0] == 0,
        e1.last() as int == s1.len(),
        forall|a: int| 0 <= a < e1.len() - 1 ==> (#[trigger] e1[a]) <= e1[a + 1],
        e2.len() >= 1,
        e2[0] == 0,
        e2.last() as int == s2.len(),
        forall|a: int| 0 <= a < e2.len() - 1 ==> (#[trigger] e2[a]) <= e2[a + 1],
        e3.len() == e1.len() + e2.len() - 1,
        forall|a: int| 0 <= a < e1.len() ==> (#[trigger] e3[a]) == e1[a],
        forall|a: int|
            e1.len() <= a < e3.len() ==> ((#[trigger] e3[a]) as int) == s1.len() + e2[a
                - e1.len() + 1] as int,
    ensures
        e3.len() >= 1,
        e3[0] == 0,
        e3.last() as int == s1.len() + s2.len(),
        forall|a: int| 0 <= a < e3.len() - 1 ==> (#[trigger] e3[a]) <= e3[a + 1],
        segs(s1 + s2, e3) == segs(s1, e1) + segs(s2, e2),
{
    let p = e1.len() as int;
    let n1 = p - 1;
    let n2 = e2.len() as int - 1;
    if n2 == 0 {
        assert(e3.last() == e1.last());
    } else {
        assert(e3.last() as int == s1.len() + e2.last() as int);
    }
    assert forall|a: int| 0 <= a < e3.len() - 1 implies (#[trigger] e3[a]) <= e3[a + 1] by {
        if a == p - 1 && a + 1 < e3.len() && p < e3.len() {
            lemma_mono_between(e2, 0, 1);
        } else if a >= p {
            lemma_mono_between(e2, a - p + 1, a - p + 2);
        }
    }
    assert forall|i: int| 0 <= i < n1 implies segs(s1 + s2, e3)[i] == segs(s1, e1)[i] by {
        lemma_mono_between(e1, i + 1, p - 1);
        assert(segs(s1 + s2, e3)[i] =~= segs(s1, e1)[i]);
    }
    assert forall|i: int| 0 <= i < n2 implies segs(s1 + s2, e3)[n1 + i] == segs(s2, e2)[i] by {
        lemma_mono_between(e2, i + 1, e2.len() - 1);
        assert(segs(s1 + s2, e3)[n1 + i] =~= segs(s2, e2)[i]);
    }
    assert(segs(s1 + s2, e3) =~~= segs(s1, e1) + segs(s2, e2));
}

/// Replacing the elements of one segment's storage range replaces that
/// segment of the view and leaves every other segment unchanged.
#[verifier::rlimit(100)]
proof fn lemma_update_segs<T>(st0: Seq<T>, st1: Seq<T>, ex: Seq<usize>, i: int, s: Seq<T>)
    requires
        ex.len() >= 1,
        ex.last() as int == st0.len(),
        forall|a: int| 0 <= a < ex.len() - 1 ==> (#[trigger] ex[a]) <= ex[a + 1],
        st1.len() == st0.len(),
        0 <= i < ex.len() - 1,
        s.len() == ex[i + 1] - ex[i],
        forall|j: int|
            0 <= j < st0.len() && !(ex[i] as int <= j < ex[i + 1] as int) ==> st1[j] == st0[j],
        forall|j: int| ex[i] as int <= j < ex[i + 1] as int ==> st1[j] == s[j - ex[i]],
    ensures
        segs(st1, ex) == segs(st0, ex).update(i, s),
{
    assert forall|a: int|
        0 <= a < ex.len() - 1 && a != i implies segs(st1, ex)[a] == segs(st0, ex)[a] by {
        if a < i {
            lemma_mono_between(ex, a + 1, i);
        } else {
            lemma_mono_between(ex, i + 1, a);
        }
        lemma_mono_between(ex, a + 1, ex.len() - 1);
        assert(segs(st1, ex)[a] =~= segs(st0, ex)[a]);
    }
    lemma_mono_between(ex, i + 1, ex.len() - 1);
    assert(segs(st1, ex)[i] =~= s);
    assert(segs(st1, ex) =~~= segs(st0, ex).update(i, s));
}

/// In a stepwise non-decreasing extents array, any earlier extent is at
/// most any later one.
proof fn lemma_mono_between(e: Seq<usize>, i: int, j: int)
    requires
        forall|a: int| 0 <= a < e.len() - 1 ==> (#[trigger] e[a]) <= e[a + 1],
        0 <= i <= j < e.len(),
    ensures
        e[i] <= e[j],
    decreases j - i,
{
    if i < j {
        lemma_mono_between(e, i + 1, j);
    }
}

/// Insert/remove inverse law: inserting a segment at `i` and removing at
/// `i` returns that segment and restores every other segment, content and
/// order alike.
pub proof fn lemma_insert_remove_roundtrip<T>(v: Seq<Seq<T>>, i: int, s: Seq<T>)
    requires
        0 <= i <= v.len(),
    ensures
        v.insert(i, s)[i] == s,
        v.insert(i, s).remove(i) == v,
{
    v.insert_ensures(i, s);
    v.insert(i, s).remove_ensures(i);
    assert(v.insert(i, s).remove(i) =~~= v);
}

} // verus!
