//! A vector of equal-length segments packed back-to-back in one buffer.

use vstd::arithmetic::div_mod::{
    lemma_fundamental_div_mod, lemma_div_by_multiple, lemma_div_is_ordered,
    lemma_mod_multiples_basic,
};
use vstd::arithmetic::mul::{
    lemma_mul_inequality, lemma_mul_is_commutative, lemma_mul_is_distributive_add_other_way,
    lemma_mul_nonnegative,
};
use vstd::prelude::*;
use vstd::slice::{slice_subrange, slice_to_vec};

verus! {

/// The sequence `s` cut into consecutive chunks of `l` elements each;
/// a trailing remainder shorter than `l` is not represented.
pub open spec fn chunked<T>(s: Seq<T>, l: nat) -> Seq<Seq<T>> {
    Seq::new(s.len() / l, |i: int| s.subrange(i * l, (i + 1) * l))
}

/// The segment sequence left after a non-order-preserving removal at `i`:
/// the last segment is moved into place `i` and the length shrinks by one.
pub open spec fn spec_swap_remove<A>(v: Seq<A>, i: int) -> Seq<A> {
    v.update(i, v.last()).drop_last()
}

/// Bounds that place chunk `i` of a buffer of length `n` (a multiple of
/// `l`) inside the buffer.
pub proof fn lemma_chunk_bounds(n: nat, l: nat, i: int)
    requires
        l > 0,
        n % l == 0,
        0 <= i < n / l,
    ensures
        0 <= i * l,
        i * l + l == (i + 1) * l,
        (i + 1) * l <= n,
        n == (n / l) * l,
{
    lemma_fundamental_div_mod(n as int, l as int);
    lemma_mul_is_distributive_add_other_way(l as int, i, 1);
    lemma_mul_inequality(i + 1, (n / l) as int, l as int);
    lemma_mul_is_commutative(l as int, (n / l) as int);
    lemma_mul_nonnegative(i, l as int);
}

/// Chunking distributes over concatenation of two aligned buffers.
pub proof fn lemma_chunked_concat<T>(s1: Seq<T>, s2: Seq<T>, l: nat)
    requires
        l > 0,
        s1.len() % l == 0,
        s2.len() % l == 0,
    ensures
        (s1 + s2).len() % l == 0,
        chunked(s1 + s2, l) == chunked(s1, l) + chunked(s2, l),
{
    let n1 = (s1.len() / l) as int;
    let n2 = (s2.len() / l) as int;
    lemma_fundamental_div_mod(s1.len() as int, l as int);
    lemma_fundamental_div_mod(s2.len() as int, l as int);
    lemma_mul_is_distributive_add_other_way(l as int, n1, n2);
    lemma_mul_is_commutative(l as int, n1);
    lemma_mul_is_commutative(l as int, n2);
    lemma_mul_is_commutative(l as int, n1 + n2);
    lemma_div_by_multiple(n1 + n2, l as int);
    assert((s1 + s2).len() == (n1 + n2) * l);
    assert((s1 + s2).len() % l == 0) by {
        lemma_mod_multiples_basic(n1 + n2, l as int);
    }
    assert((s1 + s2).len() / l == n1 + n2);
    assert forall|a: int| 0 <= a < n1 + n2 implies chunked(s1 + s2, l)[a] == (chunked(s1, l)
        + chunked(s2, l))[a] by {
        if a < n1 {
            lemma_chunk_bounds(s1.len(), l, a);
            assert(chunked(s1 + s2, l)[a] =~= chunked(s1, l)[a]);
        } else {
            lemma_chunk_bounds(s2.len(), l, a - n1);
            lemma_mul_is_distributive_add_other_way(l as int, a - n1, n1);
            lemma_mul_is_distributive_add_other_way(l as int, a - n1 + 1, n1);
            assert((a - n1) * l + n1 * l == a * l);
            assert((a - n1 + 1) * l + n1 * l == (a + 1) * l);
            assert(chunked(s1 + s2, l)[a] =~= chunked(s2, l)[a - n1]);
        }
    }
    assert(chunked(s1 + s2, l) =~= chunked(s1, l) + chunked(s2, l));
}

/// Replacing the elements of chunk `i` alone replaces that chunk of the
/// view and leaves every other chunk unchanged.
pub proof fn lemma_chunked_update<T>(s: Seq<T>, t: Seq<T>, l: nat, i: int)
    requires
        l > 0,
        s.len() % l == 0,
        t.len() == s.len(),
        0 <= i < s.len() / l,
        forall|j: int| 0 <= j < s.len() && !(i * l <= j < i * l + l) ==> s[j] == t[j],
    ensures
        chunked(t, l) == chunked(s, l).update(i, t.subrange(i * l, i * l + l)),
{
    let n = s.len() / l;
    lemma_chunk_bounds(s.len(), l, i);
    assert forall|a: int| 0 <= a < n implies chunked(t, l)[a] == chunked(s, l).update(
        i,
        t.subrange(i * l, i * l + l),
    )[a] by {
        lemma_chunk_bounds(s.len(), l, a);
        if a == i {
            assert(chunked(t, l)[a] =~= t.subrange(i * l, i * l + l));
        } else {
            if a < i {
                lemma_mul_inequality(a + 1, i, l as int);
            } else {
                lemma_mul_inequality(i + 1, a, l as int);
            }
            assert(chunked(t, l)[a] =~= chunked(s, l)[a]);
        }
    }
    assert(chunked(t, l) =~= chunked(s, l).update(i, t.subrange(i * l, i * l + l)));
}

/// Truncating an aligned buffer to its first `k` chunks truncates the view
/// to its first `k` segments.
pub proof fn lemma_chunked_take<T>(s: Seq<T>, l: nat, k: int)
    requires
        l > 0,
        s.len() % l == 0,
        0 <= k <= s.len() / l,
    ensures
        (k * l) % (l as int) == 0,
        0 <= k * l <= s.len(),
        chunked(s.take(k * l), l) == chunked(s, l).take(k),
{
    lemma_mod_multiples_basic(k, l as int);
    lemma_mul_nonnegative(k, l as int);
    lemma_mul_inequality(k, (s.len() / l) as int, l as int);
    lemma_fundamental_div_mod(s.len() as int, l as int);
    lemma_mul_is_commutative(l as int, (s.len() / l) as int);
    lemma_div_by_multiple(k, l as int);
    assert(s.take(k * l).len() == k * l);
    assert forall|a: int| 0 <= a < k implies chunked(s.take(k * l), l)[a] == chunked(s, l)[a] by {
        lemma_chunk_bounds((k * l) as nat, l, a);
        assert(chunked(s.take(k * l), l)[a] =~= chunked(s, l)[a]);
    }
    assert(chunked(s.take(k * l), l) =~= chunked(s, l).take(k));
}

/// A buffer holding exactly one chunk is its own single-chunk view.
pub proof fn lemma_chunked_single<T>(s: Seq<T>, l: nat)
    requires
        l > 0,
        s.len() == l,
    ensures
        s.len() % l == 0,
        chunked(s, l) == seq![s],
{
    lemma_mod_multiples_basic(1, l as int);
    lemma_div_by_multiple(1, l as int);
    assert(s.len() == 1 * l);
    assert(chunked(s, l).len() == 1);
    assert(chunked(s, l)[0] =~= s);
    assert(chunked(s, l) =~= seq![s]);
}

/// Relies on std's `Vec::capacity`: the allocated room is at least the
/// current length.
#[verifier::external_body]
pub(crate) fn vec_capacity<T>(v: &Vec<T>) -> (r: usize)
    ensures
        r >= v@.len(),
{
    v.capacity()
}

/// Relies on std's `Vec::shrink_to_fit`: only spare capacity is released;
/// the contents are unchanged.
#[verifier::external_body]
pub(crate) fn vec_shrink_to_fit<T>(v: &mut Vec<T>)
    ensures
        final(v)@ == old(v)@,
{
    v.shrink_to_fit()
}

/// A segmented vector: equal-length segments stored contiguously in one
/// growable buffer. The segment length is fixed at construction.
pub struct SlicedVec<T: Copy> {
    storage: Vec<T>,
    segment_len: usize,
}

impl<T: Copy> View for SlicedVec<T> {
    type V = Seq<Seq<T>>;

    /// The container viewed as a sequence of segments, each a sequence of
    /// `seg_len()` elements.
    open spec fn view(&self) -> Seq<Seq<T>> {
        chunked(self.storage_seq(), self.seg_len())
    }
}

impl<T: Copy> SlicedVec<T> {
    /// The backing buffer as a flat sequence of elements.
    pub closed spec fn storage_seq(&self) -> Seq<T> {
        self.storage@
    }

    /// The fixed length of every segment.
    pub closed spec fn seg_len(&self) -> nat {
        self.segment_len as nat
    }

    /// Well-formedness: the segment length is positive and the buffer
    /// always holds a whole number of segments.
    pub open spec fn wf(&self) -> bool {
        &&& self.seg_len() > 0
        &&& self.storage_seq().len() % self.seg_len() == 0
    }

    /// The number of segments.
    pub open spec fn spec_len(&self) -> nat {
        self.storage_seq().len() / self.seg_len()
    }

    /// Each segment of the view has length `seg_len()`, and the view
    /// accounts for the whole buffer.
    pub proof fn lemma_view_shape(&self)
        requires
            self.wf(),
        ensures
            self@.len() == self.spec_len(),
            forall|i: int| 0 <= i < self@.len() ==> (#[trigger] self@[i]).len() == self.seg_len(),
            self.storage_seq().len() == self.spec_len() * self.seg_len(),
    {
        assert forall|i: int| 0 <= i < self@.len() implies (#[trigger] self@[i]).len()
            == self.seg_len() by {
            lemma_chunk_bounds(self.storage_seq().len(), self.seg_len(), i);
        }
        lemma_fundamental_div_mod(self.storage_seq().len() as int, self.seg_len() as int);
        lemma_mul_is_commutative(self.seg_len() as int, self.spec_len() as int);
    }

    /// Creates an empty container whose segments will all have length
    /// `segment_len`.
    pub fn new(segment_len: usize) -> (r: Self)
        requires
            segment_len > 0,
        ensures
            r.wf(),
            r.seg_len() == segment_len,
            r@ == Seq::<Seq<T>>::empty(),
            r.storage_seq() == Seq::<T>::empty(),
    {
        let r = SlicedVec { storage: Vec::new(), segment_len };
        proof {
            assert(r@ =~= Seq::<Seq<T>>::empty());
        }
        r
    }

    /// Creates an empty container with room for `size` segments of length
    /// `segment_len` before the buffer must grow.
    pub fn with_capacity(segment_len: usize, size: usize) -> (r: Self)
        requires
            segment_len > 0,
            segment_len * size <= usize::MAX,
        ensures
            r.wf(),
            r.seg_len() == segment_len,
            r@ == Seq::<Seq<T>>::empty(),
            r.storage_seq() == Seq::<T>::empty(),
    {
        let r = SlicedVec { storage: Vec::with_capacity(segment_len * size), segment_len };
        proof {
            assert(r@ =~= Seq::<Seq<T>>::empty());
        }
        r
    }

    /// Takes ownership of a pre-populated buffer holding a whole number of
    /// segments of length `segment_len`.
    pub fn from_vec(segment_len: usize, data: Vec<T>) -> (r: Self)
        requires
            segment_len > 0,
            data@.len() % (segment_len as nat) == 0,
        ensures
            r.wf(),
            r.seg_len() == segment_len,
            r.storage_seq() == data@,
            r@ == chunked(data@, segment_len as nat),
    {
        SlicedVec { storage: data, segment_len }
    }

    /// The fixed segment length.
    pub fn segment_len(&self) -> (r: usize)
        ensures
            r == self.seg_len(),
    {
        self.segment_len
    }

    /// The number of segments held.
    pub fn len(&self) -> (r: usize)
        requires
            self.wf(),
        ensures
            r == self@.len(),
    {
        proof {
            self.lemma_view_shape();
        }
        self.storage.len() / self.segment_len
    }

    /// The length of the backing buffer: `len() * segment_len()`.
    pub fn storage_len(&self) -> (r: usize)
        ensures
            r == self.storage_seq().len(),
    {
        self.storage.len()
    }

    /// Whether the container holds no segments.
    pub fn is_empty(&self) -> (r: bool)
        requires
            self.wf(),
        ensures
            r <==> self@.len() == 0,
    {
        self.len() == 0
    }

    /// Whether `data` could be pushed: a positive whole number of segments.
    pub fn is_valid_length(&self, data: &[T]) -> (r: bool)
        requires
            self.wf(),
        ensures
            r <==> (data@.len() % self.seg_len() == 0 && data@.len() > 0),
    {
        data.len() % self.segment_len == 0 && data.len() != 0
    }

    /// Appends one or more whole segments to the end.
    pub fn push(&mut self, segment: &[T])
        requires
            old(self).wf(),
            segment@.len() % old(self).seg_len() == 0,
            segment@.len() > 0,
            old(self).storage_seq().len() + segment@.len() <= usize::MAX,
        ensures
            final(self).wf(),
            final(self).seg_len() == old(self).seg_len(),
            final(self).storage_seq() == old(self).storage_seq() + segment@,
            final(self)@ == old(self)@ + chunked(segment@, old(self).seg_len()),
            segment@.len() == old(self).seg_len() ==> final(self)@ == old(self)@.push(segment@),
    {
        let ghost pre = self.storage@;
        let mut k: usize = 0;
        #[verifier::loop_isolation(false)]
        while k < segment.len()
            invariant
                k <= segment@.len(),
                self.segment_len == old(self).segment_len,
                self.storage@ == pre + segment@.take(k as int),
            decreases segment@.len() - k,
        {
            self.storage.push(segment[k]);
            k += 1;
            proof {
                assert(self.storage@ =~= pre + segment@.take(k as int));
            }
        }
        proof {
            assert(self.storage@ =~= pre + segment@);
            lemma_chunked_concat(pre, segment@, self.seg_len());
            if segment@.len() == old(self).seg_len() {
                lemma_chunked_single(segment@, old(self).seg_len());
                assert(self@ =~~= old(self)@.push(segment@));
            }
        }
    }

    /// Offset where segment `index` begins in the backing buffer.
    pub(crate) fn storage_begin(&self, index: usize) -> (r: usize)
        requires
            self.wf(),
            index <= self.spec_len(),
        ensures
            r == index * self.seg_len(),
            r <= self.storage_seq().len(),
    {
        let _n = self.storage.len();
        proof {
            self.lemma_view_shape();
            lemma_mul_inequality(index as int, self.spec_len() as int, self.seg_len() as int);
            lemma_mul_nonnegative(index as int, self.seg_len() as int);
        }
        index * self.segment_len
    }

    /// Offset just past segment `index` in the backing buffer.
    pub(crate) fn storage_end(&self, index: usize) -> (r: usize)
        requires
            self.wf(),
            index < self.spec_len(),
        ensures
            r == index * self.seg_len() + self.seg_len(),
            r <= self.storage_seq().len(),
    {
        let _n = self.storage.len();
        proof {
            lemma_chunk_bounds(self.storage_seq().len(), self.seg_len(), index as int);
        }
        self.storage_begin(index) + self.segment_len
    }

    /// Gets a read-only slice of segment `index`, or `None` when out of
    /// range.
    pub fn get(&self, index: usize) -> (r: Option<&[T]>)
        requires
            self.wf(),
        ensures
            match r {
                Some(s) => index < self@.len() && s@ == self@[index as int],
                None => index >= self@.len(),
            },
    {
        proof {
            self.lemma_view_shape();
        }
        if index < self.len() {
            let begin = self.storage_begin(index);
            let end = self.storage_end(index);
            proof {
                lemma_chunk_bounds(self.storage_seq().len(), self.seg_len(), index as int);
            }
            Some(slice_subrange(self.storage.as_slice(), begin, end))
        } else {
            None
        }
    }

    /// Gets a read-only slice of the first segment, or `None` when empty.
    pub fn first(&self) -> (r: Option<&[T]>)
        requires
            self.wf(),
        ensures
            match r {
                Some(s) => self@.len() > 0 && s@ == self@[0],
                None => self@.len() == 0,
            },
    {
        self.get(0)
    }

    /// Gets a read-only slice of the last segment, or `None` when empty.
    pub fn last(&self) -> (r: Option<&[T]>)
        requires
            self.wf(),
        ensures
            match r {
                Some(s) => self@.len() > 0 && s@ == self@.last(),
                None => self@.len() == 0,
            },
    {
        if self.is_empty() {
            None
        } else {
            self.get(self.len() - 1)
        }
    }

    /// Overwrites segment `index` with the elements of `segment`.
    pub fn set_segment(&mut self, index: usize, segment: &[T])
        requires
            old(self).wf(),
            index < old(self)@.len(),
            segment@.len() == old(self).seg_len(),
        ensures
            final(self).wf(),
            final(self).seg_len() == old(self).seg_len(),
            final(self)@ == old(self)@.update(index as int, segment@),
    {
        proof {
            self.lemma_view_shape();
        }
        let begin = self.storage_begin(index);
        let end = self.storage_end(index);
        let ghost pre = self.storage@;
        let mut k: usize = 0;
        #[verifier::loop_isolation(false)]
        while k < self.segment_len
            invariant
                k <= old(self).seg_len(),
                self.segment_len == old(self).segment_len,
                self.storage@.len() == pre.len(),
                forall|j: int|
                    0 <= j < pre.len() && !(begin <= j < begin + k) ==> self.storage@[j] == pre[j],
                forall|j: int| begin <= j < begin + k ==> self.storage@[j] == segment@[j - begin],
            decreases old(self).seg_len() - k,
        {
            let pos = begin + k;
            self.storage[pos] = segment[k];
            k += 1;
        }
        proof {
            lemma_chunked_update(pre, self.storage@, self.seg_len(), index as int);
            assert(self.storage@.subrange(
                index as int * self.seg_len(),
                index as int * self.seg_len() + self.seg_len(),
            ) =~= segment@);
        }
    }

    /// Copies the elements of segment `src` onto segment `dst`.
    pub(crate) fn copy_segment(&mut self, src: usize, dst: usize)
        requires
            old(self).wf(),
            src < old(self)@.len(),
            dst < old(self)@.len(),
            src != dst,
        ensures
            final(self).wf(),
            final(self).seg_len() == old(self).seg_len(),
            final(self)@ == old(self)@.update(dst as int, old(self)@[src as int]),
    {
        proof {
            self.lemma_view_shape();
        }
        let sb = self.storage_begin(src);
        let db = self.storage_begin(dst);
        let se = self.storage_end(src);
        let de = self.storage_end(dst);
        proof {
            lemma_chunk_bounds(self.storage_seq().len(), self.seg_len(), src as int);
            lemma_chunk_bounds(self.storage_seq().len(), self.seg_len(), dst as int);
            if src < dst {
                lemma_mul_inequality(src as int + 1, dst as int, self.seg_len() as int);
            } else {
                lemma_mul_inequality(dst as int + 1, src as int, self.seg_len() as int);
            }
        }
        let ghost pre = self.storage@;
        let mut k: usize = 0;
        #[verifier::loop_isolation(false)]
        while k < self.segment_len
            invariant
                k <= old(self).seg_len(),
                self.segment_len == old(self).segment_len,
                self.storage@.len() == pre.len(),
                forall|j: int|
                    0 <= j < pre.len() && !(db <= j < db + k) ==> self.storage@[j] == pre[j],
                forall|j: int| db <= j < db + k ==> self.storage@[j] == pre[j - db + sb],
            decreases old(self).seg_len() - k,
        {
            let spos = sb + k;
            let dpos = db + k;
            let v = self.storage[spos];
            self.storage[dpos] = v;
            k += 1;
        }
        proof {
            lemma_chunked_update(pre, self.storage@, self.seg_len(), dst as int);
            assert(self.storage@.subrange(
                dst as int * self.seg_len(),
                dst as int * self.seg_len() + self.seg_len(),
            ) =~= old(self)@[src as int]);
        }
    }

    /// Exchanges the contents of segments `i` and `j` element by element.
    pub fn swap(&mut self, i: usize, j: usize)
        requires
            old(self).wf(),
            i < old(self)@.len(),
            j < old(self)@.len(),
        ensures
            final(self).wf(),
            final(self).seg_len() == old(self).seg_len(),
            final(self)@ == old(self)@.update(i as int, old(self)@[j as int]).update(
                j as int,
                old(self)@[i as int],
            ),
    {
        if i == j {
            proof {
                assert(self@ =~~= old(self)@.update(i as int, old(self)@[j as int]).update(
                    j as int,
                    old(self)@[i as int],
                ));
            }
            return ;
        }
        let ghost pre = *self;
        proof {
            pre.lemma_view_shape();
        }
        let tmp = slice_to_vec(self.get(i).unwrap());
        self.copy_segment(j, i);
        self.set_segment(j, tmp.as_slice());
        proof {
            assert(self@ =~~= pre@.update(i as int, pre@[j as int]).update(
                j as int,
                pre@[i as int],
            ));
        }
    }

    /// Shrinks the container to its first `len` segments; a no-op when
    /// `len` is not smaller than the current length.
    pub fn truncate(&mut self, len: usize)
        requires
            old(self).wf(),
        ensures
            final(self).wf(),
            final(self).seg_len() == old(self).seg_len(),
            len >= old(self)@.len() ==> *final(self) == *old(self),
            len < old(self)@.len() ==> final(self)@ == old(self)@.take(len as int),
    {
        if len < self.len() {
            let end = self.storage_begin(len);
            self.storage.truncate(end);
            proof {
                lemma_chunked_take(old(self).storage_seq(), self.seg_len(), len as int);
            }
        }
    }

    /// Removes and returns the last segment, or `None` when empty.
    pub fn pop(&mut self) -> (r: Option<Vec<T>>)
        requires
            old(self).wf(),
        ensures
            final(self).wf(),
            final(self).seg_len() == old(self).seg_len(),
            match r {
                Some(s) => {
                    &&& old(self)@.len() > 0
                    &&& s@ == old(self)@.last()
                    &&& final(self)@ == old(self)@.drop_last()
                },
                None => old(self)@.len() == 0 && *final(self) == *old(self),
            },
    {
        if self.is_empty() {
            None
        } else {
            let last = self.len() - 1;
            let out = slice_to_vec(self.get(last).unwrap());
            self.truncate(last);
            proof {
                assert(self@ =~~= old(self)@.drop_last());
            }
            Some(out)
        }
    }

    /// Removes and returns segment `index`, moving the last segment into
    /// its place. Does not preserve the order of the remaining segments.
    pub fn swap_remove(&mut self, index: usize) -> (r: Vec<T>)
        requires
            old(self).wf(),
            index < old(self)@.len(),
        ensures
            final(self).wf(),
            final(self).seg_len() == old(self).seg_len(),
            r@ == old(self)@[index as int],
            final(self)@ == spec_swap_remove(old(self)@, index as int),
    {
        let last = self.len() - 1;
        if index != last {
            self.swap(index, last);
        }
        let r = self.pop().unwrap();
        proof {
            assert(self@ =~~= spec_swap_remove(old(self)@, index as int));
        }
        r
    }

    /// Removes segment `index` by overwriting it with the last segment and
    /// truncating, discarding the removed contents. Does not preserve the
    /// order of the remaining segments.
    pub fn overwrite_remove(&mut self, index: usize)
        requires
            old(self).wf(),
            index < old(self)@.len(),
        ensures
            final(self).wf(),
            final(self).seg_len() == old(self).seg_len(),
            final(self)@ == spec_swap_remove(old(self)@, index as int),
    {
        let last = self.len() - 1;
        if index != last {
            self.copy_segment(last, index);
        }
        self.truncate(last);
        proof {
            assert(self@ =~~= spec_swap_remove(old(self)@, index as int));
        }
    }

    /// Appends one or more whole segments handed over in a `Vec`.
    pub fn push_vec(&mut self, segment: Vec<T>)
        requires
            old(self).wf(),
            segment@.len() % old(self).seg_len() == 0,
            segment@.len() > 0,
            old(self).storage_seq().len() + segment@.len() <= usize::MAX,
        ensures
            final(self).wf(),
            final(self).seg_len() == old(self).seg_len(),
            final(self)@ == old(self)@ + chunked(segment@, old(self).seg_len()),
    {
        self.push(segment.as_slice())
    }

    /// Moves all segments of `other` to the end of `self`, leaving `other`
    /// empty. Both containers must share the same segment length.
    pub fn append(&mut self, other: &mut Self)
        requires
            old(self).wf(),
            old(other).wf(),
            old(other).seg_len() == old(self).seg_len(),
            old(self).storage_seq().len() + old(other).storage_seq().len() <= usize::MAX,
        ensures
            final(self).wf(),
            final(other).wf(),
            final(self).seg_len() == old(self).seg_len(),
            final(other).seg_len() == old(other).seg_len(),
            final(self)@ == old(self)@ + old(other)@,
            final(other)@ == Seq::<Seq<T>>::empty(),
    {
        self.storage.append(&mut other.storage);
        proof {
            lemma_chunked_concat(
                old(self).storage_seq(),
                old(other).storage_seq(),
                self.seg_len(),
            );
            assert(other@ =~= Seq::<Seq<T>>::empty());
        }
    }

    /// Appends a copy of segment `index` to the end of the container.
    fn append_copy_of_segment(&mut self, index: usize)
        requires
            old(self).wf(),
            index < old(self)@.len(),
            old(self).storage_seq().len() + old(self).seg_len() <= usize::MAX,
        ensures
            final(self).wf(),
            final(self).seg_len() == old(self).seg_len(),
            final(self)@ == old(self)@.push(old(self)@[index as int]),
    {
        proof {
            self.lemma_view_shape();
        }
        let begin = self.storage_begin(index);
        let end = self.storage_end(index);
        let ghost pre = self.storage@;
        let mut k: usize = begin;
        #[verifier::loop_isolation(false)]
        while k < end
            invariant
                begin <= k <= end,
                self.segment_len == old(self).segment_len,
                self.storage@ == pre + pre.subrange(begin as int, k as int),
            decreases end - k,
        {
            let v = self.storage[k];
            self.storage.push(v);
            k += 1;
            proof {
                assert(self.storage@ =~= pre + pre.subrange(begin as int, k as int));
            }
        }
        proof {
            let seg = pre.subrange(begin as int, end as int);
            lemma_chunk_bounds(pre.len(), old(self).seg_len(), index as int);
            assert(seg =~= old(self)@[index as int]);
            lemma_chunked_single(seg, old(self).seg_len());
            lemma_chunked_concat(pre, seg, old(self).seg_len());
            assert(self@ =~~= old(self)@.push(old(self)@[index as int]));
        }
    }

    /// Non-order-preserving, constant-time insert: the previous contents of
    /// segment `index` move to a new last segment and `segment` overwrites
    /// position `index`.
    pub fn relocate_insert(&mut self, index: usize, segment: &[T])
        requires
            old(self).wf(),
            index < old(self)@.len(),
            segment@.len() == old(self).seg_len(),
            old(self).storage_seq().len() + old(self).seg_len() <= usize::MAX,
        ensures
            final(self).wf(),
            final(self).seg_len() == old(self).seg_len(),
            final(self)@ == old(self)@.push(old(self)@[index as int]).update(
                index as int,
                segment@,
            ),
    {
        self.append_copy_of_segment(index);
        self.set_segment(index, segment);
    }

    /// Inserts `segment` at position `index`, shifting every segment at or
    /// after `index` one position to the right. Linear in the buffer length.
    pub fn insert(&mut self, index: usize, segment: &[T])
        requires
            old(self).wf(),
            index < old(self)@.len(),
            segment@.len() == old(self).seg_len(),
            old(self).storage_seq().len() + old(self).seg_len() <= usize::MAX,
        ensures
            final(self).wf(),
            final(self).seg_len() == old(self).seg_len(),
            final(self)@ == old(self)@.insert(index as int, segment@),
    {
        let ghost v = old(self)@;
        let ghost n = old(self)@.len() as int;
        let orig_last = self.len() - 1;
        self.append_copy_of_segment(orig_last);
        let mut m = orig_last;
        #[verifier::loop_isolation(false)]
        while m > index
            invariant
                index <= m <= orig_last,
                self.wf(),
                self.segment_len == old(self).segment_len,
                self@.len() == n + 1,
                forall|a: int| 0 <= a <= m ==> self@[a] == v[a],
                forall|a: int| m < a <= n ==> self@[a] == v[a - 1],
            decreases m,
        {
            self.copy_segment(m - 1, m);
            m -= 1;
        }
        self.set_segment(index, segment);
        proof {
            assert(self@ =~~= old(self)@.insert(index as int, segment@));
        }
    }

    /// All segments, materialized in index order as owned vectors.
    pub fn iter(&self) -> (r: Vec<Vec<T>>)
        requires
            self.wf(),
        ensures
            r@.len() == self@.len(),
            forall|i: int| 0 <= i < r@.len() ==> (#[trigger] r@[i])@ == self@[i],
    {
        let mut r: Vec<Vec<T>> = Vec::new();
        let mut i: usize = 0;
        let n = self.len();
        #[verifier::loop_isolation(false)]
        while i < n
            invariant
                i <= n,
                r@.len() == i,
                forall|a: int| 0 <= a < i as int ==> (#[trigger] r@[a])@ == self@[a],
            decreases n - i,
        {
            r.push(slice_to_vec(self.get(i).unwrap()));
            i += 1;
        }
        r
    }

    /// All `(index, segment)` pairs, materialized in index order.
    pub fn enumerate(&self) -> (r: Vec<(usize, Vec<T>)>)
        requires
            self.wf(),
        ensures
            r@.len() == self@.len(),
            forall|i: int|
                0 <= i < r@.len() ==> (#[trigger] r@[i]).0 == i && r@[i].1@ == self@[i],
    {
        let mut r: Vec<(usize, Vec<T>)> = Vec::new();
        let mut i: usize = 0;
        let n = self.len();
        #[verifier::loop_isolation(false)]
        while i < n
            invariant
                i <= n,
                r@.len() == i,
                forall|a: int|
                    0 <= a < i as int ==> (#[trigger] r@[a]).0 == a && r@[a].1@ == self@[a],
            decreases n - i,
        {
            r.push((i, slice_to_vec(self.get(i).unwrap())));
            i += 1;
        }
        r
    }

    /// The raw backing buffer as a read-only slice.
    pub fn iter_storage(&self) -> (r: &[T])
        ensures
            r@ == self.storage_seq(),
    {
        self.storage.as_slice()
    }

    /// Consumes the container and hands back its flat backing buffer.
    pub fn into_vec(self) -> (r: Vec<T>)
        ensures
            r@ == self.storage_seq(),
    {
        self.storage
    }

    /// How many segments fit in the currently allocated buffer.
    pub fn capacity(&self) -> (r: usize)
        requires
            self.wf(),
        ensures
            r >= self@.len(),
    {
        proof {
            self.lemma_view_shape();
        }
        let cap = vec_capacity(&self.storage);
        proof {
            lemma_div_is_ordered(
                self.storage_seq().len() as int,
                cap as int,
                self.seg_len() as int,
            );
        }
        cap / self.segment_len
    }

    /// The allocated room of the backing buffer, in elements.
    pub fn storage_capacity(&self) -> (r: usize)
        ensures
            r >= self.storage_seq().len(),
    {
        vec_capacity(&self.storage)
    }

    /// Releases spare capacity of the backing buffer; the contents are
    /// unchanged.
    pub fn shrink_to_fit(&mut self)
        ensures
            final(self).seg_len() == old(self).seg_len(),
            final(self).storage_seq() == old(self).storage_seq(),
            final(self)@ == old(self)@,
    {
        vec_shrink_to_fit(&mut self.storage);
    }

    /// Empties the container.
    pub fn clear(&mut self)
        requires
            old(self).wf(),
        ensures
            final(self).wf(),
            final(self).seg_len() == old(self).seg_len(),
            final(self)@ == Seq::<Seq<T>>::empty(),
    {
        self.storage.clear();
        proof {
            assert(self@ =~= Seq::<Seq<T>>::empty());
        }
    }
}

/// Round-trip law: after pushing one segment `s` onto a container whose
/// view is `v`, swap-removing at the last index returns `s` and leaves the
/// view `v` unchanged.
pub proof fn lemma_push_swap_remove_roundtrip<T>(v: Seq<Seq<T>>, s: Seq<T>)
    ensures
        v.push(s)[v.len() as int] == s,
        spec_swap_remove(v.push(s), v.len() as int) == v,
{
    assert(spec_swap_remove(v.push(s), v.len() as int) =~= v);
}

/// Swap-remove semantics: one segment disappears, the last segment moves
/// into the vacated slot (when the slot was not itself last), and every
/// other segment keeps its place.
pub proof fn lemma_swap_remove_semantics<T>(v: Seq<Seq<T>>, i: int)
    requires
        0 <= i < v.len(),
    ensures
        spec_swap_remove(v, i).len() == v.len() - 1,
        i < v.len() - 1 ==> spec_swap_remove(v, i)[i] == v.last(),
        forall|j: int| 0 <= j < v.len() - 1 && j != i ==> spec_swap_remove(v, i)[j] == v[j],
{
}

/// Overwrite-remove and swap-remove agree: starting from equal views, both
/// leave the same container behind; overwrite-remove merely discards the
/// value that swap-remove returns.
pub proof fn lemma_overwrite_remove_matches_swap_remove<T: Copy>(
    a: SlicedVec<T>,
    b: SlicedVec<T>,
    i: int,
)
    requires
        a@ == b@,
        0 <= i < a@.len(),
    ensures
        spec_swap_remove(a@, i) == spec_swap_remove(b@, i),
{
}

} // verus!
