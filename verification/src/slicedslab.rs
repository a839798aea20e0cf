//! A keyed slab of equal-length segments: a `SlicedVec` of slots plus an
//! ordered set of vacated slot indices. Keys are slot indices; they stay
//! valid while other keys are inserted and released, and are recycled
//! smallest-first.

use crate::slicedvec::SlicedVec;
use vstd::prelude::*;

verus! {

/// A sequence of keys in strictly increasing order (hence without
/// duplicates).
pub open spec fn sorted_strict(s: Seq<usize>) -> bool {
    forall|i: int, j: int| 0 <= i < j < s.len() ==> s[i] < s[j]
}

/// The slot count that remains after trimming every trailing vacated slot:
/// while the last of `n` slots is the largest member of `open`, both are
/// dropped.
pub open spec fn spec_compact_len(open: Seq<usize>, n: nat) -> nat
    decreases open.len(),
{
    if open.len() > 0 && n > 0 && open.last() as int == n - 1 {
        spec_compact_len(open.drop_last(), (n - 1) as nat)
    } else {
        n
    }
}

/// Linear search for `key` in the open-slot list.
fn open_contains(v: &Vec<usize>, key: usize) -> (r: bool)
    ensures
        r == v@.contains(key),
{
    let mut i: usize = 0;
    #[verifier::loop_isolation(false)]
    while i < v.len()
        invariant
            i <= v@.len(),
            forall|a: int| 0 <= a < i as int ==> v@[a] != key,
        decreases v@.len() - i,
    {
        if v[i] == key {
            return true;
        }
        i += 1;
    }
    proof {
        assert(!v@.contains(key));
    }
    false
}

/// Inserts `key` into the sorted open-slot list, keeping it sorted.
fn open_insert(v: &mut Vec<usize>, key: usize)
    requires
        sorted_strict(old(v)@),
        !old(v)@.contains(key),
        old(v)@.len() < usize::MAX,
    ensures
        sorted_strict(final(v)@),
        final(v)@.len() == old(v)@.len() + 1,
        forall|x: usize| final(v)@.contains(x) <==> (old(v)@.contains(x) || x == key),
{
    let mut p: usize = 0;
    #[verifier::loop_isolation(false)]
    while p < v.len() && v[p] < key
        invariant
            p <= v@.len(),
            v@ == old(v)@,
            forall|a: int| 0 <= a < p as int ==> v@[a] < key,
        decreases v@.len() - p,
    {
        p += 1;
    }
    proof {
        assert forall|a: int| p as int <= a < v@.len() implies v@[a] > key by {
            if v@[a] == key {
                assert(v@.contains(key));
            }
        }
        old(v)@.insert_ensures(p as int, key);
    }
    v.insert(p, key);
    proof {
        let s = old(v)@;
        let t = v@;
        assert forall|i: int, j: int| 0 <= i < j < t.len() implies t[i] < t[j] by {
            assert(t == s.insert(p as int, key));
        }
        assert forall|x: usize| t.contains(x) <==> (s.contains(x) || x == key) by {
            if t.contains(x) {
                let w = choose|w: int| 0 <= w < t.len() && t[w] == x;
                if w < p {
                    assert(s[w] == x);
                    assert(s.contains(x));
                } else if w > p {
                    assert(s[w - 1] == x);
                    assert(s.contains(x));
                }
            }
            if s.contains(x) {
                let w = choose|w: int| 0 <= w < s.len() && s[w] == x;
                if w < p {
                    assert(t[w] == x);
                } else {
                    assert(t[w + 1] == x);
                }
                assert(t.contains(x));
            }
            if x == key {
                assert(t[p as int] == x);
                assert(t.contains(x));
            }
        }
    }
}

/// A slab of equal-length segments with stable, recyclable integer keys.
pub struct SlicedSlab<T: Copy> {
    slots: SlicedVec<T>,
    open_slots: Vec<usize>,
}

impl<T: Copy> View for SlicedSlab<T> {
    type V = Map<int, Seq<T>>;

    /// The slab viewed as a partial map from occupied keys to their
    /// segment contents.
    open spec fn view(&self) -> Map<int, Seq<T>> {
        Map::new(
            |k: int|
                0 <= k < self.slots_seq().len() && !self.open_seq().contains(k as usize),
            |k: int| self.slots_seq()[k],
        )
    }
}

impl<T: Copy> SlicedSlab<T> {
    /// All slots in key order, vacated ones included (their contents are
    /// stale but remain in bounds).
    pub closed spec fn slots_seq(&self) -> Seq<Seq<T>> {
        self.slots@
    }

    /// The vacated slot indices, in increasing order.
    pub closed spec fn open_seq(&self) -> Seq<usize> {
        self.open_slots@
    }

    /// The fixed length of every segment.
    pub closed spec fn seg_len(&self) -> nat {
        self.slots.seg_len()
    }

    /// Whether `key` is currently vacated.
    pub open spec fn is_open(&self, key: usize) -> bool {
        self.open_seq().contains(key)
    }

    /// Well-formedness: the wrapped vector is well formed, the open list
    /// is strictly sorted, and every open index is in bounds.
    pub closed spec fn wf(&self) -> bool {
        &&& self.slots.wf()
        &&& sorted_strict(self.open_slots@)
        &&& forall|i: int|
            0 <= i < self.open_slots@.len() ==> ((#[trigger] self.open_slots@[i]) as int)
                < (self.slots@.len() as int)
    }

    /// The facts that `wf` guarantees, for use outside this module.
    pub proof fn lemma_wf_properties(&self)
        requires
            self.wf(),
        ensures
            self.seg_len() > 0,
            sorted_strict(self.open_seq()),
            self.open_seq().len() <= self.slots_seq().len(),
            forall|i: int|
                0 <= i < self.open_seq().len() ==> ((#[trigger] self.open_seq()[i]) as int)
                    < (self.slots_seq().len() as int),
            forall|i: int|
                0 <= i < self.slots_seq().len() ==> (#[trigger] self.slots_seq()[i]).len()
                    == self.seg_len(),
    {
        self.slots.lemma_view_shape();
        if self.open_slots@.len() > self.slots@.len() {
            self.lemma_sorted_bounded_len();
        }
    }

    /// A strictly sorted list of indices below `slots_seq().len()` cannot
    /// be longer than `slots_seq().len()`.
    proof fn lemma_sorted_bounded_len(&self)
        requires
            sorted_strict(self.open_slots@),
            forall|i: int|
                0 <= i < self.open_slots@.len() ==> ((#[trigger] self.open_slots@[i]) as int)
                    < (self.slots@.len() as int),
        ensures
            self.open_slots@.len() <= self.slots@.len(),
    {
        let s = self.open_slots@;
        assert forall|i: int| 0 <= i < s.len() implies i <= (#[trigger] s[i]) as int by {
            lemma_sorted_index_lower_bound(s, i);
        }
        if s.len() > self.slots@.len() {
            assert(s[s.len() - 1] as int >= s.len() - 1);
        }
    }

    /// Creates an empty slab whose segments will all have length
    /// `segment_len`.
    pub fn new(segment_len: usize) -> (r: Self)
        requires
            segment_len > 0,
        ensures
            r.wf(),
            r.seg_len() == segment_len,
            r.slots_seq() == Seq::<Seq<T>>::empty(),
            r.open_seq() == Seq::<usize>::empty(),
            r@ == Map::<int, Seq<T>>::empty(),
    {
        let r = SlicedSlab { slots: SlicedVec::new(segment_len), open_slots: Vec::new() };
        proof {
            assert(r@ =~= Map::<int, Seq<T>>::empty());
        }
        r
    }

    /// Creates an empty slab with room for `size` segments of length
    /// `segment_len`.
    pub fn with_capacity(segment_len: usize, size: usize) -> (r: Self)
        requires
            segment_len > 0,
            segment_len * size <= usize::MAX,
        ensures
            r.wf(),
            r.seg_len() == segment_len,
            r.slots_seq() == Seq::<Seq<T>>::empty(),
            r.open_seq() == Seq::<usize>::empty(),
            r@ == Map::<int, Seq<T>>::empty(),
    {
        let r = SlicedSlab {
            slots: SlicedVec::with_capacity(segment_len, size),
            open_slots: Vec::new(),
        };
        proof {
            assert(r@ =~= Map::<int, Seq<T>>::empty());
        }
        r
    }

    /// Builds a fully occupied slab from a flat buffer holding a whole
    /// number of segments of length `segment_len`.
    pub fn from_vec(segment_len: usize, data: Vec<T>) -> (r: Self)
        requires
            segment_len > 0,
            data@.len() % (segment_len as nat) == 0,
        ensures
            r.wf(),
            r.seg_len() == segment_len,
            r.slots_seq() == crate::slicedvec::chunked(data@, segment_len as nat),
            r.open_seq() == Seq::<usize>::empty(),
    {
        SlicedSlab { slots: SlicedVec::from_vec(segment_len, data), open_slots: Vec::new() }
    }

    /// The number of slots, vacated ones included.
    pub fn len(&self) -> (r: usize)
        requires
            self.wf(),
        ensures
            r == self.slots_seq().len(),
    {
        self.slots.len()
    }

    /// The number of vacated slots.
    pub fn open_len(&self) -> (r: usize)
        ensures
            r == self.open_seq().len(),
    {
        self.open_slots.len()
    }

    /// Inserts a segment: the smallest vacated slot is overwritten and its
    /// index returned; with no vacancy the segment is appended as a new
    /// slot.
    pub fn insert(&mut self, segment: &[T]) -> (r: usize)
        requires
            old(self).wf(),
            segment@.len() == old(self).seg_len(),
            old(self).open_seq().len() == 0 ==> old(self).slots_seq().len() * old(self).seg_len()
                + old(self).seg_len() <= usize::MAX,
        ensures
            final(self).wf(),
            final(self).seg_len() == old(self).seg_len(),
            !old(self)@.contains_key(r as int),
            final(self)@ == old(self)@.insert(r as int, segment@),
            old(self).open_seq().len() == 0 ==> {
                &&& r == old(self).slots_seq().len()
                &&& final(self).slots_seq() == old(self).slots_seq().push(segment@)
                &&& final(self).open_seq() == old(self).open_seq()
            },
            old(self).open_seq().len() > 0 ==> {
                &&& r == old(self).open_seq()[0]
                &&& final(self).slots_seq() == old(self).slots_seq().update(r as int, segment@)
                &&& final(self).open_seq() == old(self).open_seq().skip(1)
            },
    {
        proof {
            old(self).lemma_wf_properties();
            self.slots.lemma_view_shape();
        }
        let nslots = self.slots.len();
        if self.open_slots.len() > 0 {
            let key = self.open_slots.remove(0);
            proof {
                assert(self.open_slots@ =~= old(self).open_seq().skip(1));
                lemma_sorted_skip_first(old(self).open_seq());
                assert(old(self).open_seq().contains(old(self).open_seq()[0]));
            }
            self.slots.set_segment(key, segment);
            proof {
                let m1 = old(self)@.insert(key as int, segment@);
                assert forall|k: int| self@.contains_key(k) == m1.contains_key(k) by {
                    if k != key as int && 0 <= k < self.slots_seq().len() {
                        let ku = k as usize;
                        assert(self.open_seq().contains(ku) == (old(self).open_seq().contains(ku)
                            && ku != old(self).open_seq()[0]));
                    }
                }
                assert(self@ =~~= m1);
            }
            key
        } else {
            let key = self.slots.len();
            self.slots.push(segment);
            proof {
                assert(self@ =~~= old(self)@.insert(key as int, segment@));
            }
            key
        }
    }

    /// Inserts a segment handed over in a `Vec`; see `insert`.
    pub fn insert_vec(&mut self, data: Vec<T>) -> (r: usize)
        requires
            old(self).wf(),
            data@.len() == old(self).seg_len(),
            old(self).open_seq().len() == 0 ==> old(self).slots_seq().len() * old(self).seg_len()
                + old(self).seg_len() <= usize::MAX,
        ensures
            final(self).wf(),
            final(self).seg_len() == old(self).seg_len(),
            !old(self)@.contains_key(r as int),
            final(self)@ == old(self)@.insert(r as int, data@),
    {
        self.insert(data.as_slice())
    }

    /// Marks `key` as vacated; its data becomes stale but is not cleared.
    pub fn release(&mut self, key: usize)
        requires
            old(self).wf(),
            (key as int) < old(self).slots_seq().len(),
            !old(self).is_open(key),
        ensures
            final(self).wf(),
            final(self).seg_len() == old(self).seg_len(),
            final(self).slots_seq() == old(self).slots_seq(),
            final(self).open_seq().len() == old(self).open_seq().len() + 1,
            forall|x: usize| final(self).is_open(x) <==> (old(self).is_open(x) || x == key),
            final(self)@ == old(self)@.remove(key as int),
    {
        let nslots = self.slots.len();
        proof {
            old(self).lemma_wf_properties();
            if self.open_slots@.len() == self.slots@.len() {
                lemma_open_full_covers(self.open_slots@, self.slots@.len());
                assert(self.open_slots@.contains((key as int) as usize));
            }
        }
        open_insert(&mut self.open_slots, key);
        proof {
            assert forall|i: int| 0 <= i < self.open_slots@.len() implies ((
            #[trigger] self.open_slots@[i]) as int) < (self.slots@.len() as int) by {
                let x = self.open_slots@[i];
                assert(self.open_slots@.contains(x));
            }
            let m1 = old(self)@.remove(key as int);
            assert forall|k: int| self@.contains_key(k) == m1.contains_key(k) by {
                if k != key as int && 0 <= k < self.slots_seq().len() {
                    let ku = k as usize;
                    assert(self.open_seq().contains(ku) == (old(self).open_seq().contains(ku)
                        || ku == key));
                }
            }
            assert(self@ =~~= m1);
        }
    }

    /// Removes and returns the smallest vacated slot index, or `None` when
    /// every slot is occupied. The caller may then overwrite that slot.
    pub fn acquire(&mut self) -> (r: Option<usize>)
        requires
            old(self).wf(),
        ensures
            final(self).wf(),
            final(self).seg_len() == old(self).seg_len(),
            final(self).slots_seq() == old(self).slots_seq(),
            match r {
                Some(k) => {
                    &&& old(self).open_seq().len() > 0
                    &&& k == old(self).open_seq()[0]
                    &&& final(self).open_seq() == old(self).open_seq().skip(1)
                    &&& final(self)@ == old(self)@.insert(
                        k as int,
                        old(self).slots_seq()[k as int],
                    )
                },
                None => old(self).open_seq().len() == 0 && *final(self) == *old(self),
            },
    {
        proof {
            old(self).lemma_wf_properties();
        }
        let nslots = self.slots.len();
        if self.open_slots.len() > 0 {
            let key = self.open_slots.remove(0);
            proof {
                assert(self.open_slots@ =~= old(self).open_seq().skip(1));
                lemma_sorted_skip_first(old(self).open_seq());
                assert(old(self).open_seq().contains(old(self).open_seq()[0]));
                let m1 = old(self)@.insert(key as int, old(self).slots_seq()[key as int]);
                assert forall|k: int| self@.contains_key(k) == m1.contains_key(k) by {
                    if k != key as int && 0 <= k < self.slots_seq().len() {
                        let ku = k as usize;
                        assert(self.open_seq().contains(ku) == (old(self).open_seq().contains(ku)
                            && ku != old(self).open_seq()[0]));
                    }
                }
                assert(self@ =~~= m1);
            }
            Some(key)
        } else {
            None
        }
    }

    /// Gets a read-only slice of the segment under `key`, or `None` when
    /// `key` is out of range or vacated.
    pub fn get(&self, key: usize) -> (r: Option<&[T]>)
        requires
            self.wf(),
        ensures
            match r {
                Some(s) => self@.contains_key(key as int) && s@ == self@[key as int],
                None => !self@.contains_key(key as int),
            },
    {
        if open_contains(&self.open_slots, key) {
            return None;
        }
        self.slots.get(key)
    }

    /// Overwrites the segment under an occupied `key`.
    pub fn set_segment(&mut self, key: usize, segment: &[T])
        requires
            old(self).wf(),
            old(self)@.contains_key(key as int),
            segment@.len() == old(self).seg_len(),
        ensures
            final(self).wf(),
            final(self).seg_len() == old(self).seg_len(),
            final(self).open_seq() == old(self).open_seq(),
            final(self).slots_seq() == old(self).slots_seq().update(key as int, segment@),
            final(self)@ == old(self)@.insert(key as int, segment@),
    {
        proof {
            self.slots.lemma_view_shape();
        }
        self.slots.set_segment(key, segment);
        proof {
            assert(self@ =~~= old(self)@.insert(key as int, segment@));
        }
    }

    /// Moves the data under `oldkey` to the smallest vacated slot when one
    /// exists below `oldkey`, returning the new key; otherwise returns
    /// `oldkey` unchanged.
    pub fn rekey(&mut self, oldkey: usize) -> (r: usize)
        requires
            old(self).wf(),
            (oldkey as int) < old(self).slots_seq().len(),
            !old(self).is_open(oldkey),
        ensures
            final(self).wf(),
            final(self).seg_len() == old(self).seg_len(),
            r <= oldkey,
            final(self)@.contains_key(r as int),
            final(self)@[r as int] == old(self)@[oldkey as int],
            if old(self).open_seq().len() > 0 && old(self).open_seq()[0] < oldkey {
                &&& r == old(self).open_seq()[0]
                &&& final(self).slots_seq() == old(self).slots_seq().update(
                    r as int,
                    old(self).slots_seq()[oldkey as int],
                )
                &&& final(self).open_seq().len() == old(self).open_seq().len()
                &&& forall|x: usize|
                    final(self).is_open(x) <==> ((old(self).is_open(x) && x != r) || x
                        == oldkey)
                &&& final(self)@ == old(self)@.remove(oldkey as int).insert(
                    r as int,
                    old(self)@[oldkey as int],
                )
            } else {
                r == oldkey && *final(self) == *old(self)
            },
    {
        proof {
            old(self).lemma_wf_properties();
        }
        let nslots = self.slots.len();
        if self.open_slots.len() > 0 {
            let head = self.open_slots[0];
            if head < oldkey {
                let newkey = self.open_slots.remove(0);
                proof {
                    assert(self.open_slots@ =~= old(self).open_seq().skip(1));
                    lemma_sorted_skip_first(old(self).open_seq());
                    assert(old(self).open_seq().contains(old(self).open_seq()[0]));
                }
                open_insert(&mut self.open_slots, oldkey);
                self.slots.copy_segment(oldkey, newkey);
                proof {
                    let mid = old(self).open_seq().skip(1);
                    assert forall|i: int| 0 <= i < self.open_slots@.len() implies ((
                    #[trigger] self.open_slots@[i]) as int) < (self.slots@.len() as int) by {
                        let x = self.open_slots@[i];
                        assert(self.open_slots@.contains(x));
                        assert(mid.contains(x) || x == oldkey);
                    }
                    assert forall|x: usize|
                        self.is_open(x) <==> ((old(self).is_open(x) && x != newkey) || x
                            == oldkey) by {
                        assert(self.open_seq().contains(x) == (mid.contains(x) || x == oldkey));
                    }
                    let m1 = old(self)@.remove(oldkey as int).insert(
                        newkey as int,
                        old(self)@[oldkey as int],
                    );
                    assert forall|k: int| self@.contains_key(k) == m1.contains_key(k) by {
                        if 0 <= k < self.slots_seq().len() {
                            let ku = k as usize;
                            assert(self.is_open(ku) <==> ((old(self).is_open(ku) && ku != newkey)
                                || ku == oldkey));
                        }
                    }
                    assert(self@ =~~= m1);
                }
                return newkey;
            }
        }
        oldkey
    }

    /// Trims every trailing vacated slot; with every slot vacated the slab
    /// empties entirely. Occupied keys and their data are untouched.
    #[verifier::rlimit(50)]
    pub fn compact(&mut self)
        requires
            old(self).wf(),
        ensures
            final(self).wf(),
            final(self).seg_len() == old(self).seg_len(),
            final(self)@ == old(self)@,
            old(self).open_seq().len() == old(self).slots_seq().len() ==> {
                &&& final(self).slots_seq() == Seq::<Seq<T>>::empty()
                &&& final(self).open_seq() == Seq::<usize>::empty()
            },
            old(self).open_seq().len() < old(self).slots_seq().len() ==> {
                &&& final(self).slots_seq() == old(self).slots_seq().take(
                    spec_compact_len(old(self).open_seq(), old(self).slots_seq().len()) as int,
                )
                &&& final(self).open_seq() == old(self).open_seq().take(
                    old(self).open_seq().len() - (old(self).slots_seq().len()
                        - spec_compact_len(
                        old(self).open_seq(),
                        old(self).slots_seq().len(),
                    )),
                )
            },
    {
        proof {
            old(self).lemma_wf_properties();
            self.slots.lemma_view_shape();
        }
        let ghost open0 = self.open_slots@;
        let ghost n0 = self.slots@.len();
        if self.open_slots.len() == self.slots.len() {
            self.open_slots.clear();
            self.slots.clear();
            proof {
                lemma_open_full_covers(open0, n0);
                assert forall|k: int| !old(self)@.contains_key(k) by {
                    if 0 <= k < n0 {
                        assert(open0.contains(k as usize));
                    }
                }
                assert(self@ =~~= old(self)@);
            }
        } else {
            let mut len = self.slots.len();
            proof {
                assert(open0.take(open0.len() as int) =~= open0);
            }
            #[verifier::loop_isolation(false)]
            while self.open_slots.len() > 0 && self.open_slots[self.open_slots.len() - 1] == len
                - 1
                invariant
                    self.slots == old(self).slots,
                    self.open_slots@.len() < len <= n0,
                    self.open_slots@.len() == open0.len() - (n0 - len as int),
                    sorted_strict(self.open_slots@),
                    self.open_slots@ == open0.take(open0.len() - (n0 - len as int)),
                    forall|i: int|
                        0 <= i < self.open_slots@.len() ==> ((#[trigger] self.open_slots@[i])
                            as int) < (len as int),
                    forall|w: int|
                        open0.len() - (n0 - len as int) <= w < open0.len() ==> ((
                        #[trigger] open0[w]) as int) >= len as int,
                    forall|j: int| len as int <= j < n0 ==> open0.contains(#[trigger] (j as usize)),
                    spec_compact_len(open0, n0) == spec_compact_len(self.open_slots@, len as nat),
                decreases len,
            {
                let ghost prev = self.open_slots@;
                let ghost len_prev = len as int;
                self.open_slots.pop();
                len = len - 1;
                proof {
                    assert(open0[prev.len() - 1] == prev[prev.len() - 1]);
                    assert(open0.contains(prev[prev.len() - 1]));
                    assert(self.open_slots@ =~= prev.drop_last());
                    assert(self.open_slots@ =~= open0.take(open0.len() - (n0 - len as int)));
                    assert(spec_compact_len(prev, len_prev as nat) == spec_compact_len(
                        self.open_slots@,
                        len as nat,
                    ));
                    assert forall|i: int|
                        0 <= i < self.open_slots@.len() implies ((#[trigger] self.open_slots@[i])
                        as int) < (len as int) by {
                        assert(prev[i] < prev[prev.len() - 1]);
                    }
                }
            }
            let ghost m = spec_compact_len(open0, n0);
            let ghost cfin = open0.len() - (n0 - len as int);
            proof {
                assert(spec_compact_len(self.open_slots@, len as nat) == len as nat);
                assert(len as int == m as int);
            }
            self.slots.truncate(len);
            proof {
                assert forall|k: int| self@.contains_key(k) == old(self)@.contains_key(k) by {
                    if 0 <= k < n0 {
                        let ku = k as usize;
                        if k < m as int {
                            if open0.contains(ku) {
                                let w = choose|w: int| 0 <= w < open0.len() && open0[w] == ku;
                                assert(w < cfin);
                                assert(self.open_slots@[w] == ku);
                                assert(self.open_slots@.contains(ku));
                            }
                            if self.open_slots@.contains(ku) {
                                let w = choose|w: int|
                                    0 <= w < self.open_slots@.len() && self.open_slots@[w] == ku;
                                assert(open0[w] == ku);
                                assert(open0.contains(ku));
                            }
                        } else {
                            assert(open0.contains(k as usize));
                        }
                    }
                }
                assert(self@ =~~= old(self)@);
            }
        }
    }

    /// Releases spare capacity of the backing buffer; nothing else
    /// changes.
    pub fn shrink_to_fit(&mut self)
        ensures
            final(self).seg_len() == old(self).seg_len(),
            final(self).slots_seq() == old(self).slots_seq(),
            final(self).open_seq() == old(self).open_seq(),
            final(self)@ == old(self)@,
    {
        self.slots.shrink_to_fit();
    }

    /// The occupied keys, in increasing order.
    pub fn get_keys(&self) -> (r: Vec<usize>)
        requires
            self.wf(),
        ensures
            sorted_strict(r@),
            forall|k: usize| r@.contains(k) <==> self@.contains_key(k as int),
    {
        let n = self.slots.len();
        let mut r: Vec<usize> = Vec::new();
        let mut key: usize = 0;
        #[verifier::loop_isolation(false)]
        while key < n
            invariant
                key <= n,
                forall|i: int| 0 <= i < r@.len() ==> (#[trigger] r@[i]) < key,
                sorted_strict(r@),
                forall|x: usize| r@.contains(x) <==> (x < key && self@.contains_key(x as int)),
            decreases n - key,
        {
            let ghost prev = r@;
            if !open_contains(&self.open_slots, key) {
                r.push(key);
                proof {
                    assert forall|x: usize| r@.contains(x) implies (x < key + 1
                        && self@.contains_key(x as int)) by {
                        let w = choose|w: int| 0 <= w < r@.len() && r@[w] == x;
                        if w < r@.len() - 1 {
                            assert(prev[w] == x);
                            assert(prev.contains(x));
                        }
                    }
                    assert forall|x: usize| (x < key + 1 && self@.contains_key(x as int))
                        implies r@.contains(x) by {
                        if x != key {
                            assert(prev.contains(x));
                            let w = choose|w: int| 0 <= w < prev.len() && prev[w] == x;
                            assert(r@[w] == x);
                        } else {
                            assert(r@[r@.len() - 1] == x);
                        }
                    }
                }
            } else {
                proof {
                    assert forall|x: usize| r@.contains(x) implies (x < key + 1
                        && self@.contains_key(x as int)) by {}
                    assert forall|x: usize| (x < key + 1 && self@.contains_key(x as int))
                        implies r@.contains(x) by {
                        assert(x != key);
                    }
                }
            }
            key += 1;
        }
        r
    }

    /// The occupied keys, in increasing order; see `get_keys`.
    pub fn iter_keys(&self) -> (r: Vec<usize>)
        requires
            self.wf(),
        ensures
            sorted_strict(r@),
            forall|k: usize| r@.contains(k) <==> self@.contains_key(k as int),
    {
        self.get_keys()
    }

    /// All `(key, segment)` pairs of occupied slots, in key order.
    pub fn enumerate(&self) -> (r: Vec<(usize, Vec<T>)>)
        requires
            self.wf(),
        ensures
            forall|i: int|
                0 <= i < r@.len() ==> self@.contains_key((#[trigger] r@[i]).0 as int)
                    && r@[i].1@ == self@[r@[i].0 as int],
            forall|i: int, j: int| 0 <= i < j < r@.len() ==> r@[i].0 < r@[j].0,
            forall|k: usize|
                self@.contains_key(k as int) ==> exists|i: int|
                    0 <= i < r@.len() && (#[trigger] r@[i]).0 == k,
    {
        let n = self.slots.len();
        let mut r: Vec<(usize, Vec<T>)> = Vec::new();
        let mut key: usize = 0;
        #[verifier::loop_isolation(false)]
        while key < n
            invariant
                key <= n,
                forall|i: int| 0 <= i < r@.len() ==> (#[trigger] r@[i]).0 < key,
                forall|i: int, j: int| 0 <= i < j < r@.len() ==> r@[i].0 < r@[j].0,
                forall|i: int|
                    0 <= i < r@.len() ==> self@.contains_key((#[trigger] r@[i]).0 as int)
                        && r@[i].1@ == self@[r@[i].0 as int],
                forall|x: usize|
                    x < key && self@.contains_key(x as int) ==> exists|i: int|
                        0 <= i < r@.len() && (#[trigger] r@[i]).0 == x,
            decreases n - key,
        {
            let ghost prev = r@;
            match self.get(key) {
                Some(s) => {
                    let pair = (key, vstd::slice::slice_to_vec(s));
                    r.push(pair);
                    proof {
                        assert forall|x: usize| x < key + 1 && self@.contains_key(x as int)
                            implies exists|i: int| 0 <= i < r@.len() && (#[trigger] r@[i]).0
                            == x by {
                            if x == key {
                                assert(r@[r@.len() - 1].0 == x);
                            } else {
                                let w = choose|w: int|
                                    0 <= w < prev.len() && (#[trigger] prev[w]).0 == x;
                                assert(r@[w].0 == x);
                            }
                        }
                    }
                },
                None => {
                    proof {
                        assert forall|x: usize| x < key + 1 && self@.contains_key(x as int)
                            implies exists|i: int| 0 <= i < r@.len() && (#[trigger] r@[i]).0
                            == x by {
                            assert(x != key);
                        }
                    }
                },
            }
            key += 1;
        }
        r
    }
}

/// A strictly increasing sequence dominates its indices: `s[i] >= i`.
proof fn lemma_sorted_index_lower_bound(s: Seq<usize>, i: int)
    requires
        sorted_strict(s),
        0 <= i < s.len(),
    ensures
        i <= s[i] as int,
    decreases i,
{
    if i > 0 {
        lemma_sorted_index_lower_bound(s, i - 1);
    }
}

/// Dropping the head of a strictly sorted list removes exactly its
/// smallest member.
proof fn lemma_sorted_skip_first(s: Seq<usize>)
    requires
        sorted_strict(s),
        s.len() > 0,
    ensures
        sorted_strict(s.skip(1)),
        forall|x: usize| s.skip(1).contains(x) <==> (s.contains(x) && x != s[0]),
        forall|x: usize| s.contains(x) ==> s[0] <= x,
{
    assert forall|x: usize| s.skip(1).contains(x) implies (s.contains(x) && x != s[0]) by {
        let w = choose|w: int| 0 <= w < s.skip(1).len() && s.skip(1)[w] == x;
        assert(s[w + 1] == x);
        assert(s.contains(x));
    }
    assert forall|x: usize| s.contains(x) && x != s[0] implies s.skip(1).contains(x) by {
        let w = choose|w: int| 0 <= w < s.len() && s[w] == x;
        assert(w != 0);
        assert(s.skip(1)[w - 1] == x);
    }
    assert forall|x: usize| s.contains(x) implies s[0] <= x by {
        let w = choose|w: int| 0 <= w < s.len() && s[w] == x;
        if w > 0 {
            assert(s[0] < s[w]);
        }
    }
}

/// A strictly sorted list of `n` indices below `n` contains every index
/// below `n`.
proof fn lemma_open_full_covers(s: Seq<usize>, n: nat)
    requires
        sorted_strict(s),
        s.len() == n,
        forall|i: int| 0 <= i < s.len() ==> ((#[trigger] s[i]) as int) < (n as int),
    ensures
        forall|j: int| 0 <= j < n ==> s.contains(#[trigger] (j as usize)),
    decreases n,
{
    if n > 0 {
        assert forall|i: int| 0 <= i < s.len() implies i <= (#[trigger] s[i]) as int by {
            lemma_sorted_index_lower_bound(s, i);
        }
        assert(s[n - 1] as int == n - 1);
        let t = s.drop_last();
        assert forall|i: int| 0 <= i < t.len() implies ((#[trigger] t[i]) as int) < n - 1 by {
            assert(s[i] < s[n - 1]);
        }
        lemma_open_full_covers(t, (n - 1) as nat);
        assert forall|j: int| 0 <= j < n implies s.contains(#[trigger] (j as usize)) by {
            if j < n - 1 {
                let w = choose|w: int| 0 <= w < t.len() && t[w] == j as usize;
                assert(s[w] == j as usize);
            } else {
                assert(s[n - 1] == j as usize);
            }
        }
    }
}

/// Key-stability law: inserting at one key or removing one key leaves the
/// presence and the data of every other key unchanged.
pub proof fn lemma_key_stability<T>(m: Map<int, Seq<T>>, k: int, x: Seq<T>, k1: int)
    requires
        k1 != k,
        m.contains_key(k1),
    ensures
        m.insert(k, x).contains_key(k1),
        m.insert(k, x)[k1] == m[k1],
        m.remove(k).contains_key(k1),
        m.remove(k)[k1] == m[k1],
{
}

/// Compaction law: when the vacated slots are exactly the contiguous
/// suffix beginning at `m`, compaction trims the slab to exactly `m`
/// slots.
pub proof fn lemma_compact_len_of_full_suffix(open: Seq<usize>, n: nat, m: nat)
    requires
        m <= n,
        open.len() == n - m,
        forall|i: int| 0 <= i < open.len() ==> (#[trigger] open[i]) as int == m + i,
    ensures
        spec_compact_len(open, n) == m,
    decreases open.len(),
{
    if open.len() > 0 {
        assert(open.last() as int == n - 1);
        lemma_compact_len_of_full_suffix(open.drop_last(), (n - 1) as nat, m);
    }
}

} // verus!
