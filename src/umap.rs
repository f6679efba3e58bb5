//! A map from `usize` keys to values, kept as a buffer of optional values where
//! slot `i` holds the value under the key `offset + i`, if any.

use vstd::prelude::*;
use vstd::std_specs::cmp::PartialEqSpec;
use crate::bounds::pair_key_range;
use crate::uset::USet;
use crate::slots::{keys_in, ascending, slots_fit, spannable, lemma_keys_in, lemma_keys_in_front,
    lemma_keys_in_agree, lemma_keys_in_split, lemma_ascending_unique, lemma_ascending_set_len};

verus! {

/// Capacity of the buffer that the first insertion into an unallocated map gets.
pub const INITIAL_CAPACITY: usize = 8;

/// A map from `usize` keys to values of `T`, meant for small to medium, reasonably
/// dense key ranges.
///
/// Lookup is O(1); insertion and removal are O(1) inside the covered range.
/// `min` and `max` are the smallest and largest keys, kept up to date by every
/// mutation; an empty map has `offset == min == max == 0`.
#[derive(Debug)]
pub struct UMap<T> {
    vec: Vec<Option<T>>,
    len: usize,
    offset: usize,
    min: usize,
    max: usize,
}

/// Which slots of a buffer of optional values hold a value.
pub open spec fn presence<T>(v: Seq<Option<T>>) -> Seq<bool> {
    v.map_values(|o: Option<T>| o is Some)
}

proof fn lemma_presence_update<T>(v: Seq<Option<T>>, i: int, x: Option<T>)
    requires
        0 <= i < v.len(),
    ensures
        presence(v.update(i, x)) == presence(v).update(i, x is Some),
{
    assert(presence(v.update(i, x)) =~= presence(v).update(i, x is Some));
}

/// The entries of a buffer whose first slot stands for the key `off`.
pub open spec fn buffer_map<T>(v: Seq<Option<T>>, off: int) -> Map<usize, T> {
    Map::new(
        |k: usize| off <= k < off + v.len() && v[k - off] is Some,
        |k: usize| v[k - off].unwrap(),
    )
}

/// The entries that putting the pairs of `s` in order gives an empty map: the first
/// value under a key stays, later ones are ignored.
pub open spec fn first_wins<T>(s: Seq<(usize, T)>) -> Map<usize, T>
    decreases s.len(),
{
    if s.len() == 0 {
        Map::empty()
    } else {
        let m = first_wins(s.drop_last());
        if m.dom().contains(s.last().0) {
            m
        } else {
            m.insert(s.last().0, s.last().1)
        }
    }
}

/// The keys of `first_wins(s)` are the keys of the pairs.
pub proof fn lemma_first_wins_keys<T>(s: Seq<(usize, T)>)
    ensures
        forall|k: usize|
            #[trigger] first_wins(s).dom().contains(k) <==> exists|i: int|
                0 <= i < s.len() && #[trigger] s[i].0 == k,
        first_wins(s).dom().finite(),
    decreases s.len(),
{
    if s.len() > 0 {
        let t = s.drop_last();
        lemma_first_wins_keys(t);
        assert forall|k: usize| #[trigger] first_wins(s).dom().contains(k) <==> exists|i: int|
            0 <= i < s.len() && #[trigger] s[i].0 == k by {
            if first_wins(t).dom().contains(k) {
                let i = choose|i: int| 0 <= i < t.len() && #[trigger] t[i].0 == k;
                assert(s[i].0 == k);
            }
            if exists|i: int| 0 <= i < s.len() && #[trigger] s[i].0 == k {
                let i = choose|i: int| 0 <= i < s.len() && #[trigger] s[i].0 == k;
                if i < s.len() - 1 {
                    assert(t[i].0 == k);
                }
            }
        }
    }
}

/// The keys of `keys` that hold a value in `m`, in the order of `keys`.
pub open spec fn selected<T>(m: Map<usize, T>, keys: Seq<usize>) -> Seq<usize> {
    keys.filter(|k: usize| m.dom().contains(k))
}

/// A buffer of `n` empty slots.
fn blank<T>(n: usize) -> (v: Vec<Option<T>>)
    ensures
        v@.len() == n,
        forall|i: int| 0 <= i < n ==> #[trigger] v@[i] is None,
{
    let mut v: Vec<Option<T>> = Vec::with_capacity(n);
    let mut i: usize = 0;
    while i < n
        invariant
            i <= n,
            v@.len() == i,
            forall|j: int| 0 <= j < i ==> #[trigger] v@[j] is None,
        decreases n - i,
    {
        v.push(None);
        i = i + 1;
    }
    v
}

impl<T> View for UMap<T> {
    type V = Map<usize, T>;

    closed spec fn view(&self) -> Map<usize, T> {
        buffer_map(self.vec@, self.offset as int)
    }
}

impl<T> UMap<T> {
    /// The keys of the map in ascending order.
    pub closed spec fn elems(&self) -> Seq<usize> {
        keys_in(presence(self.vec@), self.offset as int, 0, self.vec@.len() as int)
    }

    /// The number of slots of the buffer.
    pub closed spec fn cap(&self) -> nat {
        self.vec@.len()
    }

    /// Whether the buffer holds a value for the key `k`.
    spec fn slot(&self, k: int) -> bool {
        self.offset <= k < self.offset + self.vec@.len() && self.vec@[k - self.offset] is Some
    }

    pub closed spec fn wf(&self) -> bool {
        &&& self.vec@.len() <= usize::MAX
        &&& slots_fit(presence(self.vec@), self.offset as int)
        &&& self.len == self.elems().len()
        &&& if self.len == 0 {
            &&& self.offset == 0
            &&& self.min == 0
            &&& self.max == 0
            &&& forall|i: int| 0 <= i < self.vec@.len() ==> #[trigger] self.vec@[i] is None
        } else {
            &&& self.offset <= self.min <= self.max < self.offset + self.vec@.len()
            &&& self.vec@[self.min - self.offset] is Some
            &&& self.vec@[self.max - self.offset] is Some
            &&& forall|i: int|
                0 <= i < self.vec@.len() && #[trigger] self.vec@[i] is Some ==> self.min
                    <= self.offset + i <= self.max
        }
    }

    /// Every slot that holds a value stands for a key inside `[lo, hi]`.
    spec fn within(&self, lo: int, hi: int) -> bool {
        forall|i: int|
            0 <= i < self.vec@.len() && #[trigger] self.vec@[i] is Some ==> lo <= self.offset + i
                <= hi
    }

    proof fn lemma_members(&self)
        requires
            slots_fit(presence(self.vec@), self.offset as int),
        ensures
            forall|k: usize| #[trigger] self@.dom().contains(k) <==> self.slot(k as int),
            forall|k: usize| self@.dom().contains(k) ==> #[trigger] self@[k] == self.vec@[k
                - self.offset].unwrap(),
            forall|k: usize| self@.dom().contains(k) <==> #[trigger] self.elems().contains(k),
            ascending(self.elems()),
            self@.dom().finite(),
            self@.dom() == self.elems().to_set(),
            self@.dom().len() == self.elems().len(),
            self.elems().len() <= self.vec@.len(),
    {
        let p = presence(self.vec@);
        lemma_keys_in(p, self.offset as int, 0, self.vec@.len() as int);
        lemma_ascending_set_len(self.elems());
        assert(self@.dom() =~= self.elems().to_set());
    }

    proof fn lemma_wf(&self)
        requires
            self.wf(),
        ensures
            forall|k: usize| #[trigger] self@.dom().contains(k) <==> self.slot(k as int),
            forall|k: usize| self@.dom().contains(k) ==> #[trigger] self@[k] == self.vec@[k
                - self.offset].unwrap(),
            forall|k: usize| self@.dom().contains(k) <==> #[trigger] self.elems().contains(k),
            ascending(self.elems()),
            self@.dom().finite(),
            self@.dom() == self.elems().to_set(),
            self@.dom().len() == self.len,
            self.len <= self.vec@.len(),
            self.len == 0 <==> self@.dom() == Set::<usize>::empty(),
            self.len > 0 ==> self@.dom().contains(self.min) && self@.dom().contains(self.max),
            forall|k: usize| self@.dom().contains(k) ==> self.min <= k <= self.max,
            self.len > 0 ==> self.elems()[0] == self.min && self.elems().last() == self.max,
            self.len > 0 ==> self.max - self.min < usize::MAX,
            spannable(self@.dom()),
    {
        self.lemma_members();
        if self.len == 0 {
            assert(self@.dom() =~= Set::<usize>::empty());
        } else {
            assert(self@.dom().contains(self.min));
            assert(!(self@.dom() =~= Set::<usize>::empty()));
            let e = self.elems();
            assert(e.contains(e[0]));
            assert(e.contains(e.last()));
            assert(self@.dom().contains(self.max));
            assert(e.contains(self.min));
            assert(e.contains(self.max));
            let j1 = choose|j: int| 0 <= j < e.len() && e[j] == self.min;
            let j2 = choose|j: int| 0 <= j < e.len() && e[j] == self.max;
            assert(e[0] <= e[j1]);
            assert(e[j2] <= e.last());
            assert(self.vec@[e[0] - self.offset] is Some);
            assert(self.vec@[e.last() - self.offset] is Some);
        }
        assert forall|k: usize| self@.dom().contains(k) implies self.min <= k <= self.max by {
            assert(self.vec@[k - self.offset] is Some);
        }
        if self@.dom().contains(0) && self@.dom().contains(usize::MAX) {
            assert(self.min == 0);
        }
    }

    /// The keys in ascending order hold exactly the keys of the map, each once.
    pub proof fn lemma_elems(&self)
        requires
            self.wf(),
        ensures
            ascending(self.elems()),
            self.elems().to_set() == self@.dom(),
            self.elems().len() == self@.dom().len(),
            self@.dom().finite(),
    {
        self.lemma_wf();
    }

    /// A non-empty state whose bounds hold and whose count matches its keys is well formed.
    proof fn lemma_establish(&self)
        requires
            self.vec@.len() <= usize::MAX,
            self.len > 0,
            self.offset <= self.min <= self.max < self.offset + self.vec@.len(),
            self.vec@[self.min - self.offset] is Some,
            self.vec@[self.max - self.offset] is Some,
            self.within(self.min as int, self.max as int),
            self.len == self.elems().len(),
        ensures
            self.wf(),
    {
        assert(slots_fit(presence(self.vec@), self.offset as int));
        self.lemma_members();
    }

    /// Constructs a new, empty map that holds no buffer.
    pub fn new() -> (r: Self)
        ensures
            r.wf(),
            r@ == Map::<usize, T>::empty(),
            r.cap() == 0,
    {
        UMap::with_capacity(0)
    }

    /// Constructs an empty map whose buffer has `size` slots.
    pub fn with_capacity(size: usize) -> (r: Self)
        ensures
            r.wf(),
            r@ == Map::<usize, T>::empty(),
            r.cap() == size,
    {
        let r = UMap { vec: blank(size), len: 0, offset: 0, min: 0, max: 0 };
        proof {
            let p = presence(r.vec@);
            lemma_keys_in(p, 0, 0, size as int);
            if r.elems().len() > 0 {
                assert(p[r.elems()[0] - 0]);
            }
            r.lemma_wf();
            assert(r@ =~= Map::<usize, T>::empty());
        }
        r
    }

    /// The number of entries.
    pub fn len(&self) -> (r: usize)
        requires
            self.wf(),
        ensures
            r == self@.dom().len(),
    {
        proof { self.lemma_wf(); }
        self.len
    }

    /// Whether the map holds no entry.
    pub fn is_empty(&self) -> (r: bool)
        requires
            self.wf(),
        ensures
            r == (self@.dom() == Set::<usize>::empty()),
    {
        proof { self.lemma_wf(); }
        self.len == 0
    }

    /// The number of slots of the buffer.
    pub fn capacity(&self) -> (r: usize)
        ensures
            r == self.cap(),
    {
        self.vec.len()
    }

    /// Whether the map holds a value under `id`.
    pub fn contains(&self, id: usize) -> (r: bool)
        requires
            self.wf(),
        ensures
            r == self@.dom().contains(id),
    {
        proof { self.lemma_wf(); }
        self.len > 0 && id >= self.min && id <= self.max && self.vec[id - self.offset].is_some()
    }

    /// A reference to the value under `id`, or `None`; never out of bounds.
    pub fn get_ref(&self, id: usize) -> (r: Option<&T>)
        requires
            self.wf(),
        ensures
            r == if self@.dom().contains(id) {
                Some(&self@[id])
            } else {
                None::<&T>
            },
    {
        proof { self.lemma_wf(); }
        if self.len > 0 && id >= self.min && id <= self.max {
            match &self.vec[id - self.offset] {
                Some(v) => Some(v),
                None => None,
            }
        } else {
            None
        }
    }

    /// The smallest key, or `None` when the map is empty.
    pub fn min(&self) -> (r: Option<usize>)
        requires
            self.wf(),
        ensures
            r is None <==> self@.dom() == Set::<usize>::empty(),
            r matches Some(m) ==> self@.dom().contains(m) && forall|k: usize|
                self@.dom().contains(k) ==> m <= k,
    {
        proof { self.lemma_wf(); }
        if self.len == 0 {
            None
        } else {
            Some(self.min)
        }
    }

    /// The largest key, or `None` when the map is empty.
    pub fn max(&self) -> (r: Option<usize>)
        requires
            self.wf(),
        ensures
            r is None <==> self@.dom() == Set::<usize>::empty(),
            r matches Some(m) ==> self@.dom().contains(m) && forall|k: usize|
                self@.dom().contains(k) ==> k <= m,
    {
        proof { self.lemma_wf(); }
        if self.len == 0 {
            None
        } else {
            Some(self.max)
        }
    }
}

impl<T> UMap<T> {
    /// Moves the values of `self` into a buffer of `size` slots whose first slot stands
    /// for `lo`; `self` keeps only empty slots in its buffer.
    fn spread(&mut self, lo: usize, size: usize) -> (v: Vec<Option<T>>)
        requires
            old(self).wf(),
            old(self).len > 0,
            lo <= old(self).min,
            old(self).max - lo < size,
        ensures
            v@.len() == size,
            forall|j: int|
                0 <= j < size ==> #[trigger] v@[j] == if old(self).slot(lo + j) {
                    old(self).vec@[lo + j - old(self).offset]
                } else {
                    None::<T>
                },
            final(self).vec@.len() == old(self).vec@.len(),
            final(self).len == old(self).len,
            final(self).offset == old(self).offset,
            final(self).min == old(self).min,
            final(self).max == old(self).max,
    {
        let ghost pre = *self;
        proof { self.lemma_wf(); }
        let mut v = blank(size);
        let span = self.max - self.min;
        let mut i: usize = 0;
        while i <= span
            invariant
                pre.wf(),
                pre.len > 0,
                lo <= pre.min,
                pre.max - lo < size,
                span == pre.max - pre.min,
                i <= span + 1,
                v@.len() == size,
                self.vec@.len() == pre.vec@.len(),
                self.len == pre.len,
                self.offset == pre.offset,
                self.min == pre.min,
                self.max == pre.max,
                forall|t: int|
                    0 <= t < self.vec@.len() && self.offset + t >= self.min + i ==> #[trigger] self.vec@[t]
                        == pre.vec@[t],
                forall|j: int|
                    0 <= j < size ==> #[trigger] v@[j] == if pre.min <= lo + j < pre.min + i
                        && pre.slot(lo + j) {
                        pre.vec@[lo + j - pre.offset]
                    } else {
                        None::<T>
                    },
            decreases span + 1 - i,
        {
            let id = self.min + i;
            let mut x: Option<T> = None;
            self.vec.set_and_swap(id - self.offset, &mut x);
            v.set(id - lo, x);
            i = i + 1;
        }
        proof {
            assert forall|j: int| 0 <= j < size implies #[trigger] v@[j] == if pre.slot(lo + j) {
                pre.vec@[lo + j - pre.offset]
            } else {
                None::<T>
            } by {
                if pre.slot(lo + j) {
                    assert(pre.vec@[lo + j - pre.offset] is Some);
                }
            }
        }
        v
    }

    /// Appends `extra` empty slots to the buffer.
    fn grow(&mut self, extra: usize)
        requires
            old(self).vec@.len() + extra <= usize::MAX,
        ensures
            final(self).vec@.len() == old(self).vec@.len() + extra,
            forall|i: int|
                0 <= i < old(self).vec@.len() ==> #[trigger] final(self).vec@[i]
                    == old(self).vec@[i],
            forall|i: int|
                old(self).vec@.len() <= i < final(self).vec@.len()
                    ==> #[trigger] final(self).vec@[i] is None,
            final(self).len == old(self).len,
            final(self).offset == old(self).offset,
            final(self).min == old(self).min,
            final(self).max == old(self).max,
    {
        let ghost pre = *self;
        let mut i: usize = 0;
        while i < extra
            invariant
                i <= extra,
                pre.vec@.len() + extra <= usize::MAX,
                self.vec@.len() == pre.vec@.len() + i,
                forall|t: int| 0 <= t < pre.vec@.len() ==> #[trigger] self.vec@[t] == pre.vec@[t],
                forall|t: int| pre.vec@.len() <= t < self.vec@.len() ==> #[trigger] self.vec@[t] is None,
                self.len == pre.len,
                self.offset == pre.offset,
                self.min == pre.min,
                self.max == pre.max,
            decreases extra - i,
        {
            self.vec.push(None);
            i = i + 1;
        }
    }

    /// Puts `value` under `id`, reallocating only when `id` lies outside the buffer.
    /// A key that already holds a value keeps it.
    pub fn put(&mut self, id: usize, value: T)
        requires
            old(self).wf(),
            spannable(old(self)@.dom().insert(id)),
        ensures
            final(self).wf(),
            final(self)@ == if old(self)@.dom().contains(id) {
                old(self)@
            } else {
                old(self)@.insert(id, value)
            },
            !old(self)@.dom().contains(id) ==> final(self)@[id] == value,
            final(self)@.dom().contains(id),
    {
        proof { self.lemma_wf(); }
        if self.len == 0 {
            self.put_first(id, value);
        } else if id < self.offset {
            self.put_below(id, value);
        } else if id - self.offset >= self.vec.len() {
            self.put_above(id, value);
        } else if self.vec[id - self.offset].is_none() {
            self.put_inside(id, value);
        }
    }

    /// Insertion into an empty map: the buffer starts at `id`.
    fn put_first(&mut self, id: usize, value: T)
        requires
            old(self).wf(),
            old(self).len == 0,
        ensures
            final(self).wf(),
            final(self)@ == old(self)@.insert(id, value),
    {
        proof { self.lemma_wf(); }
        let ghost pre = *self;
        if self.vec.len() == 0 {
            self.vec = blank(INITIAL_CAPACITY);
        }
        self.vec.set(0, Some(value));
        self.offset = id;
        self.min = id;
        self.max = id;
        proof {
            assert(slots_fit(presence(self.vec@), self.offset as int));
            self.lemma_members();
            assert(self@ =~= pre@.insert(id, value));
            assert(self@.dom() =~= pre@.dom().insert(id));
            assert(self.elems().len() == self@.dom().len());
        }
        self.len = 1;
        proof { self.lemma_establish(); }
    }

    /// Insertion below the offset: a buffer of exactly `max - id + 1` slots.
    fn put_below(&mut self, id: usize, value: T)
        requires
            old(self).wf(),
            old(self).len > 0,
            id < old(self).offset,
            spannable(old(self)@.dom().insert(id)),
        ensures
            final(self).wf(),
            final(self)@ == old(self)@.insert(id, value),
    {
        proof {
            self.lemma_wf();
            assert(self@.dom().insert(id).contains(self.max));
        }
        let ghost pre = *self;
        let mut v = self.spread(id, self.max - id + 1);
        v.set(0, Some(value));
        self.vec = v;
        self.offset = id;
        self.min = id;
        proof {
            assert(self.within(self.min as int, self.max as int));
            assert(slots_fit(presence(self.vec@), self.offset as int));
            self.lemma_members();
            assert(self@ =~= pre@.insert(id, value));
            assert(self@.dom() =~= pre@.dom().insert(id));
            assert(self.elems().len() == self@.dom().len());
            assert(!pre@.dom().contains(id));
            assert(self.len + 1 <= self.vec@.len());
        }
        self.len = self.len + 1;
        proof { self.lemma_establish(); }
    }

    /// Insertion past the end of the buffer: it grows to reach `id`.
    fn put_above(&mut self, id: usize, value: T)
        requires
            old(self).wf(),
            old(self).len > 0,
            id >= old(self).offset,
            id - old(self).offset >= old(self).vec@.len(),
            spannable(old(self)@.dom().insert(id)),
        ensures
            final(self).wf(),
            final(self)@ == old(self)@.insert(id, value),
    {
        proof { self.lemma_wf(); }
        let ghost pre = *self;
        if id - self.offset < usize::MAX {
            let extra = id - self.offset + 1 - self.vec.len();
            self.grow(extra);
            self.vec.set(id - self.offset, Some(value));
            self.max = id;
            proof {
                assert forall|i: int| 0 <= i < self.vec@.len() && #[trigger] self.vec@[i] is Some
                    implies self.min <= self.offset + i <= self.max by {
                    if i < pre.vec@.len() {
                        assert(pre.vec@[i] is Some);
                    }
                }
                assert(slots_fit(presence(self.vec@), self.offset as int));
                self.lemma_members();
                assert(self@ =~= pre@.insert(id, value));
            assert(self@.dom() =~= pre@.dom().insert(id));
            assert(self.elems().len() == self@.dom().len());
                assert(!pre@.dom().contains(id));
                assert(self.len + 1 <= self.vec@.len());
            }
            self.len = self.len + 1;
            proof { self.lemma_establish(); }
        } else {
            // The buffer cannot reach `id` from its offset: start it at the minimum.
            proof {
                assert(pre@.dom().insert(id).contains(pre.min));
            }
            let mut v = self.spread(self.min, id - self.min + 1);
            v.set(id - self.min, Some(value));
            self.vec = v;
            self.offset = self.min;
            self.max = id;
            proof {
                assert(self.within(self.min as int, self.max as int));
                assert(slots_fit(presence(self.vec@), self.offset as int));
                self.lemma_members();
                assert(self@ =~= pre@.insert(id, value));
            assert(self@.dom() =~= pre@.dom().insert(id));
            assert(self.elems().len() == self@.dom().len());
                assert(!pre@.dom().contains(id));
                assert(self.len + 1 <= self.vec@.len());
            }
            self.len = self.len + 1;
            proof { self.lemma_establish(); }
        }
    }

    /// Insertion into a free slot of the buffer.
    fn put_inside(&mut self, id: usize, value: T)
        requires
            old(self).wf(),
            old(self).len > 0,
            old(self).offset <= id < old(self).offset + old(self).vec@.len(),
            old(self).vec@[id - old(self).offset] is None,
        ensures
            final(self).wf(),
            final(self)@ == old(self)@.insert(id, value),
    {
        proof { self.lemma_wf(); }
        let ghost pre = *self;
        self.vec.set(id - self.offset, Some(value));
        if id < self.min {
            self.min = id;
        } else if id > self.max {
            self.max = id;
        }
        proof {
            assert forall|i: int| 0 <= i < self.vec@.len() && #[trigger] self.vec@[i] is Some
                implies self.min <= self.offset + i <= self.max by {
                if i != id - self.offset {
                    assert(pre.vec@[i] is Some);
                }
            }
            assert(slots_fit(presence(self.vec@), self.offset as int));
            self.lemma_members();
            assert(self@ =~= pre@.insert(id, value));
            assert(self@.dom() =~= pre@.dom().insert(id));
            assert(self.elems().len() == self@.dom().len());
            assert(!pre@.dom().contains(id));
            assert(self@.dom().len() == pre@.dom().len() + 1);
            assert(self.len + 1 <= self.vec@.len());
        }
        self.len = self.len + 1;
        proof { self.lemma_establish(); }
    }

    /// Removes the entry under `id` and returns its value; `None` when there is none.
    /// The bounds are rescanned only when `id` was the minimum or the maximum.
    pub fn remove(&mut self, id: usize) -> (r: Option<T>)
        requires
            old(self).wf(),
        ensures
            final(self).wf(),
            final(self)@ == old(self)@.remove(id),
            r == if old(self)@.dom().contains(id) {
                Some(old(self)@[id])
            } else {
                None::<T>
            },
    {
        proof { self.lemma_wf(); }
        if !self.contains(id) {
            proof {
                assert(self@ =~= old(self)@.remove(id));
            }
            None
        } else if self.len == 1 {
            self.remove_last(id)
        } else {
            self.remove_one_of_many(id)
        }
    }

    /// Removing the only entry brings the map back to the canonical empty state.
    fn remove_last(&mut self, id: usize) -> (r: Option<T>)
        requires
            old(self).wf(),
            old(self).len == 1,
            old(self)@.dom().contains(id),
        ensures
            final(self).wf(),
            final(self)@ == old(self)@.remove(id),
            r == Some(old(self)@[id]),
    {
        proof { self.lemma_wf(); }
        let ghost pre = *self;
        proof {
            assert forall|i: int| 0 <= i < pre.vec@.len() && #[trigger] pre.vec@[i] is Some
                implies i == id - pre.offset by {
                let k = (pre.offset + i) as usize;
                assert(pre@.dom().contains(k));
                if k != id {
                    assert(pre.elems().contains(k));
                    assert(pre.elems().contains(id));
                    assert(pre.elems()[0] == k || pre.elems()[0] == id);
                }
            }
        }
        let mut x: Option<T> = None;
        self.vec.set_and_swap(id - self.offset, &mut x);
        self.offset = 0;
        self.min = 0;
        self.max = 0;
        self.len = 0;
        proof {
            assert(forall|i: int| 0 <= i < self.vec@.len() ==> #[trigger] self.vec@[i] is None);
            let p = presence(self.vec@);
            lemma_keys_in(p, 0, 0, self.vec@.len() as int);
            if self.elems().len() > 0 {
                assert(p[self.elems()[0] - 0]);
            }
            self.lemma_members();
            assert(self@ =~= pre@.remove(id));
        }
        x
    }

    /// Removing one of several entries; a removed bound is replaced by the next key inward.
    fn remove_one_of_many(&mut self, id: usize) -> (r: Option<T>)
        requires
            old(self).wf(),
            old(self).len > 1,
            old(self)@.dom().contains(id),
        ensures
            final(self).wf(),
            final(self)@ == old(self)@.remove(id),
            r == Some(old(self)@[id]),
    {
        proof { self.lemma_wf(); }
        let ghost pre = *self;
        proof {
            assert(pre.min < pre.max) by {
                if pre.min == pre.max {
                    assert(pre.elems().contains(pre.elems()[0]));
                    assert(pre.elems().contains(pre.elems()[1]));
                    assert(pre.elems()[0] < pre.elems()[1]);
                }
            }
        }
        let mut x: Option<T> = None;
        self.vec.set_and_swap(id - self.offset, &mut x);
        if id == self.min {
            let mut i: usize = id - self.offset + 1;
            while self.vec[i].is_none()
                invariant
                    self.vec@.len() == pre.vec@.len(),
                    self.offset == pre.offset,
                    self.max == pre.max,
                    self.max < self.offset + self.vec@.len(),
                    self.offset <= id,
                    id - self.offset < i <= self.max - self.offset,
                    self.vec@[self.max - self.offset] is Some,
                    forall|j: int| id - self.offset < j < i ==> #[trigger] self.vec@[j] is None,
                decreases self.max - self.offset - i,
            {
                i = i + 1;
            }
            self.min = self.offset + i;
        } else if id == self.max {
            let mut i: usize = id - self.offset - 1;
            while self.vec[i].is_none()
                invariant
                    self.vec@.len() == pre.vec@.len(),
                    self.offset == pre.offset,
                    self.min == pre.min,
                    self.offset <= self.min,
                    id < self.offset + self.vec@.len(),
                    self.min - self.offset <= i < id - self.offset,
                    self.vec@[self.min - self.offset] is Some,
                    forall|j: int| i < j < id - self.offset ==> #[trigger] self.vec@[j] is None,
                decreases i,
            {
                i = i - 1;
            }
            self.max = self.offset + i;
        }
        proof {
            assert forall|i: int| 0 <= i < self.vec@.len() && #[trigger] self.vec@[i] is Some
                implies self.min <= self.offset + i <= self.max by {
                assert(pre.vec@[i] is Some);
            }
            assert(slots_fit(presence(self.vec@), self.offset as int));
            self.lemma_members();
            assert(self@ =~= pre@.remove(id));
            assert(self@.dom() =~= pre@.dom().remove(id));
            assert(self.elems().len() == self@.dom().len());
        }
        self.len = self.len - 1;
        proof { self.lemma_establish(); }
        x
    }
}

impl<T: Clone> UMap<T> {
    /// What holds while entries are written into the buffer before the bounds are set:
    /// the count matches the entries, every key of which fits in a `usize`.
    spec fn loose(&self) -> bool {
        &&& self.vec@.len() <= usize::MAX
        &&& slots_fit(presence(self.vec@), self.offset as int)
        &&& self.len == self@.dom().len()
    }

    /// Puts a copy of each pair of `slice` in order, never over a key that holds a
    /// value; each key has a slot in the buffer.
    fn fill_all(&mut self, slice: &[(usize, T)])
        requires
            old(self).loose(),
            forall|i: int|
                0 <= i < slice@.len() ==> old(self).offset <= #[trigger] slice@[i].0 < old(
                    self).offset + old(self).vec@.len(),
        ensures
            final(self).loose(),
            final(self)@.dom() == old(self)@.dom().union(first_wins(slice@).dom()),
            forall|k: usize| #[trigger] old(self)@.dom().contains(k) ==> final(self)@[k] == old(self)@[k],
            forall|k: usize|
                #[trigger] first_wins(slice@).dom().contains(k) && !old(self)@.dom().contains(k)
                    ==> cloned(first_wins(slice@)[k], final(self)@[k]),
            final(self).offset == old(self).offset,
            final(self).vec@.len() == old(self).vec@.len(),
            final(self).min == old(self).min,
            final(self).max == old(self).max,
    {
        let ghost pre = *self;
        let mut i: usize = 0;
        while i < slice.len()
            invariant
                i <= slice@.len(),
                self.loose(),
                self.offset == pre.offset,
                self.min == pre.min,
                self.max == pre.max,
                self.vec@.len() == pre.vec@.len(),
                forall|t: int|
                    0 <= t < slice@.len() ==> pre.offset <= #[trigger] slice@[t].0 < pre.offset
                        + pre.vec@.len(),
                self@.dom() == pre@.dom().union(first_wins(slice@.subrange(0, i as int)).dom()),
                forall|k: usize| #[trigger] pre@.dom().contains(k) ==> self@[k] == pre@[k],
                forall|k: usize|
                    #[trigger] first_wins(slice@.subrange(0, i as int)).dom().contains(k)
                        && !pre@.dom().contains(k) ==> cloned(
                        first_wins(slice@.subrange(0, i as int))[k],
                        self@[k],
                    ),
            decreases slice@.len() - i,
        {
            let id = slice[i].0;
            let ghost before = *self;
            let ghost s0 = slice@.subrange(0, i as int);
            let ghost s1 = slice@.subrange(0, i + 1);
            proof {
                before.lemma_members();
                assert(s1.drop_last() =~= s0);
                assert(s1.last() == slice@[i as int]);
            }
            if self.vec[id - self.offset].is_none() {
                let v = slice[i].1.clone();
                self.vec.set(id - self.offset, Some(v));
                proof {
                    lemma_presence_update(before.vec@, id - before.offset, Some(v));
                    assert forall|t: int| 0 <= t < self.vec@.len() && #[trigger] presence(self.vec@)[t]
                        implies self.offset + t <= usize::MAX by {
                        if t != id - self.offset {
                            assert(presence(before.vec@)[t]);
                        }
                    }
                    assert(slots_fit(presence(self.vec@), self.offset as int));
                    self.lemma_members();
                    assert(self@ =~= before@.insert(id, v));
                    assert(!before@.dom().contains(id));
                    assert(self@.dom() =~= before@.dom().insert(id));
                }
                self.len = self.len + 1;
                proof {
                    assert(!first_wins(s0).dom().contains(id));
                    assert(first_wins(s1) == first_wins(s0).insert(id, slice@[i as int].1));
                    assert(self@.dom() =~= pre@.dom().union(first_wins(s1).dom()));
                }
            } else {
                proof {
                    assert(before@.dom().contains(id));
                    if first_wins(s0).dom().contains(id) {
                        assert(first_wins(s1) == first_wins(s0));
                    } else {
                        assert(pre@.dom().contains(id));
                        assert(first_wins(s1) == first_wins(s0).insert(id, slice@[i as int].1));
                    }
                    assert(self@.dom() =~= pre@.dom().union(first_wins(s1).dom()));
                }
            }
            i = i + 1;
        }
        proof {
            assert(slice@.subrange(0, slice@.len() as int) =~= slice@);
        }
    }

    /// A map holding copies of the pairs of a non-empty slice, in a buffer that starts
    /// at its smallest key and has at least `INITIAL_CAPACITY` slots.
    fn make_from_slice(slice: &[(usize, T)]) -> (r: Self)
        requires
            slice@.len() > 0,
            spannable(first_wins(slice@).dom()),
        ensures
            r.wf(),
            r@.dom() == first_wins(slice@).dom(),
            forall|k: usize| #[trigger] r@.dom().contains(k) ==> cloned(first_wins(slice@)[k], r@[k]),
    {
        proof { lemma_first_wins_keys(slice@); }
        let (mn, mx) = match pair_key_range(slice) {
            Some(b) => b,
            None => (0, 0),
        };
        proof {
            assert(first_wins(slice@).dom().contains(mn));
            assert(first_wins(slice@).dom().contains(mx));
        }
        let span = mx - mn + 1;
        let size = if span < INITIAL_CAPACITY { INITIAL_CAPACITY } else { span };
        let mut r = UMap { vec: blank(size), len: 0, offset: mn, min: mn, max: mx };
        proof {
            assert(slots_fit(presence(r.vec@), mn as int));
            r.lemma_members();
            assert(r@.dom() =~= Set::<usize>::empty());
        }
        r.fill_all(slice);
        proof {
            r.lemma_members();
            assert(r@.dom() =~= first_wins(slice@).dom());
            assert(r@.dom().contains(mn));
            assert(r@.dom().contains(mx));
            assert(r.vec@[0] is Some);
            assert(r.vec@[mx - mn] is Some);
            assert forall|i: int| 0 <= i < r.vec@.len() && #[trigger] r.vec@[i] is Some implies r.min
                <= r.offset + i <= r.max by {
                let k = (r.offset + i) as usize;
                assert(presence(r.vec@)[i]);
                assert(r.slot(k as int));
                assert(r@.dom().contains(k));
                let t = choose|t: int| 0 <= t < slice@.len() && #[trigger] slice@[t].0 == k;
            }
            vstd::set_lib::lemma_set_empty_equivalency_len(r@.dom());
            r.lemma_establish();
        }
        r
    }

    /// A map holding copies of the pairs of `slice`. Under a repeated key the first
    /// value is kept, as `put` keeps the value that is already there.
    pub fn from_slice(slice: &[(usize, T)]) -> (r: Self)
        requires
            spannable(first_wins(slice@).dom()),
        ensures
            r.wf(),
            r@.dom() == first_wins(slice@).dom(),
            forall|k: usize| #[trigger] r@.dom().contains(k) ==> cloned(first_wins(slice@)[k], r@[k]),
    {
        if slice.len() == 0 {
            proof {
                assert(first_wins(slice@) =~= Map::<usize, T>::empty());
            }
            UMap::new()
        } else {
            UMap::make_from_slice(slice)
        }
    }

    /// Puts a copy of each pair of `slice` in order; keys that hold a value keep it.
    /// Keys inside the current bounds are written in place; otherwise the buffer is
    /// reallocated once to cover both ranges.
    pub fn put_all(&mut self, slice: &[(usize, T)])
        requires
            old(self).wf(),
            spannable(old(self)@.dom().union(first_wins(slice@).dom())),
        ensures
            final(self).wf(),
            final(self)@.dom() == old(self)@.dom().union(first_wins(slice@).dom()),
            forall|k: usize| #[trigger] old(self)@.dom().contains(k) ==> final(self)@[k] == old(self)@[k],
            forall|k: usize|
                #[trigger] first_wins(slice@).dom().contains(k) && !old(self)@.dom().contains(k)
                    ==> cloned(first_wins(slice@)[k], final(self)@[k]),
    {
        proof {
            self.lemma_wf();
            lemma_first_wins_keys(slice@);
        }
        if slice.len() == 0 {
            proof {
                assert(first_wins(slice@) =~= Map::<usize, T>::empty());
                assert(self@.dom().union(first_wins(slice@).dom()) =~= self@.dom());
            }
            return;
        }
        if self.len == 0 {
            proof {
                assert(self@.dom().union(first_wins(slice@).dom()) =~= first_wins(slice@).dom());
                assert forall|k: usize| #[trigger] first_wins(slice@).dom().contains(k) implies self@.dom().union(
                    first_wins(slice@).dom()).contains(k) by {}
            }
            *self = UMap::make_from_slice(slice);
            return;
        }
        let (mn, mx) = match pair_key_range(slice) {
            Some(b) => b,
            None => (0, 0),
        };
        let ghost pre = *self;
        proof {
            assert(first_wins(slice@).dom().contains(mn));
            assert(first_wins(slice@).dom().contains(mx));
        }
        if mn >= self.min && mx <= self.max {
            proof {
                assert(self.loose());
            }
            self.fill_all(slice);
            proof {
                self.lemma_members();
                assert forall|i: int| 0 <= i < self.vec@.len() && #[trigger] self.vec@[i] is Some implies self.min
                    <= self.offset + i <= self.max by {
                    let k = (self.offset + i) as usize;
                    assert(presence(self.vec@)[i]);
                    assert(self.slot(k as int));
                    assert(self@.dom().contains(k));
                    if !pre@.dom().contains(k) {
                        assert(first_wins(slice@).dom().contains(k));
                        let t = choose|t: int| 0 <= t < slice@.len() && #[trigger] slice@[t].0 == k;
                    }
                }
                assert(self@.dom().contains(self.min));
                assert(self@.dom().contains(self.max));
                assert(self.slot(self.max as int));
                assert(self.slot(self.min as int));
                assert(self.elems().len() == self@.dom().len());
                vstd::set_lib::lemma_set_empty_equivalency_len(self@.dom());
                self.lemma_establish();
            }
        } else {
            let lo = if self.min < mn { self.min } else { mn };
            let hi = if self.max > mx { self.max } else { mx };
            proof {
                assert(pre@.dom().union(first_wins(slice@).dom()).contains(lo));
                assert(pre@.dom().union(first_wins(slice@).dom()).contains(hi));
            }
            let v = self.spread(lo, hi - lo + 1);
            self.vec = v;
            self.offset = lo;
            proof {
                assert(self.within(pre.min as int, pre.max as int));
                assert(slots_fit(presence(self.vec@), self.offset as int));
                self.lemma_members();
                assert(self@ =~= pre@);
            }
            self.fill_all(slice);
            self.min = lo;
            self.max = hi;
            proof {
                self.lemma_members();
                assert(self@.dom().contains(lo));
                assert(self@.dom().contains(hi));
                assert(self.slot(lo as int));
                assert(self.slot(hi as int));
                assert forall|i: int| 0 <= i < self.vec@.len() && #[trigger] self.vec@[i] is Some implies self.min
                    <= self.offset + i <= self.max by {
                    let k = (self.offset + i) as usize;
                    assert(presence(self.vec@)[i]);
                    assert(self.slot(k as int));
                    assert(self@.dom().contains(k));
                    if !pre@.dom().contains(k) {
                        assert(first_wins(slice@).dom().contains(k));
                        let t = choose|t: int| 0 <= t < slice@.len() && #[trigger] slice@[t].0 == k;
                    }
                }
                assert(self.elems().len() == self@.dom().len());
                vstd::set_lib::lemma_set_empty_equivalency_len(self@.dom());
                self.lemma_establish();
            }
        }
    }

}

impl<T: Clone> UMap<T> {
    /// A copy of the value under `id`, or `None`; never out of bounds.
    pub fn get(&self, id: usize) -> (r: Option<T>)
        requires
            self.wf(),
        ensures
            r is Some <==> self@.dom().contains(id),
            r matches Some(v) ==> cloned(self@[id], v),
    {
        match self.get_ref(id) {
            Some(v) => Some(v.clone()),
            None => None,
        }
    }
}

impl<T> UMap<T> {
    /// The set of keys that hold a value, built over a copy of the presence pattern.
    pub fn keys(&self) -> (r: USet)
        requires
            self.wf(),
        ensures
            r.wf(),
            r@ == self@.dom(),
    {
        proof { self.lemma_wf(); }
        let cap = self.vec.len();
        let mut p: Vec<bool> = Vec::with_capacity(cap);
        let mut i: usize = 0;
        while i < cap
            invariant
                cap == self.vec@.len(),
                i <= cap,
                p@ == presence(self.vec@).subrange(0, i as int),
            decreases cap - i,
        {
            p.push(self.vec[i].is_some());
            proof {
                assert(p@ =~= presence(self.vec@).subrange(0, i + 1));
            }
            i = i + 1;
        }
        proof {
            assert(p@ =~= presence(self.vec@));
        }
        let r = USet::from_fields(p, self.offset);
        proof {
            assert(r@ =~= self@.dom());
        }
        r
    }

    /// Walks the entries in ascending key order from the front, or in descending order
    /// from the back; the two ends never cross.
    pub fn iter(&self) -> (r: UMapIter<'_, T>)
        requires
            self.wf(),
        ensures
            r.valid(),
            r.remaining() == self.elems(),
            r.map() == self@,
    {
        UMapIter { handle: self, index: 0, rindex: 0 }
    }

    /// The key at position `index` in ascending order, found by walking the entries.
    fn key_at(&self, index: usize) -> (r: Option<usize>)
        requires
            self.wf(),
        ensures
            r == if index < self.elems().len() {
                Some(self.elems()[index as int])
            } else {
                None::<usize>
            },
    {
        proof { self.lemma_wf(); }
        if index >= self.len {
            return None;
        }
        let mut it = self.iter();
        let mut i: usize = 0;
        while i < index
            invariant
                i <= index < self.elems().len(),
                it.valid(),
                it.remaining() == self.elems().skip(i as int),
            decreases index - i,
        {
            it.next();
            proof {
                assert(it.remaining() =~= self.elems().skip(i + 1));
            }
            i = i + 1;
        }
        match it.next() {
            Some((k, _)) => Some(k),
            None => None,
        }
    }

    /// Removes and returns the entry at position `index` in ascending key order.
    pub fn pop(&mut self, index: usize) -> (r: Option<(usize, T)>)
        requires
            old(self).wf(),
        ensures
            final(self).wf(),
            r == if index < old(self).elems().len() {
                let k = old(self).elems()[index as int];
                Some((k, old(self)@[k]))
            } else {
                None::<(usize, T)>
            },
            final(self)@ == match r {
                Some((k, _)) => old(self)@.remove(k),
                None => old(self)@,
            },
    {
        proof { self.lemma_wf(); }
        match self.key_at(index) {
            Some(id) => {
                proof {
                    assert(self.elems().contains(id));
                }
                match self.remove(id) {
                    Some(v) => Some((id, v)),
                    None => None,
                }
            },
            None => None,
        }
    }

    /// Puts `value` under `id`, overwriting the value that is there.
    pub fn replace(&mut self, id: usize, value: T)
        requires
            old(self).wf(),
            spannable(old(self)@.dom().insert(id)),
        ensures
            final(self).wf(),
            final(self)@ == old(self)@.insert(id, value),
    {
        proof { self.lemma_wf(); }
        if self.contains(id) {
            let ghost pre = *self;
            self.vec.set(id - self.offset, Some(value));
            proof {
                lemma_presence_update(pre.vec@, id - pre.offset, Some(value));
                assert(presence(self.vec@) =~= presence(pre.vec@));
                assert(self.elems() == pre.elems());
                self.lemma_members();
                assert(self@ =~= pre@.insert(id, value));
            }
        } else {
            self.put(id, value);
        }
    }

    /// The key that `push` gives its value: one past the largest key, or one for an
    /// empty map.
    pub closed spec fn next_key(&self) -> int {
        self.max + 1
    }

    /// Puts `value` under `next_key()` and returns that key.
    pub fn push(&mut self, value: T) -> (r: usize)
        requires
            old(self).wf(),
            old(self).next_key() <= usize::MAX,
            spannable(old(self)@.dom().insert(old(self).next_key() as usize)),
        ensures
            final(self).wf(),
            r == old(self).next_key(),
            !old(self)@.dom().contains(r),
            final(self)@ == old(self)@.insert(r, value),
            final(self).next_key() == r + 1,
    {
        proof { self.lemma_wf(); }
        let id = self.max + 1;
        proof {
            assert(!self@.dom().contains(id));
            assert(spannable(self@.dom().insert(id)));
        }
        self.put(id, value);
        proof {
            self.lemma_wf();
            assert(self@.dom().contains(id));
            assert(self.max >= id);
            assert(self@.dom().contains(self.max));
        }
        id
    }
}

impl<T: Clone> UMap<T> {
    /// The entry at position `index` in ascending key order, with a copy of its value.
    pub fn at_index(&self, index: usize) -> (r: Option<(usize, T)>)
        requires
            self.wf(),
        ensures
            r is Some <==> index < self.elems().len(),
            r matches Some((k, v)) ==> k == self.elems()[index as int] && cloned(self@[k], v),
    {
        proof { self.lemma_wf(); }
        match self.key_at(index) {
            Some(id) => {
                proof {
                    assert(self.elems().contains(id));
                }
                match self.get(id) {
                    Some(v) => Some((id, v)),
                    None => None,
                }
            },
            None => None,
        }
    }

    /// Puts each value of `slice` in turn under the next free key past the largest one,
    /// and returns those keys.
    pub fn push_all(&mut self, slice: &[T]) -> (r: Vec<usize>)
        requires
            old(self).wf(),
            slice@.len() > 0 ==> old(self).next_key() + slice@.len() - 1 <= usize::MAX && spannable(
                old(self)@.dom().insert((old(self).next_key() + slice@.len() - 1) as usize),
            ),
        ensures
            final(self).wf(),
            r@.len() == slice@.len(),
            forall|i: int| 0 <= i < r@.len() ==> #[trigger] r@[i] == old(self).next_key() + i,
            final(self)@.dom() == old(self)@.dom().union(r@.to_set()),
            forall|k: usize| #[trigger] old(self)@.dom().contains(k) ==> final(self)@[k] == old(self)@[k],
            forall|i: int| 0 <= i < r@.len() ==> cloned(slice@[i], #[trigger] final(self)@[r@[i]]),
    {
        let extra = slice.len();
        if self.vec.len() <= usize::MAX - extra {
            self.enlarge_capacity_to(self.vec.len() + extra);
        }
        let ghost pre = *self;
        let mut r: Vec<usize> = Vec::with_capacity(extra);
        let mut i: usize = 0;
        while i < extra
            invariant
                extra == slice@.len(),
                i <= extra,
                self.wf(),
                pre.wf(),
                self.next_key() == pre.next_key() + i,
                extra > 0 ==> pre.next_key() + extra - 1 <= usize::MAX && spannable(
                    pre@.dom().insert((pre.next_key() + extra - 1) as usize),
                ),
                pre.next_key() >= 1,
                forall|k: usize| #[trigger] pre@.dom().contains(k) ==> k < pre.next_key(),
                r@.len() == i,
                forall|t: int| 0 <= t < i ==> #[trigger] r@[t] == pre.next_key() + t,
                self@.dom() == pre@.dom().union(r@.to_set()),
                forall|k: usize| #[trigger] pre@.dom().contains(k) ==> self@[k] == pre@[k],
                forall|t: int| 0 <= t < i ==> cloned(slice@[t], #[trigger] self@[r@[t]]),
            decreases extra - i,
        {
            let ghost before = *self;
            let ghost before_r = r@;
            proof {
                let next = self.next_key();
                if self@.dom().contains(0) && next == usize::MAX {
                    assert(!r@.to_set().contains(0)) by {
                        if r@.contains(0) {
                            let t = choose|t: int| 0 <= t < r@.len() && r@[t] == 0;
                        }
                    }
                    assert(pre@.dom().contains(0));
                    assert(pre@.dom().insert((pre.next_key() + extra - 1) as usize).contains(
                        usize::MAX,
                    ));
                }
            }
            let v = slice[i].clone();
            let id = self.push(v);
            r.push(id);
            proof {
                assert(r@ == before_r.push(id));
                before_r.lemma_push_to_set_commute(id);
                assert(self@.dom() =~= pre@.dom().union(r@.to_set()));
                assert forall|k: usize| #[trigger] pre@.dom().contains(k) implies self@[k] == pre@[k] by {
                    assert(before@.dom().contains(k));
                }
                assert forall|t: int| 0 <= t < i + 1 implies cloned(slice@[t], #[trigger] self@[r@[t]]) by {
                    if t < i {
                        assert(before@.dom().contains(r@[t]));
                        assert(r@[t] != id);
                    }
                }
            }
            i = i + 1;
        }
        r
    }
}

/// A cursor over the entries of a map, from both ends.
pub struct UMapIter<'a, T> {
    handle: &'a UMap<T>,
    index: usize,
    rindex: usize,
}

impl<'a, T> UMapIter<'a, T> {
    /// The keys not yet handed out, in ascending order.
    pub closed spec fn remaining(&self) -> Seq<usize> {
        keys_in(
            presence(self.handle.vec@),
            self.handle.offset as int,
            self.index as int,
            self.handle.vec@.len() - self.rindex,
        )
    }

    /// The entries of the map that is walked.
    pub closed spec fn map(&self) -> Map<usize, T> {
        self.handle@
    }

    pub closed spec fn valid(&self) -> bool {
        &&& self.handle.wf()
        &&& self.index + self.rindex <= self.handle.vec@.len()
    }

    /// The entry with the smallest key not yet handed out.
    pub fn next(&mut self) -> (r: Option<(usize, &'a T)>)
        requires
            old(self).valid(),
        ensures
            final(self).valid(),
            final(self).map() == old(self).map(),
            old(self).remaining().len() == 0 ==> r is None && final(self).remaining().len() == 0,
            old(self).remaining().len() > 0 ==> {
                let k = old(self).remaining()[0];
                &&& r == Some((k, &old(self).map()[k]))
                &&& old(self).map().dom().contains(k)
                &&& final(self).remaining() == old(self).remaining().drop_first()
            },
    {
        let ghost start = self.remaining();
        let h: &'a UMap<T> = self.handle;
        let n = h.vec.len();
        while self.index < n - self.rindex
            invariant
                self.valid(),
                self.handle == h,
                n == h.vec@.len(),
                self.remaining() == start,
                start == old(self).remaining(),
                old(self).handle == h,
            decreases n - self.rindex - self.index,
        {
            let index = self.index;
            proof {
                lemma_keys_in_front(presence(h.vec@), h.offset as int, index as int, n - self.rindex);
            }
            self.index = self.index + 1;
            match &h.vec[index] {
                Some(v) => {
                    proof {
                        assert(presence(h.vec@)[index as int]);
                        assert(h.offset + index <= usize::MAX);
                        let key = (h.offset + index) as usize;
                        assert(start == seq![key] + self.remaining());
                        assert(start[0] == key);
                        assert(start.drop_first() =~= self.remaining());
                        h.lemma_members();
                        assert(h@.dom().contains(key));
                    }
                    return Some((index + h.offset, v));
                },
                None => {},
            }
        }
        proof {
            assert(start =~= Seq::<usize>::empty());
        }
        None
    }

    /// The entry with the largest key not yet handed out.
    pub fn next_back(&mut self) -> (r: Option<(usize, &'a T)>)
        requires
            old(self).valid(),
        ensures
            final(self).valid(),
            final(self).map() == old(self).map(),
            old(self).remaining().len() == 0 ==> r is None && final(self).remaining().len() == 0,
            old(self).remaining().len() > 0 ==> {
                let k = old(self).remaining().last();
                &&& r == Some((k, &old(self).map()[k]))
                &&& old(self).map().dom().contains(k)
                &&& final(self).remaining() == old(self).remaining().drop_last()
            },
    {
        let ghost start = self.remaining();
        let h: &'a UMap<T> = self.handle;
        let n = h.vec.len();
        while self.rindex < n - self.index
            invariant
                self.valid(),
                self.handle == h,
                n == h.vec@.len(),
                self.remaining() == start,
                start == old(self).remaining(),
                old(self).handle == h,
            decreases n - self.rindex - self.index,
        {
            let index = n - self.rindex - 1;
            self.rindex = self.rindex + 1;
            match &h.vec[index] {
                Some(v) => {
                    proof {
                        assert(presence(h.vec@)[index as int]);
                        assert(h.offset + index <= usize::MAX);
                        let key = (h.offset + index) as usize;
                        assert(start == self.remaining().push(key));
                        assert(start.last() == key);
                        assert(start.drop_last() =~= self.remaining());
                        h.lemma_members();
                        assert(h@.dom().contains(key));
                    }
                    return Some((index + h.offset, v));
                },
                None => {},
            }
        }
        proof {
            assert(start =~= Seq::<usize>::empty());
        }
        None
    }
}

impl<T> UMap<T> {
    /// A map over a buffer of optional values whose first slot stands for `offset`; the
    /// bounds are found by scanning, and a buffer with no value gives the empty map.
    fn from_parts(vec: Vec<Option<T>>, offset: usize) -> (r: Self)
        requires
            slots_fit(presence(vec@), offset as int),
        ensures
            r.wf(),
            r@ == buffer_map(vec@, offset as int),
            r.cap() == vec@.len(),
    {
        let ghost v = vec@;
        let ghost p = presence(vec@);
        let cap = vec.len();
        let mut i: usize = 0;
        let mut len: usize = 0;
        let mut first: usize = 0;
        let mut last: usize = 0;
        while i < cap
            invariant
                vec@ == v,
                p == presence(v),
                cap == v.len(),
                i <= cap,
                len <= i,
                len == keys_in(p, offset as int, 0, i as int).len(),
                len > 0 ==> first <= last < i && v[first as int] is Some && v[last as int] is Some,
                forall|t: int| 0 <= t < i && #[trigger] v[t] is Some ==> first <= t <= last,
                len == 0 ==> forall|t: int| 0 <= t < i ==> #[trigger] v[t] is None,
            decreases cap - i,
        {
            proof {
                assert(p[i as int] == v[i as int] is Some);
            }
            if vec[i].is_some() {
                if len == 0 {
                    first = i;
                }
                last = i;
                len = len + 1;
            }
            i = i + 1;
        }
        if len == 0 {
            let r = UMap { vec, len: 0, offset: 0, min: 0, max: 0 };
            proof {
                lemma_keys_in(p, 0, 0, cap as int);
                if r.elems().len() > 0 {
                    assert(p[r.elems()[0] - 0]);
                }
                r.lemma_members();
                assert(buffer_map(v, offset as int) =~= Map::<usize, T>::empty());
                assert(r@ =~= Map::<usize, T>::empty());
            }
            r
        } else {
            proof {
                assert(p[last as int]);
            }
            let r = UMap { vec, len, offset, min: offset + first, max: offset + last };
            proof {
                assert(slots_fit(presence(r.vec@), offset as int));
                r.lemma_members();
            }
            r
        }
    }

    /// Grows the buffer to `new_capacity` slots; never shrinks it.
    pub fn enlarge_capacity_to(&mut self, new_capacity: usize)
        requires
            old(self).wf(),
        ensures
            final(self).wf(),
            final(self)@ == old(self)@,
            final(self).elems() == old(self).elems(),
            final(self).next_key() == old(self).next_key(),
            final(self).cap() == if new_capacity > old(self).cap() {
                new_capacity as nat
            } else {
                old(self).cap()
            },
    {
        proof { self.lemma_wf(); }
        let ghost pre = *self;
        if new_capacity > self.vec.len() {
            let extra = new_capacity - self.vec.len();
            self.grow(extra);
            proof {
                let off = self.offset as int;
                let old_cap = pre.vec@.len() as int;
                let p = presence(self.vec@);
                lemma_keys_in_split(p, off, 0, old_cap, new_capacity as int);
                lemma_keys_in_agree(presence(pre.vec@), p, off, 0, old_cap);
                assert forall|t: int| 0 <= t < self.vec@.len() && #[trigger] self.vec@[t] is Some
                    implies t < old_cap && pre.vec@[t] is Some by {}
                assert(slots_fit(p, off));
                lemma_keys_in(p, off, old_cap, new_capacity as int);
                let tail = keys_in(p, off, old_cap, new_capacity as int);
                if tail.len() > 0 {
                    assert(p[tail[0] - off]);
                }
                assert(tail =~= Seq::<usize>::empty());
                assert(self.elems() =~= pre.elems());
                assert(self@ =~= pre@);
            }
        }
    }

    /// Keeps the first `n` entries in ascending key order; the values of the others are
    /// moved into a buffer of the same shape, which is returned with the offset it had.
    fn cut(&mut self, n: usize) -> (r: (Vec<Option<T>>, usize))
        requires
            old(self).wf(),
        ensures
            final(self).wf(),
            final(self).elems() == if n < old(self)@.dom().len() {
                old(self).elems().take(n as int)
            } else {
                old(self).elems()
            },
            final(self)@ == old(self)@.restrict(final(self).elems().to_set()),
            final(self).cap() == old(self).cap(),
            slots_fit(presence(r.0@), r.1 as int),
            buffer_map(r.0@, r.1 as int) == old(self)@.remove_keys(final(self).elems().to_set()),
    {
        proof { self.lemma_wf(); }
        let ghost pre = *self;
        if self.len > 0 && n > 0 && n < self.len {
            let mut i: usize = 0;
            let mut count: usize = 0;
            while count < n
                invariant
                    *self == pre,
                    self.wf(),
                    0 < n < self.len,
                    i <= self.vec@.len(),
                    count <= n,
                    count == keys_in(presence(self.vec@), self.offset as int, 0, i as int).len(),
                    count == n ==> i > 0 && self.vec@[i - 1] is Some,
                decreases self.vec@.len() - i,
            {
                proof {
                    if i == self.vec@.len() {
                        assert(count == self.len);
                    }
                    lemma_keys_in(presence(self.vec@), self.offset as int, 0, i as int);
                    assert(presence(self.vec@)[i as int] == self.vec@[i as int] is Some);
                }
                if self.vec[i].is_some() {
                    count = count + 1;
                }
                i = i + 1;
            }
            let last = i - 1;
            proof {
                assert(presence(pre.vec@)[last as int]);
            }
            let cap = self.vec.len();
            let mut out = blank(cap);
            let mut j: usize = i;
            while j < cap
                invariant
                    self.vec@.len() == cap,
                    out@.len() == cap,
                    cap == pre.vec@.len(),
                    pre.wf(),
                    self.offset == pre.offset,
                    self.min == pre.min,
                    self.max == pre.max,
                    self.len == pre.len,
                    0 < i,
                    last == i - 1,
                    pre.vec@[last as int] is Some,
                    n == keys_in(presence(pre.vec@), pre.offset as int, 0, i as int).len(),
                    i <= j <= cap,
                    forall|t: int| 0 <= t < i ==> #[trigger] self.vec@[t] == pre.vec@[t],
                    forall|t: int| i <= t < j ==> #[trigger] self.vec@[t] is None,
                    forall|t: int| j <= t < cap ==> #[trigger] self.vec@[t] == pre.vec@[t],
                    forall|t: int| 0 <= t < i ==> #[trigger] out@[t] is None,
                    forall|t: int| i <= t < j ==> #[trigger] out@[t] == pre.vec@[t],
                    forall|t: int| j <= t < cap ==> #[trigger] out@[t] is None,
                decreases cap - j,
            {
                let mut x: Option<T> = None;
                self.vec.set_and_swap(j, &mut x);
                out.set(j, x);
                j = j + 1;
            }
            self.max = self.offset + last;
            self.len = n;
            proof {
                let off = self.offset as int;
                let pre_p = presence(pre.vec@);
                let post_p = presence(self.vec@);
                lemma_keys_in_split(pre_p, off, 0, i as int, cap as int);
                lemma_keys_in_split(post_p, off, 0, i as int, cap as int);
                lemma_keys_in_agree(pre_p, post_p, off, 0, i as int);
                assert forall|t: int| 0 <= t < self.vec@.len() && #[trigger] self.vec@[t] is Some
                    implies self.min <= self.offset + t <= self.max by {
                    assert(pre.vec@[t] is Some);
                }
                assert(slots_fit(post_p, off));
                lemma_keys_in(post_p, off, i as int, cap as int);
                let tail = keys_in(post_p, off, i as int, cap as int);
                if tail.len() > 0 {
                    assert(post_p[tail[0] - off]);
                }
                assert(tail =~= Seq::<usize>::empty());
                let head = keys_in(pre_p, off, 0, i as int);
                assert(head.len() == n);
                assert(self.elems() =~= head);
                assert(pre.elems().take(n as int) =~= head);
                self.lemma_members();
                pre.lemma_members();
                assert(self@ =~= pre@.restrict(self.elems().to_set()));
                assert(slots_fit(presence(out@), off));
                assert(buffer_map(out@, off) =~= pre@.remove_keys(self.elems().to_set()));
            }
            (out, self.offset)
        } else if self.len > 0 && n == 0 {
            let cap = self.vec.len();
            let mut out = blank(cap);
            let mut j: usize = 0;
            while j < cap
                invariant
                    self.vec@.len() == cap,
                    out@.len() == cap,
                    cap == pre.vec@.len(),
                    pre.wf(),
                    self.offset == pre.offset,
                    j <= cap,
                    forall|t: int| 0 <= t < j ==> #[trigger] self.vec@[t] is None,
                    forall|t: int| j <= t < cap ==> #[trigger] self.vec@[t] == pre.vec@[t],
                    forall|t: int| 0 <= t < j ==> #[trigger] out@[t] == pre.vec@[t],
                    forall|t: int| j <= t < cap ==> #[trigger] out@[t] is None,
                decreases cap - j,
            {
                let mut x: Option<T> = None;
                self.vec.set_and_swap(j, &mut x);
                out.set(j, x);
                j = j + 1;
            }
            let off = self.offset;
            self.offset = 0;
            self.min = 0;
            self.max = 0;
            self.len = 0;
            proof {
                let p = presence(self.vec@);
                lemma_keys_in(p, 0, 0, cap as int);
                if self.elems().len() > 0 {
                    assert(p[self.elems()[0] - 0]);
                }
                assert(self.elems() =~= pre.elems().take(0));
                self.lemma_members();
                assert(self@ =~= pre@.restrict(self.elems().to_set()));
                assert(out@ =~= pre.vec@);
                assert(slots_fit(presence(out@), off as int));
                assert(pre@ == buffer_map(pre.vec@, pre.offset as int));
                assert(pre.elems().take(0) =~= Seq::<usize>::empty());
                assert(buffer_map(out@, off as int) =~= pre@.remove_keys(self.elems().to_set()));
            }
            (out, off)
        } else {
            proof {
                if n == 0 {
                    assert(pre.elems() =~= pre.elems().take(0));
                }
                assert(self@ =~= pre@.restrict(self.elems().to_set()));
                assert(slots_fit(presence(Seq::<Option<T>>::empty()), 0));
                assert(buffer_map(Seq::<Option<T>>::empty(), 0) =~= pre@.remove_keys(
                    self.elems().to_set(),
                ));
            }
            (Vec::new(), 0)
        }
    }

    /// Keeps the first `n` entries in ascending key order and drops the rest; nothing
    /// changes when `n` is not below the length. The buffer keeps its capacity.
    pub fn truncate(&mut self, n: usize)
        requires
            old(self).wf(),
        ensures
            final(self).wf(),
            final(self).elems() == if n < old(self)@.dom().len() {
                old(self).elems().take(n as int)
            } else {
                old(self).elems()
            },
            final(self)@ == old(self)@.restrict(final(self).elems().to_set()),
            final(self).cap() == old(self).cap(),
    {
        let _ = self.cut(n);
    }

    /// Works like `truncate`, and returns the removed entries as a new map.
    pub fn drain(&mut self, n: usize) -> (r: Self)
        requires
            old(self).wf(),
        ensures
            final(self).wf(),
            r.wf(),
            final(self).elems() == if n < old(self)@.dom().len() {
                old(self).elems().take(n as int)
            } else {
                old(self).elems()
            },
            final(self)@ == old(self)@.restrict(final(self).elems().to_set()),
            r@ == old(self)@.remove_keys(final(self).elems().to_set()),
    {
        let (out, off) = self.cut(n);
        UMap::from_parts(out, off)
    }

    /// Removes every entry. The buffer keeps its capacity.
    pub fn clear(&mut self)
        requires
            old(self).wf(),
        ensures
            final(self).wf(),
            final(self)@ == Map::<usize, T>::empty(),
            final(self).cap() == old(self).cap(),
    {
        proof { self.lemma_wf(); }
        self.truncate(0);
        proof {
            assert(self.elems() =~= Seq::<usize>::empty());
            assert(self@ =~= Map::<usize, T>::empty());
        }
    }

    /// Reallocates the buffer to span exactly from the smallest to the largest key, when
    /// it has free slots at either end; an empty map lets its buffer go.
    pub fn shrink_to_fit(&mut self)
        requires
            old(self).wf(),
        ensures
            final(self).wf(),
            final(self)@ == old(self)@,
            final(self).elems() == old(self).elems(),
            final(self).cap() == if old(self)@.dom().len() == 0 {
                0
            } else {
                (old(self).elems().last() - old(self).elems()[0] + 1) as nat
            },
    {
        proof { self.lemma_wf(); }
        let ghost pre = *self;
        if self.len > 0 && (self.vec[0].is_none() || self.vec[self.vec.len() - 1].is_none()) {
            let size = self.max - self.min + 1;
            let lo = self.min;
            self.vec = self.spread(lo, size);
            self.offset = lo;
            proof {
                assert(self.within(self.min as int, self.max as int));
                assert(slots_fit(presence(self.vec@), self.offset as int));
                self.lemma_members();
                assert(self@ =~= pre@);
                assert(self.elems().len() == self@.dom().len());
                self.lemma_establish();
                self.lemma_wf();
                lemma_ascending_unique(self.elems(), pre.elems());
            }
        } else if self.len == 0 && self.vec.len() > 0 {
            self.vec = Vec::new();
            proof {
                assert(self.elems() =~= pre.elems());
                assert(self@ =~= pre@);
            }
        } else if self.len > 0 {
            proof {
                assert(self.vec@[0] is Some);
                assert(self.vec@[self.vec@.len() - 1] is Some);
            }
        }
    }
}

impl<T: Clone> UMap<T> {
    /// The entries in ascending key order, with copies of the values.
    pub fn to_vec(&self) -> (r: Vec<(usize, T)>)
        requires
            self.wf(),
        ensures
            r@.len() == self.elems().len(),
            forall|i: int|
                0 <= i < r@.len() ==> (#[trigger] r@[i]).0 == self.elems()[i] && cloned(
                    self@[self.elems()[i]],
                    r@[i].1,
                ),
    {
        let mut r: Vec<(usize, T)> = Vec::new();
        let mut it = self.iter();
        let ghost e = self.elems();
        let ghost mut c: int = 0;
        loop
            invariant
                it.valid(),
                it.map() == self@,
                e == self.elems(),
                0 <= c <= e.len(),
                it.remaining() == e.skip(c),
                r@.len() == c,
                forall|i: int|
                    0 <= i < c ==> (#[trigger] r@[i]).0 == e[i] && cloned(self@[e[i]], r@[i].1),
            ensures
                r@.len() == e.len(),
                forall|i: int|
                    0 <= i < r@.len() ==> (#[trigger] r@[i]).0 == e[i] && cloned(self@[e[i]], r@[i].1),
            decreases e.len() - c,
        {
            match it.next() {
                Some((k, v)) => {
                    r.push((k, v.clone()));
                    proof {
                        assert(it.remaining() =~= e.skip(c + 1));
                        c = c + 1;
                    }
                },
                None => {
                    break;
                },
            }
        }
        r
    }

    /// The union of two maps by key, with copies of the values. Under a key that both
    /// hold, the value of `self` is taken.
    #[verifier::rlimit(40)]
    pub fn join(&self, other: &Self) -> (r: Self)
        requires
            self.wf(),
            other.wf(),
            spannable(self@.dom().union(other@.dom())),
        ensures
            r.wf(),
            r@.dom() == self@.dom().union(other@.dom()),
            forall|k: usize| #[trigger] self@.dom().contains(k) ==> cloned(self@[k], r@[k]),
            forall|k: usize|
                #[trigger] other@.dom().contains(k) && !self@.dom().contains(k) ==> cloned(
                    other@[k],
                    r@[k],
                ),
    {
        proof {
            self.lemma_wf();
            other.lemma_wf();
        }
        if self.len == 0 && other.len == 0 {
            proof {
                assert(self@.dom().union(other@.dom()) =~= Set::<usize>::empty());
                assert(Map::<usize, T>::empty().dom() =~= Set::<usize>::empty());
            }
            return UMap::new();
        }
        let lo = if self.len == 0 {
            other.min
        } else if other.len == 0 || self.min < other.min {
            self.min
        } else {
            other.min
        };
        let hi = if self.len == 0 {
            other.max
        } else if other.len == 0 || self.max > other.max {
            self.max
        } else {
            other.max
        };
        let ghost both = self@.dom().union(other@.dom());
        proof {
            assert(both.contains(lo));
            assert(both.contains(hi));
            assert forall|k: usize| both.contains(k) implies lo <= k <= hi by {}
        }
        let span = hi - lo;
        let mut v: Vec<Option<T>> = blank(span + 1);
        let mut i: usize = 0;
        while i <= span
            invariant
                self.wf(),
                other.wf(),
                both == self@.dom().union(other@.dom()),
                span == hi - lo,
                span < usize::MAX,
                i <= span + 1,
                v@.len() == span + 1,
                forall|t: int|
                    0 <= t < i ==> (#[trigger] v@[t] is Some <==> both.contains((lo + t) as usize)),
                forall|t: int| i <= t <= span ==> #[trigger] v@[t] is None,
                forall|t: int|
                    0 <= t < i && self@.dom().contains((lo + t) as usize) ==> cloned(
                        self@[(lo + t) as usize],
                        #[trigger] v@[t].unwrap(),
                    ),
                forall|t: int|
                    0 <= t < i && !self@.dom().contains((lo + t) as usize) && other@.dom().contains(
                        (lo + t) as usize,
                    ) ==> cloned(other@[(lo + t) as usize], #[trigger] v@[t].unwrap()),
            decreases span + 1 - i,
        {
            let id = lo + i;
            let ghost before = v@;
            if self.contains(id) {
                v.set(i, self.get(id));
            } else if other.contains(id) {
                v.set(i, other.get(id));
            }
            proof {
                assert(v@[i as int] is Some <==> both.contains(id));
                assert forall|t: int| 0 <= t < v@.len() && t != i implies #[trigger] v@[t] == before[t] by {}
            }
            i = i + 1;
        }
        proof {
            assert forall|t: int| 0 <= t < v@.len() && #[trigger] presence(v@)[t] implies lo + t
                <= usize::MAX by {
                assert(v@[t] is Some);
            }
        }
        let r = UMap::from_parts(v, lo);
        proof {
            assert forall|k: usize| r@.dom().contains(k) <==> both.contains(k) by {
                if both.contains(k) {
                    assert(v@[k - lo] is Some);
                }
            }
            assert(r@.dom() =~= both);
            assert forall|k: usize| #[trigger] self@.dom().contains(k) implies cloned(self@[k], r@[k]) by {
                assert(v@[k - lo] is Some);
                assert(r@[k] == v@[k - lo].unwrap());
            }
            assert forall|k: usize| #[trigger] other@.dom().contains(k) && !self@.dom().contains(k)
                implies cloned(other@[k], r@[k]) by {
                assert(v@[k - lo] is Some);
                assert(r@[k] == v@[k - lo].unwrap());
            }
        }
        r
    }

    /// The entries whose keys belong to `set`, with copies of the values.
    pub fn submap(&self, set: &USet) -> (r: Self)
        requires
            self.wf(),
            set.wf(),
        ensures
            r.wf(),
            r@.dom() == self@.dom().intersect(set@),
            forall|k: usize| #[trigger] r@.dom().contains(k) ==> cloned(self@[k], r@[k]),
    {
        proof {
            self.lemma_wf();
            set.lemma_elems();
        }
        let (lo, hi) = match (set.min(), set.max()) {
            (Some(lo), Some(hi)) => (lo, hi),
            _ => {
                proof {
                    assert(self@.dom().intersect(set@) =~= Set::<usize>::empty());
                    assert(Map::<usize, T>::empty().dom() =~= Set::<usize>::empty());
                }
                return UMap::new();
            },
        };
        let ghost both = self@.dom().intersect(set@);
        let span = hi - lo;
        let mut v: Vec<Option<T>> = blank(span + 1);
        let mut i: usize = 0;
        while i <= span
            invariant
                self.wf(),
                set.wf(),
                both == self@.dom().intersect(set@),
                span == hi - lo,
                span < usize::MAX,
                i <= span + 1,
                v@.len() == span + 1,
                forall|t: int|
                    0 <= t < i ==> (#[trigger] v@[t] is Some <==> both.contains((lo + t) as usize)),
                forall|t: int| i <= t <= span ==> #[trigger] v@[t] is None,
                forall|t: int|
                    0 <= t < i && both.contains((lo + t) as usize) ==> cloned(
                        self@[(lo + t) as usize],
                        #[trigger] v@[t].unwrap(),
                    ),
            decreases span + 1 - i,
        {
            let id = lo + i;
            let ghost before = v@;
            if set.contains(id) {
                v.set(i, self.get(id));
            }
            proof {
                assert(v@[i as int] is Some <==> both.contains(id));
                assert forall|t: int| 0 <= t < v@.len() && t != i implies #[trigger] v@[t] == before[t] by {}
            }
            i = i + 1;
        }
        proof {
            assert forall|t: int| 0 <= t < v@.len() && #[trigger] presence(v@)[t] implies lo + t
                <= usize::MAX by {
                assert(v@[t] is Some);
            }
        }
        let r = UMap::from_parts(v, lo);
        proof {
            assert forall|k: usize| r@.dom().contains(k) <==> both.contains(k) by {
                if both.contains(k) {
                    assert(set@.contains(k));
                    assert(v@[k - lo] is Some);
                }
            }
            assert(r@.dom() =~= both);
            assert forall|k: usize| #[trigger] r@.dom().contains(k) implies cloned(self@[k], r@[k]) by {
                assert(v@[k - lo] is Some);
                assert(r@[k] == v@[k - lo].unwrap());
            }
        }
        r
    }

    /// Copies of the values under the keys of `set` that the map holds, in ascending
    /// key order.
    pub fn retrieve(&self, set: &USet) -> (r: Vec<T>)
        requires
            self.wf(),
            set.wf(),
        ensures
            r@.len() == selected(self@, set.elems()).len(),
            forall|i: int|
                0 <= i < r@.len() ==> cloned(self@[selected(self@, set.elems())[i]], #[trigger] r@[i]),
    {
        let ghost e = set.elems();
        let ghost pred = |k: usize| self@.dom().contains(k);
        let mut r: Vec<T> = Vec::new();
        let mut it = set.iter();
        let ghost mut c: int = 0;
        loop
            invariant
                self.wf(),
                it.valid(),
                0 <= c <= e.len(),
                it.remaining() == e.skip(c),
                e == set.elems(),
                pred == (|k: usize| self@.dom().contains(k)),
                r@.len() == e.take(c).filter(pred).len(),
                forall|i: int|
                    0 <= i < r@.len() ==> cloned(self@[e.take(c).filter(pred)[i]], #[trigger] r@[i]),
            ensures
                r@.len() == e.filter(pred).len(),
                forall|i: int| 0 <= i < r@.len() ==> cloned(self@[e.filter(pred)[i]], #[trigger] r@[i]),
            decreases e.len() - c,
        {
            match it.next() {
                Some(id) => {
                    proof {
                        assert(e.take(c + 1) =~= e.take(c).push(id));
                        e.take(c).lemma_filter_push(id, pred);
                    }
                    match self.get(id) {
                        Some(v) => {
                            r.push(v);
                        },
                        None => {},
                    }
                    proof {
                        assert(it.remaining() =~= e.skip(c + 1));
                        c = c + 1;
                    }
                },
                None => {
                    proof {
                        assert(e.take(c) =~= e);
                    }
                    break;
                },
            }
        }
        r
    }

    /// Whether `predicate` holds for every value.
    pub fn all(&self, predicate: impl Fn(&T) -> bool) -> (r: bool)
        requires
            self.wf(),
            forall|v: &T| predicate.requires((v,)),
        ensures
            r ==> forall|k: usize| #[trigger] self@.dom().contains(k) ==> predicate.ensures((&self@[k],), true),
            !r ==> exists|k: usize| #[trigger] self@.dom().contains(k) && predicate.ensures((&self@[k],), false),
    {
        proof { self.lemma_wf(); }
        if self.len == 0 {
            return true;
        }
        let span = self.max - self.min;
        let mut i: usize = 0;
        while i <= span
            invariant
                self.wf(),
                self.len > 0,
                span == self.max - self.min,
                span < usize::MAX,
                i <= span + 1,
                forall|v: &T| predicate.requires((v,)),
                forall|k: usize|
                    #[trigger] self@.dom().contains(k) && k < self.min + i ==> predicate.ensures((&self@[k],), true),
            decreases span + 1 - i,
        {
            let id = self.min + i;
            match self.get_ref(id) {
                Some(v) => {
                    if !predicate(v) {
                        return false;
                    }
                },
                None => {},
            }
            i = i + 1;
        }
        true
    }

    /// Whether `predicate` holds for some value.
    pub fn any(&self, predicate: impl Fn(&T) -> bool) -> (r: bool)
        requires
            self.wf(),
            forall|v: &T| predicate.requires((v,)),
        ensures
            r ==> exists|k: usize| #[trigger] self@.dom().contains(k) && predicate.ensures((&self@[k],), true),
            !r ==> forall|k: usize| #[trigger] self@.dom().contains(k) ==> predicate.ensures((&self@[k],), false),
    {
        proof { self.lemma_wf(); }
        if self.len == 0 {
            return false;
        }
        let span = self.max - self.min;
        let mut i: usize = 0;
        while i <= span
            invariant
                self.wf(),
                self.len > 0,
                span == self.max - self.min,
                span < usize::MAX,
                i <= span + 1,
                forall|v: &T| predicate.requires((v,)),
                forall|k: usize|
                    #[trigger] self@.dom().contains(k) && k < self.min + i ==> predicate.ensures((&self@[k],), false),
            decreases span + 1 - i,
        {
            let id = self.min + i;
            match self.get_ref(id) {
                Some(v) => {
                    if predicate(v) {
                        return true;
                    }
                },
                None => {},
            }
            i = i + 1;
        }
        false
    }

    /// Whether `predicate` holds for every value under a key of `subset`.
    pub fn all_in_subset(&self, subset: &USet, predicate: impl Fn(&T) -> bool) -> (r: bool)
        requires
            self.wf(),
            subset.wf(),
            forall|v: &T| predicate.requires((v,)),
        ensures
            r ==> forall|k: usize| #[trigger] self@.dom().contains(k) && subset@.contains(k) ==> predicate.ensures((&self@[k],), true),
            !r ==> exists|k: usize| #[trigger] self@.dom().contains(k) && subset@.contains(k) && predicate.ensures((&self@[k],), false),
    {
        proof { self.lemma_wf(); }
        if self.len == 0 {
            return true;
        }
        let span = self.max - self.min;
        let mut i: usize = 0;
        while i <= span
            invariant
                self.wf(),
                subset.wf(),
                self.len > 0,
                span == self.max - self.min,
                span < usize::MAX,
                i <= span + 1,
                forall|v: &T| predicate.requires((v,)),
                forall|k: usize|
                    #[trigger] self@.dom().contains(k) && subset@.contains(k) && k < self.min + i ==> predicate.ensures((&self@[k],), true),
            decreases span + 1 - i,
        {
            let id = self.min + i;
            if subset.contains(id) {
                match self.get_ref(id) {
                    Some(v) => {
                        if !predicate(v) {
                            return false;
                        }
                    },
                    None => {},
                }
            }
            i = i + 1;
        }
        true
    }

    /// Whether `predicate` holds for some value under a key of `subset`.
    pub fn any_in_subset(&self, subset: &USet, predicate: impl Fn(&T) -> bool) -> (r: bool)
        requires
            self.wf(),
            subset.wf(),
            forall|v: &T| predicate.requires((v,)),
        ensures
            r ==> exists|k: usize| #[trigger] self@.dom().contains(k) && subset@.contains(k) && predicate.ensures((&self@[k],), true),
            !r ==> forall|k: usize| #[trigger] self@.dom().contains(k) && subset@.contains(k) ==> predicate.ensures((&self@[k],), false),
    {
        proof { self.lemma_wf(); }
        if self.len == 0 {
            return false;
        }
        let span = self.max - self.min;
        let mut i: usize = 0;
        while i <= span
            invariant
                self.wf(),
                subset.wf(),
                self.len > 0,
                span == self.max - self.min,
                span < usize::MAX,
                i <= span + 1,
                forall|v: &T| predicate.requires((v,)),
                forall|k: usize|
                    #[trigger] self@.dom().contains(k) && subset@.contains(k) && k < self.min + i ==> predicate.ensures((&self@[k],), false),
            decreases span + 1 - i,
        {
            let id = self.min + i;
            if subset.contains(id) {
                match self.get_ref(id) {
                    Some(v) => {
                        if predicate(v) {
                            return true;
                        }
                    },
                    None => {},
                }
            }
            i = i + 1;
        }
        false
    }

    /// The set of keys whose values satisfy `predicate`, found by scanning the bounds.
    pub fn query(&self, predicate: impl Fn(&T) -> bool) -> (r: USet)
        requires
            self.wf(),
            forall|v: &T| predicate.requires((v,)),
        ensures
            r.wf(),
            forall|k: usize| #[trigger] r@.contains(k) ==> self@.dom().contains(k) && predicate.ensures((&self@[k],), true),
            forall|k: usize| #[trigger] self@.dom().contains(k) && !r@.contains(k) ==> predicate.ensures((&self@[k],), false),
    {
        proof { self.lemma_wf(); }
        if self.len == 0 {
            return USet::new();
        }
        let span = self.max - self.min;
        let mut keys: Vec<usize> = Vec::new();
        let mut i: usize = 0;
        while i <= span
            invariant
                self.wf(),
                self.len > 0,
                span == self.max - self.min,
                span < usize::MAX,
                i <= span + 1,
                forall|v: &T| predicate.requires((v,)),
                forall|k: usize| #[trigger] keys@.contains(k) ==> self@.dom().contains(k) && k < self.min + i
                    && predicate.ensures((&self@[k],), true),
                forall|k: usize|
                    #[trigger] self@.dom().contains(k) && k < self.min + i && !keys@.contains(k)
                        ==> predicate.ensures((&self@[k],), false),
            decreases span + 1 - i,
        {
            let id = self.min + i;
            let ghost before = keys@;
            match self.get_ref(id) {
                Some(v) => {
                    if predicate(v) {
                        keys.push(id);
                        proof {
                            assert(keys@ == before.push(id));
                            assert forall|k: usize| #[trigger] keys@.contains(k) implies before.contains(k) || k == id by {
                                let t = choose|t: int| 0 <= t < keys@.len() && keys@[t] == k;
                                if t < before.len() {
                                    assert(before[t] == k);
                                }
                            }
                            assert forall|k: usize| before.contains(k) implies #[trigger] keys@.contains(k) by {
                                let t = choose|t: int| 0 <= t < before.len() && before[t] == k;
                                assert(keys@[t] == k);
                            }
                            assert(keys@[keys@.len() - 1] == id);
                        }
                    }
                },
                None => {},
            }
            i = i + 1;
        }
        proof {
            assert(spannable(keys@.to_set())) by {
                if keys@.to_set().contains(0) && keys@.to_set().contains(usize::MAX) {
                    assert(keys@.contains(0));
                    assert(keys@.contains(usize::MAX));
                }
            }
        }
        USet::from_slice(keys.as_slice())
    }

    /// Removes every entry whose key belongs to `subset`.
    pub fn remove_all(&mut self, subset: &USet)
        requires
            old(self).wf(),
            subset.wf(),
        ensures
            final(self).wf(),
            final(self)@ == old(self)@.remove_keys(subset@),
    {
        proof { subset.lemma_elems(); }
        let ghost pre = *self;
        let (lo, hi) = match (subset.min(), subset.max()) {
            (Some(lo), Some(hi)) => (lo, hi),
            _ => {
                proof {
                    assert(self@ =~= pre@.remove_keys(subset@));
                }
                return;
            },
        };
        let span = hi - lo;
        let mut i: usize = 0;
        while i <= span
            invariant
                self.wf(),
                subset.wf(),
                span == hi - lo,
                span < usize::MAX,
                i <= span + 1,
                forall|k: usize| subset@.contains(k) ==> lo <= k <= hi,
                self@ == pre@.remove_keys(Set::new(|k: usize| subset@.contains(k) && k < lo + i)),
            decreases span + 1 - i,
        {
            let id = lo + i;
            if subset.contains(id) {
                self.remove(id);
            }
            proof {
                assert(self@ =~= pre@.remove_keys(Set::new(|k: usize| subset@.contains(k) && k < lo + i + 1)));
            }
            i = i + 1;
        }
        proof {
            assert(self@ =~= pre@.remove_keys(subset@));
        }
    }

    /// Puts a copy of every entry of `other` into `self`, overwriting the values under
    /// the keys that both hold; `other` is left as it is.
    pub fn replace_all(&mut self, other: &UMap<T>)
        requires
            old(self).wf(),
            other.wf(),
            spannable(old(self)@.dom().union(other@.dom())),
        ensures
            final(self).wf(),
            final(self)@.dom() == old(self)@.dom().union(other@.dom()),
            forall|k: usize| #[trigger] other@.dom().contains(k) ==> cloned(other@[k], final(self)@[k]),
            forall|k: usize|
                #[trigger] old(self)@.dom().contains(k) && !other@.dom().contains(k) ==> final(self)@[k] == old(self)@[k],
    {
        proof { other.lemma_wf(); }
        let ghost pre = *self;
        if other.len == 0 {
            proof {
                assert(pre@.dom().union(other@.dom()) =~= pre@.dom());
            }
            return;
        }
        let lo = other.min;
        let span = other.max - other.min;
        let mut i: usize = 0;
        while i <= span
            invariant
                self.wf(),
                other.wf(),
                other.len > 0,
                lo == other.min,
                span == other.max - other.min,
                span < usize::MAX,
                i <= span + 1,
                spannable(pre@.dom().union(other@.dom())),
                self@.dom() == pre@.dom().union(Set::new(|k: usize| other@.dom().contains(k) && k < lo + i)),
                forall|k: usize| #[trigger] other@.dom().contains(k) && k < lo + i ==> cloned(other@[k], self@[k]),
                forall|k: usize|
                    #[trigger] pre@.dom().contains(k) && !(other@.dom().contains(k) && k < lo + i)
                        ==> self@[k] == pre@[k],
            decreases span + 1 - i,
        {
            let id = lo + i;
            match other.get_ref(id) {
                Some(v) => {
                    proof {
                        assert(other@.dom().contains(id));
                        assert(self@.dom().insert(id).subset_of(pre@.dom().union(other@.dom())));
                        assert(spannable(self@.dom().insert(id))) by {
                            if self@.dom().insert(id).contains(0) && self@.dom().insert(id).contains(usize::MAX) {
                                assert(pre@.dom().union(other@.dom()).contains(0));
                                assert(pre@.dom().union(other@.dom()).contains(usize::MAX));
                            }
                        }
                    }
                    self.replace(id, v.clone());
                },
                None => {},
            }
            proof {
                assert(self@.dom() =~= pre@.dom().union(Set::new(|k: usize| other@.dom().contains(k) && k < lo + i + 1)));
            }
            i = i + 1;
        }
        proof {
            assert forall|k: usize| other@.dom().contains(k) implies k < lo + i by {}
            assert(self@.dom() =~= pre@.dom().union(other@.dom()));
        }
    }
}

impl<T> UMap<T> {
    /// References to the values under the keys of `set` that the map holds, in
    /// ascending key order.
    pub fn retrieve_ref(&self, set: &USet) -> (r: Vec<&T>)
        requires
            self.wf(),
            set.wf(),
        ensures
            r@.len() == selected(self@, set.elems()).len(),
            forall|i: int|
                0 <= i < r@.len() ==> *#[trigger] r@[i] == self@[selected(self@, set.elems())[i]],
    {
        let ghost e = set.elems();
        let ghost pred = |k: usize| self@.dom().contains(k);
        let mut r: Vec<&T> = Vec::new();
        let mut it = set.iter();
        let ghost mut c: int = 0;
        loop
            invariant
                self.wf(),
                it.valid(),
                0 <= c <= e.len(),
                it.remaining() == e.skip(c),
                e == set.elems(),
                pred == (|k: usize| self@.dom().contains(k)),
                r@.len() == e.take(c).filter(pred).len(),
                forall|i: int| 0 <= i < r@.len() ==> *#[trigger] r@[i] == self@[e.take(c).filter(pred)[i]],
            ensures
                r@.len() == e.filter(pred).len(),
                forall|i: int| 0 <= i < r@.len() ==> *#[trigger] r@[i] == self@[e.filter(pred)[i]],
            decreases e.len() - c,
        {
            match it.next() {
                Some(id) => {
                    proof {
                        assert(e.take(c + 1) =~= e.take(c).push(id));
                        e.take(c).lemma_filter_push(id, pred);
                    }
                    match self.get_ref(id) {
                        Some(v) => {
                            r.push(v);
                        },
                        None => {},
                    }
                    proof {
                        assert(it.remaining() =~= e.skip(c + 1));
                        c = c + 1;
                    }
                },
                None => {
                    proof {
                        assert(e.take(c) =~= e);
                    }
                    break;
                },
            }
        }
        r
    }

    /// `self` is `pre` with the value under `id` replaced by `v`, slot for slot.
    pub closed spec fn written(&self, pre: &UMap<T>, id: usize, v: T) -> bool {
        &&& pre.offset <= id < pre.offset + pre.vec@.len()
        &&& self.vec@ == pre.vec@.update(id - pre.offset, Some(v))
        &&& self.len == pre.len
        &&& self.offset == pre.offset
        &&& self.min == pre.min
        &&& self.max == pre.max
    }

    /// Writing through the reference that `get_ref_mut` hands out replaces one value:
    /// the map stays well formed and holds `v` under `id`.
    pub proof fn lemma_written(&self, pre: &UMap<T>, id: usize, v: T)
        requires
            pre.wf(),
            pre@.dom().contains(id),
            self.written(pre, id, v),
        ensures
            self.wf(),
            self@ == pre@.insert(id, v),
    {
        pre.lemma_wf();
        let idx = id - pre.offset;
        lemma_presence_update(pre.vec@, idx, Some(v));
        assert(presence(self.vec@) =~= presence(pre.vec@));
        assert(self.elems() == pre.elems());
        assert forall|i: int| 0 <= i < self.vec@.len() && #[trigger] self.vec@[i] is Some
            implies self.min <= self.offset + i <= self.max by {
            if i != idx {
                assert(pre.vec@[i] is Some);
            }
        }
        self.lemma_members();
        assert(self@ =~= pre@.insert(id, v));
    }

    /// A mutable reference to the value under `id`, or `None`; never out of bounds.
    /// What is written through it becomes the value under `id` (see `lemma_written`).
    pub fn get_ref_mut(&mut self, id: usize) -> (r: Option<&mut T>)
        requires
            old(self).wf(),
        ensures
            r is Some <==> old(self)@.dom().contains(id),
            r is None ==> *final(self) == *old(self),
            r matches Some(x) ==> *x == old(self)@[id] && final(self).written(old(self), id, *final(x)),
    {
        proof { self.lemma_wf(); }
        if self.len > 0 && id >= self.min && id <= self.max && self.vec[id - self.offset].is_some() {
            let idx = id - self.offset;
            self.vec[idx].as_mut()
        } else {
            None
        }
    }
}

impl<T> Default for UMap<T> {
    fn default() -> (r: Self)
        ensures
            r.wf(),
            r@ == Map::<usize, T>::empty(),
    {
        UMap::new()
    }
}

impl<T: Clone> Clone for UMap<T> {
    fn clone(&self) -> (r: Self)
        ensures
            self.wf() ==> r.wf(),
            r@.dom() == self@.dom(),
            r.elems() == self.elems(),
            forall|k: usize| #[trigger] r@.dom().contains(k) ==> cloned(self@[k], r@[k]),
    {
        let r = UMap {
            vec: self.vec.clone(),
            len: self.len,
            offset: self.offset,
            min: self.min,
            max: self.max,
        };
        proof {
            assert forall|i: int| 0 <= i < self.vec@.len() implies (#[trigger] r.vec@[i] is Some
                <==> self.vec@[i] is Some) && (self.vec@[i] is Some ==> cloned(
                self.vec@[i].unwrap(),
                r.vec@[i].unwrap(),
            )) by {
                assert(cloned(self.vec@[i], r.vec@[i]));
            }
            assert(presence(r.vec@) =~= presence(self.vec@));
            assert(r@.dom() =~= self@.dom());
        }
        r
    }
}

impl<T: PartialEq> UMap<T> {
    /// Same length, same bounds, and between the bounds the same keys with values that
    /// compare equal; the offset and the slack of the buffers do not count.
    pub closed spec fn same_as(&self, o: &UMap<T>) -> bool {
        &&& self.len == o.len
        &&& self.min == o.min
        &&& self.max == o.max
        &&& forall|k: int|
            self.min <= k <= self.max ==> {
                &&& self.slot(k) == o.slot(k)
                &&& self.slot(k) ==> self.vec@[k - self.offset].unwrap().eq_spec(
                    &o.vec@[k - o.offset].unwrap(),
                )
            }
    }

    /// For well-formed maps, `==` holds when both hold the same keys with values
    /// that compare equal.
    pub proof fn lemma_same_as(&self, o: &UMap<T>)
        requires
            self.wf(),
            o.wf(),
        ensures
            self.same_as(o) <==> (self@.dom() == o@.dom() && forall|k: usize|
                #[trigger] self@.dom().contains(k) ==> self@[k].eq_spec(&o@[k])),
    {
        self.lemma_wf();
        o.lemma_wf();
        if self.same_as(o) {
            assert forall|k: usize| self@.dom().contains(k) <==> o@.dom().contains(k) by {
                if self@.dom().contains(k) {
                    assert(self.slot(k as int));
                }
                if o@.dom().contains(k) {
                    assert(o.slot(k as int));
                }
            }
            assert(self@.dom() =~= o@.dom());
            assert forall|k: usize| #[trigger] self@.dom().contains(k) implies self@[k].eq_spec(&o@[k]) by {
                assert(self.slot(k as int));
            }
        }
        if self@.dom() == o@.dom() && forall|k: usize|
            #[trigger] self@.dom().contains(k) ==> self@[k].eq_spec(&o@[k]) {
            if self.len > 0 {
                assert(o@.dom().contains(self.min));
                assert(self@.dom().contains(o.min));
                assert(o@.dom().contains(self.max));
                assert(self@.dom().contains(o.max));
            }
            assert forall|k: int| self.min <= k <= self.max implies {
                &&& self.slot(k) == o.slot(k)
                &&& self.slot(k) ==> self.vec@[k - self.offset].unwrap().eq_spec(
                    &o.vec@[k - o.offset].unwrap(),
                )
            } by {
                if self.slot(k) {
                    assert(self@.dom().contains(k as usize));
                }
                if o.slot(k) {
                    assert(o@.dom().contains(k as usize));
                }
            }
        }
    }

    /// The value in the slot for `k`, if the buffer has one; never out of bounds.
    fn entry_at(&self, k: usize) -> (r: Option<&T>)
        ensures
            r == if self.slot(k as int) {
                Some(&self.vec@[k - self.offset].unwrap())
            } else {
                None::<&T>
            },
    {
        if k >= self.offset && k - self.offset < self.vec.len() {
            match &self.vec[k - self.offset] {
                Some(v) => Some(v),
                None => None,
            }
        } else {
            None
        }
    }
}

impl<T: PartialEq> PartialEq for UMap<T> {
    fn eq(&self, other: &UMap<T>) -> (r: bool) {
        if self.len != other.len || self.min != other.min || self.max != other.max {
            return false;
        }
        if self.max < self.min {
            return true;
        }
        let span = self.max - self.min;
        let mut i: usize = 0;
        loop
            invariant
                self.min <= self.max,
                span == self.max - self.min,
                i <= span,
                self.len == other.len,
                self.min == other.min,
                self.max == other.max,
                T::obeys_eq_spec() ==> forall|k: int|
                    self.min <= k < self.min + i ==> {
                        &&& self.slot(k) == other.slot(k)
                        &&& self.slot(k) ==> self.vec@[k - self.offset].unwrap().eq_spec(
                            &other.vec@[k - other.offset].unwrap(),
                        )
                    },
            decreases span - i,
        {
            let k = self.min + i;
            match (self.entry_at(k), other.entry_at(k)) {
                (Some(a), Some(b)) => {
                    if !a.eq(b) {
                        return false;
                    }
                },
                (None, None) => {},
                _ => {
                    return false;
                },
            }
            if i == span {
                return true;
            }
            i = i + 1;
        }
    }
}

impl<T: PartialEq> vstd::std_specs::cmp::PartialEqSpecImpl for UMap<T> {
    open spec fn obeys_eq_spec() -> bool {
        T::obeys_eq_spec()
    }

    open spec fn eq_spec(&self, other: &UMap<T>) -> bool {
        self.same_as(other)
    }
}

impl<T: Eq> Eq for UMap<T> {

}

} // verus!
