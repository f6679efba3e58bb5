//! A set of `usize` keys kept as a buffer of presence flags, where slot `i`
//! tells whether the key `offset + i` belongs to the set.

use vstd::prelude::*;
use crate::bounds::key_range;
use crate::slots::{keys_in, ascending, slots_fit, spannable, lemma_keys_in, lemma_keys_in_front,
    lemma_keys_in_agree, lemma_keys_in_split, lemma_ascending_unique, lemma_ascending_set_len};

verus! {

/// Capacity of the buffer that the first insertion into an unallocated set gets.
pub const INITIAL_WORKING_CAPACITY: usize = 8;

/// A set of `usize` keys, meant for small to medium, reasonably dense key ranges.
///
/// Membership is O(1); insertion and removal are O(1) inside the covered range.
/// `min` and `max` are the smallest and largest keys, kept up to date by every
/// mutation; an empty set has `offset == min == max == 0`.
#[derive(Debug)]
pub struct USet {
    vec: Vec<bool>,
    len: usize,
    offset: usize,
    min: usize,
    max: usize,
}

/// A buffer of `n` absent slots.
fn blank(n: usize) -> (v: Vec<bool>)
    ensures
        v@.len() == n,
        forall|i: int| 0 <= i < n ==> !#[trigger] v@[i],
{
    let mut v: Vec<bool> = Vec::with_capacity(n);
    let mut i: usize = 0;
    while i < n
        invariant
            i <= n,
            v@.len() == i,
            forall|j: int| 0 <= j < i ==> !#[trigger] v@[j],
        decreases n - i,
    {
        v.push(false);
        i = i + 1;
    }
    v
}

/// The keys in exactly one of the two sets.
pub open spec fn sym_diff(a: Set<usize>, b: Set<usize>) -> Set<usize> {
    a.difference(b).union(b.difference(a))
}

/// How a binary operation keeps a key, from its membership in either operand.
#[derive(Clone, Copy)]
enum Combine {
    Either,
    Both,
    FirstOnly,
    OneOf,
}

spec fn keeps(c: Combine, x: bool, y: bool) -> bool {
    match c {
        Combine::Either => x || y,
        Combine::Both => x && y,
        Combine::FirstOnly => x && !y,
        Combine::OneOf => x != y,
    }
}

fn keeps_exec(c: Combine, x: bool, y: bool) -> (r: bool)
    ensures
        r == keeps(c, x, y),
{
    match c {
        Combine::Either => x || y,
        Combine::Both => x && y,
        Combine::FirstOnly => x && !y,
        Combine::OneOf => x != y,
    }
}

/// The keys that a binary operation keeps.
spec fn combined(a: Set<usize>, b: Set<usize>, c: Combine) -> Set<usize> {
    Set::new(|k: usize| keeps(c, a.contains(k), b.contains(k)))
}

impl View for USet {
    type V = Set<usize>;

    closed spec fn view(&self) -> Set<usize> {
        self.elems().to_set()
    }
}

impl USet {
    /// The keys of the set in ascending order.
    pub closed spec fn elems(&self) -> Seq<usize> {
        keys_in(self.vec@, self.offset as int, 0, self.vec@.len() as int)
    }

    /// The number of slots of the buffer.
    pub closed spec fn cap(&self) -> nat {
        self.vec@.len()
    }

    /// Whether the buffer has a present slot for the key `k`.
    spec fn slot(&self, k: int) -> bool {
        self.offset <= k < self.offset + self.vec@.len() && self.vec@[k - self.offset]
    }

    pub closed spec fn wf(&self) -> bool {
        &&& self.vec@.len() <= usize::MAX
        &&& slots_fit(self.vec@, self.offset as int)
        &&& self.len == self.elems().len()
        &&& if self.len == 0 {
            &&& self.offset == 0
            &&& self.min == 0
            &&& self.max == 0
            &&& forall|i: int| 0 <= i < self.vec@.len() ==> !#[trigger] self.vec@[i]
        } else {
            &&& self.offset <= self.min <= self.max < self.offset + self.vec@.len()
            &&& self.vec@[self.min - self.offset]
            &&& self.vec@[self.max - self.offset]
            &&& forall|i: int|
                0 <= i < self.vec@.len() && #[trigger] self.vec@[i] ==> self.min <= self.offset + i
                    <= self.max
        }
    }

    proof fn lemma_members(&self)
        requires
            slots_fit(self.vec@, self.offset as int),
        ensures
            forall|k: usize| #[trigger] self@.contains(k) <==> self.slot(k as int),
            forall|k: usize| self@.contains(k) <==> #[trigger] self.elems().contains(k),
            ascending(self.elems()),
            self@.finite(),
            self@.len() == self.elems().len(),
            self.elems().len() <= self.vec@.len(),
    {
        lemma_keys_in(self.vec@, self.offset as int, 0, self.vec@.len() as int);
        lemma_ascending_set_len(self.elems());
    }

    proof fn lemma_wf(&self)
        requires
            self.wf(),
        ensures
            forall|k: usize| #[trigger] self@.contains(k) <==> self.slot(k as int),
            forall|k: usize| self@.contains(k) <==> #[trigger] self.elems().contains(k),
            ascending(self.elems()),
            self@.finite(),
            self@.len() == self.len,
            self.len <= self.vec@.len(),
            self.len == 0 <==> self@ == Set::<usize>::empty(),
            self.len > 0 ==> self@.contains(self.min) && self@.contains(self.max),
            forall|k: usize| self@.contains(k) ==> self.min <= k <= self.max,
            self.len > 0 ==> self.elems()[0] == self.min && self.elems().last() == self.max,
    {
        self.lemma_members();
        if self.len > 0 {
            let e = self.elems();
            assert(e.contains(e[0]));
            assert(e.contains(e.last()));
            assert(self@.contains(self.min));
            assert(self@.contains(self.max));
            let j1 = choose|j: int| 0 <= j < e.len() && e[j] == self.min;
            let j2 = choose|j: int| 0 <= j < e.len() && e[j] == self.max;
            assert(e[0] <= e[j1]);
            assert(e[j2] <= e.last());
            assert(self.vec@[e[0] - self.offset]);
            assert(self.vec@[e.last() - self.offset]);
        }
        if self.len == 0 {
            assert(self@ =~= Set::<usize>::empty());
        } else {
            assert(self@.contains(self.min));
            assert(!(self@ =~= Set::<usize>::empty()));
        }
        assert forall|k: usize| self@.contains(k) implies self.min <= k <= self.max by {
            assert(self.vec@[k - self.offset]);
        }
    }

    /// The keys in ascending order hold exactly the set, each once.
    pub proof fn lemma_elems(&self)
        requires
            self.wf(),
        ensures
            ascending(self.elems()),
            self.elems().to_set() == self@,
            self.elems().len() == self@.len(),
            self@.finite(),
            spannable(self@),
    {
        self.lemma_wf();
        if self@.contains(0) && self@.contains(usize::MAX) {
            assert(self.min == 0);
        }
    }

    /// Constructs a new, empty set that holds no buffer.
    pub fn new() -> (r: Self)
        ensures
            r.wf(),
            r@ == Set::<usize>::empty(),
            r.cap() == 0,
    {
        USet::with_capacity(0)
    }

    /// Constructs an empty set whose buffer has `size` slots.
    pub fn with_capacity(size: usize) -> (r: Self)
        ensures
            r.wf(),
            r@ == Set::<usize>::empty(),
            r.cap() == size,
    {
        let r = USet { vec: blank(size), len: 0, offset: 0, min: 0, max: 0 };
        proof {
            lemma_keys_in(r.vec@, 0, 0, size as int);
            if r.elems().len() > 0 {
                assert(r.vec@[r.elems()[0] - 0]);
            }
            r.lemma_wf();
        }
        r
    }

    /// The number of keys in the set.
    pub fn len(&self) -> (r: usize)
        requires
            self.wf(),
        ensures
            r == self@.len(),
    {
        proof { self.lemma_wf(); }
        self.len
    }

    /// Whether the set holds no key.
    pub fn is_empty(&self) -> (r: bool)
        requires
            self.wf(),
        ensures
            r == (self@ == Set::<usize>::empty()),
    {
        proof { self.lemma_wf(); }
        self.len == 0
    }

    /// The number of slots of the buffer: keys from the offset up to the offset plus
    /// this number fit without reallocation.
    pub fn capacity(&self) -> (r: usize)
        ensures
            r == self.cap(),
    {
        self.vec.len()
    }

    /// Whether `id` belongs to the set.
    pub fn contains(&self, id: usize) -> (r: bool)
        requires
            self.wf(),
        ensures
            r == self@.contains(id),
    {
        proof { self.lemma_wf(); }
        self.len > 0 && id >= self.min && id <= self.max && self.vec[id - self.offset]
    }

    /// The smallest key, or `None` when the set is empty.
    pub fn min(&self) -> (r: Option<usize>)
        requires
            self.wf(),
        ensures
            r is None <==> self@ == Set::<usize>::empty(),
            r matches Some(m) ==> self@.contains(m) && forall|k: usize| self@.contains(k) ==> m <= k,
    {
        proof { self.lemma_wf(); }
        if self.len == 0 {
            None
        } else {
            Some(self.min)
        }
    }

    /// The largest key, or `None` when the set is empty.
    pub fn max(&self) -> (r: Option<usize>)
        requires
            self.wf(),
        ensures
            r is None <==> self@ == Set::<usize>::empty(),
            r matches Some(m) ==> self@.contains(m) && forall|k: usize| self@.contains(k) ==> k <= m,
    {
        proof { self.lemma_wf(); }
        if self.len == 0 {
            None
        } else {
            Some(self.max)
        }
    }

    /// A non-empty state whose bounds hold and whose count matches its keys is well formed.
    proof fn lemma_establish(&self)
        requires
            self.vec@.len() <= usize::MAX,
            self.len > 0,
            self.offset <= self.min <= self.max < self.offset + self.vec@.len(),
            self.vec@[self.min - self.offset],
            self.vec@[self.max - self.offset],
            forall|i: int|
                0 <= i < self.vec@.len() && #[trigger] self.vec@[i] ==> self.min <= self.offset + i
                    <= self.max,
            self.len == self@.len(),
        ensures
            self.wf(),
    {
        assert(slots_fit(self.vec@, self.offset as int));
        self.lemma_members();
    }

    /// A buffer of `size` slots whose first slot stands for `lo`, holding the keys of `self`.
    fn spread(&self, lo: usize, size: usize) -> (v: Vec<bool>)
        requires
            self.wf(),
            self.len > 0,
            lo <= self.min,
            self.max - lo < size,
        ensures
            v@.len() == size,
            forall|i: int| 0 <= i < size ==> #[trigger] v@[i] == self.slot(lo + i),
    {
        proof { self.lemma_wf(); }
        let mut v = blank(size);
        let span = self.max - self.min;
        let mut i: usize = 0;
        while i <= span
            invariant
                self.wf(),
                self.len > 0,
                lo <= self.min,
                self.max - lo < size,
                span == self.max - self.min,
                i <= span + 1,
                v@.len() == size,
                forall|j: int|
                    0 <= j < size ==> #[trigger] v@[j] == (self.min <= lo + j < self.min + i
                        && self.slot(lo + j)),
            decreases span + 1 - i,
        {
            let id = self.min + i;
            v.set(id - lo, self.vec[id - self.offset]);
            i = i + 1;
        }
        proof {
            assert forall|j: int| 0 <= j < size implies #[trigger] v@[j] == self.slot(lo + j) by {
                if self.slot(lo + j) {
                    assert(self.vec@[lo + j - self.offset]);
                }
            }
        }
        v
    }

    /// Adds `id` to the set, reallocating only when it lies outside the buffer.
    pub fn push(&mut self, id: usize)
        requires
            old(self).wf(),
            spannable(old(self)@.insert(id)),
        ensures
            final(self).wf(),
            final(self)@ == old(self)@.insert(id),
            final(self)@.contains(id),
            !old(self)@.contains(id) ==> final(self)@.len() == old(self)@.len() + 1,
    {
        proof { self.lemma_wf(); }
        if self.len == 0 {
            self.push_first(id);
        } else if id < self.offset {
            self.push_below(id);
        } else if id - self.offset >= self.vec.len() {
            self.push_above(id);
        } else if !self.vec[id - self.offset] {
            self.push_inside(id);
        } else {
            proof {
                assert(self@ =~= old(self)@.insert(id));
            }
        }
        proof {
            self.lemma_wf();
            if !old(self)@.contains(id) {
                assert(final(self)@.len() == old(self)@.len() + 1);
            }
        }
    }

    /// Insertion into an empty set: the buffer starts at `id`.
    fn push_first(&mut self, id: usize)
        requires
            old(self).wf(),
            old(self).len == 0,
        ensures
            final(self).wf(),
            final(self)@ == old(self)@.insert(id),
    {
        proof { self.lemma_wf(); }
        let ghost pre = *self;
        if self.vec.len() == 0 {
            self.vec = blank(INITIAL_WORKING_CAPACITY);
        }
        self.vec.set(0, true);
        self.offset = id;
        self.min = id;
        self.max = id;
        proof {
            assert(slots_fit(self.vec@, self.offset as int));
            self.lemma_members();
            assert(self@ =~= pre@.insert(id));
        }
        self.len = 1;
        proof { self.lemma_establish(); }
    }

    /// Insertion below the offset: a buffer of exactly `max - id + 1` slots.
    fn push_below(&mut self, id: usize)
        requires
            old(self).wf(),
            old(self).len > 0,
            id < old(self).offset,
            spannable(old(self)@.insert(id)),
        ensures
            final(self).wf(),
            final(self)@ == old(self)@.insert(id),
    {
        proof {
            self.lemma_wf();
            assert(self@.insert(id).contains(self.max));
        }
        let ghost pre = *self;
        let mut v = self.spread(id, self.max - id + 1);
        v.set(0, true);
        self.vec = v;
        self.offset = id;
        self.min = id;
        proof {
            assert(slots_fit(self.vec@, self.offset as int));
            self.lemma_members();
            assert(self@ =~= pre@.insert(id));
            assert(self.len + 1 <= self.vec@.len());
        }
        self.len = self.len + 1;
        proof { self.lemma_establish(); }
    }

    /// Insertion past the end of the buffer: it grows to reach `id`.
    fn push_above(&mut self, id: usize)
        requires
            old(self).wf(),
            old(self).len > 0,
            id >= old(self).offset,
            id - old(self).offset >= old(self).vec@.len(),
            spannable(old(self)@.insert(id)),
        ensures
            final(self).wf(),
            final(self)@ == old(self)@.insert(id),
    {
        proof { self.lemma_wf(); }
        let ghost pre = *self;
        if id - self.offset < usize::MAX {
            self.vec.resize(id - self.offset + 1, false);
            self.vec.set(id - self.offset, true);
            self.max = id;
            proof {
                assert forall|i: int| 0 <= i < self.vec@.len() && #[trigger] self.vec@[i]
                    implies self.min <= self.offset + i <= self.max by {
                    if i < pre.vec@.len() {
                        assert(pre.vec@[i]);
                    }
                }
                assert(slots_fit(self.vec@, self.offset as int));
                self.lemma_members();
                assert forall|k: usize| self@.contains(k) == pre@.insert(id).contains(k) by {
                    if self.offset <= k < self.offset + pre.vec@.len() {
                        assert(self.vec@[k - self.offset] == pre.vec@[k - self.offset]);
                    }
                }
                assert(self@ =~= pre@.insert(id));
                assert(self.len + 1 <= self.vec@.len());
            }
            self.len = self.len + 1;
            proof { self.lemma_establish(); }
        } else {
            // The buffer cannot reach `id` from its offset: start it at the minimum.
            proof {
                assert(pre@.insert(id).contains(pre.min));
            }
            let mut v = self.spread(self.min, id - self.min + 1);
            v.set(id - self.min, true);
            self.vec = v;
            self.offset = self.min;
            self.max = id;
            proof {
                assert(slots_fit(self.vec@, self.offset as int));
                self.lemma_members();
                assert(self@ =~= pre@.insert(id));
                assert(self.len + 1 <= self.vec@.len());
            }
            self.len = self.len + 1;
            proof { self.lemma_establish(); }
        }
    }

    /// Insertion into a free slot of the buffer.
    fn push_inside(&mut self, id: usize)
        requires
            old(self).wf(),
            old(self).len > 0,
            old(self).offset <= id < old(self).offset + old(self).vec@.len(),
            !old(self).vec@[id - old(self).offset],
        ensures
            final(self).wf(),
            final(self)@ == old(self)@.insert(id),
    {
        proof { self.lemma_wf(); }
        let ghost pre = *self;
        self.vec.set(id - self.offset, true);
        if id < self.min {
            self.min = id;
        } else if id > self.max {
            self.max = id;
        }
        proof {
            assert forall|i: int| 0 <= i < self.vec@.len() && #[trigger] self.vec@[i]
                implies self.min <= self.offset + i <= self.max by {
                if i != id - self.offset {
                    assert(pre.vec@[i]);
                }
            }
            assert(slots_fit(self.vec@, self.offset as int));
            self.lemma_members();
            assert(self@ =~= pre@.insert(id));
            assert(!pre@.contains(id));
            assert(self@.len() == pre@.len() + 1);
            assert(self.len + 1 <= self.vec@.len());
        }
        self.len = self.len + 1;
        proof { self.lemma_establish(); }
    }

    /// Removes `id` from the set; does nothing when it is absent. The bounds are
    /// rescanned only when `id` was the minimum or the maximum.
    pub fn remove(&mut self, id: usize)
        requires
            old(self).wf(),
        ensures
            final(self).wf(),
            final(self)@ == old(self)@.remove(id),
            !final(self)@.contains(id),
            old(self)@.contains(id) ==> final(self)@.len() == old(self)@.len() - 1,
    {
        proof { self.lemma_wf(); }
        if !self.contains(id) {
            proof {
                assert(self@ =~= old(self)@.remove(id));
            }
        } else if self.len == 1 {
            self.remove_last(id);
        } else {
            self.remove_one_of_many(id);
        }
        proof {
            self.lemma_wf();
        }
    }

    /// Removing the only key brings the set back to the canonical empty state.
    fn remove_last(&mut self, id: usize)
        requires
            old(self).wf(),
            old(self).len == 1,
            old(self)@.contains(id),
        ensures
            final(self).wf(),
            final(self)@ == old(self)@.remove(id),
    {
        proof { self.lemma_wf(); }
        let ghost pre = *self;
        proof {
            assert forall|i: int| 0 <= i < pre.vec@.len() && #[trigger] pre.vec@[i] implies i == id
                - pre.offset by {
                let k = (pre.offset + i) as usize;
                assert(pre@.contains(k));
                if k != id {
                    assert(pre.elems().contains(k));
                    assert(pre.elems().contains(id));
                    assert(pre.elems()[0] == k || pre.elems()[0] == id);
                }
            }
        }
        self.vec.set(id - self.offset, false);
        self.offset = 0;
        self.min = 0;
        self.max = 0;
        self.len = 0;
        proof {
            assert(forall|i: int| 0 <= i < self.vec@.len() ==> !#[trigger] self.vec@[i]);
            lemma_keys_in(self.vec@, 0, 0, self.vec@.len() as int);
            if self.elems().len() > 0 {
                assert(self.vec@[self.elems()[0] - 0]);
            }
            self.lemma_members();
            assert(self@ =~= pre@.remove(id));
        }
    }

    /// Removing one of several keys; a removed bound is replaced by the next key inward.
    fn remove_one_of_many(&mut self, id: usize)
        requires
            old(self).wf(),
            old(self).len > 1,
            old(self)@.contains(id),
        ensures
            final(self).wf(),
            final(self)@ == old(self)@.remove(id),
    {
        proof { self.lemma_wf(); }
        let ghost pre = *self;
        proof {
            assert(pre.min < pre.max) by {
                if pre.min == pre.max {
                    assert(pre.elems().contains(pre.elems()[0]));
                    assert(pre.elems().contains(pre.elems()[1]));
                    assert(pre.elems()[0] < pre.elems()[1]);
                }
            }
        }
        self.vec.set(id - self.offset, false);
        if id == self.min {
            let mut i: usize = id - self.offset + 1;
            while !self.vec[i]
                invariant
                    self.vec@.len() == pre.vec@.len(),
                    self.offset == pre.offset,
                    self.max == pre.max,
                    self.max < self.offset + self.vec@.len(),
                    self.offset <= id,
                    id - self.offset < i <= self.max - self.offset,
                    self.vec@[self.max - self.offset],
                    forall|j: int| id - self.offset < j < i ==> !#[trigger] self.vec@[j],
                decreases self.max - self.offset - i,
            {
                i = i + 1;
            }
            self.min = self.offset + i;
        } else if id == self.max {
            let mut i: usize = id - self.offset - 1;
            while !self.vec[i]
                invariant
                    self.vec@.len() == pre.vec@.len(),
                    self.offset == pre.offset,
                    self.min == pre.min,
                    self.offset <= self.min,
                    id < self.offset + self.vec@.len(),
                    self.min - self.offset <= i < id - self.offset,
                    self.vec@[self.min - self.offset],
                    forall|j: int| i < j < id - self.offset ==> !#[trigger] self.vec@[j],
                decreases i,
            {
                i = i - 1;
            }
            self.max = self.offset + i;
        }
        proof {
            assert forall|i: int| 0 <= i < self.vec@.len() && #[trigger] self.vec@[i]
                implies self.min <= self.offset + i <= self.max by {
                assert(pre.vec@[i]);
            }
            assert(slots_fit(self.vec@, self.offset as int));
            self.lemma_members();
            assert(self@ =~= pre@.remove(id));
        }
        self.len = self.len - 1;
        proof { self.lemma_establish(); }
    }

    /// Whether the binary operation `c` keeps `id`.
    fn kept(a: &USet, b: &USet, id: usize, c: Combine) -> (r: bool)
        requires
            a.wf(),
            b.wf(),
        ensures
            r == keeps(c, a@.contains(id), b@.contains(id)),
    {
        keeps_exec(c, a.contains(id), b.contains(id))
    }

    /// The keys that `c` keeps, all of which lie in `[lo, hi]`, in a buffer that spans
    /// exactly from the smallest to the largest of them.
    fn combine(a: &USet, b: &USet, lo: usize, hi: usize, c: Combine) -> (r: USet)
        requires
            a.wf(),
            b.wf(),
            lo <= hi,
            hi - lo < usize::MAX,
            forall|k: usize| #[trigger] combined(a@, b@, c).contains(k) ==> lo <= k <= hi,
        ensures
            r.wf(),
            r@ == combined(a@, b@, c),
    {
        let span = hi - lo;
        let mut i: usize = 0;
        while i <= span && !USet::kept(a, b, lo + i, c)
            invariant
                a.wf(),
                b.wf(),
                span == hi - lo,
                span < usize::MAX,
                i <= span + 1,
                forall|j: int| 0 <= j < i ==> !#[trigger] combined(a@, b@, c).contains(
                    (lo + j) as usize,
                ),
            decreases span + 1 - i,
        {
            i = i + 1;
        }
        if i > span {
            proof {
                assert forall|k: usize| !combined(a@, b@, c).contains(k) by {
                    if combined(a@, b@, c).contains(k) {
                        assert(!combined(a@, b@, c).contains((lo + (k - lo)) as usize));
                    }
                }
                assert(combined(a@, b@, c) =~= Set::<usize>::empty());
            }
            return USet::new();
        }
        let mn = lo + i;
        let mut top: usize = span;
        while !USet::kept(a, b, lo + top, c)
            invariant
                a.wf(),
                b.wf(),
                span == hi - lo,
                i <= top <= span,
                mn == lo + i,
                keeps(c, a@.contains(mn), b@.contains(mn)),
                forall|j: int| top < j <= span ==> !#[trigger] combined(a@, b@, c).contains(
                    (lo + j) as usize,
                ),
            decreases top,
        {
            top = top - 1;
        }
        let mx = lo + top;
        let size = mx - mn + 1;
        let mut v = blank(size);
        let mut len: usize = 0;
        let mut j: usize = 0;
        while j < size
            invariant
                a.wf(),
                b.wf(),
                size == mx - mn + 1,
                j <= size,
                len <= j,
                v@.len() == size,
                forall|t: int| 0 <= t < j ==> #[trigger] v@[t] == combined(a@, b@, c).contains(
                    (mn + t) as usize,
                ),
                forall|t: int| j <= t < size ==> !#[trigger] v@[t],
                len == keys_in(v@, mn as int, 0, j as int).len(),
            decreases size - j,
        {
            let ghost before = v@;
            if USet::kept(a, b, mn + j, c) {
                v.set(j, true);
                len = len + 1;
            }
            proof {
                lemma_keys_in_agree(before, v@, mn as int, 0, j as int);
            }
            j = j + 1;
        }
        let r = USet { vec: v, len, offset: mn, min: mn, max: mx };
        proof {
            assert forall|t: int| 0 <= t < r.vec@.len() && #[trigger] r.vec@[t] implies r.min
                <= r.offset + t <= r.max by {}
            assert(slots_fit(r.vec@, r.offset as int));
            r.lemma_members();
            assert forall|k: usize| r@.contains(k) == combined(a@, b@, c).contains(k) by {
                if combined(a@, b@, c).contains(k) {
                    assert(lo <= k <= hi);
                    if k < mn {
                        assert(!combined(a@, b@, c).contains((lo + (k - lo)) as usize));
                    }
                    if k > mx {
                        assert(!combined(a@, b@, c).contains((lo + (k - lo)) as usize));
                    }
                    assert(r.vec@[k - mn]);
                }
            }
            assert(r@ =~= combined(a@, b@, c));
            assert(r.vec@[0]);
            assert(r.vec@[mx - mn]);
        }
        r
    }

    /// The union of two sets, in a buffer spanning from the smaller minimum to the
    /// larger maximum.
    pub fn union(&self, other: &Self) -> (r: Self)
        requires
            self.wf(),
            other.wf(),
            spannable(self@.union(other@)),
        ensures
            r.wf(),
            r@ == self@.union(other@),
    {
        proof {
            self.lemma_wf();
            other.lemma_wf();
        }
        if self.len == 0 {
            let r = other.clone();
            proof {
                assert(self@.union(other@) =~= other@);
            }
            r
        } else if other.len == 0 {
            let r = self.clone();
            proof {
                assert(self@.union(other@) =~= self@);
            }
            r
        } else {
            let lo = if self.min < other.min { self.min } else { other.min };
            let hi = if self.max > other.max { self.max } else { other.max };
            proof {
                assert(self@.union(other@).contains(lo));
                assert(self@.union(other@).contains(hi));
            }
            let r = USet::combine(self, other, lo, hi, Combine::Either);
            proof {
                assert(r@ =~= self@.union(other@));
            }
            r
        }
    }

    /// The keys of `self` that are not in `other`, with bounds recomputed.
    pub fn difference(&self, other: &Self) -> (r: Self)
        requires
            self.wf(),
            other.wf(),
        ensures
            r.wf(),
            r@ == self@.difference(other@),
    {
        proof {
            self.lemma_wf();
            other.lemma_wf();
        }
        if self.len == 0 {
            proof {
                assert(self@.difference(other@) =~= Set::<usize>::empty());
            }
            USet::new()
        } else {
            let r = USet::combine(self, other, self.min, self.max, Combine::FirstOnly);
            proof {
                assert(r@ =~= self@.difference(other@));
            }
            r
        }
    }

    /// The keys in both sets; only the overlap of the two ranges is scanned.
    pub fn common_part(&self, other: &Self) -> (r: Self)
        requires
            self.wf(),
            other.wf(),
        ensures
            r.wf(),
            r@ == self@.intersect(other@),
    {
        proof {
            self.lemma_wf();
            other.lemma_wf();
        }
        if self.len == 0 || other.len == 0 {
            proof {
                assert(self@.intersect(other@) =~= Set::<usize>::empty());
            }
            return USet::new();
        }
        let lo = if self.min > other.min { self.min } else { other.min };
        let hi = if self.max < other.max { self.max } else { other.max };
        if lo > hi {
            proof {
                assert(self@.intersect(other@) =~= Set::<usize>::empty());
            }
            USet::new()
        } else {
            let r = USet::combine(self, other, lo, hi, Combine::Both);
            proof {
                assert(r@ =~= self@.intersect(other@));
            }
            r
        }
    }

    /// The keys in exactly one of the two sets.
    pub fn xor_set(&self, other: &Self) -> (r: Self)
        requires
            self.wf(),
            other.wf(),
            spannable(self@.union(other@)),
        ensures
            r.wf(),
            r@ == sym_diff(self@, other@),
    {
        proof {
            self.lemma_wf();
            other.lemma_wf();
        }
        if self.len == 0 {
            let r = other.clone();
            proof {
                assert(sym_diff(self@, other@) =~= other@);
            }
            r
        } else if other.len == 0 {
            let r = self.clone();
            proof {
                assert(sym_diff(self@, other@) =~= self@);
            }
            r
        } else {
            let lo = if self.min < other.min { self.min } else { other.min };
            let hi = if self.max > other.max { self.max } else { other.max };
            proof {
                assert(self@.union(other@).contains(lo));
                assert(self@.union(other@).contains(hi));
            }
            let r = USet::combine(self, other, lo, hi, Combine::OneOf);
            proof {
                assert(r@ =~= sym_diff(self@, other@));
            }
            r
        }
    }

    /// What holds while keys are written into the buffer before the bounds are set:
    /// the count matches the keys, every one of which fits in a `usize`.
    spec fn loose(&self) -> bool {
        &&& self.vec@.len() <= usize::MAX
        &&& slots_fit(self.vec@, self.offset as int)
        &&& self.len == self@.len()
    }

    /// Marks every key of `slice` present; each of them has a slot in the buffer.
    fn mark_all(&mut self, slice: &[usize])
        requires
            old(self).loose(),
            forall|i: int|
                0 <= i < slice@.len() ==> old(self).offset <= #[trigger] slice@[i] < old(
                    self,
                ).offset + old(self).vec@.len(),
        ensures
            final(self).loose(),
            final(self)@ == old(self)@.union(slice@.to_set()),
            final(self).offset == old(self).offset,
            final(self).vec@.len() == old(self).vec@.len(),
            final(self).min == old(self).min,
            final(self).max == old(self).max,
    {
        let ghost pre = *self;
        let mut i: usize = 0;
        while i < slice.len()
            invariant
                i <= slice@.len(),
                self.loose(),
                self.offset == pre.offset,
                self.min == pre.min,
                self.max == pre.max,
                self.vec@.len() == pre.vec@.len(),
                forall|t: int|
                    0 <= t < slice@.len() ==> pre.offset <= #[trigger] slice@[t] < pre.offset
                        + pre.vec@.len(),
                self@ == pre@.union(slice@.subrange(0, i as int).to_set()),
            decreases slice@.len() - i,
        {
            let id = slice[i];
            let ghost before = *self;
            proof { before.lemma_members(); }
            if !self.vec[id - self.offset] {
                self.vec.set(id - self.offset, true);
                proof {
                    assert(slots_fit(self.vec@, self.offset as int));
                    self.lemma_members();
                    assert(self@ =~= before@.insert(id));
                    assert(!before@.contains(id));
                }
                self.len = self.len + 1;
            } else {
                proof { assert(before@.contains(id)); }
            }
            proof {
                self.lemma_members();
                let s0 = slice@.subrange(0, i as int);
                let s1 = slice@.subrange(0, i + 1);
                assert(s1 =~= s0.push(id));
                assert(s1.to_set() =~= s0.to_set().insert(id)) by {
                    assert forall|k: usize| s1.to_set().contains(k) == s0.to_set().insert(id).contains(k) by {
                        if s1.contains(k) {
                            let t = choose|t: int| 0 <= t < s1.len() && s1[t] == k;
                            if t < s0.len() {
                                assert(s0[t] == k);
                            }
                        }
                        if s0.contains(k) {
                            let t = choose|t: int| 0 <= t < s0.len() && s0[t] == k;
                            assert(s1[t] == k);
                        }
                        if k == id {
                            assert(s1[i as int] == k);
                        }
                    }
                }
                assert(self@ =~= pre@.union(s1.to_set()));
            }
            i = i + 1;
        }
        proof {
            assert(slice@.subrange(0, slice@.len() as int) =~= slice@);
        }
    }

    /// A set holding the keys of a non-empty slice, in a buffer that starts at its
    /// smallest key and has at least `INITIAL_WORKING_CAPACITY` slots.
    fn make_from_slice(slice: &[usize]) -> (r: Self)
        requires
            slice@.len() > 0,
            spannable(slice@.to_set()),
        ensures
            r.wf(),
            r@ == slice@.to_set(),
    {
        let (mn, mx) = match key_range(slice) {
            Some(b) => b,
            None => (0, 0),
        };
        proof {
            assert(slice@.to_set().contains(mn));
            assert(slice@.to_set().contains(mx));
        }
        let span = mx - mn + 1;
        let size = if span < INITIAL_WORKING_CAPACITY { INITIAL_WORKING_CAPACITY } else { span };
        let mut r = USet { vec: blank(size), len: 0, offset: mn, min: mn, max: mx };
        proof {
            r.lemma_members();
            assert(r@ =~= Set::<usize>::empty()) by {
                assert forall|k: usize| !r@.contains(k) by {}
            }
        }
        r.mark_all(slice);
        proof {
            r.lemma_members();
            assert(r@ =~= slice@.to_set());
            assert(r@.contains(mn));
            assert(r@.contains(mx));
            assert(r.vec@[0]);
            assert(r.vec@[mx - mn]);
            assert forall|i: int| 0 <= i < r.vec@.len() && #[trigger] r.vec@[i] implies r.min
                <= r.offset + i <= r.max by {
                let k = (r.offset + i) as usize;
                assert(r.slot(k as int));
                assert(slice@.to_set().contains(k));
                let t = choose|t: int| 0 <= t < slice@.len() && slice@[t] == k;
            }
            vstd::set_lib::lemma_set_empty_equivalency_len(r@);
            r.lemma_establish();
        }
        r
    }

    /// A set holding the keys of `slice`; repeated keys collapse.
    pub fn from_slice(slice: &[usize]) -> (r: Self)
        requires
            spannable(slice@.to_set()),
        ensures
            r.wf(),
            r@ == slice@.to_set(),
    {
        if slice.len() == 0 {
            proof {
                assert(slice@.to_set() =~= Set::<usize>::empty());
            }
            USet::new()
        } else {
            USet::make_from_slice(slice)
        }
    }

    /// Adds every key of `slice`. Keys inside the current bounds are written in place;
    /// otherwise the buffer is reallocated once to cover both ranges.
    pub fn push_all(&mut self, slice: &[usize])
        requires
            old(self).wf(),
            spannable(old(self)@.union(slice@.to_set())),
        ensures
            final(self).wf(),
            final(self)@ == old(self)@.union(slice@.to_set()),
    {
        proof { self.lemma_wf(); }
        if slice.len() == 0 {
            proof {
                assert(self@.union(slice@.to_set()) =~= self@);
            }
            return;
        }
        if self.len == 0 {
            proof {
                assert(self@.union(slice@.to_set()) =~= slice@.to_set());
                assert forall|k: usize| #[trigger] slice@.to_set().contains(k) implies self@.union(
                    slice@.to_set()).contains(k) by {}
            }
            *self = USet::make_from_slice(slice);
            return;
        }
        let (mn, mx) = match key_range(slice) {
            Some(b) => b,
            None => (0, 0),
        };
        let ghost pre = *self;
        if mn >= self.min && mx <= self.max {
            self.mark_all(slice);
            proof {
                self.lemma_members();
                assert forall|i: int| 0 <= i < self.vec@.len() && #[trigger] self.vec@[i] implies self.min
                    <= self.offset + i <= self.max by {
                    let k = (self.offset + i) as usize;
                    assert(self.slot(k as int));
                    assert(self@.contains(k));
                    if !pre@.contains(k) {
                        assert(slice@.to_set().contains(k));
                        let t = choose|t: int| 0 <= t < slice@.len() && slice@[t] == k;
                    }
                }
                assert(self@.contains(self.min));
                assert(self@.contains(self.max));
                assert(self.slot(self.max as int));
                assert(self.slot(self.min as int));
                vstd::set_lib::lemma_set_empty_equivalency_len(self@);
                self.lemma_establish();
            }
        } else {
            let lo = if self.min < mn { self.min } else { mn };
            let hi = if self.max > mx { self.max } else { mx };
            proof {
                assert(slice@.to_set().contains(mn));
                assert(slice@.to_set().contains(mx));
                assert(pre@.union(slice@.to_set()).contains(lo));
                assert(pre@.union(slice@.to_set()).contains(hi));
            }
            self.vec = self.spread(lo, hi - lo + 1);
            self.offset = lo;
            proof {
                assert(slots_fit(self.vec@, self.offset as int));
                self.lemma_members();
                assert(self@ =~= pre@);
            }
            self.mark_all(slice);
            self.min = lo;
            self.max = hi;
            proof {
                assert(slice@.contains(mn));
                assert(slice@.contains(mx));
                assert(self@.contains(lo));
                assert(self@.contains(hi));
                self.lemma_members();
                assert forall|i: int| 0 <= i < self.vec@.len() && #[trigger] self.vec@[i] implies self.min
                    <= self.offset + i <= self.max by {
                    let k = (self.offset + i) as usize;
                    assert(self.slot(k as int));
                    assert(self@.contains(k));
                    if !pre@.contains(k) {
                        assert(slice@.to_set().contains(k));
                        let t = choose|t: int| 0 <= t < slice@.len() && slice@[t] == k;
                    }
                }
                vstd::set_lib::lemma_set_empty_equivalency_len(self@);
                self.lemma_establish();
            }
        }
    }

    /// Keeps the first `n` keys in ascending order and drops the rest; nothing changes
    /// when `n` is not below the length. The buffer keeps its capacity.
    pub fn truncate(&mut self, n: usize)
        requires
            old(self).wf(),
        ensures
            final(self).wf(),
            final(self).elems() == if n < old(self)@.len() {
                old(self).elems().take(n as int)
            } else {
                old(self).elems()
            },
            final(self)@ == final(self).elems().to_set(),
            final(self).cap() == old(self).cap(),
    {
        proof { self.lemma_wf(); }
        let ghost pre = *self;
        if self.len > 0 && n > 0 && n < self.len {
            let mut i: usize = 0;
            let mut count: usize = 0;
            while count < n
                invariant
                    *self == pre,
                    self.wf(),
                    0 < n < self.len,
                    i <= self.vec@.len(),
                    count <= n,
                    count == keys_in(self.vec@, self.offset as int, 0, i as int).len(),
                    count == n ==> i > 0 && self.vec@[i - 1],
                decreases self.vec@.len() - i,
            {
                proof {
                    if i == self.vec@.len() {
                        assert(count == self.len);
                    }
                    lemma_keys_in(self.vec@, self.offset as int, 0, i as int);
                }
                if self.vec[i] {
                    count = count + 1;
                }
                i = i + 1;
            }
            let last = i - 1;
            proof {
                assert(pre.vec@[last as int]);
            }
            let cap = self.vec.len();
            let mut j: usize = i;
            while j < cap
                invariant
                    self.vec@.len() == cap,
                    cap == pre.vec@.len(),
                    pre.wf(),
                    self.offset == pre.offset,
                    self.min == pre.min,
                    self.max == pre.max,
                    self.len == pre.len,
                    0 < i,
                    last == i - 1,
                    pre.vec@[last as int],
                    n == keys_in(pre.vec@, pre.offset as int, 0, i as int).len(),
                    i <= j <= cap,
                    forall|t: int| 0 <= t < i ==> self.vec@[t] == pre.vec@[t],
                    forall|t: int| i <= t < j ==> !#[trigger] self.vec@[t],
                    forall|t: int| j <= t < cap ==> #[trigger] self.vec@[t] == pre.vec@[t],
                decreases cap - j,
            {
                self.vec.set(j, false);
                j = j + 1;
            }
            self.max = self.offset + last;
            self.len = n;
            proof {
                let off = self.offset as int;
                lemma_keys_in_split(pre.vec@, off, 0, i as int, cap as int);
                lemma_keys_in_split(self.vec@, off, 0, i as int, cap as int);
                lemma_keys_in_agree(pre.vec@, self.vec@, off, 0, i as int);
                lemma_keys_in(self.vec@, off, i as int, cap as int);
                let tail = keys_in(self.vec@, off, i as int, cap as int);
                if tail.len() > 0 {
                    assert(self.vec@[tail[0] - off]);
                }
                assert(tail =~= Seq::<usize>::empty());
                let head = keys_in(pre.vec@, off, 0, i as int);
                assert(head.len() == n);
                assert(self.elems() =~= head);
                assert(pre.elems().take(n as int) =~= head);
                assert forall|t: int| 0 <= t < self.vec@.len() && #[trigger] self.vec@[t]
                    implies self.min <= self.offset + t <= self.max by {
                    assert(pre.vec@[t]);
                }
                assert(slots_fit(self.vec@, off));
            }
        } else if self.len > 0 && n == 0 {
            let cap = self.vec.len();
            let mut j: usize = 0;
            while j < cap
                invariant
                    self.vec@.len() == cap,
                    j <= cap,
                    forall|t: int| 0 <= t < j ==> !#[trigger] self.vec@[t],
                decreases cap - j,
            {
                self.vec.set(j, false);
                j = j + 1;
            }
            self.offset = 0;
            self.min = 0;
            self.max = 0;
            self.len = 0;
            proof {
                lemma_keys_in(self.vec@, 0, 0, cap as int);
                if self.elems().len() > 0 {
                    assert(self.vec@[self.elems()[0] - 0]);
                }
                assert(self.elems() =~= pre.elems().take(0));
            }
        } else {
            proof {
                if n == 0 {
                    assert(pre.elems() =~= pre.elems().take(0));
                }
            }
        }
    }

    /// Works like `truncate`, and returns the removed keys as a new set.
    pub fn drain(&mut self, n: usize) -> (r: Self)
        requires
            old(self).wf(),
        ensures
            final(self).wf(),
            r.wf(),
            final(self).elems() == if n < old(self)@.len() {
                old(self).elems().take(n as int)
            } else {
                old(self).elems()
            },
            r.elems() == if n < old(self)@.len() {
                old(self).elems().skip(n as int)
            } else {
                Seq::<usize>::empty()
            },
            final(self)@.union(r@) == old(self)@,
            final(self)@.disjoint(r@),
    {
        let before = self.clone();
        self.truncate(n);
        let r = before.difference(self);
        proof {
            before.lemma_wf();
            self.lemma_wf();
            r.lemma_wf();
            let e = before.elems();
            let m = if n < before@.len() { n as int } else { e.len() as int };
            let expect = e.skip(m);
            assert(self.elems() =~= e.take(m));
            assert forall|k: usize| r.elems().contains(k) <==> expect.contains(k) by {
                if expect.contains(k) {
                    let j = choose|j: int| 0 <= j < expect.len() && expect[j] == k;
                    assert(e[m + j] == k);
                    assert(before.elems().contains(k));
                    if self.elems().contains(k) {
                        let t = choose|t: int| 0 <= t < self.elems().len() && self.elems()[t] == k;
                        assert(e[t] == k);
                        assert(t < m);
                        assert(e[t] < e[m + j]);
                    }
                }
                if r.elems().contains(k) {
                    assert(before@.contains(k));
                    assert(!self@.contains(k));
                    let j = choose|j: int| 0 <= j < e.len() && e[j] == k;
                    if j < m {
                        assert(self.elems()[j] == k);
                    }
                    assert(expect[j - m] == k);
                }
            }
            assert(ascending(expect));
            lemma_ascending_unique(r.elems(), expect);
            if n >= before@.len() {
                assert(expect =~= Seq::<usize>::empty());
            }
            assert(self@.union(r@) =~= before@);
            assert(self@.disjoint(r@));
        }
        r
    }

    /// Removes every key. The buffer keeps its capacity.
    pub fn clear(&mut self)
        requires
            old(self).wf(),
        ensures
            final(self).wf(),
            final(self)@ == Set::<usize>::empty(),
            final(self).cap() == old(self).cap(),
    {
        proof { self.lemma_wf(); }
        self.truncate(0);
        proof {
            assert(self.elems() =~= Seq::<usize>::empty());
            assert(self@ =~= Set::<usize>::empty());
        }
    }

    /// Grows the buffer to `new_capacity` slots; never shrinks it.
    pub fn enlarge_capacity_to(&mut self, new_capacity: usize)
        requires
            old(self).wf(),
        ensures
            final(self).wf(),
            final(self)@ == old(self)@,
            final(self).elems() == old(self).elems(),
            final(self).cap() == if new_capacity > old(self).cap() {
                new_capacity as nat
            } else {
                old(self).cap()
            },
    {
        proof { self.lemma_wf(); }
        let ghost pre = *self;
        if new_capacity > self.vec.len() {
            self.vec.resize(new_capacity, false);
            proof {
                let off = self.offset as int;
                let old_cap = pre.vec@.len() as int;
                assert forall|t: int| old_cap <= t < new_capacity implies !#[trigger] self.vec@[t] by {}
                lemma_keys_in_split(self.vec@, off, 0, old_cap, new_capacity as int);
                lemma_keys_in_agree(pre.vec@, self.vec@, off, 0, old_cap);
                assert forall|t: int| 0 <= t < self.vec@.len() && #[trigger] self.vec@[t]
                    implies t < old_cap && pre.vec@[t] by {}
                assert(slots_fit(self.vec@, off));
                lemma_keys_in(self.vec@, off, old_cap, new_capacity as int);
                let tail = keys_in(self.vec@, off, old_cap, new_capacity as int);
                if tail.len() > 0 {
                    assert(self.vec@[tail[0] - off]);
                }
                assert(tail =~= Seq::<usize>::empty());
                assert(self.elems() =~= pre.elems());
            }
        }
    }

    /// Reallocates the buffer to span exactly from the smallest to the largest key, when
    /// it has free slots at either end; an empty set lets its buffer go.
    pub fn shrink_to_fit(&mut self)
        requires
            old(self).wf(),
        ensures
            final(self).wf(),
            final(self)@ == old(self)@,
            final(self).elems() == old(self).elems(),
            final(self).cap() == if old(self)@.len() == 0 {
                0
            } else {
                (old(self).elems().last() - old(self).elems()[0] + 1) as nat
            },
    {
        proof { self.lemma_wf(); }
        let ghost pre = *self;
        if self.len > 0 && (!self.vec[0] || !self.vec[self.vec.len() - 1]) {
            self.vec = self.spread(self.min, self.max - self.min + 1);
            self.offset = self.min;
            proof {
                assert(slots_fit(self.vec@, self.offset as int));
                self.lemma_members();
                assert(self@ =~= pre@);
                self.lemma_establish();
                self.lemma_wf();
                lemma_ascending_unique(self.elems(), pre.elems());
            }
        } else if self.len == 0 && self.vec.len() > 0 {
            self.vec = Vec::new();
            proof {
                assert(self.elems() =~= pre.elems());
            }
        } else if self.len > 0 {
            proof {
                assert(self.vec@[0]);
                assert(self.vec@[self.vec@.len() - 1]);
            }
        }
    }

    /// A set holding the keys `r.start .. r.end`, in a buffer starting at `r.start` with
    /// at least `INITIAL_WORKING_CAPACITY` slots.
    pub fn from_range(r: std::ops::Range<usize>) -> (s: Self)
        ensures
            s.wf(),
            s@ == Set::new(|k: usize| r.start <= k < r.end),
    {
        if r.start >= r.end {
            proof {
                assert(Set::new(|k: usize| r.start <= k < r.end) =~= Set::<usize>::empty());
            }
            return USet::new();
        }
        let lo = r.start;
        let n = r.end - r.start;
        let size = if n < INITIAL_WORKING_CAPACITY { INITIAL_WORKING_CAPACITY } else { n };
        let mut v = blank(size);
        let mut j: usize = 0;
        while j < n
            invariant
                n <= size,
                j <= n,
                v@.len() == size,
                forall|t: int| 0 <= t < j ==> #[trigger] v@[t],
                forall|t: int| j <= t < size ==> !#[trigger] v@[t],
                j == keys_in(v@, lo as int, 0, j as int).len(),
            decreases n - j,
        {
            let ghost before = v@;
            v.set(j, true);
            proof {
                lemma_keys_in_agree(before, v@, lo as int, 0, j as int);
            }
            j = j + 1;
        }
        let s = USet { vec: v, len: n, offset: lo, min: lo, max: r.end - 1 };
        proof {
            assert forall|t: int| 0 <= t < s.vec@.len() && #[trigger] s.vec@[t] implies s.min
                <= s.offset + t <= s.max by {}
            assert(slots_fit(s.vec@, lo as int));
            lemma_keys_in_split(s.vec@, lo as int, 0, n as int, size as int);
            lemma_keys_in(s.vec@, lo as int, n as int, size as int);
            let tail = keys_in(s.vec@, lo as int, n as int, size as int);
            if tail.len() > 0 {
                assert(s.vec@[tail[0] - lo]);
            }
            assert(tail =~= Seq::<usize>::empty());
            assert(s.elems() =~= keys_in(s.vec@, lo as int, 0, n as int));
            s.lemma_members();
            assert(s@ =~= Set::new(|k: usize| r.start <= k < r.end)) by {
                assert forall|k: usize| s@.contains(k) <==> r.start <= k < r.end by {
                    if r.start <= k < r.end {
                        assert(s.vec@[k - lo]);
                    }
                }
            }
        }
        s
    }

    /// A set over a buffer of presence flags: slot `i` says whether `offset + i` belongs
    /// to it. The bounds are found by scanning; a buffer with no present slot gives the
    /// empty set, which keeps the buffer.
    pub fn from_fields(vec: Vec<bool>, offset: usize) -> (r: Self)
        requires
            slots_fit(vec@, offset as int),
        ensures
            r.wf(),
            r@ == Set::new(|k: usize| offset <= k < offset + vec@.len() && vec@[k - offset]),
            r.cap() == vec@.len(),
    {
        let ghost p = vec@;
        let cap = vec.len();
        let mut i: usize = 0;
        let mut len: usize = 0;
        let mut first: usize = 0;
        let mut last: usize = 0;
        while i < cap
            invariant
                vec@ == p,
                cap == p.len(),
                i <= cap,
                len <= i,
                len == keys_in(p, offset as int, 0, i as int).len(),
                len > 0 ==> first <= last < i && p[first as int] && p[last as int],
                forall|t: int| 0 <= t < i && #[trigger] p[t] ==> first <= t <= last,
                len == 0 ==> forall|t: int| 0 <= t < i ==> !#[trigger] p[t],
            decreases cap - i,
        {
            if vec[i] {
                if len == 0 {
                    first = i;
                }
                last = i;
                len = len + 1;
            }
            i = i + 1;
        }
        let ghost target = Set::new(|k: usize| offset <= k < offset + p.len() && p[k - offset]);
        if len == 0 {
            let r = USet { vec, len: 0, offset: 0, min: 0, max: 0 };
            proof {
                lemma_keys_in(p, 0, 0, cap as int);
                if r.elems().len() > 0 {
                    assert(p[r.elems()[0] - 0]);
                }
                r.lemma_members();
                assert(target =~= Set::<usize>::empty());
                assert(r@ =~= Set::<usize>::empty());
            }
            r
        } else {
            proof {
                assert(p[last as int]);
            }
            let r = USet { vec, len, offset, min: offset + first, max: offset + last };
            proof {
                assert(slots_fit(r.vec@, offset as int));
                r.lemma_members();
                assert(r@ =~= target);
            }
            r
        }
    }

    /// Walks the keys in ascending order from the front, or in descending order from
    /// the back; the two ends never cross.
    pub fn iter(&self) -> (r: USetIter<'_>)
        requires
            self.wf(),
        ensures
            r.valid(),
            r.remaining() == self.elems(),
    {
        USetIter { handle: self, index: 0, rindex: 0 }
    }

    /// The key at position `index` in ascending order, found by walking the keys.
    pub fn at_index(&self, index: usize) -> (r: Option<usize>)
        requires
            self.wf(),
        ensures
            r == if index < self.elems().len() {
                Some(self.elems()[index as int])
            } else {
                None::<usize>
            },
    {
        proof { self.lemma_wf(); }
        if index >= self.len {
            return None;
        }
        let mut it = self.iter();
        let mut i: usize = 0;
        while i < index
            invariant
                i <= index < self.elems().len(),
                it.valid(),
                it.remaining() == self.elems().skip(i as int),
            decreases index - i,
        {
            it.next();
            proof {
                assert(it.remaining() =~= self.elems().skip(i + 1));
            }
            i = i + 1;
        }
        it.next()
    }

    /// Removes and returns the key at position `index` in ascending order.
    pub fn pop(&mut self, index: usize) -> (r: Option<usize>)
        requires
            old(self).wf(),
        ensures
            final(self).wf(),
            r == if index < old(self).elems().len() {
                Some(old(self).elems()[index as int])
            } else {
                None::<usize>
            },
            final(self)@ == match r {
                Some(k) => old(self)@.remove(k),
                None => old(self)@,
            },
    {
        let d = self.at_index(index);
        if let Some(id) = d {
            self.remove(id);
        }
        d
    }

    /// The keys in ascending order.
    pub fn to_vec(&self) -> (r: Vec<usize>)
        requires
            self.wf(),
        ensures
            r@ == self.elems(),
    {
        let mut r: Vec<usize> = Vec::new();
        let mut it = self.iter();
        loop
            invariant
                it.valid(),
                r@ + it.remaining() == self.elems(),
            ensures
                r@ == self.elems(),
            decreases it.remaining().len(),
        {
            let ghost rest = it.remaining();
            match it.next() {
                Some(k) => {
                    r.push(k);
                    proof {
                        assert(r@ + it.remaining() =~= self.elems()) by {
                            assert(rest =~= seq![k] + rest.drop_first());
                        }
                    }
                },
                None => {
                    proof {
                        assert(r@ =~= self.elems());
                    }
                    break;
                },
            }
        }
        r
    }

    /// Removes every key of `other` from `self`; keys of `other` that `self` lacks are
    /// ignored. Nothing is reallocated.
    pub fn remove_all(&mut self, other: &Self)
        requires
            old(self).wf(),
            other.wf(),
        ensures
            final(self).wf(),
            final(self)@ == old(self)@.difference(other@),
    {
        proof { other.lemma_wf(); }
        let ghost pre = *self;
        let cap = other.vec.len();
        let mut i: usize = 0;
        while i < cap
            invariant
                self.wf(),
                other.wf(),
                cap == other.vec@.len(),
                i <= cap,
                forall|k: usize| #[trigger] self@.contains(k) <==> (pre@.contains(k) && !(
                    other@.contains(k) && k < other.offset + i)),
            decreases cap - i,
        {
            proof { other.lemma_wf(); }
            if other.vec[i] {
                proof {
                    assert(other.slot(other.offset + i));
                }
                self.remove(other.offset + i);
            }
            proof {
                assert forall|k: usize| #[trigger] self@.contains(k) <==> (pre@.contains(k) && !(
                    other@.contains(k) && k < other.offset + i + 1)) by {
                    if k == other.offset + i {
                        assert(other@.contains(k) == other.slot(k as int));
                    }
                }
            }
            i = i + 1;
        }
        proof {
            assert(self@ =~= pre@.difference(other@));
        }
    }

    /// Whether every key of `self` is in `other`; a longer set is never a subset.
    pub fn is_subset_of(&self, other: &Self) -> (r: bool)
        requires
            self.wf(),
            other.wf(),
        ensures
            r == self@.subset_of(other@),
    {
        proof {
            self.lemma_wf();
            other.lemma_wf();
        }
        if self.len > other.len {
            proof {
                if self@.subset_of(other@) {
                    vstd::set_lib::lemma_len_subset(self@, other@);
                }
            }
            return false;
        }
        let cap = self.vec.len();
        let mut i: usize = 0;
        while i < cap
            invariant
                self.wf(),
                other.wf(),
                cap == self.vec@.len(),
                i <= cap,
                forall|k: usize| self@.contains(k) && k < self.offset + i ==> other@.contains(k),
            decreases cap - i,
        {
            proof { self.lemma_wf(); }
            if self.vec[i] {
                proof {
                    assert(self.slot(self.offset + i));
                    assert(self@.contains((self.offset + i) as usize));
                }
                if !other.contains(self.offset + i) {
                    return false;
                }
            }
            proof {
                assert forall|k: usize| self@.contains(k) && k < self.offset + i + 1 implies other@.contains(k) by {
                    if k == self.offset + i {
                        assert(self.slot(k as int));
                    }
                }
            }
            i = i + 1;
        }
        proof {
            assert forall|k: usize| self@.contains(k) implies other@.contains(k) by {
                assert(self.slot(k as int));
            }
        }
        true
    }

    /// Same length, same bounds, and the same presence pattern between the bounds;
    /// the offset and the slack of the buffers do not count.
    pub closed spec fn same_as(&self, o: &USet) -> bool {
        &&& self.len == o.len
        &&& self.min == o.min
        &&& self.max == o.max
        &&& forall|k: int| self.min <= k <= self.max ==> self.slot(k) == o.slot(k)
    }

    /// For well-formed sets, `==` is equality of the key sets.
    pub proof fn lemma_same_as(&self, o: &USet)
        requires
            self.wf(),
            o.wf(),
        ensures
            self.same_as(o) <==> self@ == o@,
    {
        self.lemma_wf();
        o.lemma_wf();
        if self.same_as(o) {
            assert forall|k: usize| self@.contains(k) <==> o@.contains(k) by {
                if self@.contains(k) {
                    assert(self.slot(k as int));
                }
                if o@.contains(k) {
                    assert(o.slot(k as int));
                }
            }
            assert(self@ =~= o@);
        }
        if self@ == o@ {
            if self.len > 0 {
                assert(o@.contains(self.min));
                assert(self@.contains(o.min));
                assert(o@.contains(self.max));
                assert(self@.contains(o.max));
            }
            assert forall|k: int| self.min <= k <= self.max implies self.slot(k) == o.slot(k) by {
                if self.slot(k) {
                    assert(self@.contains(k as usize));
                }
                if o.slot(k) {
                    assert(o@.contains(k as usize));
                }
            }
        }
    }

    /// Whether the buffer has a present slot for `k`; never out of bounds.
    fn slot_at(&self, k: usize) -> (r: bool)
        ensures
            r == self.slot(k as int),
    {
        k >= self.offset && k - self.offset < self.vec.len() && self.vec[k - self.offset]
    }

}

/// A cursor over the keys of a set, from both ends.
pub struct USetIter<'a> {
    handle: &'a USet,
    index: usize,
    rindex: usize,
}

impl<'a> USetIter<'a> {
    /// The keys not yet handed out, in ascending order.
    pub closed spec fn remaining(&self) -> Seq<usize> {
        keys_in(
            self.handle.vec@,
            self.handle.offset as int,
            self.index as int,
            self.handle.vec@.len() - self.rindex,
        )
    }

    pub closed spec fn valid(&self) -> bool {
        &&& self.handle.wf()
        &&& self.index + self.rindex <= self.handle.vec@.len()
    }

    /// The smallest key not yet handed out.
    pub fn next(&mut self) -> (r: Option<usize>)
        requires
            old(self).valid(),
        ensures
            final(self).valid(),
            old(self).remaining().len() == 0 ==> r is None && final(self).remaining().len() == 0,
            old(self).remaining().len() > 0 ==> r == Some(old(self).remaining()[0])
                && final(self).remaining() == old(self).remaining().drop_first(),
    {
        let ghost start = self.remaining();
        let n = self.handle.vec.len();
        while self.index < n - self.rindex
            invariant
                self.valid(),
                n == self.handle.vec@.len(),
                self.remaining() == start,
                start == old(self).remaining(),
            decreases n - self.rindex - self.index,
        {
            let index = self.index;
            proof {
                lemma_keys_in_front(
                    self.handle.vec@,
                    self.handle.offset as int,
                    index as int,
                    n - self.rindex,
                );
            }
            self.index = self.index + 1;
            if self.handle.vec[index] {
                proof {
                    assert(self.handle.offset + index <= usize::MAX);
                    let key = (self.handle.offset + index) as usize;
                    assert(start == seq![key] + self.remaining());
                    assert(start[0] == key);
                    assert(start.drop_first() =~= self.remaining());
                }
                return Some(index + self.handle.offset);
            }
        }
        proof {
            assert(start =~= Seq::<usize>::empty());
        }
        None
    }

    /// The largest key not yet handed out.
    pub fn next_back(&mut self) -> (r: Option<usize>)
        requires
            old(self).valid(),
        ensures
            final(self).valid(),
            old(self).remaining().len() == 0 ==> r is None && final(self).remaining().len() == 0,
            old(self).remaining().len() > 0 ==> r == Some(old(self).remaining().last())
                && final(self).remaining() == old(self).remaining().drop_last(),
    {
        let ghost start = self.remaining();
        let n = self.handle.vec.len();
        while self.rindex < n - self.index
            invariant
                self.valid(),
                n == self.handle.vec@.len(),
                self.remaining() == start,
                start == old(self).remaining(),
            decreases n - self.rindex - self.index,
        {
            let index = n - self.rindex - 1;
            self.rindex = self.rindex + 1;
            if self.handle.vec[index] {
                proof {
                    assert(self.handle.offset + index <= usize::MAX);
                    let key = (self.handle.offset + index) as usize;
                    assert(start == self.remaining().push(key));
                    assert(start.last() == key);
                    assert(start.drop_last() =~= self.remaining());
                }
                return Some(index + self.handle.offset);
            }
        }
        proof {
            assert(start =~= Seq::<usize>::empty());
        }
        None
    }
}

impl PartialEq for USet {
    fn eq(&self, other: &USet) -> (r: bool) {
        if self.len != other.len || self.min != other.min || self.max != other.max {
            return false;
        }
        if self.max < self.min {
            return true;
        }
        let span = self.max - self.min;
        let mut i: usize = 0;
        loop
            invariant
                self.min <= self.max,
                span == self.max - self.min,
                i <= span,
                self.len == other.len,
                self.min == other.min,
                self.max == other.max,
                forall|k: int| self.min <= k < self.min + i ==> self.slot(k) == other.slot(k),
            decreases span - i,
        {
            if self.slot_at(self.min + i) != other.slot_at(self.min + i) {
                return false;
            }
            if i == span {
                return true;
            }
            i = i + 1;
        }
    }
}

impl vstd::std_specs::cmp::PartialEqSpecImpl for USet {
    open spec fn obeys_eq_spec() -> bool {
        true
    }

    open spec fn eq_spec(&self, other: &USet) -> bool {
        self.same_as(other)
    }
}

impl Eq for USet {

}

impl Default for USet {
    fn default() -> (r: Self)
        ensures
            r.wf(),
            r@ == Set::<usize>::empty(),
    {
        USet::new()
    }
}

impl Clone for USet {
    fn clone(&self) -> (r: Self)
        ensures
            self.wf() ==> r.wf(),
            r@ == self@,
            r.elems() == self.elems(),
            r.cap() == self.cap(),
    {
        let r = USet {
            vec: self.vec.clone(),
            len: self.len,
            offset: self.offset,
            min: self.min,
            max: self.max,
        };
        proof {
            assert(r.vec@ =~= self.vec@);
        }
        r
    }
}

} // verus!
