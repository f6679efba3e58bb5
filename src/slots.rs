//! The model shared by both collections: a buffer of presence flags whose first
//! slot stands for the key `off`, and the ascending sequence of keys it holds.

use vstd::prelude::*;

verus! {

/// The keys of the present slots with an index in `[lo, hi)`, in ascending order.
pub open spec fn keys_in(p: Seq<bool>, off: int, lo: int, hi: int) -> Seq<usize>
    decreases hi - lo,
{
    if hi <= lo {
        Seq::empty()
    } else if p[hi - 1] {
        keys_in(p, off, lo, hi - 1).push((off + hi - 1) as usize)
    } else {
        keys_in(p, off, lo, hi - 1)
    }
}

/// Strictly increasing.
pub open spec fn ascending(s: Seq<usize>) -> bool {
    forall|i: int, j: int| 0 <= i < j < s.len() ==> s[i] < s[j]
}

/// Every present slot stands for a key that a `usize` can hold.
pub open spec fn slots_fit(p: Seq<bool>, off: int) -> bool {
    forall|i: int| 0 <= i < p.len() && #[trigger] p[i] ==> off + i <= usize::MAX
}

/// A set whose smallest and largest keys span no more slots than a buffer can have.
pub open spec fn spannable(s: Set<usize>) -> bool {
    !(s.contains(0) && s.contains(usize::MAX))
}

pub proof fn lemma_keys_in(p: Seq<bool>, off: int, lo: int, hi: int)
    requires
        0 <= off,
        0 <= lo <= hi <= p.len(),
        slots_fit(p, off),
    ensures
        ascending(keys_in(p, off, lo, hi)),
        keys_in(p, off, lo, hi).len() <= hi - lo,
        forall|j: int|
            0 <= j < keys_in(p, off, lo, hi).len() ==> {
                let k = #[trigger] keys_in(p, off, lo, hi)[j];
                &&& off + lo <= k < off + hi
                &&& p[k - off]
            },
        forall|k: usize|
            #[trigger] keys_in(p, off, lo, hi).contains(k) <==> (off + lo <= k < off + hi && p[k
                - off]),
    decreases hi - lo,
{
    if hi > lo {
        lemma_keys_in(p, off, lo, hi - 1);
        let s = keys_in(p, off, lo, hi - 1);
        if p[hi - 1] {
            assert(off + hi - 1 <= usize::MAX);
            let t = s.push((off + hi - 1) as usize);
            assert forall|k: usize| #[trigger] t.contains(k) <==> (off + lo <= k < off + hi && p[k
                - off]) by {
                if off + lo <= k < off + hi && p[k - off] {
                    if k == off + hi - 1 {
                        assert(t[t.len() - 1] == k);
                    } else {
                        assert(s.contains(k));
                        let j = choose|j: int| 0 <= j < s.len() && s[j] == k;
                        assert(t[j] == k);
                    }
                }
                if t.contains(k) {
                    let j = choose|j: int| 0 <= j < t.len() && t[j] == k;
                    if j < s.len() {
                        assert(s[j] == k);
                    }
                }
            }
        } else {
            assert forall|k: usize| #[trigger] s.contains(k) <==> (off + lo <= k < off + hi && p[k
                - off]) by {
                if s.contains(k) {
                    let j = choose|j: int| 0 <= j < s.len() && s[j] == k;
                }
            }
        }
    }
}

/// Taking the keys from the front: the lowest slot first, then the rest.
pub proof fn lemma_keys_in_front(p: Seq<bool>, off: int, lo: int, hi: int)
    requires
        0 <= lo < hi <= p.len(),
    ensures
        keys_in(p, off, lo, hi) == (if p[lo] {
            seq![(off + lo) as usize]
        } else {
            Seq::empty()
        }) + keys_in(p, off, lo + 1, hi),
    decreases hi - lo,
{
    if hi - 1 > lo {
        lemma_keys_in_front(p, off, lo, hi - 1);
    }
    let head: Seq<usize> = if p[lo] {
        seq![(off + lo) as usize]
    } else {
        Seq::empty()
    };
    if hi - 1 > lo {
        if p[hi - 1] {
            assert(keys_in(p, off, lo, hi) =~= head + keys_in(p, off, lo + 1, hi));
        } else {
            assert(keys_in(p, off, lo, hi) =~= head + keys_in(p, off, lo + 1, hi));
        }
    } else {
        assert(keys_in(p, off, lo, lo) =~= Seq::<usize>::empty());
        assert(keys_in(p, off, lo + 1, hi) =~= Seq::<usize>::empty());
        assert(keys_in(p, off, lo, hi) =~= head + keys_in(p, off, lo + 1, hi));
    }
}

/// Two ascending sequences that hold the same keys are the same sequence.
pub proof fn lemma_ascending_unique(s1: Seq<usize>, s2: Seq<usize>)
    requires
        ascending(s1),
        ascending(s2),
        forall|k: usize| s1.contains(k) <==> s2.contains(k),
    ensures
        s1 == s2,
    decreases s1.len(),
{
    if s1.len() == 0 {
        if s2.len() > 0 {
            assert(s2.contains(s2[0]));
        }
        assert(s1 =~= s2);
    } else {
        assert(s1.contains(s1[0]));
        assert(s2.len() > 0);
        assert(s2.contains(s2[0]));
        let j1 = choose|j: int| 0 <= j < s2.len() && s2[j] == s1[0];
        let j2 = choose|j: int| 0 <= j < s1.len() && s1[j] == s2[0];
        assert(s1[0] == s2[0]) by {
            if j1 > 0 {
                assert(s2[0] < s2[j1]);
            }
            if j2 > 0 {
                assert(s1[0] < s1[j2]);
            }
        }
        let t1 = s1.drop_first();
        let t2 = s2.drop_first();
        assert forall|k: usize| t1.contains(k) <==> t2.contains(k) by {
            if t1.contains(k) {
                let j = choose|j: int| 0 <= j < t1.len() && t1[j] == k;
                assert(s1[j + 1] == k);
                assert(s2.contains(k));
                let i = choose|i: int| 0 <= i < s2.len() && s2[i] == k;
                assert(s1[0] < k);
                assert(i != 0);
                assert(t2[i - 1] == k);
            }
            if t2.contains(k) {
                let j = choose|j: int| 0 <= j < t2.len() && t2[j] == k;
                assert(s2[j + 1] == k);
                assert(s1.contains(k));
                let i = choose|i: int| 0 <= i < s1.len() && s1[i] == k;
                assert(s2[0] < k);
                assert(i != 0);
                assert(t1[i - 1] == k);
            }
        }
        lemma_ascending_unique(t1, t2);
        assert(s1 =~= s2) by {
            assert forall|i: int| 0 <= i < s1.len() implies s1[i] == s2[i] by {
                if i > 0 {
                    assert(s1[i] == t1[i - 1]);
                    assert(s2[i] == t2[i - 1]);
                }
            }
        }
    }
}

/// An ascending sequence has as many keys as its set.
pub proof fn lemma_ascending_set_len(s: Seq<usize>)
    requires
        ascending(s),
    ensures
        s.no_duplicates(),
        s.to_set().len() == s.len(),
        s.to_set().finite(),
{
    assert(s.no_duplicates()) by {
        assert forall|i: int, j: int| 0 <= i < s.len() && 0 <= j < s.len() && i != j implies s[i]
            != s[j] by {
            if i < j {
                assert(s[i] < s[j]);
            } else {
                assert(s[j] < s[i]);
            }
        }
    }
    s.unique_seq_to_set();
    vstd::seq_lib::seq_to_set_is_finite(s);
}

/// The keys depend on the slots inside the window only.
pub proof fn lemma_keys_in_agree(pa: Seq<bool>, pb: Seq<bool>, off: int, lo: int, hi: int)
    requires
        0 <= lo,
        hi <= pa.len(),
        hi <= pb.len(),
        forall|i: int| lo <= i < hi ==> pa[i] == pb[i],
    ensures
        keys_in(pa, off, lo, hi) == keys_in(pb, off, lo, hi),
    decreases hi - lo,
{
    if hi > lo {
        lemma_keys_in_agree(pa, pb, off, lo, hi - 1);
    }
}

/// Splitting the window in two splits the keys in two.
pub proof fn lemma_keys_in_split(p: Seq<bool>, off: int, lo: int, mid: int, hi: int)
    requires
        lo <= mid <= hi,
    ensures
        keys_in(p, off, lo, hi) == keys_in(p, off, lo, mid) + keys_in(p, off, mid, hi),
    decreases hi - mid,
{
    if hi > mid {
        lemma_keys_in_split(p, off, lo, mid, hi - 1);
        assert(keys_in(p, off, lo, hi) =~= keys_in(p, off, lo, mid) + keys_in(p, off, mid, hi));
    } else {
        assert(keys_in(p, off, lo, hi) =~= keys_in(p, off, lo, mid) + keys_in(p, off, mid, hi));
    }
}

} // verus!
