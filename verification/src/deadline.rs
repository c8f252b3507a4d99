//! Items tagged with a deadline, kept in arrival order, and the search for
//! the one due first.
use vstd::prelude::*;

verus! {

/// Whether `k` is the first position holding the earliest deadline of `s`.
pub open spec fn is_first_min<X>(s: Seq<(u64, X)>, k: int) -> bool {
    &&& 0 <= k < s.len()
    &&& forall|j: int| 0 <= j < s.len() ==> s[k].0 <= (#[trigger] s[j]).0
    &&& forall|j: int| 0 <= j < k ==> (#[trigger] s[j]).0 > s[k].0
}

/// Whether some item's deadline lies strictly before `now`, which is when the
/// earliest one is due.
pub open spec fn any_due<X>(s: Seq<(u64, X)>, now: u64) -> bool {
    exists|j: int| 0 <= j < s.len() && (#[trigger] s[j]).0 < now
}

/// The first position holding the earliest deadline.
pub fn first_min_index<X>(v: &Vec<(u64, X)>) -> (k: usize)
    requires
        v@.len() > 0,
    ensures
        is_first_min(v@, k as int),
{
    let mut best: usize = 0;
    let mut i: usize = 1;
    while i < v.len()
        invariant
            v@.len() > 0,
            1 <= i <= v@.len(),
            best < i,
            forall|j: int| 0 <= j < i ==> v@[best as int].0 <= (#[trigger] v@[j]).0,
            forall|j: int| 0 <= j < best ==> (#[trigger] v@[j]).0 > v@[best as int].0,
        decreases v@.len() - i,
    {
        if v[i].0 < v[best].0 {
            best = i;
        }
        i = i + 1;
    }
    best
}

/// Whether the earliest deadline lies before `now`.
pub fn due_before<X>(v: &Vec<(u64, X)>, now: u64) -> (b: bool)
    ensures
        b == any_due(v@, now),
{
    if v.len() == 0 {
        return false;
    }
    let k = first_min_index(v);
    if v[k].0 < now {
        true
    } else {
        assert(!any_due(v@, now)) by {
            assert forall|j: int| 0 <= j < v@.len() implies !((#[trigger] v@[j]).0 < now) by {}
        }
        false
    }
}

} // verus!
