//! Removing many elements by swapping, from the back to the front.

use crate::atom_data::swap_removed;
use vstd::prelude::*;

verus! {

/// `s` after the places `leave.len()` down to `k` were visited and those that
/// leave were removed, the last element taking each one's place.
pub open spec fn sweep<T>(s: Seq<T>, leave: Seq<bool>, k: int) -> Seq<T>
    decreases leave.len() - k,
{
    if k >= leave.len() {
        s
    } else {
        let t: Seq<T> = sweep(s, leave, k + 1);
        if leave[k] {
            swap_removed(t, k)
        } else {
            t
        }
    }
}

/// The elements that leave, in the order in which they are visited.
pub open spec fn leavers<T>(s: Seq<T>, leave: Seq<bool>, k: int) -> Seq<T>
    decreases leave.len() - k,
{
    if k >= leave.len() {
        Seq::empty()
    } else if leave[k] {
        leavers(s, leave, k + 1).push(s[k])
    } else {
        leavers(s, leave, k + 1)
    }
}

/// The number of places from `k` on that leave.
pub open spec fn leaving(leave: Seq<bool>, k: int) -> nat
    decreases leave.len() - k,
{
    if k >= leave.len() {
        0
    } else if leave[k] {
        leaving(leave, k + 1) + 1
    } else {
        leaving(leave, k + 1)
    }
}

/// Places in front of the visited ones are untouched, and one element is gone
/// for every place that leaves.
pub proof fn lemma_sweep<T>(s: Seq<T>, leave: Seq<bool>, k: int)
    requires
        0 <= k <= leave.len() <= s.len(),
    ensures
        sweep(s, leave, k).len() == s.len() - leaving(leave, k),
        leaving(leave, k) <= leave.len() - k,
        forall|i: int| 0 <= i < k ==> #[trigger] sweep(s, leave, k)[i] == s[i],
    decreases leave.len() - k,
{
    if k < leave.len() {
        lemma_sweep(s, leave, k + 1);
    }
}

/// A place in front of the visited ones can be changed before or after.
pub proof fn lemma_sweep_update<T>(s: Seq<T>, leave: Seq<bool>, k: int, i: int, x: T)
    requires
        0 <= i < k <= leave.len() <= s.len(),
    ensures
        sweep(s.update(i, x), leave, k) == sweep(s, leave, k).update(i, x),
    decreases leave.len() - k,
{
    if k < leave.len() {
        lemma_sweep_update(s, leave, k + 1, i, x);
        lemma_sweep(s, leave, k + 1);
        lemma_sweep(s.update(i, x), leave, k + 1);
    }
    lemma_sweep(s, leave, k);
    lemma_sweep(s.update(i, x), leave, k);
    assert(sweep(s.update(i, x), leave, k) =~= sweep(s, leave, k).update(i, x));
}

/// A sweep loses nothing: what stays and what leaves is what was there.
pub proof fn sweep_conserves<T>(s: Seq<T>, leave: Seq<bool>, k: int)
    requires
        0 <= k <= leave.len() <= s.len(),
    ensures
        sweep(s, leave, k).to_multiset().add(leavers(s, leave, k).to_multiset()) == s.to_multiset(),
    decreases leave.len() - k,
{
    broadcast use vstd::seq_lib::group_to_multiset_ensures;

    if k >= leave.len() {
        assert(s.to_multiset().add(Seq::<T>::empty().to_multiset()) =~= s.to_multiset());
    } else {
        sweep_conserves(s, leave, k + 1);
        lemma_sweep(s, leave, k + 1);
        if leave[k] {
            let t: Seq<T> = sweep(s, leave, k + 1);
            let l: Seq<T> = leavers(s, leave, k + 1);
            let u: Seq<T> = t.update(k, t.last());
            let x: T = t[k];
            assert(x == s[k]);
            lemma_swap_removed_multiset(t, k);
            assert(swap_removed(t, k).to_multiset().add(l.push(x).to_multiset()) =~= t.to_multiset().add(
                l.to_multiset(),
            ));
        }
    }
}

proof fn lemma_swap_removed_multiset<T>(t: Seq<T>, k: int)
    requires
        0 <= k < t.len(),
    ensures
        swap_removed(t, k).to_multiset().insert(t[k]) == t.to_multiset(),
{
    broadcast use vstd::seq_lib::group_to_multiset_ensures;

    let u: Seq<T> = t.update(k, t.last());
    let r: Seq<T> = swap_removed(t, k);
    vstd::seq_lib::to_multiset_update(t, k, t.last());
    assert(u =~= r.push(t.last()));
    assert(u.to_multiset() =~= r.to_multiset().insert(t.last()));
    assert(t.contains(t[k]));
    assert(t.to_multiset().count(t[k]) > 0);
    assert forall|x: T| r.to_multiset().insert(t[k]).count(x) == t.to_multiset().count(x) by {
        assert(u.to_multiset().count(x) == r.to_multiset().insert(t.last()).count(x));
        assert(u.to_multiset().count(x) == t.to_multiset().insert(t.last()).remove(t[k]).count(x));
    }
    assert(r.to_multiset().insert(t[k]) =~= t.to_multiset());
}

} // verus!
