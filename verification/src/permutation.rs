//! A permutation search over a five-element arrangement: step through
//! arrangements with a factorial odometer, handing each to a caller-given
//! predicate, and stop at the first one it accepts. Used by tooling that
//! looks for the order of values satisfying a guest equation.

use vstd::prelude::*;

verus! {

/// Swapping two positions of a sequence leaves its multiset of elements
/// unchanged.
proof fn lemma_swap_preserves_multiset(s: Seq<usize>, i: int, j: int)
    requires
        0 <= i < s.len(),
        0 <= j < s.len(),
    ensures
        s.update(i, s[j]).update(j, s[i]).to_multiset() == s.to_multiset(),
{
    broadcast use vstd::seq_lib::group_to_multiset_ensures, vstd::seq_lib::to_multiset_update, vstd::multiset::group_multiset_axioms;

    if i == j {
        assert(s.update(i, s[j]).update(j, s[i]) =~= s);
    } else {
        let s1 = s.update(i, s[j]);
        assert(s1[j] == s[j]);
        assert(s1.update(j, s[i]).to_multiset() =~= s.to_multiset());
    }
}

/// Rearrange `arr` in place, showing each arrangement to `predicate` and
/// stopping at the first one it accepts (the arrangement as given is tried
/// first). The elements are only ever swapped, so what comes out holds
/// exactly the elements that went in, and the returned flag is the
/// predicate's verdict on the arrangement left behind: `true` means the
/// search stopped on an arrangement the predicate accepted, `false` that
/// it ended on one the predicate refused (the search only moves past an
/// arrangement the predicate refused). The odometer steps through at most
/// 119 swaps, one per remaining arrangement; the explicit budget makes
/// that bound, and termination, immediate.
#[verifier::loop_isolation(false)]
pub fn find_permutation<F: Fn(&Vec<usize>) -> bool>(arr: &mut Vec<usize>, predicate: F) -> (found:
    bool)
    requires
        old(arr)@.len() == 5,
        forall|a: &Vec<usize>| #[trigger] call_requires(predicate, (a,)),
    ensures
        final(arr)@.len() == 5,
        final(arr)@.to_multiset() == old(arr)@.to_multiset(),
        found ==> exists|a: &Vec<usize>|
            a@ == final(arr)@ && #[trigger] call_ensures(predicate, (a,), true),
        !found ==> exists|a: &Vec<usize>|
            a@ == final(arr)@ && #[trigger] call_ensures(predicate, (a,), false),
{
    let n = arr.len();
    if predicate(&*arr) {
        return true;
    }
    let mut p: Vec<usize> = Vec::new();
    let mut k: usize = 0;
    while k <= n
        invariant
            k <= n + 1,
            n == 5,
            p@.len() == k,
            forall|t: int| 0 <= t < k ==> p@[t] == t,
        decreases n + 1 - k,
    {
        p.push(k);
        k = k + 1;
    }
    let mut idx: usize = 1;
    let mut fuel: usize = 120;
    while idx < n && fuel > 0
        invariant
            n == 5,
            arr@.len() == 5,
            p@.len() == 6,
            1 <= idx <= n,
            forall|t: int| 0 <= t < 6 ==> #[trigger] p@[t] <= t,
            idx < n ==> p@[idx as int] >= 1,
            p@[5] == 5,
            arr@.to_multiset() == old(arr)@.to_multiset(),
            exists|a: &Vec<usize>| a@ == arr@ && #[trigger] call_ensures(predicate, (a,), false),
        decreases fuel,
    {
        fuel = fuel - 1;
        let pv = p[idx];
        p[idx] = pv - 1;
        let j = if idx % 2 == 1 {
            p[idx]
        } else {
            0
        };
        let vi = arr[idx];
        let vj = arr[j];
        let ghost before = arr@;
        arr[idx] = vj;
        arr[j] = vi;
        proof {
            lemma_swap_preserves_multiset(before, idx as int, j as int);
        }
        if predicate(&*arr) {
            return true;
        }
        idx = 1;
        while p[idx] == 0
            invariant
                n == 5,
                p@.len() == 6,
                1 <= idx <= 5,
                forall|t: int| 0 <= t < 6 ==> #[trigger] p@[t] <= t,
                p@[5] == 5,
            decreases 6 - idx,
        {
            p[idx] = idx;
            idx = idx + 1;
        }
    }
    false
}

} // verus!
