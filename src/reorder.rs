//! Running an operation that wants sorted input on an unsorted batch and
//! handing its results back in the batch's own order.

use vstd::prelude::*;

verus! {

/// Relies on `<[T]>::swap`: exchanges the elements at `i` and `j`.
#[verifier::external_body]
fn swap_elements<T>(s: &mut [T], i: usize, j: usize)
    requires
        i < old(s)@.len(),
        j < old(s)@.len(),
    ensures
        final(s)@ == old(s)@.update(i as int, old(s)@[j as int]).update(j as int, old(s)@[i as int]),
{
    s.swap(i, j)
}

/// Relies on `<[T]>::sort_unstable`: the pairs in ascending order, first by
/// their first and then by their second component, as a permutation of the
/// input.
#[verifier::external_body]
fn sort_pairs(v: &mut Vec<(u64, usize)>)
    ensures
        final(v)@.to_multiset() == old(v)@.to_multiset(),
        forall|i: int, j: int| 0 <= i < j < final(v)@.len() ==> pair_le(final(v)@[i], final(v)@[j]),
{
    v.sort_unstable()
}

/// The order of `(u64, usize)` tuples: by the first, then by the second
/// component.
pub open spec fn pair_le(a: (u64, usize), b: (u64, usize)) -> bool {
    a.0 < b.0 || (a.0 == b.0 && a.1 <= b.1)
}

/// `t` maps each of the positions `0..t.len()` to a distinct one of them.
pub open spec fn is_permutation(t: Seq<usize>) -> bool {
    &&& forall|i: int| 0 <= i < t.len() ==> t[i] < t.len()
    &&& forall|i: int, j: int| 0 <= i < j < t.len() ==> t[i] != t[j]
}

/// The number of positions below `k` that `t` does not map to themselves.
spec fn misplaced(t: Seq<usize>, k: int) -> nat
    decreases k,
{
    if k <= 0 {
        0
    } else {
        misplaced(t, k - 1) + if t[k - 1] != k - 1 {
            1nat
        } else {
            0nat
        }
    }
}

proof fn lemma_misplaced_le(s1: Seq<usize>, s2: Seq<usize>, k: int)
    requires
        0 <= k <= s1.len() == s2.len(),
        forall|m: int| 0 <= m < k && s2[m] != m ==> s1[m] != m,
    ensures
        misplaced(s2, k) <= misplaced(s1, k),
    decreases k,
{
    if k > 0 {
        lemma_misplaced_le(s1, s2, k - 1);
    }
}

proof fn lemma_misplaced_lt(s1: Seq<usize>, s2: Seq<usize>, k: int, t: int)
    requires
        0 <= t < k <= s1.len() == s2.len(),
        forall|m: int| 0 <= m < k && s2[m] != m ==> s1[m] != m,
        s1[t] != t,
        s2[t] == t,
    ensures
        misplaced(s2, k) < misplaced(s1, k),
    decreases k,
{
    if k - 1 == t {
        lemma_misplaced_le(s1, s2, k - 1);
    } else {
        lemma_misplaced_lt(s1, s2, k - 1, t);
    }
}

/// Moves the element at each position `i` of `array` to position
/// `indices[i].1`; the second components must be a permutation of the
/// positions. Works in place, following the cycles of the permutation.
pub fn reorder<T, U>(array: &mut [T], indices: Vec<(U, usize)>)
    requires
        old(array)@.len() == indices@.len(),
        is_permutation(indices@.map_values(|p: (U, usize)| p.1)),
    ensures
        final(array)@.len() == old(array)@.len(),
        forall|i: int|
            0 <= i < indices@.len() ==> final(array)@[#[trigger] indices@[i].1 as int] == old(
                array,
            )@[i],
{
    let n = indices.len();
    let ghost a0 = array@;
    let ghost t0 = indices@.map_values(|p: (U, usize)| p.1);
    let mut targets: Vec<usize> = Vec::new();
    let mut k: usize = 0;
    while k < n
        invariant
            k <= n == indices@.len(),
            t0 == indices@.map_values(|p: (U, usize)| p.1),
            targets@ == t0.take(k as int),
        decreases n - k,
    {
        targets.push(indices[k].1);
        k += 1;
        assert(targets@ =~= t0.take(k as int));
    }
    assert(targets@ =~= t0);
    // Position `m` holds the element that started at `g[m]`.
    let ghost mut g: Seq<int> = Seq::new(n as nat, |m: int| m);
    let mut i: usize = 0;
    while i < n
        invariant
            i <= n == targets@.len() == array@.len() == a0.len() == t0.len(),
            is_permutation(t0),
            g.len() == n,
            forall|m: int| 0 <= m < n ==> 0 <= #[trigger] g[m] < n,
            forall|m1: int, m2: int| 0 <= m1 < m2 < n ==> g[m1] != g[m2],
            forall|m: int| 0 <= m < n ==> #[trigger] array@[m] == a0[g[m]],
            forall|m: int| 0 <= m < n ==> #[trigger] targets@[m] == t0[g[m]],
            forall|m: int| 0 <= m < i ==> targets@[m] == m,
        decreases n - i,
    {
        while targets[i] != i
            invariant
                i < n == targets@.len() == array@.len() == a0.len() == t0.len(),
                is_permutation(t0),
                g.len() == n,
                forall|m: int| 0 <= m < n ==> 0 <= #[trigger] g[m] < n,
                forall|m1: int, m2: int| 0 <= m1 < m2 < n ==> g[m1] != g[m2],
                forall|m: int| 0 <= m < n ==> #[trigger] array@[m] == a0[g[m]],
                forall|m: int| 0 <= m < n ==> #[trigger] targets@[m] == t0[g[m]],
                forall|m: int| 0 <= m < i ==> targets@[m] == m,
            decreases misplaced(targets@, n as int),
        {
            let t = targets[i];
            let ghost before = targets@;
            assert(t != i);
            assert(t >= i) by {
                if t < i {
                    assert(targets@[t as int] == t);
                    assert(t0[g[t as int]] == t0[g[i as int]]);
                }
            }
            assert(before[t as int] != t) by {
                assert(t0[g[t as int]] != t0[g[i as int]]);
            }
            swap_elements(array, i, t);
            let tmp = targets[t];
            targets.set(t, t);
            targets.set(i, tmp);
            proof {
                g = g.update(i as int, g[t as int]).update(t as int, g[i as int]);
                assert forall|m: int| 0 <= m < n && targets@[m] != m implies before[m] != m by {}
                lemma_misplaced_lt(before, targets@, n as int, t as int);
            }
        }
        i += 1;
    }
    assert forall|j: int| 0 <= j < n implies array@[#[trigger] indices@[j].1 as int] == a0[j] by {
        let m = t0[j] as int;
        assert(targets@[m] == m);
        assert(t0[g[m]] == t0[j]);
        if g[m] != j {
            if g[m] < j {
                assert(t0[g[m]] != t0[j]);
            } else {
                assert(t0[j] != t0[g[m]]);
            }
        }
    }
}

/// `keys` is `s` sorted, each key taken from the position of `s` that
/// `perm` gives, equal keys in the order of their positions.
pub open spec fn is_stable_sort(s: Seq<u64>, keys: Seq<u64>, perm: Seq<usize>) -> bool {
    &&& perm.len() == s.len() == keys.len()
    &&& is_permutation(perm)
    &&& forall|j: int| 0 <= j < keys.len() ==> keys[j] == s[perm[j] as int]
    &&& forall|j: int, k: int|
        0 <= j < k < keys.len() ==> pair_le((keys[j], perm[j]), (keys[k], perm[k]))
}

/// Sorts the keys of `slice`, hands them to `handle`, and puts the output
/// that `handle` returns, one element per key, back into the order of
/// `slice`: element `i` of the result belongs to `slice[i]`. Equal keys keep
/// their order. An error of `handle` is passed on.
pub fn with_ordered_elems<U, E, H>(slice: &[u64], handle: H) -> (r: Result<Vec<U>, E>) where
    H: FnOnce(Vec<u64>) -> Result<Vec<U>, E>,

    requires
        forall|keys: Vec<u64>| keys@.len() == slice@.len() ==> #[trigger] handle.requires((keys,)),
        forall|keys: Vec<u64>, out: Result<Vec<U>, E>|
            #[trigger] handle.ensures((keys,), out) ==> (out matches Ok(v) ==> v@.len()
                == keys@.len()),
    ensures
        r matches Ok(out) ==> exists|keys: Vec<u64>, out0: Vec<U>, perm: Seq<usize>|
            #![trigger handle.ensures((keys,), Ok::<Vec<U>, E>(out0)), is_stable_sort(slice@, keys@, perm)]
            {
                &&& is_stable_sort(slice@, keys@, perm)
                &&& handle.ensures((keys,), Ok::<Vec<U>, E>(out0))
                &&& out@.len() == slice@.len()
                &&& forall|j: int| 0 <= j < out@.len() ==> out@[perm[j] as int] == out0@[j]
            },
        r matches Err(e) ==> exists|keys: Vec<u64>, perm: Seq<usize>|
            #![trigger handle.ensures((keys,), Err::<Vec<U>, E>(e)), is_stable_sort(slice@, keys@, perm)]
            {
                &&& is_stable_sort(slice@, keys@, perm)
                &&& handle.ensures((keys,), Err::<Vec<U>, E>(e))
            },
{
    let n = slice.len();
    let mut pairs: Vec<(u64, usize)> = Vec::new();
    let mut i: usize = 0;
    while i < n
        invariant
            i <= n == slice@.len(),
            pairs@.len() == i,
            forall|j: int| 0 <= j < i ==> #[trigger] pairs@[j] == (slice@[j], j as usize),
        decreases n - i,
    {
        pairs.push((slice[i], i));
        i += 1;
    }
    let ghost unsorted = pairs@;
    sort_pairs(&mut pairs);
    let ghost sorted = pairs@;
    proof {
        broadcast use vstd::seq_lib::to_multiset_contains, vstd::seq_lib::to_multiset_len;

        assert(sorted.len() == unsorted.to_multiset().len());
        assert(unsorted.no_duplicates());
        unsorted.lemma_multiset_has_no_duplicates();
        sorted.lemma_multiset_has_no_duplicates_conv();
        assert forall|j: int| 0 <= j < n implies #[trigger] sorted[j].1 < n && sorted[j].0
            == slice@[sorted[j].1 as int] by {
            assert(sorted.contains(sorted[j]));
            assert(sorted.to_multiset().count(sorted[j]) > 0);
            assert(unsorted.contains(sorted[j]));
        }
    }
    let ghost perm = sorted.map_values(|p: (u64, usize)| p.1);
    let mut keys: Vec<u64> = Vec::new();
    let mut k: usize = 0;
    while k < n
        invariant
            k <= n == pairs@.len() == slice@.len(),
            pairs@ == sorted,
            keys@.len() == k,
            forall|j: int| 0 <= j < k ==> #[trigger] keys@[j] == sorted[j].0,
        decreases n - k,
    {
        keys.push(pairs[k].0);
        k += 1;
    }
    proof {
        assert forall|a: int, b: int| 0 <= a < b < n implies perm[a] != perm[b] by {
            assert(sorted[a] != sorted[b]);
            assert(sorted[a].1 < n && sorted[a].0 == slice@[sorted[a].1 as int]);
            assert(sorted[b].1 < n && sorted[b].0 == slice@[sorted[b].1 as int]);
        }
        assert(is_stable_sort(slice@, keys@, perm));
    }
    let ghost keys_given = keys;
    let mut out = match handle(keys) {
        Ok(out) => out,
        Err(e) => {
            return Err(e);
        },
    };
    let ghost out0 = out;
    assert(perm =~= pairs@.map_values(|p: (u64, usize)| p.1));
    reorder(out.as_mut_slice(), pairs);
    assert(forall|j: int| 0 <= j < out@.len() ==> out@[perm[j] as int] == out0@[j]);
    Ok(out)
}

} // verus!
