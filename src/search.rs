//! Binary searches over sequences sorted by a key: exact match or
//! predecessor, also where some elements have no key.

use vstd::prelude::*;

verus! {

/// The keys never decrease.
pub open spec fn is_sorted(keys: Seq<u64>) -> bool {
    forall|i: int, j: int| 0 <= i <= j < keys.len() ==> keys[i] <= keys[j]
}

/// `r` is the index of the first key equal to `item`, if there is one, or
/// else of the last key below `item`, or `None` when every key is above
/// `item`.
pub open spec fn is_match_or_lower_bound(keys: Seq<u64>, item: u64, r: Option<usize>) -> bool {
    match r {
        None => forall|j: int| 0 <= j < keys.len() ==> item < keys[j],
        Some(i) => {
            &&& i < keys.len()
            &&& keys[i as int] <= item
            &&& keys[i as int] == item ==> forall|j: int| 0 <= j < i ==> keys[j] < item
            &&& keys[i as int] < item ==> forall|j: int| i < j < keys.len() ==> item < keys[j]
        },
    }
}

/// `f` can be called on every element of `s`, and the keys it may give
/// never decrease along `s`.
pub open spec fn sorted_by_key<T, F: Fn(&T) -> u64>(f: F, s: Seq<T>) -> bool {
    &&& forall|x: &T| #[trigger] f.requires((x,))
    &&& forall|i: int, j: int, a: u64, b: u64|
        0 <= i <= j < s.len() && #[trigger] f.ensures((&s[i],), a) && #[trigger] f.ensures(
            (&s[j],),
            b,
        ) ==> a <= b
}

/// `is_match_or_lower_bound` for the keys that `f` gives the elements of `s`.
pub open spec fn is_match_or_lower_bound_by<T, F: Fn(&T) -> u64>(
    f: F,
    s: Seq<T>,
    item: u64,
    r: Option<usize>,
) -> bool {
    match r {
        None => forall|j: int, k: u64|
            0 <= j < s.len() && #[trigger] f.ensures((&s[j],), k) ==> item < k,
        Some(i) => {
            &&& i < s.len()
            &&& forall|k: u64|
                #[trigger] f.ensures((&s[i as int],), k) ==> {
                    &&& k <= item
                    &&& k == item ==> forall|j: int, kj: u64|
                        0 <= j < i && #[trigger] f.ensures((&s[j],), kj) ==> kj < item
                    &&& k < item ==> forall|j: int, kj: u64|
                        i < j < s.len() && #[trigger] f.ensures((&s[j],), kj) ==> item < kj
                }
        },
    }
}

/// `find_match_or_lower_bound` on the keys that `f` gives the elements of
/// `slice`.
pub fn find_match_or_lower_bound_by<T, F: Fn(&T) -> u64>(slice: &[T], item: u64, f: F) -> (r:
    Option<usize>)
    requires
        sorted_by_key(f, slice@),
    ensures
        is_match_or_lower_bound_by(f, slice@, item, r),
{
    let n = slice.len();
    let mut lo: usize = 0;
    let mut hi: usize = n;
    // Find the first element whose key is not below `item`.
    while lo < hi
        invariant
            lo <= hi <= n == slice@.len(),
            sorted_by_key(f, slice@),
            forall|j: int, k: u64|
                0 <= j < lo && #[trigger] f.ensures((&slice@[j],), k) ==> k < item,
            forall|j: int, k: u64|
                hi <= j < n && #[trigger] f.ensures((&slice@[j],), k) ==> item <= k,
        decreases hi - lo,
    {
        let mid = lo + (hi - lo) / 2;
        let k = f(&slice[mid]);
        if k < item {
            lo = mid + 1;
        } else {
            hi = mid;
        }
    }
    if lo < n {
        let k = f(&slice[lo]);
        if k == item {
            assert(f.ensures((&slice@[lo as int],), k) && k <= item && (k == item ==> forall|
                j: int,
                kj: u64,
            | 0 <= j < lo && #[trigger] f.ensures((&slice@[j],), kj) ==> kj < item));
            return Some(lo);
        }
        assert forall|j: int, kj: u64|
            lo <= j < n && #[trigger] f.ensures((&slice@[j],), kj) implies item < kj by {
            assert(f.ensures((&slice@[lo as int],), k));
        }
        if lo == 0 {
            return None;
        }
        return Some(lo - 1);
    }
    if lo == 0 {
        None
    } else {
        Some(lo - 1)
    }
}

/// The index of the first element of the sorted `slice` that equals
/// `item`, or else of the last element below `item`; `None` when every
/// element is above `item`.
pub fn find_match_or_lower_bound(slice: &[u64], item: u64) -> (r: Option<usize>)
    requires
        is_sorted(slice@),
    ensures
        is_match_or_lower_bound(slice@, item, r),
{
    let n = slice.len();
    let mut lo: usize = 0;
    let mut hi: usize = n;
    // Find the first element that is not below `item`.
    while lo < hi
        invariant
            lo <= hi <= n == slice@.len(),
            is_sorted(slice@),
            forall|j: int| 0 <= j < lo ==> slice@[j] < item,
            forall|j: int| hi <= j < n ==> item <= slice@[j],
        decreases hi - lo,
    {
        let mid = lo + (hi - lo) / 2;
        if slice[mid] < item {
            lo = mid + 1;
        } else {
            hi = mid;
        }
    }
    if lo < n && slice[lo] == item {
        Some(lo)
    } else if lo == 0 {
        None
    } else {
        Some(lo - 1)
    }
}

/// `f` can be called on every element of `s` and gives one answer for
/// each, and the keys of the elements that have one never decrease along
/// `s`.
pub open spec fn sorted_by_opt_key<T, F: Fn(&T) -> Option<u64>>(f: F, s: Seq<T>) -> bool {
    &&& forall|x: &T| #[trigger] f.requires((x,))
    &&& forall|i: int, a: Option<u64>, b: Option<u64>|
        0 <= i < s.len() && #[trigger] f.ensures((&s[i],), a) && #[trigger] f.ensures((&s[i],), b)
            ==> a == b
    &&& forall|i: int, j: int, a: u64, b: u64|
        0 <= i <= j < s.len() && #[trigger] f.ensures((&s[i],), Some(a)) && #[trigger] f.ensures(
            (&s[j],),
            Some(b),
        ) ==> a <= b
}

/// The first element of `data[from..to]` that has a key, with its key, or
/// `to` and `None`.
fn next_keyed<T, F: Fn(&T) -> Option<u64>>(data: &[T], from: usize, to: usize, keyfn: &F) -> (r: (
    usize,
    Option<u64>,
))
    requires
        from <= to <= data@.len(),
        sorted_by_opt_key(*keyfn, data@),
    ensures
        from <= r.0 <= to,
        forall|j: int, k: Option<u64>|
            from <= j < r.0 && #[trigger] keyfn.ensures((&data@[j],), k) ==> k is None,
        r.0 < to ==> r.1 is Some && keyfn.ensures((&data@[r.0 as int],), r.1),
        r.0 == to ==> r.1 is None,
{
    let mut v = from;
    while v < to
        invariant
            from <= v <= to <= data@.len(),
            sorted_by_opt_key(*keyfn, data@),
            forall|j: int, k: Option<u64>|
                from <= j < v && #[trigger] keyfn.ensures((&data@[j],), k) ==> k is None,
        decreases to - v,
    {
        let key = keyfn(&data[v]);
        if key.is_some() {
            return (v, key);
        }
        v += 1;
    }
    (v, None)
}

/// `r` is the index of an element of `s` whose key is at most `address`
/// and is `address` itself or the last key at most `address`; `None` when
/// every key is above `address`. Elements without a key are never chosen.
pub open spec fn is_opt_key_lower_bound<T, F: Fn(&T) -> Option<u64>>(
    f: F,
    s: Seq<T>,
    address: u64,
    r: Option<usize>,
) -> bool {
    match r {
        None => forall|j: int, k: u64|
            0 <= j < s.len() && #[trigger] f.ensures((&s[j],), Some(k)) ==> address < k,
        Some(i) => {
            &&& i < s.len()
            &&& forall|k: Option<u64>|
                #[trigger] f.ensures((&s[i as int],), k) ==> {
                    &&& k is Some
                    &&& k->0 <= address
                    &&& k->0 < address ==> forall|j: int, kj: u64|
                        i < j < s.len() && #[trigger] f.ensures((&s[j],), Some(kj)) ==> address
                            < kj
                }
        },
    }
}

/// Binary search for `address` over `data`, skipping the elements that
/// `keyfn` gives no key.
pub fn search_address_opt_key<T, F: Fn(&T) -> Option<u64>>(
    data: &[T],
    address: u64,
    keyfn: &F,
) -> (r: Option<usize>)
    requires
        sorted_by_opt_key(*keyfn, data@),
    ensures
        is_opt_key_lower_bound(*keyfn, data@, address, r),
{
    let n = data.len();
    let (mut left, first_key) = next_keyed(data, 0, n, keyfn);
    if left == n {
        return None;
    }
    let left_key = first_key.unwrap();
    if address < left_key {
        assert forall|j: int, k: u64|
            0 <= j < n && #[trigger] keyfn.ensures((&data@[j],), Some(k)) implies address < k by {
            if j >= left {
                assert(keyfn.ensures((&data@[left as int],), Some(left_key)));
            }
        }
        return None;
    }
    let mut right = n;
    while left + 1 < right
        invariant
            left < right <= n == data@.len(),
            sorted_by_opt_key(*keyfn, data@),
            forall|k: Option<u64>|
                #[trigger] keyfn.ensures((&data@[left as int],), k) ==> k is Some && k->0
                    <= address,
            forall|j: int, k: u64|
                right <= j < n && #[trigger] keyfn.ensures((&data@[j],), Some(k)) ==> address < k,
        decreases right - left,
    {
        let v_saved = left + (right - left) / 2;
        // Skip entries not having a key.
        let (v, key) = next_keyed(data, v_saved, right, keyfn);
        if v == right {
            // No entry on the right side has a key: shrink to the left side.
            right = v_saved;
        } else {
            let key = key.unwrap();
            if key == address {
                return Some(v);
            }
            if address < key {
                right = v;
            } else {
                left = v;
            }
        }
    }
    Some(left)
}

} // verus!
