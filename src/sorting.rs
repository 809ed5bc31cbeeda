use vstd::prelude::*;

verus! {

broadcast use vstd::seq_lib::group_to_multiset_ensures;

/// The elements in `[lo, hi)` are in non-decreasing order.
pub open spec fn sorted_between(s: Seq<i32>, lo: int, hi: int) -> bool {
    forall|a: int, b: int| lo <= a < b < hi ==> s[a] <= s[b]
}

/// The whole sequence is in non-decreasing order.
pub open spec fn sorted(s: Seq<i32>) -> bool {
    sorted_between(s, 0, s.len() as int)
}

fn swap(data: &mut Vec<i32>, i: usize, j: usize)
    requires
        i < old(data)@.len(),
        j < old(data)@.len(),
    ensures
        final(data)@ == old(data)@.update(i as int, old(data)@[j as int]).update(
            j as int,
            old(data)@[i as int],
        ),
        final(data)@.to_multiset() == old(data)@.to_multiset(),
{
    let a = data[i];
    let b = data[j];
    proof {
        let s = data@;
        vstd::seq_lib::to_multiset_update(s, i as int, b);
        vstd::seq_lib::to_multiset_update(s.update(i as int, b), j as int, a);
        if i != j {
            assert(s.update(i as int, b)[j as int] == b);
        }
        assert(s.to_multiset().insert(b).remove(a).insert(a).remove(b) =~= s.to_multiset());
    }
    data.set(i, b);
    data.set(j, a);
}

/// Sorts in place by insertion: each element in turn is moved left past the
/// larger ones before it.
pub fn insertion_sort(data: &mut Vec<i32>)
    ensures
        sorted(final(data)@),
        final(data)@.to_multiset() == old(data)@.to_multiset(),
{
    let ghost orig = data@.to_multiset();
    let ghost n = data@.len();
    let mut i: usize = 1;
    while i < data.len()
        invariant
            data@.len() == n,
            1 <= i,
            i <= data@.len() || data@.len() == 0,
            sorted_between(data@, 0, i as int),
            data@.to_multiset() == orig,
        decreases data@.len() - i,
    {
        let mut j: usize = i;
        while j > 0 && data[j - 1] > data[j]
            invariant
                0 <= j <= i < data@.len(),
                data@.len() == n,
                forall|a: int, b: int|
                    0 <= a < b <= i && a != j && b != j ==> data@[a] <= data@[b],
                forall|b: int| j < b <= i ==> data@[j as int] <= data@[b],
                data@.to_multiset() == orig,
            decreases j,
        {
            swap(data, j, j - 1);
            j -= 1;
        }
        i += 1;
    }
}

/// Every element in `[0, k)` is at most every element in `[k, hi)`.
pub open spec fn split_at(s: Seq<i32>, k: int, hi: int) -> bool {
    forall|a: int, b: int| 0 <= a < k <= b < hi ==> s[a] <= s[b]
}

/// Sorts in place by selection: each position in turn receives the smallest
/// of the elements from there on.
pub fn selection_sort(data: &mut Vec<i32>)
    ensures
        sorted(final(data)@),
        final(data)@.to_multiset() == old(data)@.to_multiset(),
{
    let ghost orig = data@.to_multiset();
    let n = data.len();
    if n == 0 {
        return;
    }
    let mut j: usize = 0;
    while j < n - 1
        invariant
            data@.len() == n,
            n > 0,
            j <= n - 1,
            sorted_between(data@, 0, j as int),
            split_at(data@, j as int, n as int),
            data@.to_multiset() == orig,
        decreases n - j,
    {
        let mut i_min: usize = j;
        let mut i: usize = j + 1;
        while i < n
            invariant
                data@.len() == n,
                j <= i_min < i <= n,
                forall|b: int| j <= b < i ==> data@[i_min as int] <= data@[b],
            decreases n - i,
        {
            if data[i] < data[i_min] {
                i_min = i;
            }
            i += 1;
        }
        if i_min != j {
            swap(data, j, i_min);
        }
        j += 1;
    }
}

/// Sorts in place by bubbling: each pass swaps neighbours that are out of
/// order, and the next pass stops where the last swap of this one was made.
pub fn bubble_sort(data: &mut Vec<i32>)
    ensures
        sorted(final(data)@),
        final(data)@.to_multiset() == old(data)@.to_multiset(),
{
    let ghost orig = data@.to_multiset();
    let len = data.len();
    let mut n: usize = len;
    while n > 0
        invariant
            data@.len() == len,
            n <= len,
            sorted_between(data@, n as int, len as int),
            split_at(data@, n as int, len as int),
            data@.to_multiset() == orig,
        decreases n,
    {
        let mut k: usize = 0;
        let mut i: usize = 1;
        while i < n
            invariant
                data@.len() == len,
                1 <= i,
                n <= len,
                k < i,
                i <= n || (n <= 1 && i == 1),
                sorted_between(data@, k as int, i as int),
                forall|a: int, b: int| 0 <= a < k <= b < i ==> data@[a] <= data@[b],
                forall|a: int| 0 <= a < i && a < n ==> #[trigger] data@[a] <= data@[i - 1],
                sorted_between(data@, n as int, len as int),
                split_at(data@, n as int, len as int),
                data@.to_multiset() == orig,
            decreases n - i,
        {
            if data[i - 1] > data[i] {
                swap(data, i - 1, i);
                k = i;
            }
            i += 1;
        }
        proof {
            let d = data@;
            let m = if n <= 1 { 1int } else { n as int };
            assert(k < m);
            assert forall|a: int, b: int| k <= a < b < len implies d[a] <= d[b] by {
                if b >= n && a < n {
                    assert(split_at(d, n as int, len as int));
                }
            }
            assert forall|a: int, b: int| 0 <= a < k <= b < len implies d[a] <= d[b] by {
                if b >= n {
                    assert(split_at(d, n as int, len as int));
                }
            }
        }
        n = k;
    }
}

} // verus!
