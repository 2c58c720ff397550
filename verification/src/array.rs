//! Array helpers: sorted-order searching and concatenation.

use vstd::assert_seqs_equal;
use vstd::prelude::*;

verus! {

/// Errors raised by the array helpers.
#[derive(Debug, Clone, PartialEq, Eq)]
pub enum ArrayError {
    Custom { msg: String },
    DataNotContiguous,
}

impl ArrayError {
    /// A free-form array error.
    pub fn new(msg: &str) -> (r: ArrayError)
        ensures
            r matches ArrayError::Custom { msg: m } && m@ == msg@,
    {
        ArrayError::Custom { msg: msg.to_string() }
    }

    /// The error reported when a data view cannot be presented contiguously.
    pub fn data_not_contiguous<T>() -> (r: Result<T, ArrayError>)
        ensures
            r == Result::<T, ArrayError>::Err(ArrayError::DataNotContiguous),
    {
        Err(ArrayError::DataNotContiguous)
    }
}

/// The sequence is in non-decreasing order.
pub open spec fn seq_sorted(s: Seq<i64>) -> bool {
    forall|i: int, j: int| 0 <= i < j < s.len() ==> s[i] <= s[j]
}

/// The sequence is in strictly increasing order.
pub open spec fn seq_strictly_sorted(s: Seq<i64>) -> bool {
    forall|i: int, j: int| 0 <= i < j < s.len() ==> s[i] < s[j]
}

/// Leftmost insertion point of `v` in `s`: the length of the longest prefix
/// whose elements are all below `v`.
pub open spec fn lower_bound(s: Seq<i64>, v: i64) -> int
    decreases s.len(),
{
    if s.len() == 0 {
        0
    } else if s[0] < v {
        1 + lower_bound(s.subrange(1, s.len() as int), v)
    } else {
        0
    }
}

/// On a sorted sequence, `lower_bound` splits the sequence: everything before
/// it is below `v`, everything from it on is at least `v`.
pub proof fn lemma_lower_bound_props(s: Seq<i64>, v: i64)
    requires
        seq_sorted(s),
    ensures
        0 <= lower_bound(s, v) <= s.len(),
        forall|j: int| 0 <= j < lower_bound(s, v) ==> s[j] < v,
        lower_bound(s, v) < s.len() ==> s[lower_bound(s, v)] >= v,
    decreases s.len(),
{
    if s.len() > 0 {
        let tail = s.subrange(1, s.len() as int);
        assert(seq_sorted(tail)) by {
            assert(forall|i: int, j: int|
                0 <= i < j < tail.len() ==> tail[i] == s[i + 1] && tail[j] == s[j + 1]);
        }
        lemma_lower_bound_props(tail, v);
        if s[0] < v {
            assert(forall|j: int| 1 <= j < lower_bound(s, v) ==> s[j] == tail[j - 1]);
        }
    }
}

/// Any index with the splitting property of `lemma_lower_bound_props` is the
/// lower bound: on sorted input the insertion point is unique.
pub proof fn lemma_lower_bound_unique(s: Seq<i64>, v: i64, r: int)
    requires
        seq_sorted(s),
        0 <= r <= s.len(),
        forall|j: int| 0 <= j < r ==> s[j] < v,
        r < s.len() ==> s[r] >= v,
    ensures
        r == lower_bound(s, v),
{
    lemma_lower_bound_props(s, v);
    let lb = lower_bound(s, v);
    if r < lb {
        assert(s[r] < v);
    } else if lb < r {
        assert(s[lb] < v);
    }
}

/// Leftmost insertion point of `value` in the sorted range `arr[from..to]`.
pub fn searchsorted_range(arr: &Vec<i64>, from: usize, to: usize, value: i64) -> (r: usize)
    requires
        from <= to <= arr@.len(),
        seq_sorted(arr@.subrange(from as int, to as int)),
    ensures
        r == lower_bound(arr@.subrange(from as int, to as int), value),
        from + r <= to,
{
    let ghost s = arr@.subrange(from as int, to as int);
    let mut lo: usize = from;
    let mut hi: usize = to;
    while lo < hi
        invariant
            from <= lo <= hi <= to <= arr@.len(),
            s == arr@.subrange(from as int, to as int),
            seq_sorted(s),
            forall|j: int| 0 <= j < lo - from ==> s[j] < value,
            forall|j: int| hi - from <= j < s.len() ==> s[j] >= value,
        decreases hi - lo,
    {
        let mid = lo + (hi - lo) / 2;
        assert(arr@[mid as int] == s[mid - from]);
        if arr[mid] < value {
            assert(forall|j: int| 0 <= j <= mid - from ==> #[trigger] s[j] <= s[mid - from]);
            lo = mid + 1;
        } else {
            assert(forall|j: int|
                mid - from <= j < s.len() ==> #[trigger] s[j] >= s[mid - from]);
            hi = mid;
        }
    }
    proof {
        lemma_lower_bound_unique(s, value, lo - from);
    }
    lo - from
}

/// Leftmost insertion point of `value` in the sorted array `arr`.
pub fn searchsorted(arr: &Vec<i64>, value: i64) -> (r: usize)
    requires
        seq_sorted(arr@),
    ensures
        r == lower_bound(arr@, value),
        r <= arr@.len(),
{
    let r = searchsorted_range(arr, 0, arr.len(), value);
    proof {
        assert(arr@.subrange(0, arr@.len() as int) == arr@);
    }
    r
}

/// The insertion point of every entry of `values` in the sorted array `arr`.
pub fn batch_searchsorted(arr: &Vec<i64>, values: &Vec<i64>) -> (r: Vec<usize>)
    requires
        seq_sorted(arr@),
    ensures
        r@.len() == values@.len(),
        forall|i: int| 0 <= i < values@.len() ==> r@[i] == lower_bound(arr@, values@[i]),
{
    let mut out: Vec<usize> = Vec::new();
    let mut i: usize = 0;
    while i < values.len()
        invariant
            i <= values@.len(),
            out@.len() == i,
            seq_sorted(arr@),
            forall|k: int| 0 <= k < i ==> out@[k] == lower_bound(arr@, values@[k]),
        decreases values@.len() - i,
    {
        out.push(searchsorted(arr, values[i]));
        i = i + 1;
    }
    out
}

/// Whether `arr[from..to]` equals `other` element for element.
pub fn range_eq(arr: &Vec<i64>, from: usize, to: usize, other: &Vec<i64>) -> (r: bool)
    requires
        from <= to <= arr@.len(),
    ensures
        r == (arr@.subrange(from as int, to as int) == other@),
{
    if to - from != other.len() {
        proof {
            assert(arr@.subrange(from as int, to as int).len() != other@.len());
        }
        return false;
    }
    let mut i: usize = 0;
    while i < other.len()
        invariant
            from <= to <= arr@.len(),
            other@.len() == to - from,
            i <= other@.len(),
            forall|k: int| 0 <= k < i ==> arr@[from + k] == other@[k],
        decreases other@.len() - i,
    {
        if arr[from + i] != other[i] {
            proof {
                assert(arr@.subrange(from as int, to as int)[i as int] != other@[i as int]);
            }
            return false;
        }
        i = i + 1;
    }
    proof {
        assert_seqs_equal!(arr@.subrange(from as int, to as int), other@);
    }
    true
}

/// A fresh vector holding `src[from..to]`.
pub fn copy_range<T: Copy>(src: &Vec<T>, from: usize, to: usize) -> (r: Vec<T>)
    requires
        from <= to <= src@.len(),
    ensures
        r@ == src@.subrange(from as int, to as int),
{
    let mut out: Vec<T> = Vec::new();
    let mut i: usize = from;
    while i < to
        invariant
            from <= i <= to <= src@.len(),
            out@ =~= src@.subrange(from as int, i as int),
        decreases to - i,
    {
        out.push(src[i]);
        proof {
            assert(out@ =~= src@.subrange(from as int, i + 1 as int));
        }
        i = i + 1;
    }
    proof {
        assert(out@ =~= src@.subrange(from as int, to as int));
    }
    out
}

/// A vector of `n` copies of `x`.
pub fn filled<T: Copy>(n: usize, x: T) -> (r: Vec<T>)
    ensures
        r@ == Seq::new(n as nat, |i: int| x),
{
    let mut out: Vec<T> = Vec::new();
    let mut i: usize = 0;
    while i < n
        invariant
            i <= n,
            out@ =~= Seq::new(i as nat, |k: int| x),
        decreases n - i,
    {
        out.push(x);
        i = i + 1;
    }
    out
}

} // verus!

verus! {

/// Concatenate row-major matrices along the row axis into `out`.
///
/// `arrays[i]` holds `num_rows[i] * num_columns` cells; part `i` lands at
/// the running offset `prefix_len` of the parts before it. The grouping
/// hint `limit_multiplier` balances how callers split the copying into
/// chunks; it does not change the result.
pub fn fast_concat_2d_axis0<D: Copy>(
    arrays: &Vec<Vec<D>>,
    num_rows: &Vec<usize>,
    num_columns: usize,
    limit_multiplier: usize,
    out: &mut Vec<D>,
) -> (r: ())
    requires
        arrays@.len() == num_rows@.len(),
        forall|i: int|
            0 <= i < arrays@.len() ==> (#[trigger] arrays@[i])@.len() == num_rows@[i]
                * num_columns,
        old(out)@.len() == crate::fetchers::prefix_len(
            crate::fetchers::bufs_views(arrays@),
            arrays@.len() as int,
        ),
    ensures
        final(out)@.len() == old(out)@.len(),
        forall|i: int, p: int|
            0 <= i < arrays@.len() && 0 <= p < arrays@[i]@.len() ==> #[trigger] final(out)@[
            crate::fetchers::prefix_len(crate::fetchers::bufs_views(arrays@), i) + p] == arrays@[
            i]@[p],
{
    let ghost bs = crate::fetchers::bufs_views(arrays@);
    let n = arrays.len();
    let out_len = out.len();
    let mut offset: usize = 0;
    let mut i: usize = 0;
    while i < n
        invariant
            bs == crate::fetchers::bufs_views(arrays@),
            n == arrays@.len(),
            arrays@.len() == num_rows@.len(),
            forall|k: int|
                0 <= k < arrays@.len() ==> (#[trigger] arrays@[k])@.len() == num_rows@[k]
                    * num_columns,
            out@.len() == out_len,
            out@.len() == old(out)@.len(),
            out@.len() == crate::fetchers::prefix_len(bs, n as int),
            i <= n,
            offset == crate::fetchers::prefix_len(bs, i as int),
            forall|k: int, p: int|
                0 <= k < i && 0 <= p < arrays@[k]@.len() ==> #[trigger] out@[
                crate::fetchers::prefix_len(bs, k) + p] == arrays@[k]@[p],
        decreases n - i,
    {
        let part = &arrays[i];
        let plen = part.len();
        proof {
            crate::fetchers::lemma_prefix_len_mono(bs, i + 1, n as int);
            assert(crate::fetchers::prefix_len(bs, i + 1) == crate::fetchers::prefix_len(
                bs,
                i as int,
            ) + bs[i as int].len());
        }
        let ghost pre = out@;
        crate::column::write_region(out, offset, part);
        proof {
            assert forall|k: int, p: int|
                0 <= k < i + 1 && 0 <= p < arrays@[k]@.len() implies #[trigger] out@[
            crate::fetchers::prefix_len(bs, k) + p] == arrays@[k]@[p] by {
                crate::fetchers::lemma_prefix_len_mono(bs, k, i as int);
                if k < i {
                    crate::fetchers::lemma_prefix_len_mono(bs, k + 1, i as int);
                    assert(crate::fetchers::prefix_len(bs, k + 1) == crate::fetchers::prefix_len(
                        bs,
                        k,
                    ) + bs[k].len());
                    assert(crate::fetchers::prefix_len(bs, k) + p < offset);
                    assert(out@[crate::fetchers::prefix_len(bs, k) + p] == pre[
                    crate::fetchers::prefix_len(bs, k) + p]);
                }
            }
        }
        offset = offset + plen;
        i = i + 1;
    }
}

/// Row-wise mean with NaN skipping, the arithmetic supplied by the
/// caller: cells where `is_nan` holds are left out; a row with no valid
/// cell yields `nan`, any other row yields its valid cells folded with
/// `plus` from `zero` and divided by their count with `div_count`. The
/// worker-count hint does not change the result.
pub fn mean_axis1<T: Copy, FNan: Fn(T) -> bool, FPlus: Fn(T, T) -> T, FDiv: Fn(T, usize) -> T>(
    a: &Vec<Vec<T>>,
    num_threads: usize,
    is_nan: FNan,
    plus: FPlus,
    div_count: FDiv,
    zero: T,
    nan: T,
) -> (r: Vec<T>)
    requires
        forall|x: T| #[trigger] is_nan.requires((x,)),
        forall|x: T, y: T| #[trigger] plus.requires((x, y)),
        forall|x: T, c: usize| #[trigger] div_count.requires((x, c)),
    ensures
        r@.len() == a@.len(),
{
    let n = a.len();
    let mut out: Vec<T> = Vec::new();
    let mut i: usize = 0;
    while i < n
        invariant
            n == a@.len(),
            i <= n,
            out@.len() == i,
            forall|x: T| #[trigger] is_nan.requires((x,)),
            forall|x: T, y: T| #[trigger] plus.requires((x, y)),
            forall|x: T, c: usize| #[trigger] div_count.requires((x, c)),
        decreases n - i,
    {
        let row = &a[i];
        let m = row.len();
        let mut sum = zero;
        let mut cnt: usize = 0;
        let mut j: usize = 0;
        while j < m
            invariant
                m == row@.len(),
                j <= m,
                cnt <= j,
                forall|x: T| #[trigger] is_nan.requires((x,)),
                forall|x: T, y: T| #[trigger] plus.requires((x, y)),
            decreases m - j,
        {
            let x = row[j];
            if !is_nan(x) {
                sum = plus(sum, x);
                cnt = cnt + 1;
            }
            j = j + 1;
        }
        if cnt == 0 {
            out.push(nan);
        } else {
            out.push(div_count(sum, cnt));
        }
        i = i + 1;
    }
    out
}

} // verus!
