//! One-time data fetchers.
//!
//! A `Fetcher` serves one tiny task of a planner: it hands back one
//! contiguous slice of a logical compact array. The planner decomposes a
//! query into such tasks (described by [`FetcherArgs`]) and assembles the
//! output from what the fetchers return.

use vstd::prelude::*;

use crate::array::copy_range;
use crate::mem::FetcherArgs;
use crate::mem::MemError;

verus! {

/// The flattened views of a list of per-day buffers.
pub open spec fn bufs_views<T>(bufs: Seq<Vec<T>>) -> Seq<Seq<T>> {
    bufs.map_values(|v: Vec<T>| v@)
}

/// Concatenation of a sequence of sequences.
pub open spec fn flat_of<T>(bs: Seq<Seq<T>>) -> Seq<T>
    decreases bs.len(),
{
    if bs.len() == 0 {
        Seq::empty()
    } else {
        bs[0] + flat_of(bs.subrange(1, bs.len() as int))
    }
}

/// Total length of the first `d` sequences.
pub open spec fn prefix_len<T>(bs: Seq<Seq<T>>, d: int) -> int
    decreases d,
{
    if d <= 0 {
        0
    } else {
        prefix_len(bs, d - 1) + bs[d - 1].len()
    }
}

/// The length of a concatenation is the total length of its parts.
pub proof fn lemma_flat_of_len<T>(bs: Seq<Seq<T>>)
    ensures
        flat_of(bs).len() == prefix_len(bs, bs.len() as int),
    decreases bs.len(),
{
    if bs.len() > 0 {
        let tail = bs.subrange(1, bs.len() as int);
        lemma_flat_of_len(tail);
        lemma_prefix_len_shift(bs, bs.len() as int);
    }
}

/// Prefix lengths of a sequence of sequences, seen through its first element.
proof fn lemma_prefix_len_shift<T>(bs: Seq<Seq<T>>, d: int)
    requires
        1 <= d <= bs.len(),
    ensures
        prefix_len(bs, d) == bs[0].len() + prefix_len(bs.subrange(1, bs.len() as int), d - 1),
    decreases d,
{
    let tail = bs.subrange(1, bs.len() as int);
    if d == 1 {
        assert(prefix_len(bs, 1) == prefix_len(bs, 0) + bs[0].len());
        assert(prefix_len(tail, 0) == 0);
    } else {
        lemma_prefix_len_shift(bs, d - 1);
        assert(0 <= d - 2 < tail.len());
        assert(tail[d - 2] == bs[1 + (d - 2)]);
        assert(prefix_len(bs, d) == prefix_len(bs, d - 1) + bs[d - 1].len());
        assert(prefix_len(tail, d - 1) == prefix_len(tail, d - 2) + tail[d - 2].len());
    }
}

/// Where part `d` lies inside the concatenation: at offset `prefix_len(bs, d)`.
pub proof fn lemma_flat_of_part<T>(bs: Seq<Seq<T>>, d: int)
    requires
        0 <= d < bs.len(),
    ensures
        0 <= prefix_len(bs, d),
        prefix_len(bs, d) + bs[d].len() <= flat_of(bs).len(),
        forall|i: int|
            0 <= i < bs[d].len() ==> flat_of(bs)[prefix_len(bs, d) + i] == #[trigger] bs[d][i],
    decreases d,
{
    lemma_flat_of_len(bs);
    lemma_prefix_len_mono(bs, d + 1, bs.len() as int);
    lemma_prefix_len_mono(bs, 0, d);
    let tail = bs.subrange(1, bs.len() as int);
    if d == 0 {
        assert(forall|i: int|
            0 <= i < bs[0].len() ==> flat_of(bs)[prefix_len(bs, 0) + i] == #[trigger] bs[0][i]);
    } else {
        lemma_flat_of_part(tail, d - 1);
        lemma_prefix_len_shift(bs, d);
        assert(forall|i: int|
            0 <= i < tail[d - 1].len() ==> flat_of(bs)[bs[0].len() + (prefix_len(tail, d - 1)
                + i)] == #[trigger] flat_of(tail)[prefix_len(tail, d - 1) + i]);
        assert(bs[d] == tail[d - 1]);
    }
}

/// Prefix lengths are never negative.
pub proof fn lemma_prefix_len_nonneg<T>(bs: Seq<Seq<T>>, a: int)
    requires
        0 <= a <= bs.len(),
    ensures
        0 <= prefix_len(bs, a),
    decreases a,
{
    if 0 < a {
        lemma_prefix_len_nonneg(bs, a - 1);
    }
}

/// Prefix lengths grow with the index.
pub proof fn lemma_prefix_len_mono<T>(bs: Seq<Seq<T>>, a: int, b: int)
    requires
        0 <= a <= b <= bs.len(),
    ensures
        prefix_len(bs, a) <= prefix_len(bs, b),
        0 <= prefix_len(bs, a),
    decreases b - a,
{
    lemma_prefix_len_nonneg(bs, a);
    if a < b {
        lemma_prefix_len_mono(bs, a, b - 1);
    }
}

/// A one-time data fetcher over a logical compact array.
///
/// `contents()` is the compact array the fetcher serves; `multiplier()` is how
/// many channel values one logical element holds. A fetch of `args` returns
/// the slice `contents()[m * start_idx .. m * end_idx]`. `args_ok` is what the
/// concrete fetcher needs of a task for that to make sense; `infallible()`
/// marks fetchers that cannot fail.
pub trait Fetcher<T: Copy> {
    spec fn contents(&self) -> Seq<T>;

    spec fn multiplier(&self) -> int;

    spec fn batchable(&self) -> bool;

    spec fn infallible(&self) -> bool;

    spec fn args_ok(&self, args: FetcherArgs) -> bool;

    /// Whether tasks should be accumulated and handed to `batch_fetch`.
    fn can_batch_fetch(&self) -> (r: bool)
        ensures
            r == self.batchable(),
    ;

    /// Fetch one slice. Must be used when `can_batch_fetch` is false.
    fn fetch(&self, args: &FetcherArgs) -> (r: Result<Vec<T>, MemError>)
        requires
            self.args_ok(*args),
            !self.batchable(),
        ensures
            self.infallible() ==> r is Ok,
            r matches Ok(v) ==> v@ == self.contents().subrange(
                self.multiplier() * args.start_idx as int,
                self.multiplier() * args.end_idx as int,
            ),
    ;

    /// Fetch a batch of slices of one day. Must be used when
    /// `can_batch_fetch` is true; every task must name the same day and the
    /// same planner call.
    fn batch_fetch(&self, args: &Vec<FetcherArgs>) -> (r: Result<Vec<Vec<T>>, MemError>)
        requires
            self.batchable(),
            forall|i: int| 0 <= i < args@.len() ==> self.args_ok(#[trigger] args@[i]),
            forall|i: int|
                0 <= i < args@.len() ==> (#[trigger] args@[i]).date_idx == args@[0].date_idx
                    && args@[i].c == args@[0].c,
        ensures
            self.infallible() ==> r is Ok,
            r matches Ok(vs) ==> vs@.len() == args@.len() && forall|i: int|
                0 <= i < args@.len() ==> (#[trigger] vs@[i])@ == self.contents().subrange(
                    self.multiplier() * args@[i].start_idx as int,
                    self.multiplier() * args@[i].end_idx as int,
                ),
    ;
}

/// Fetcher over a single contiguous compact array held in memory.
pub struct SHMFetcher<'a, T> {
    pub data: &'a Vec<T>,
}

impl<'a, T> SHMFetcher<'a, T> {
    pub fn new(data: &'a Vec<T>) -> (r: Self)
        ensures
            r.data@ == data@,
    {
        SHMFetcher { data }
    }
}

impl<'a, T: Copy> Fetcher<T> for SHMFetcher<'a, T> {
    open spec fn contents(&self) -> Seq<T> {
        self.data@
    }

    open spec fn multiplier(&self) -> int {
        1
    }

    open spec fn batchable(&self) -> bool {
        false
    }

    open spec fn infallible(&self) -> bool {
        true
    }

    open spec fn args_ok(&self, args: FetcherArgs) -> bool {
        0 <= args.start_idx <= args.end_idx && args.end_idx <= self.data@.len()
    }

    fn can_batch_fetch(&self) -> (r: bool) {
        false
    }

    fn fetch(&self, args: &FetcherArgs) -> (r: Result<Vec<T>, MemError>) {
        let n = self.data.len();
        let out = copy_range(self.data, args.start_idx as usize, args.end_idx as usize);
        proof {
            assert(1 * args.start_idx as int == args.start_idx as int);
            assert(1 * args.end_idx as int == args.end_idx as int);
        }
        Ok(out)
    }

    fn batch_fetch(&self, args: &Vec<FetcherArgs>) -> (r: Result<Vec<Vec<T>>, MemError>) {
        // unreachable: this fetcher does not batch, so no caller meets the requires
        Err(MemError::new("batch fetching is not supported by this fetcher"))
    }
}

/// Fetcher over per-day buffers, each holding one day's flattened data,
/// optionally widened by a `multiplier` (several channel values per cell).
pub struct SlicedSHMFetcher<'a, T> {
    pub sliced_data: &'a Vec<Vec<T>>,
    pub multiplier: Option<i64>,
}

impl<'a, T> SlicedSHMFetcher<'a, T> {
    pub fn new(sliced_data: &'a Vec<Vec<T>>, multiplier: Option<i64>) -> (r: Self)
        ensures
            r.sliced_data@ == sliced_data@,
            r.multiplier == multiplier,
    {
        SlicedSHMFetcher { sliced_data, multiplier }
    }
}

impl<'a, T: Copy> Fetcher<T> for SlicedSHMFetcher<'a, T> {
    open spec fn contents(&self) -> Seq<T> {
        flat_of(bufs_views(self.sliced_data@))
    }

    open spec fn multiplier(&self) -> int {
        match self.multiplier {
            Option::None => 1,
            Option::Some(m) => m as int,
        }
    }

    open spec fn batchable(&self) -> bool {
        false
    }

    open spec fn infallible(&self) -> bool {
        true
    }

    open spec fn args_ok(&self, args: FetcherArgs) -> bool {
        let m = self.multiplier();
        let bs = bufs_views(self.sliced_data@);
        &&& 1 <= m
        &&& 0 <= args.date_idx < bs.len()
        &&& 0 <= args.time_start_idx <= args.time_end_idx
        &&& 1 <= args.time_end_idx
        &&& m * args.time_end_idx <= bs[args.date_idx as int].len()
        &&& m * args.start_idx == prefix_len(bs, args.date_idx as int) + m
            * args.time_start_idx
        &&& args.end_idx - args.start_idx == args.time_end_idx - args.time_start_idx
    }

    fn can_batch_fetch(&self) -> (r: bool) {
        false
    }

    fn fetch(&self, args: &FetcherArgs) -> (r: Result<Vec<T>, MemError>) {
        let ghost bs = bufs_views(self.sliced_data@);
        let ghost m_int = self.multiplier();
        let n_days = self.sliced_data.len();
        let d = args.date_idx as usize;
        let buf = &self.sliced_data[d];
        let buf_len = buf.len();
        proof {
            assert(bs[d as int] == buf@);
            assert(m_int * args.time_end_idx <= buf_len);
            assert(args.time_start_idx <= m_int * args.time_end_idx && args.time_end_idx <= m_int
                * args.time_end_idx && m_int * args.time_start_idx <= m_int * args.time_end_idx
                && 0 <= m_int * args.time_start_idx && m_int <= m_int * args.time_end_idx
                && args.time_start_idx as int * m_int == m_int * args.time_start_idx
                && args.time_end_idx as int * m_int == m_int * args.time_end_idx)
                by (nonlinear_arith)
                requires
                    1 <= m_int,
                    0 <= args.time_start_idx <= args.time_end_idx,
                    1 <= args.time_end_idx,
            ;
        }
        let m: usize = match self.multiplier {
            None => 1,
            Some(mm) => mm as usize,
        };
        let a = (args.time_start_idx as usize) * m;
        let b = (args.time_end_idx as usize) * m;
        let out = copy_range(buf, a, b);
        proof {
            lemma_flat_of_part(bs, d as int);
            let pre = prefix_len(bs, d as int);
            assert(m_int * args.end_idx as int == pre + m_int * args.time_end_idx)
                by (nonlinear_arith)
                requires
                    m_int * args.start_idx as int == pre + m_int * args.time_start_idx,
                    args.end_idx - args.start_idx == args.time_end_idx - args.time_start_idx,
            ;
            assert forall|i: int|
                0 <= i < out@.len() implies out@[i] == self.contents().subrange(
                m_int * args.start_idx as int,
                m_int * args.end_idx as int,
            )[i] by {
                assert(out@[i] == bs[d as int][a + i]);
                assert(flat_of(bs)[pre + (a + i)] == bs[d as int][a + i]);
            }
            assert(out@ =~= self.contents().subrange(
                m_int * args.start_idx as int,
                m_int * args.end_idx as int,
            ));
        }
        Ok(out)
    }

    fn batch_fetch(&self, args: &Vec<FetcherArgs>) -> (r: Result<Vec<Vec<T>>, MemError>) {
        // unreachable: this fetcher does not batch, so no caller meets the requires
        Err(MemError::new("batch fetching is not supported by this fetcher"))
    }
}

} // verus!
