//! Column-contiguous fetch planning.
//!
//! A column-contiguous store keeps each day's block symbol-major: day `d`
//! holds, for each of its columns, `tpd` consecutive cells (each cell being
//! `m` channel values when a multiplier is in play). The planner walks the
//! queried days, locates each requested symbol in the day's columns, and
//! either records a fetch task for the symbol's tick window or fills the
//! window with NaN when the day does not list the symbol.

use vstd::prelude::*;

use crate::array::copy_range;
use crate::array::filled;
use crate::array::lower_bound;
use crate::array::range_eq;
use crate::array::searchsorted_range;
use crate::array::seq_sorted;
use crate::mem::lemma_day_tick;
use crate::mem::lemma_day_window;
use crate::mem::lemma_div_bounds;
use crate::mem::lemma_div_mod_unique;
use crate::mem::lemma_mul_mono;
use crate::mem::lemma_off_lower;
use crate::mem::lemma_off_mono;
use crate::mem::lemma_query_days;
use crate::mem::mk_meta;
use crate::mem::mk_query;
use crate::mem::FetcherArgs;
use crate::mem::MemError;
use crate::mem::MemMeta;
use crate::mem::MemQuery;
use crate::fetchers::Fetcher;
use crate::fetchers::SHMFetcher;
use crate::fetchers::SlicedSHMFetcher;
use crate::mem::Offsets;

verus! {

/// Where a planner call writes inside the shared output buffer.
///
/// The call owns columns `co .. co + ncols` of an output whose rows are
/// `len` time positions long; each (column, time) slot is `tm` channels
/// wide, of which this call writes the `m` channels starting at pad `ps`.
pub ghost struct CcLayout {
    pub out_offset: int,
    pub co: int,
    pub ps: int,
    pub pe: int,
    pub m: int,
    pub len: int,
    pub ncols: int,
}

impl CcLayout {
    /// Total channel width of one (column, time) slot.
    pub open spec fn tm(self) -> int {
        self.m + self.ps + self.pe
    }

    pub open spec fn wf(self) -> bool {
        &&& 1 <= self.m
        &&& 0 <= self.ps
        &&& 0 <= self.pe
        &&& 0 <= self.co
        &&& 0 <= self.out_offset
        &&& 1 <= self.len
        &&& 0 <= self.ncols
    }

    /// Flat output position of requested column `j`, time `t`, channel `k`.
    pub open spec fn out_index(self, j: int, t: int, k: int) -> int {
        self.out_offset + ((j + self.co) * self.len + t) * self.tm() + self.ps + k
    }

    /// One past the highest output position the call can touch.
    pub open spec fn hi(self) -> int {
        self.out_offset + (self.co + self.ncols) * self.len * self.tm()
    }

    /// Requested column that owns flat position `i`.
    pub open spec fn j_of(self, i: int) -> int {
        ((i - self.out_offset) / self.tm()) / self.len - self.co
    }

    /// Time position that owns flat position `i`.
    pub open spec fn t_of(self, i: int) -> int {
        ((i - self.out_offset) / self.tm()) % self.len
    }

    /// Channel that owns flat position `i`.
    pub open spec fn k_of(self, i: int) -> int {
        (i - self.out_offset) % self.tm() - self.ps
    }

    /// Whether this planner call writes flat position `i`.
    pub open spec fn owns(self, i: int) -> bool {
        let rel = i - self.out_offset;
        &&& 0 <= rel
        &&& self.co * self.len <= rel / self.tm() < (self.co + self.ncols) * self.len
        &&& self.ps <= rel % self.tm() < self.ps + self.m
    }
}

/// The output position of a (column, time, channel) triple is owned by the
/// layout, lies under `hi()`, and maps back to the triple.
pub proof fn lemma_out_index(lay: CcLayout, j: int, t: int, k: int)
    requires
        lay.wf(),
        0 <= j < lay.ncols,
        0 <= t < lay.len,
        0 <= k < lay.m,
    ensures
        lay.owns(lay.out_index(j, t, k)),
        lay.out_offset <= lay.out_index(j, t, k) < lay.hi(),
        lay.j_of(lay.out_index(j, t, k)) == j,
        lay.t_of(lay.out_index(j, t, k)) == t,
        lay.k_of(lay.out_index(j, t, k)) == k,
{
    let tm = lay.tm();
    let slot = (j + lay.co) * lay.len + t;
    let rel = slot * tm + lay.ps + k;
    lemma_div_mod_unique(rel, tm, slot, lay.ps + k);
    lemma_div_mod_unique(slot, lay.len, j + lay.co, t);
    assert(lay.co * lay.len <= slot && slot < (lay.co + lay.ncols) * lay.len && 0 <= rel && rel
        < (lay.co + lay.ncols) * lay.len * tm && (slot + 1) * tm <= (lay.co + lay.ncols) * lay.len
        * tm) by (nonlinear_arith)
        requires
            slot == (j + lay.co) * lay.len + t,
            rel == slot * tm + lay.ps + k,
            0 <= j < lay.ncols,
            0 <= t < lay.len,
            0 <= k < lay.m,
            0 <= lay.co,
            1 <= lay.len,
            tm == lay.m + lay.ps + lay.pe,
            1 <= lay.m,
            0 <= lay.ps,
            0 <= lay.pe,
    ;
}

/// An owned flat position comes from exactly the triple that `j_of`, `t_of`
/// and `k_of` name.
pub proof fn lemma_owns_inverse(lay: CcLayout, i: int)
    requires
        lay.wf(),
        lay.owns(i),
    ensures
        0 <= lay.j_of(i) < lay.ncols,
        0 <= lay.t_of(i) < lay.len,
        0 <= lay.k_of(i) < lay.m,
        lay.out_index(lay.j_of(i), lay.t_of(i), lay.k_of(i)) == i,
{
    let tm = lay.tm();
    let rel = i - lay.out_offset;
    let slot = rel / tm;
    lemma_div_bounds(rel, tm);
    lemma_div_bounds(slot, lay.len);
    assert(0 <= lay.j_of(i) < lay.ncols) by (nonlinear_arith)
        requires
            lay.co * lay.len <= slot < (lay.co + lay.ncols) * lay.len,
            slot == (slot / lay.len) * lay.len + slot % lay.len,
            0 <= slot % lay.len < lay.len,
            1 <= lay.len,
            0 <= lay.co,
            lay.j_of(i) == slot / lay.len - lay.co,
    ;
    assert(lay.out_index(lay.j_of(i), lay.t_of(i), lay.k_of(i)) == i) by (nonlinear_arith)
        requires
            rel == i - lay.out_offset,
            slot == rel / tm,
            rel == slot * tm + rel % tm,
            slot == (slot / lay.len) * lay.len + slot % lay.len,
            lay.j_of(i) == slot / lay.len - lay.co,
            lay.t_of(i) == slot % lay.len,
            lay.k_of(i) == rel % tm - lay.ps,
            lay.out_index(lay.j_of(i), lay.t_of(i), lay.k_of(i)) == lay.out_offset + ((lay.j_of(i)
                + lay.co) * lay.len + lay.t_of(i)) * tm + lay.ps + lay.k_of(i),
    ;
}

/// Which flat positions one `fill_data` call writes: `time_len` stripes of
/// `m` cells, `tm` apart, starting `ps` past `f_start`.
pub open spec fn fill_writes(f_start: int, time_len: int, m: int, tm: int, ps: int, i: int) -> bool {
    let rel = i - f_start;
    &&& 0 <= rel
    &&& rel / tm < time_len
    &&& ps <= rel % tm < ps + m
}

/// Write one fetched (or NaN) slice into the output.
///
/// `data` holds `time_len` groups of `m` channel values; group `t` lands at
/// `f_start + t * tm + ps`. With `tm == m` and `ps == 0` this is one
/// contiguous copy; otherwise the groups interleave with other channel
/// groups' cells, which stay untouched.
pub fn fill_data<T: Copy>(
    flattened: &mut Vec<T>,
    f_start: usize,
    data: &Vec<T>,
    time_len: usize,
    m: usize,
    tm: usize,
    ps: usize,
) -> (r: ())
    requires
        1 <= m,
        ps + m <= tm,
        data@.len() == time_len * m,
        f_start + time_len * tm <= old(flattened)@.len(),
    ensures
        final(flattened)@.len() == old(flattened)@.len(),
        forall|t: int, k: int|
            0 <= t < time_len && 0 <= k < m ==> final(flattened)@[f_start + t * tm + ps + k]
                == #[trigger] data@[t * m + k],
        forall|i: int|
            0 <= i < old(flattened)@.len() && !fill_writes(
                f_start as int,
                time_len as int,
                m as int,
                tm as int,
                ps as int,
                i,
            ) ==> final(flattened)@[i] == old(flattened)@[i],
{
    let flat_len = flattened.len();
    let data_len = data.len();
    let mut t: usize = 0;
    while t < time_len
        invariant
            1 <= m,
            ps + m <= tm,
            data@.len() == time_len * m,
            data@.len() == data_len,
            f_start + time_len * tm <= flattened@.len(),
            flattened@.len() == flat_len,
            flattened@.len() == old(flattened)@.len(),
            t <= time_len,
            forall|t0: int, k0: int|
                0 <= t0 < t && 0 <= k0 < m ==> flattened@[f_start + t0 * tm + ps + k0]
                    == #[trigger] data@[t0 * m + k0],
            forall|i: int|
                0 <= i < old(flattened)@.len() && !fill_writes(
                    f_start as int,
                    time_len as int,
                    m as int,
                    tm as int,
                    ps as int,
                    i,
                ) ==> flattened@[i] == old(flattened)@[i],
        decreases time_len - t,
    {
        proof {
            assert(t * tm + tm <= time_len * tm && 0 <= t * tm && t * m + m <= time_len * m && 0
                <= t * m) by (nonlinear_arith)
                requires
                    0 <= t < time_len,
                    1 <= tm,
                    1 <= m,
            ;
        }
        let mut k: usize = 0;
        while k < m
            invariant
                1 <= m,
                ps + m <= tm,
                data@.len() == time_len * m,
                data@.len() == data_len,
                f_start + time_len * tm <= flattened@.len(),
                flattened@.len() == flat_len,
                flattened@.len() == old(flattened)@.len(),
                t < time_len,
                k <= m,
                t * tm + tm <= time_len * tm,
                t * m + m <= time_len * m,
                0 <= t * tm,
                0 <= t * m,
                forall|t0: int, k0: int|
                    0 <= t0 < t && 0 <= k0 < m ==> flattened@[f_start + t0 * tm + ps + k0]
                        == #[trigger] data@[t0 * m + k0],
                forall|k0: int|
                    0 <= k0 < k ==> flattened@[f_start + t * tm + ps + k0] == #[trigger] data@[t * m
                        + k0],
                forall|i: int|
                    0 <= i < old(flattened)@.len() && !fill_writes(
                        f_start as int,
                        time_len as int,
                        m as int,
                        tm as int,
                        ps as int,
                        i,
                    ) ==> flattened@[i] == old(flattened)@[i],
            decreases m - k,
        {
            let idx = f_start + t * tm + ps + k;
            let v = data[t * m + k];
            flattened[idx] = v;
            proof {
                let relw = (t * tm + ps + k) as int;
                lemma_div_mod_unique(relw, tm as int, t as int, (ps + k) as int);
                assert forall|t0: int, k0: int|
                    (0 <= t0 < t && 0 <= k0 < m) || (t0 == t && 0 <= k0
                        < k) implies flattened@[f_start + t0 * tm + ps + k0] == #[trigger] data@[t0
                    * m + k0] by {
                    lemma_div_mod_unique(t0 * tm + ps + k0, tm as int, t0, ps + k0);
                    assert(t0 * tm + ps + k0 != relw);
                    assert(t0 * tm + tm <= time_len * tm && t0 * m + m <= time_len * m && 0 <= t0
                        * tm && 0 <= t0 * m) by (nonlinear_arith)
                        requires
                            0 <= t0 < time_len,
                            1 <= tm,
                            1 <= m,
                    ;
                }
                assert forall|i: int|
                    0 <= i < old(flattened)@.len() && !fill_writes(
                        f_start as int,
                        time_len as int,
                        m as int,
                        tm as int,
                        ps as int,
                        i,
                    ) implies flattened@[i] == old(flattened)@[i] by {
                    assert(fill_writes(
                        f_start as int,
                        time_len as int,
                        m as int,
                        tm as int,
                        ps as int,
                        idx as int,
                    ));
                }
            }
            k = k + 1;
        }
        t = t + 1;
    }
}

/// A memoising column-position getter.
///
/// `get(i, ...)` returns, for each of the query's columns, its insertion
/// point in the day columns handed in; the result is cached under the day
/// position `i` together with the day columns it was computed from, so a
/// repeated call with the same day columns pays no second search.
pub struct CachedGetter {
    columns: Vec<i64>,
    cache: Vec<CacheEntry>,
}

struct CacheEntry {
    valid: bool,
    day_cols: Vec<i64>,
    positions: Vec<usize>,
}

impl CachedGetter {
    /// The query columns the getter searches for.
    pub closed spec fn cols(self) -> Seq<i64> {
        self.columns@
    }

    /// Every valid cache entry holds the insertion points of the query
    /// columns in the day columns it was computed from.
    pub closed spec fn wf(self) -> bool {
        forall|i: int|
            0 <= i < self.cache@.len() ==> ((#[trigger] self.cache@[i]).valid
                ==> self.cache@[i].positions@.len() == self.columns@.len() && (forall|j: int|
                0 <= j < self.columns@.len() ==> self.cache@[i].positions@[j] == lower_bound(
                    self.cache@[i].day_cols@,
                    self.columns@[j],
                )))
    }

    /// A getter for one query's columns, with an empty cache.
    pub fn new(columns: &Vec<i64>) -> (r: CachedGetter)
        ensures
            r.wf(),
            r.cols() == columns@,
    {
        let own = copy_range(columns, 0, columns.len());
        proof {
            assert(own@ =~= columns@);
        }
        CachedGetter { columns: own, cache: Vec::new() }
    }

    /// Insertion points of the query columns in `arr[from..to]`, cached under
    /// day position `i`.
    pub fn get(&mut self, i: usize, arr: &Vec<i64>, from: usize, to: usize) -> (r: Vec<usize>)
        requires
            old(self).wf(),
            from <= to <= arr@.len(),
            seq_sorted(arr@.subrange(from as int, to as int)),
        ensures
            final(self).wf(),
            final(self).cols() == old(self).cols(),
            r@.len() == old(self).cols().len(),
            forall|j: int|
                0 <= j < r@.len() ==> r@[j] == lower_bound(
                    arr@.subrange(from as int, to as int),
                    old(self).cols()[j],
                ),
    {
        if i < self.cache.len() {
            let hitp: bool = {
                let e = &self.cache[i];
                e.valid && range_eq(arr, from, to, &e.day_cols)
            };
            if hitp {
                let e = &self.cache[i];
                let r = copy_range(&e.positions, 0, e.positions.len());
                proof {
                    assert(r@ =~= e.positions@);
                }
                return r;
            }
        }
        let ghost day = arr@.subrange(from as int, to as int);
        let ncols = self.columns.len();
        let mut positions: Vec<usize> = Vec::new();
        let mut j: usize = 0;
        while j < ncols
            invariant
                from <= to <= arr@.len(),
                seq_sorted(arr@.subrange(from as int, to as int)),
                day == arr@.subrange(from as int, to as int),
                ncols == self.columns@.len(),
                j <= ncols,
                positions@.len() == j,
                forall|j0: int|
                    0 <= j0 < j ==> positions@[j0] == lower_bound(day, self.columns@[j0]),
            decreases ncols - j,
        {
            positions.push(searchsorted_range(arr, from, to, self.columns[j]));
            j = j + 1;
        }
        let day_cols = copy_range(arr, from, to);
        let r = copy_range(&positions, 0, positions.len());
        proof {
            assert(r@ =~= positions@);
            assert(day_cols@ =~= day);
        }
        while self.cache.len() <= i
            invariant
                self.wf(),
                self.columns@ == old(self).columns@,
            decreases i + 1 - self.cache.len(),
        {
            let blank = CacheEntry { valid: false, day_cols: Vec::new(), positions: Vec::new() };
            self.cache.push(blank);
        }
        let entry = CacheEntry { valid: true, day_cols, positions };
        self.cache[i] = entry;
        r
    }
}

} // verus!

use vstd::prelude::*;

verus! {

/// The write layout a planner call derives from its arguments: the
/// multiplier gives the channels per cell, the offsets place the call along
/// the column and channel axes of a shared output.
pub open spec fn cc_layout(
    out_offset: int,
    datetime_len: int,
    ncols: int,
    multiplier: Option<i64>,
    offsets: Option<Offsets>,
) -> CcLayout {
    CcLayout {
        out_offset,
        co: match offsets {
            Option::None => 0,
            Option::Some(o) => o.column_offset as int,
        },
        ps: match offsets {
            Option::None => 0,
            Option::Some(o) => o.channel_pad_start as int,
        },
        pe: match offsets {
            Option::None => 0,
            Option::Some(o) => o.channel_pad_end as int,
        },
        m: match multiplier {
            Option::None => 1,
            Option::Some(k) => k as int,
        },
        len: datetime_len,
        ncols,
    }
}

/// The fetch task of requested column `j` on day `d`: the day's tick window
/// of the symbol's column, described both in compact-data indices and in
/// day-local indices.
pub open spec fn cc_task(meta: MemMeta, q: MemQuery, c: Option<usize>, d: int, j: int) -> FetcherArgs {
    let pos = meta.pos_of(d, q.columns[j]);
    let t0 = q.day_t0(meta, d);
    let t1 = q.day_t1(meta, d);
    let ds = (meta.off[d] + pos) * meta.tpd;
    FetcherArgs {
        c,
        start_idx: (ds + t0) as i64,
        end_idx: (ds + t1) as i64,
        date_idx: d as i64,
        date_col_idx: pos as i64,
        date_start_idx: ds as i64,
        time_start_idx: (pos * meta.tpd + t0) as i64,
        time_end_idx: (pos * meta.tpd + t1) as i64,
        num_ticks_per_day: meta.tpd as i64,
        data_len: (t1 - t0) as i64,
    }
}

/// Output position where day `d`'s window of requested column `j` begins.
pub open spec fn cc_f_base(lay: CcLayout, cum: int, j: int) -> int {
    lay.out_offset + ((j + lay.co) * lay.len + cum) * lay.tm()
}

/// One day's share of a fetch plan: for each requested column the day
/// lists, in ascending column order, the task to fetch and the output
/// position its data belongs at.
pub struct DayPlan {
    pub js: Vec<usize>,
    pub tasks: Vec<FetcherArgs>,
    pub f_starts: Vec<usize>,
}

/// What a correct day plan holds for day `d`: exactly the requested columns
/// the day lists, in ascending order, each with its task and output base.
pub open spec fn day_plan_ok(
    meta: MemMeta,
    q: MemQuery,
    lay: CcLayout,
    c: Option<usize>,
    d: int,
    js: Seq<usize>,
    tasks: Seq<FetcherArgs>,
    fs: Seq<usize>,
) -> bool {
    &&& js.len() == tasks.len()
    &&& js.len() == fs.len()
    &&& (forall|idx: int|
        0 <= idx < js.len() ==> {
            &&& (#[trigger] js[idx]) < q.columns.len()
            &&& meta.hit(d, q.columns[js[idx] as int])
            &&& tasks[idx] == cc_task(meta, q, c, d, js[idx] as int)
            &&& fs[idx] == cc_f_base(lay, q.cum_t(meta, d), js[idx] as int)
        })
    &&& (forall|i1: int, i2: int|
        0 <= i1 < i2 < js.len() ==> #[trigger] js[i1] < #[trigger] js[i2])
    &&& (forall|j: int|
        0 <= j < q.columns.len() && #[trigger] meta.hit(d, q.columns[j]) ==> exists|idx: int|
            0 <= idx < js.len() && js[idx] == j)
}

/// Whether output position `i` belongs to a requested symbol that its day
/// does not list (and so is owed a NaN fill).
pub open spec fn cc_miss_at(meta: MemMeta, q: MemQuery, lay: CcLayout, i: int) -> bool {
    lay.owns(i) && !meta.hit(
        (q.time_start(meta) + lay.t_of(i)) / meta.tpd,
        q.columns[lay.j_of(i)],
    )
}

/// What a column-contiguous planner asks of its inputs.
pub open spec fn cc_req(meta: MemMeta, q: MemQuery, lay: CcLayout, flat_len: int) -> bool {
    &&& meta.wf()
    &&& q.wf(meta)
    &&& lay.wf()
    &&& lay.len == q.datetime_len
    &&& lay.ncols == q.columns.len()
    &&& lay.hi() <= flat_len
    &&& lay.hi() + lay.len * lay.tm() <= usize::MAX
    &&& meta.total_cols() * meta.tpd <= usize::MAX
    &&& lay.m * (meta.total_cols() * meta.tpd) <= i64::MAX
}

/// The window of column `j` starting at cumulative time `cum` stays inside
/// the call's output region.
proof fn lemma_f_base_bound(lay: CcLayout, cum: int, win: int, j: int)
    requires
        lay.wf(),
        0 <= j < lay.ncols,
        0 <= cum,
        1 <= win,
        cum + win <= lay.len,
    ensures
        lay.out_offset <= cc_f_base(lay, cum, j),
        cc_f_base(lay, cum, j) + win * lay.tm() <= lay.hi(),
{
    assert(lay.out_offset <= cc_f_base(lay, cum, j) && cc_f_base(lay, cum, j) + win * lay.tm()
        <= lay.hi()) by (nonlinear_arith)
        requires
            lay.wf(),
            0 <= j < lay.ncols,
            0 <= cum,
            1 <= win,
            cum + win <= lay.len,
            cc_f_base(lay, cum, j) == lay.out_offset + ((j + lay.co) * lay.len + cum) * lay.tm(),
            lay.hi() == lay.out_offset + (lay.co + lay.ncols) * lay.len * lay.tm(),
            lay.tm() == lay.m + lay.ps + lay.pe,
    ;
}

/// A cell of the window sits at the expected output position.
proof fn lemma_f_base_cell(lay: CcLayout, cum: int, j: int, t_rel: int, k: int)
    ensures
        lay.out_index(j, cum + t_rel, k) == cc_f_base(lay, cum, j) + t_rel * lay.tm() + lay.ps + k,
{
    assert(lay.out_index(j, cum + t_rel, k) == cc_f_base(lay, cum, j) + t_rel * lay.tm() + lay.ps
        + k) by (nonlinear_arith)
        requires
            lay.out_index(j, cum + t_rel, k) == lay.out_offset + ((j + lay.co) * lay.len + (cum
                + t_rel)) * lay.tm() + lay.ps + k,
            cc_f_base(lay, cum, j) == lay.out_offset + ((j + lay.co) * lay.len + cum) * lay.tm(),
    ;
}

} // verus!

verus! {

/// Plan one column-contiguous fetch.
///
/// Walks the queried days; for every requested symbol a day lists, a fetch
/// task and its output base position are recorded in that day's plan; for
/// every requested symbol the day does not list, the output window is
/// filled with `nan` at once. Fails with `DatetimeIndexNotContinuous` (and
/// leaves the output untouched) when the requested range does not line up
/// with `full_index`.
#[verifier::rlimit(100)]
pub fn cc_plan<T: Copy>(
    c: Option<usize>,
    datetime_start: i64,
    datetime_end: i64,
    datetime_len: i64,
    columns: &Vec<i64>,
    num_ticks_per_day: i64,
    full_index: &Vec<i64>,
    time_idx_to_date_idx: &Vec<i64>,
    date_columns_offset: &Vec<i64>,
    compact_columns: &Vec<i64>,
    columns_indices_getter: &mut CachedGetter,
    flattened: &mut Vec<T>,
    nan: T,
    out_offset: usize,
    multiplier: Option<i64>,
    offsets: Option<Offsets>,
) -> (r: Result<Vec<DayPlan>, MemError>)
    requires
        ({
            let meta = mk_meta(
                full_index@,
                time_idx_to_date_idx@,
                date_columns_offset@,
                compact_columns@,
                num_ticks_per_day,
            );
            let q = mk_query(datetime_start, datetime_end, datetime_len, columns@);
            let lay = cc_layout(
                out_offset as int,
                datetime_len as int,
                columns@.len() as int,
                multiplier,
                offsets,
            );
            &&& cc_req(meta, q, lay, old(flattened)@.len() as int)
            &&& (offsets is Some ==> multiplier is Some)
            &&& old(columns_indices_getter).wf()
            &&& old(columns_indices_getter).cols() == columns@
        }),
    ensures
        ({
            let meta = mk_meta(
                full_index@,
                time_idx_to_date_idx@,
                date_columns_offset@,
                compact_columns@,
                num_ticks_per_day,
            );
            let q = mk_query(datetime_start, datetime_end, datetime_len, columns@);
            let lay = cc_layout(
                out_offset as int,
                datetime_len as int,
                columns@.len() as int,
                multiplier,
                offsets,
            );
            &&& final(flattened)@.len() == old(flattened)@.len()
            &&& final(columns_indices_getter).wf()
            &&& final(columns_indices_getter).cols() == columns@
            &&& (r is Ok <==> q.continuous(meta))
            &&& (r is Err ==> r == Result::<Vec<DayPlan>, MemError>::Err(
                MemError::DatetimeIndexNotContinuous,
            ) && final(flattened)@ == old(flattened)@)
            &&& (match r {
                Result::Ok(plan) => {
                    &&& plan@.len() == q.d1(meta) - q.d0(meta) + 1
                    &&& (forall|di: int|
                        0 <= di < plan@.len() ==> day_plan_ok(
                            meta,
                            q,
                            lay,
                            c,
                            q.d0(meta) + di,
                            (#[trigger] plan@[di]).js@,
                            plan@[di].tasks@,
                            plan@[di].f_starts@,
                        ))
                    &&& (forall|i: int|
                        0 <= i < final(flattened)@.len() ==> (#[trigger] final(flattened)@[i]) == (
                        if cc_miss_at(meta, q, lay, i) {
                            nan
                        } else {
                            old(flattened)@[i]
                        }))
                },
                Result::Err(_) => true,
            })
        }),
{
    let ghost meta = mk_meta(
        full_index@,
        time_idx_to_date_idx@,
        date_columns_offset@,
        compact_columns@,
        num_ticks_per_day,
    );
    let ghost q = mk_query(datetime_start, datetime_end, datetime_len, columns@);
    let ghost lay = cc_layout(
        out_offset as int,
        datetime_len as int,
        columns@.len() as int,
        multiplier,
        offsets,
    );
    let flat_len = flattened.len();
    let n_index = full_index.len();
    proof {
        crate::array::lemma_lower_bound_props(full_index@, datetime_start);
        lemma_query_days(meta, q);
        assert(meta.tpd <= meta.n_days() * meta.tpd) by (nonlinear_arith)
            requires
                1 <= meta.tpd,
                1 <= meta.n_days(),
        ;
        assert(lay.tm() <= lay.len * lay.tm() && lay.co <= (lay.co + lay.ncols) * lay.len
            * lay.tm() && lay.len <= lay.len * lay.tm()) by (nonlinear_arith)
            requires
                1 <= lay.len,
                1 <= lay.tm(),
                0 <= lay.co,
                0 <= lay.ncols,
        ;
    }
    let time_start_idx = crate::array::searchsorted(full_index, datetime_start);
    let dlen = datetime_len as usize;
    let time_end_idx = time_start_idx + (dlen - 1);
    if full_index[time_end_idx] != datetime_end {
        return Err(MemError::DatetimeIndexNotContinuous);
    }
    let tpd = num_ticks_per_day as usize;
    let ncols = columns.len();
    let n_cols_total = compact_columns.len();
    let d0 = time_start_idx / tpd;
    let d1 = time_end_idx / tpd;
    proof {
        lemma_div_bounds(time_start_idx as int, meta.tpd);
        lemma_div_bounds(time_end_idx as int, meta.tpd);
    }
    let m: usize = match multiplier {
        None => 1,
        Some(mm) => mm as usize,
    };
    let (co, ps, pe): (usize, usize, usize) = match &offsets {
        None => (0, 0, 0),
        Some(o) => (
            o.column_offset as usize,
            o.channel_pad_start as usize,
            o.channel_pad_end as usize,
        ),
    };
    let tm = m + ps + pe;
    let n_q_days = d1 - d0 + 1;
    let mut plans: Vec<DayPlan> = Vec::new();
    let mut itoff: usize = 0;
    let mut i: usize = 0;
    while i < n_q_days
        invariant
            meta == mk_meta(
                full_index@,
                time_idx_to_date_idx@,
                date_columns_offset@,
                compact_columns@,
                num_ticks_per_day,
            ),
            q == mk_query(datetime_start, datetime_end, datetime_len, columns@),
            lay == cc_layout(
                out_offset as int,
                datetime_len as int,
                columns@.len() as int,
                multiplier,
                offsets,
            ),
            cc_req(meta, q, lay, flat_len as int),
            columns_indices_getter.wf(),
            columns_indices_getter.cols() == columns@,
            flattened@.len() == flat_len,
            flattened@.len() == old(flattened)@.len(),
            time_start_idx == q.time_start(meta),
            time_end_idx == q.time_end(meta),
            q.continuous(meta),
            tpd == meta.tpd,
            dlen == q.datetime_len,
            ncols == q.columns.len(),
            n_cols_total == compact_columns@.len(),
            n_index == full_index@.len(),
            d0 == q.d0(meta),
            d1 == q.d1(meta),
            m == lay.m,
            co == lay.co,
            ps == lay.ps,
            pe == lay.pe,
            tm == lay.tm(),
            out_offset == lay.out_offset,
            n_q_days == d1 - d0 + 1,
            i <= n_q_days,
            plans@.len() == i,
            itoff == (if i < n_q_days {
                q.cum_t(meta, d0 + i)
            } else {
                q.datetime_len
            }),
            forall|di: int|
                0 <= di < i ==> day_plan_ok(
                    meta,
                    q,
                    lay,
                    c,
                    q.d0(meta) + di,
                    (#[trigger] plans@[di]).js@,
                    plans@[di].tasks@,
                    plans@[di].f_starts@,
                ),
            forall|idx: int|
                0 <= idx < flat_len ==> (#[trigger] flattened@[idx]) == (if cc_miss_at(
                    meta,
                    q,
                    lay,
                    idx,
                ) && lay.t_of(idx) < itoff {
                    nan
                } else {
                    old(flattened)@[idx]
                }),
        decreases n_q_days - i,
    {
        let d = d0 + i;
        proof {
            lemma_query_days(meta, q);
            assert(meta.n_days() <= meta.n_days() * meta.tpd) by (nonlinear_arith)
                requires
                    1 <= meta.tpd,
                    0 <= meta.n_days(),
            ;
            crate::mem::lemma_off_at_least(meta, meta.n_days());
            lemma_day_window(meta, q, d as int);
            lemma_off_lower(meta, d as int);
            lemma_off_lower(meta, d + 1);
            lemma_off_mono(meta, d as int, d + 1);
        }
        let off_d = date_columns_offset[d] as usize;
        let off_d1 = date_columns_offset[d + 1] as usize;
        let s_n = off_d1 - off_d;
        let t0u: usize = if i == 0 {
            time_start_idx % tpd
        } else {
            0
        };
        let mut t1u: usize = if d == d1 {
            (time_end_idx + 1) % tpd
        } else {
            tpd
        };
        if t1u == 0 {
            t1u = tpd;
        }
        proof {
            assert(t0u == q.day_t0(meta, d as int));
            if d == d1 {
                assert((d1 as int + 1) * meta.tpd == d1 as int * meta.tpd + meta.tpd)
                    by (nonlinear_arith);
                if q.time_end(meta) + 1 < (d1 as int + 1) * meta.tpd {
                    lemma_div_mod_unique(
                        q.time_end(meta) + 1,
                        meta.tpd,
                        d1 as int,
                        q.time_end(meta) + 1 - d1 as int * meta.tpd,
                    );
                } else {
                    lemma_div_mod_unique(q.time_end(meta) + 1, meta.tpd, d1 as int + 1, 0);
                }
            }
            assert(t1u == q.day_t1(meta, d as int));
        }
        let win = t1u - t0u;
        let ghost cum = q.cum_t(meta, d as int);
        let poss = columns_indices_getter.get(i, compact_columns, off_d, off_d1);
        let ghost day = compact_columns@.subrange(off_d as int, off_d1 as int);
        proof {
            assert forall|idx: int|
                0 <= idx < flat_len implies flattened@[idx] == (if cc_miss_at(meta, q, lay, idx)
                && (lay.t_of(idx) < cum || (lay.t_of(idx) < cum + (win as int) && lay.j_of(idx)
                < 0)) {
                nan
            } else {
                old(flattened)@[idx]
            }) by {
                if lay.owns(idx) {
                    lemma_owns_inverse(lay, idx);
                }
            }
        }
        let mut js: Vec<usize> = Vec::new();
        let mut tasks: Vec<FetcherArgs> = Vec::new();
        let mut f_starts: Vec<usize> = Vec::new();
        let mut j: usize = 0;
        while j < ncols
            invariant
                meta == mk_meta(
                    full_index@,
                    time_idx_to_date_idx@,
                    date_columns_offset@,
                    compact_columns@,
                    num_ticks_per_day,
                ),
                q == mk_query(datetime_start, datetime_end, datetime_len, columns@),
                lay == cc_layout(
                    out_offset as int,
                    datetime_len as int,
                    columns@.len() as int,
                    multiplier,
                    offsets,
                ),
                cc_req(meta, q, lay, flat_len as int),
                flattened@.len() == flat_len,
                flattened@.len() == old(flattened)@.len(),
                time_start_idx == q.time_start(meta),
                time_end_idx == q.time_end(meta),
                q.continuous(meta),
                tpd == meta.tpd,
                dlen == q.datetime_len,
                ncols == q.columns.len(),
                n_cols_total == compact_columns@.len(),
                n_index == full_index@.len(),
                d0 == q.d0(meta),
                d1 == q.d1(meta),
                m == lay.m,
                co == lay.co,
                ps == lay.ps,
                pe == lay.pe,
                tm == lay.tm(),
                out_offset == lay.out_offset,
                n_q_days == d1 - d0 + 1,
                i < n_q_days,
                d == d0 + i,
                q.d0(meta) <= d as int <= q.d1(meta),
                d < meta.n_days(),
                off_d == meta.off[d as int],
                off_d1 == meta.off[d + 1],
                s_n == meta.s_n(d as int),
                off_d1 <= n_cols_total,
                t0u == q.day_t0(meta, d as int),
                t1u == q.day_t1(meta, d as int),
                win == t1u - t0u,
                1 <= win <= tpd,
                t0u < t1u <= tpd,
                meta.n_days() <= meta.total_cols(),
                cum == q.cum_t(meta, d as int),
                itoff == cum,
                cum + win <= q.datetime_len,
                day == compact_columns@.subrange(off_d as int, off_d1 as int),
                day == meta.day_cols(d as int),
                poss@.len() == ncols,
                forall|j0: int|
                    0 <= j0 < ncols ==> poss@[j0] == lower_bound(day, q.columns[j0]),
                j <= ncols,
                js@.len() == tasks@.len(),
                js@.len() == f_starts@.len(),
                forall|idx: int|
                    0 <= idx < js@.len() ==> {
                        &&& (#[trigger] js@[idx]) < j
                        &&& meta.hit(d as int, q.columns[js@[idx] as int])
                        &&& tasks@[idx] == cc_task(meta, q, c, d as int, js@[idx] as int)
                        &&& f_starts@[idx] == cc_f_base(lay, cum, js@[idx] as int)
                    },
                forall|i1: int, i2: int|
                    0 <= i1 < i2 < js@.len() ==> #[trigger] js@[i1] < #[trigger] js@[i2],
                forall|j0: int|
                    0 <= j0 < j && #[trigger] meta.hit(d as int, q.columns[j0]) ==> exists|idx: int|
                        0 <= idx < js@.len() && js@[idx] == j0,
                forall|idx: int|
                    0 <= idx < flat_len ==> (#[trigger] flattened@[idx]) == (if cc_miss_at(
                        meta,
                        q,
                        lay,
                        idx,
                    ) && (lay.t_of(idx) < cum || (lay.t_of(idx) < cum + win && lay.j_of(idx)
                        < j)) {
                        nan
                    } else {
                        old(flattened)@[idx]
                    }),
            decreases ncols - j,
        {
            let pos = poss[j];
            proof {
                crate::array::lemma_lower_bound_props(day, q.columns[j as int]);
                assert((j + co) * dlen + cum + win <= (co + ncols) * dlen && 0 <= (j + co) * dlen
                    && (j + co) + 1 <= co + ncols && co + ncols <= (co + ncols) * dlen && (co
                    + ncols) * dlen <= (co + ncols) * dlen * tm && (j + co) * dlen <= (co + ncols)
                    * dlen) by (nonlinear_arith)
                    requires
                        0 <= j < ncols,
                        0 <= co,
                        1 <= dlen,
                        0 <= cum,
                        cum + win <= dlen,
                        1 <= tm,
                ;
                lemma_f_base_bound(lay, cum as int, win as int, j as int);
                assert(((j + co) * dlen + cum) * tm <= ((j + co) * dlen + cum) * tm + win * tm
                    && win * tm >= 0 && ((j + co) * dlen + cum) * tm >= 0 && (j + co) * dlen + cum
                    <= ((j + co) * dlen + cum) * tm) by (nonlinear_arith)
                    requires
                        0 <= (j + co) * dlen,
                        0 <= cum,
                        0 <= win,
                        1 <= tm,
                ;
            }
            let f_base = out_offset + ((j + co) * dlen + itoff) * tm;
            proof {
                assert(f_base == cc_f_base(lay, cum as int, j as int));
                assert(f_base + win * tm <= lay.hi());
            }
            if pos < s_n && compact_columns[off_d + pos] == columns[j] {
                proof {
                    assert(day[pos as int] == compact_columns@[off_d + pos]);
                    assert(meta.hit(d as int, q.columns[j as int]));
                    assert(off_d + pos < off_d1);
                    assert((off_d + pos) * tpd + tpd <= n_cols_total * tpd && 0 <= (off_d + pos)
                        * tpd) by (nonlinear_arith)
                        requires
                            0 <= off_d + pos,
                            off_d + pos < off_d1 <= n_cols_total,
                            1 <= tpd,
                    ;
                    assert(pos * tpd + tpd <= n_cols_total * tpd && 0 <= pos * tpd)
                        by (nonlinear_arith)
                        requires
                            0 <= pos,
                            pos < n_cols_total,
                            1 <= tpd,
                    ;
                    assert(meta.total_cols() <= meta.total_cols() * meta.tpd)
                        by (nonlinear_arith)
                        requires
                            1 <= meta.tpd,
                            0 <= meta.total_cols(),
                    ;
                }
                let date_start = (off_d + pos) * tpd;
                let args = FetcherArgs {
                    c,
                    start_idx: (date_start + t0u) as i64,
                    end_idx: (date_start + t1u) as i64,
                    date_idx: d as i64,
                    date_col_idx: pos as i64,
                    date_start_idx: date_start as i64,
                    time_start_idx: (pos * tpd + t0u) as i64,
                    time_end_idx: (pos * tpd + t1u) as i64,
                    num_ticks_per_day,
                    data_len: win as i64,
                };
                proof {
                    assert(args == cc_task(meta, q, c, d as int, j as int));
                }
                let ghost old_js = js@;
                js.push(j);
                tasks.push(args);
                f_starts.push(f_base);
                proof {
                    assert forall|j0: int|
                        0 <= j0 < j + 1 && #[trigger] meta.hit(d as int, q.columns[j0])
                            implies exists|idx: int|
                        0 <= idx < js@.len() && js@[idx] == j0 by {
                        if j0 == j {
                            assert(js@[js@.len() - 1] == j0);
                        } else {
                            let idx0 = choose|idx: int| 0 <= idx < old_js.len() && old_js[idx] == j0;
                            assert(js@[idx0] == j0);
                        }
                    }
                    lemma_cc_hit_step(
                        lay,
                        meta,
                        q,
                        flattened@,
                        old(flattened)@,
                        nan,
                        cum as int,
                        win as int,
                        j as int,
                        d as int,
                    );
                }
            } else {
                proof {
                    if pos < s_n {
                        assert(day[pos as int] == compact_columns@[off_d + pos]);
                    }
                    assert(!meta.hit(d as int, q.columns[j as int]));
                    assert(win * m <= win * tm) by (nonlinear_arith)
                        requires
                            0 <= win,
                            m <= tm,
                    ;
                }
                let ghost pre_fill = flattened@;
                let nan_vec = filled(win * m, nan);
                fill_data(flattened, f_base, &nan_vec, win, m, tm, ps);
                proof {
                    assert(nan_vec@ =~= Seq::new(((win * m) as nat), |i2: int| nan));
                    lemma_cc_miss_step(
                        lay,
                        meta,
                        q,
                        pre_fill,
                        flattened@,
                        old(flattened)@,
                        nan,
                        cum as int,
                        win as int,
                        j as int,
                        d as int,
                        f_base as int,
                        nan_vec@,
                    );
                }

            }
            j = j + 1;
        }
        let dp = DayPlan { js, tasks, f_starts };
        plans.push(dp);
        proof {
            assert(day_plan_ok(
                meta,
                q,
                lay,
                c,
                d as int,
                plans@[i as int].js@,
                plans@[i as int].tasks@,
                plans@[i as int].f_starts@,
            ));
            lemma_cc_day_end(lay, meta, q, flattened@, old(flattened)@, nan, cum as int,
                win as int);
            lemma_day_window(meta, q, d as int);
        }
        itoff = itoff + win;
        i = i + 1;
        proof {
            if i < n_q_days {
                assert(itoff == q.cum_t(meta, d0 + i));
            } else {
                assert(itoff == q.datetime_len);
            }
        }
    }
    proof {
        assert forall|idx: int|
            0 <= idx < flat_len implies flattened@[idx] == (if cc_miss_at(meta, q, lay, idx) {
            nan
        } else {
            old(flattened)@[idx]
        }) by {
            if lay.owns(idx) {
                lemma_owns_inverse(lay, idx);
            }
        }
    }
    Ok(plans)
}

} // verus!

verus! {


/// After a NaN fill of column `j`'s window on day `d`, the output covers
/// the misses of columns up to `j` inclusive.
proof fn lemma_cc_miss_step<T>(
    lay: CcLayout,
    meta: MemMeta,
    q: MemQuery,
    fpre: Seq<T>,
    fpost: Seq<T>,
    oldf: Seq<T>,
    nan: T,
    cum: int,
    win: int,
    j: int,
    d: int,
    f_base: int,
    dset: Seq<T>,
)
    requires
        lay.wf(),
        meta.wf(),
        q.wf(meta),
        q.d0(meta) <= d <= q.d1(meta),
        cum == q.cum_t(meta, d),
        win == q.day_t1(meta, d) - q.day_t0(meta, d),
        0 <= j < lay.ncols,
        lay.ncols == q.columns.len(),
        lay.len == q.datetime_len,
        !meta.hit(d, q.columns[j]),
        f_base == cc_f_base(lay, cum, j),
        fpre.len() == fpost.len(),
        fpre.len() == oldf.len(),
        dset == Seq::new((win * lay.m) as nat, |i: int| nan),
        forall|idx: int|
            0 <= idx < fpre.len() ==> (#[trigger] fpre[idx]) == (if cc_miss_at(meta, q, lay, idx)
                && (lay.t_of(idx) < cum || (lay.t_of(idx) < cum + win && lay.j_of(idx) < j)) {
                nan
            } else {
                oldf[idx]
            }),
        forall|t: int, k: int|
            0 <= t < win && 0 <= k < lay.m ==> fpost[f_base + t * lay.tm() + lay.ps + k]
                == #[trigger] dset[t * lay.m + k],
        forall|i: int|
            0 <= i < fpre.len() && !fill_writes(f_base, win, lay.m, lay.tm(), lay.ps, i)
                ==> fpost[i] == fpre[i],
    ensures
        forall|idx: int|
            0 <= idx < fpost.len() ==> (#[trigger] fpost[idx]) == (if cc_miss_at(meta, q, lay, idx)
                && (lay.t_of(idx) < cum || (lay.t_of(idx) < cum + win && lay.j_of(idx) < j + 1)) {
                nan
            } else {
                oldf[idx]
            }),
{
    lemma_day_window(meta, q, d);
    assert forall|idx: int|
        0 <= idx < fpost.len() implies fpost[idx] == (if cc_miss_at(meta, q, lay, idx)
        && (lay.t_of(idx) < cum || (lay.t_of(idx) < cum + win && lay.j_of(idx) < j + 1)) {
        nan
    } else {
        oldf[idx]
    }) by {
        if fill_writes(f_base, win, lay.m, lay.tm(), lay.ps, idx) {
            let rel = idx - f_base;
            lemma_div_bounds(rel, lay.tm());
            let t_rel = rel / lay.tm();
            let k = rel % lay.tm() - lay.ps;
            lemma_f_base_cell(lay, cum, j, t_rel, k);
            lemma_day_tick(meta, q, d, t_rel);
            lemma_out_index(lay, j, cum + t_rel, k);
            assert(0 <= t_rel < win && 0 <= k < lay.m);
            assert(rel == t_rel * lay.tm() + (lay.ps + k));
            assert(idx == f_base + t_rel * lay.tm() + lay.ps + k);
            assert(idx == lay.out_index(j, cum + t_rel, k));
            assert(cc_miss_at(meta, q, lay, idx));
            assert(fpost[idx] == dset[t_rel * lay.m + k]);
            assert(0 <= t_rel * lay.m + k < win * lay.m) by (nonlinear_arith)
                requires
                    0 <= t_rel < win,
                    0 <= k < lay.m,
            ;
            assert(dset[t_rel * lay.m + k] == nan);
        } else {
            assert(fpost[idx] == fpre[idx]);
            if lay.owns(idx) {
                lemma_owns_inverse(lay, idx);
                if lay.j_of(idx) == j && cum <= lay.t_of(idx) < cum + win {
                    let t_rel = lay.t_of(idx) - cum;
                    let k = lay.k_of(idx);
                    lemma_f_base_cell(lay, cum, j, t_rel, k);
                    assert(idx == cc_f_base(lay, cum, j) + t_rel * lay.tm() + lay.ps + k);
                    lemma_div_mod_unique(idx - f_base, lay.tm(), t_rel, lay.ps + k);
                    assert(fill_writes(f_base, win, lay.m, lay.tm(), lay.ps, idx));
                }
            }
        }
    }
}

/// When every requested column of day `d` has been handled, the output
/// covers all misses up to the end of the day's window.
proof fn lemma_cc_day_end<T>(
    lay: CcLayout,
    meta: MemMeta,
    q: MemQuery,
    f: Seq<T>,
    oldf: Seq<T>,
    nan: T,
    cum: int,
    win: int,
)
    requires
        lay.wf(),
        f.len() == oldf.len(),
        1 <= win,
        forall|idx: int|
            0 <= idx < f.len() ==> (#[trigger] f[idx]) == (if cc_miss_at(meta, q, lay, idx) && (lay.t_of(idx)
                < cum || (lay.t_of(idx) < cum + win && lay.j_of(idx) < lay.ncols)) {
                nan
            } else {
                oldf[idx]
            }),
    ensures
        forall|idx: int|
            0 <= idx < f.len() ==> (#[trigger] f[idx]) == (if cc_miss_at(meta, q, lay, idx) && lay.t_of(idx)
                < cum + win {
                nan
            } else {
                oldf[idx]
            }),
{
    assert forall|idx: int|
        0 <= idx < f.len() implies f[idx] == (if cc_miss_at(meta, q, lay, idx) && lay.t_of(idx)
        < cum + win {
        nan
    } else {
        oldf[idx]
    }) by {
        if lay.owns(idx) {
            lemma_owns_inverse(lay, idx);
        }
    }
}

/// Recording the fetch task of a listed column changes no cell yet: the
/// nan-state of the planning pass extends over it untouched.
proof fn lemma_cc_hit_step<T>(
    lay: CcLayout,
    meta: MemMeta,
    q: MemQuery,
    f: Seq<T>,
    oldf: Seq<T>,
    nan: T,
    cum: int,
    win: int,
    j: int,
    d: int,
)
    requires
        lay.wf(),
        meta.wf(),
        q.wf(meta),
        q.d0(meta) <= d <= q.d1(meta),
        cum == q.cum_t(meta, d),
        win == q.day_t1(meta, d) - q.day_t0(meta, d),
        0 <= j < lay.ncols,
        lay.ncols == q.columns.len(),
        lay.len == q.datetime_len,
        meta.hit(d, q.columns[j]),
        forall|idx: int|
            0 <= idx < f.len() ==> (#[trigger] f[idx]) == (if cc_miss_at(meta, q, lay, idx) && (lay.t_of(idx)
                < cum || (lay.t_of(idx) < cum + win && lay.j_of(idx) < j)) {
                nan
            } else {
                oldf[idx]
            }),
    ensures
        forall|idx: int|
            0 <= idx < f.len() ==> (#[trigger] f[idx]) == (if cc_miss_at(meta, q, lay, idx) && (lay.t_of(idx)
                < cum || (lay.t_of(idx) < cum + win && lay.j_of(idx) < j + 1)) {
                nan
            } else {
                oldf[idx]
            }),
{
    assert forall|idx: int|
        0 <= idx < f.len() implies f[idx] == (if cc_miss_at(meta, q, lay, idx) && (lay.t_of(idx)
        < cum || (lay.t_of(idx) < cum + win && lay.j_of(idx) < j + 1)) {
        nan
    } else {
        oldf[idx]
    }) by {
        if lay.owns(idx) {
            lemma_owns_inverse(lay, idx);
            if lay.j_of(idx) == j && cum <= lay.t_of(idx) < cum + win {
                lemma_day_tick(meta, q, d, lay.t_of(idx) - cum);
                assert(!cc_miss_at(meta, q, lay, idx));
            }
        }
    }
}

} // verus!

verus! {

/// The task shapes a column-contiguous planner hands to its fetcher: day
/// windows of requested symbols that the day lists.
pub open spec fn cc_valid_args(
    meta: MemMeta,
    q: MemQuery,
    c: Option<usize>,
    args: FetcherArgs,
) -> bool {
    exists|d: int, j: int|
        q.d0(meta) <= d <= q.d1(meta) && 0 <= j < q.columns.len() && #[trigger] cc_task(
            meta,
            q,
            c,
            d,
            j,
        ) == args && meta.hit(d, q.columns[j])
}

/// The finished value of output position `i`: the queried cell for owned
/// positions, the prior contents elsewhere.
pub open spec fn cc_done_cell<T>(
    meta: MemMeta,
    q: MemQuery,
    lay: CcLayout,
    data: Seq<T>,
    nan: T,
    oldf: Seq<T>,
    i: int,
) -> T {
    if lay.owns(i) {
        crate::mem::cc_cell(meta, q, data, nan, lay.m, lay.t_of(i), lay.j_of(i), lay.k_of(i))
    } else {
        oldf[i]
    }
}

/// Whether `j` is among the first `ti` entries of `js`.
pub open spec fn in_prefix(js: Seq<usize>, ti: int, j: int) -> bool {
    exists|x: int| 0 <= x < ti && #[trigger] js[x] == j
}

/// The value of output position `i` while the fetched slices are being
/// written back: days before `dlim` are finished, as are day `dlim`'s
/// misses and the columns among the first `ti` entries of `js`.
pub open spec fn cc_progress_cell<T>(
    meta: MemMeta,
    q: MemQuery,
    lay: CcLayout,
    data: Seq<T>,
    nan: T,
    oldf: Seq<T>,
    dlim: int,
    js: Seq<usize>,
    ti: int,
    i: int,
) -> T {
    if lay.owns(i) {
        let day = (q.time_start(meta) + lay.t_of(i)) / meta.tpd;
        if day < dlim || !meta.hit(day, q.columns[lay.j_of(i)]) || (day == dlim && in_prefix(
            js,
            ti,
            lay.j_of(i) as int,
        )) {
            cc_done_cell(meta, q, lay, data, nan, oldf, i)
        } else {
            oldf[i]
        }
    } else {
        oldf[i]
    }
}

/// Shared context of the write-back lemmas.
pub open spec fn cc_ctx<T>(
    meta: MemMeta,
    q: MemQuery,
    lay: CcLayout,
    data: Seq<T>,
) -> bool {
    &&& meta.wf()
    &&& q.wf(meta)
    &&& lay.wf()
    &&& lay.len == q.datetime_len
    &&& lay.ncols == q.columns.len()
    &&& data.len() == lay.m * (meta.total_cols() * meta.tpd)
}

/// The freshly planned output is the starting write-back state.
proof fn lemma_cc_start<T>(
    meta: MemMeta,
    q: MemQuery,
    lay: CcLayout,
    data: Seq<T>,
    f: Seq<T>,
    oldf: Seq<T>,
    nan: T,
)
    requires
        cc_ctx(meta, q, lay, data),
        f.len() == oldf.len(),
        forall|idx: int|
            0 <= idx < f.len() ==> (#[trigger] f[idx]) == (if cc_miss_at(meta, q, lay, idx) {
                nan
            } else {
                oldf[idx]
            }),
    ensures
        forall|idx: int|
            0 <= idx < f.len() ==> (#[trigger] f[idx]) == cc_progress_cell(
                meta,
                q,
                lay,
                data,
                nan,
                oldf,
                q.d0(meta),
                Seq::<usize>::empty(),
                0,
                idx,
            ),
{
    assert forall|idx: int|
        0 <= idx < f.len() implies (#[trigger] f[idx]) == cc_progress_cell(
        meta,
        q,
        lay,
        data,
        nan,
        oldf,
        q.d0(meta),
        Seq::<usize>::empty(),
        0,
        idx,
    ) by {
        if lay.owns(idx) {
            lemma_owns_inverse(lay, idx);
            crate::mem::lemma_time_to_day(meta, q, lay.t_of(idx));
        }
    }
}

/// Writing back the fetched slice of task `ti` of day `d` advances the
/// write-back state by one task.
#[verifier::rlimit(100)]
proof fn lemma_cc_fill_task<T>(
    meta: MemMeta,
    q: MemQuery,
    lay: CcLayout,
    data: Seq<T>,
    c: Option<usize>,
    d: int,
    js: Seq<usize>,
    tasks: Seq<FetcherArgs>,
    fs: Seq<usize>,
    ti: int,
    dset: Seq<T>,
    fpre: Seq<T>,
    fpost: Seq<T>,
    oldf: Seq<T>,
    nan: T,
)
    requires
        cc_ctx(meta, q, lay, data),
        q.d0(meta) <= d <= q.d1(meta),
        day_plan_ok(meta, q, lay, c, d, js, tasks, fs),
        0 <= ti < js.len(),
        dset == data.subrange(
            lay.m * (tasks[ti].start_idx as int),
            lay.m * (tasks[ti].end_idx as int),
        ),
        fpre.len() == fpost.len(),
        fpre.len() == oldf.len(),
        forall|idx: int|
            0 <= idx < fpre.len() ==> (#[trigger] fpre[idx]) == cc_progress_cell(
                meta,
                q,
                lay,
                data,
                nan,
                oldf,
                d,
                js,
                ti,
                idx,
            ),
        forall|t: int, k: int|
            0 <= t < q.day_t1(meta, d) - q.day_t0(meta, d) && 0 <= k < lay.m ==> fpost[fs[ti]
                + t * lay.tm() + lay.ps + k] == #[trigger] dset[t * lay.m + k],
        forall|i: int|
            0 <= i < fpre.len() && !fill_writes(
                fs[ti] as int,
                q.day_t1(meta, d) - q.day_t0(meta, d),
                lay.m,
                lay.tm(),
                lay.ps,
                i,
            ) ==> fpost[i] == fpre[i],
    ensures
        forall|idx: int|
            0 <= idx < fpost.len() ==> (#[trigger] fpost[idx]) == cc_progress_cell(
                meta,
                q,
                lay,
                data,
                nan,
                oldf,
                d,
                js,
                ti + 1,
                idx,
            ),
{
    let cum = q.cum_t(meta, d);
    let t0 = q.day_t0(meta, d);
    let win = q.day_t1(meta, d) - t0;
    let j = js[ti] as int;
    let pos = meta.pos_of(d, q.columns[j]);
    let f_base = fs[ti] as int;
    lemma_day_window(meta, q, d);
    lemma_query_days(meta, q);
    lemma_off_lower(meta, d);
    lemma_off_lower(meta, d + 1);
    assert(tasks[ti] == cc_task(meta, q, c, d, j));
    assert(f_base == cc_f_base(lay, cum, j));
    let ds = (meta.off[d] + pos) * meta.tpd;
    crate::array::lemma_lower_bound_props(meta.day_cols(d), q.columns[j]);
    assert(0 <= pos < meta.s_n(d));
    assert(ds + meta.tpd <= meta.total_cols() * meta.tpd && 0 <= ds && pos * meta.tpd + meta.tpd
        <= meta.total_cols() * meta.tpd && 0 <= pos * meta.tpd) by (nonlinear_arith)
        requires
            0 <= meta.off[d],
            0 <= pos,
            meta.off[d] + pos < meta.off[d + 1] <= meta.total_cols(),
            pos < meta.total_cols(),
            ds == (meta.off[d] + pos) * meta.tpd,
            1 <= meta.tpd,
    ;
    assert(tasks[ti].start_idx as int == ds + t0 && tasks[ti].end_idx as int == ds + t0 + win);
    assert forall|idx: int|
        0 <= idx < fpost.len() implies (#[trigger] fpost[idx]) == cc_progress_cell(
        meta,
        q,
        lay,
        data,
        nan,
        oldf,
        d,
        js,
        ti + 1,
        idx,
    ) by {
        if fill_writes(f_base, win, lay.m, lay.tm(), lay.ps, idx) {
            let rel = idx - f_base;
            lemma_div_bounds(rel, lay.tm());
            let t_rel = rel / lay.tm();
            let k = rel % lay.tm() - lay.ps;
            lemma_f_base_cell(lay, cum, j, t_rel, k);
            lemma_day_tick(meta, q, d, t_rel);
            lemma_out_index(lay, j, cum + t_rel, k);
            assert(0 <= t_rel < win && 0 <= k < lay.m);
            assert(rel == t_rel * lay.tm() + (lay.ps + k));
            assert(idx == f_base + t_rel * lay.tm() + lay.ps + k);
            assert(idx == lay.out_index(j, cum + t_rel, k));
            assert(fpost[idx] == dset[t_rel * lay.m + k]);
            assert(0 <= lay.m * (ds + t0) && lay.m * (ds + t0) + t_rel * lay.m + k < lay.m * (ds
                + t0 + win) && lay.m * (ds + t0 + win) <= lay.m * (meta.total_cols() * meta.tpd)
                && 0 <= t_rel * lay.m + k < win * lay.m && lay.m * (ds + t0) + t_rel * lay.m + k
                == lay.m * ((meta.off[d] + pos) * meta.tpd + (t0 + t_rel)) + k)
                by (nonlinear_arith)
                requires
                    0 <= t_rel < win,
                    0 <= k < lay.m,
                    1 <= lay.m,
                    0 <= ds,
                    0 <= t0,
                    ds == (meta.off[d] + pos) * meta.tpd,
                    ds + t0 + win <= ds + meta.tpd,
                    ds + meta.tpd <= meta.total_cols() * meta.tpd,
                    t0 + win <= meta.tpd,
                    1 <= meta.tpd,
            ;
            assert(dset[t_rel * lay.m + k] == data[lay.m * ((meta.off[d] + pos) * meta.tpd + (t0
                + t_rel)) + k]);
            assert((q.time_start(meta) + (cum + t_rel)) % meta.tpd == t0 + t_rel);
            assert(fpost[idx] == cc_done_cell(meta, q, lay, data, nan, oldf, idx));
            assert(in_prefix(js, ti + 1, j)) by {
                assert(js[ti] == j);
            }
        } else {
            assert(fpost[idx] == fpre[idx]);
            if lay.owns(idx) {
                lemma_owns_inverse(lay, idx);
                let day = (q.time_start(meta) + lay.t_of(idx)) / meta.tpd;
                crate::mem::lemma_time_to_day(meta, q, lay.t_of(idx));
                if day == d && lay.j_of(idx) == j {
                    let t_rel = lay.t_of(idx) - cum;
                    let k = lay.k_of(idx);
                    assert(cum == q.cum_t(meta, day));
                    assert(0 <= t_rel < win);
                    assert(0 <= t_rel * lay.tm()) by (nonlinear_arith)
                        requires
                            0 <= t_rel,
                            1 <= lay.tm(),
                    ;
                    lemma_f_base_cell(lay, cum, j, t_rel, k);
                    assert(idx == cc_f_base(lay, cum, j) + t_rel * lay.tm() + lay.ps + k);
                    lemma_div_mod_unique(idx - f_base, lay.tm(), t_rel, lay.ps + k);
                    assert(0 <= idx - f_base);
                    assert((idx - f_base) / lay.tm() == t_rel);
                    assert((idx - f_base) % lay.tm() == lay.ps + k);
                    assert((idx - f_base) / lay.tm() < win);
                    assert(lay.ps <= (idx - f_base) % lay.tm());
                    assert((idx - f_base) % lay.tm() < lay.ps + lay.m);
                    assert(fill_writes(f_base, win, lay.m, lay.tm(), lay.ps, idx));
                } else {
                    if day == d {
                        assert(lay.j_of(idx) != j);
                        assert(in_prefix(js, ti + 1, lay.j_of(idx) as int) == in_prefix(
                            js,
                            ti,
                            lay.j_of(idx) as int,
                        )) by {
                            if in_prefix(js, ti + 1, lay.j_of(idx) as int) {
                                let x = choose|x: int|
                                    0 <= x < ti + 1 && #[trigger] js[x] == lay.j_of(idx) as int;
                                if x < ti {
                                    assert(in_prefix(js, ti, lay.j_of(idx) as int));
                                } else {
                                    assert(js[ti] == lay.j_of(idx) as int);
                                }
                            }
                            if in_prefix(js, ti, lay.j_of(idx) as int) {
                                let x = choose|x: int|
                                    0 <= x < ti && #[trigger] js[x] == lay.j_of(idx) as int;
                                assert(0 <= x < ti + 1 && js[x] == lay.j_of(idx) as int);
                            }
                        }
                    }
                }
            }
        }
    }
}

/// When every task of day `d` is written back, the state advances by one day.
proof fn lemma_cc_day_done<T>(
    meta: MemMeta,
    q: MemQuery,
    lay: CcLayout,
    data: Seq<T>,
    c: Option<usize>,
    d: int,
    js: Seq<usize>,
    tasks: Seq<FetcherArgs>,
    fs: Seq<usize>,
    f: Seq<T>,
    oldf: Seq<T>,
    nan: T,
)
    requires
        cc_ctx(meta, q, lay, data),
        q.d0(meta) <= d <= q.d1(meta),
        day_plan_ok(meta, q, lay, c, d, js, tasks, fs),
        f.len() == oldf.len(),
        forall|idx: int|
            0 <= idx < f.len() ==> (#[trigger] f[idx]) == cc_progress_cell(
                meta,
                q,
                lay,
                data,
                nan,
                oldf,
                d,
                js,
                js.len() as int,
                idx,
            ),
    ensures
        forall|idx: int|
            0 <= idx < f.len() ==> (#[trigger] f[idx]) == cc_progress_cell(
                meta,
                q,
                lay,
                data,
                nan,
                oldf,
                d + 1,
                Seq::<usize>::empty(),
                0,
                idx,
            ),
{
    assert forall|idx: int|
        0 <= idx < f.len() implies (#[trigger] f[idx]) == cc_progress_cell(
        meta,
        q,
        lay,
        data,
        nan,
        oldf,
        d + 1,
        Seq::<usize>::empty(),
        0,
        idx,
    ) by {
        if lay.owns(idx) {
            lemma_owns_inverse(lay, idx);
            let day = (q.time_start(meta) + lay.t_of(idx)) / meta.tpd;
            crate::mem::lemma_time_to_day(meta, q, lay.t_of(idx));
            if day == d && meta.hit(day, q.columns[lay.j_of(idx)]) {
                let x = choose|x: int| 0 <= x < js.len() && js[x] == lay.j_of(idx) as int;
                assert(in_prefix(js, js.len() as int, lay.j_of(idx) as int));
            }
        }
    }
}

/// Once every queried day is written back, every owned position holds its
/// finished value.
proof fn lemma_cc_finish<T>(
    meta: MemMeta,
    q: MemQuery,
    lay: CcLayout,
    data: Seq<T>,
    f: Seq<T>,
    oldf: Seq<T>,
    nan: T,
)
    requires
        cc_ctx(meta, q, lay, data),
        f.len() == oldf.len(),
        forall|idx: int|
            0 <= idx < f.len() ==> (#[trigger] f[idx]) == cc_progress_cell(
                meta,
                q,
                lay,
                data,
                nan,
                oldf,
                q.d1(meta) + 1,
                Seq::<usize>::empty(),
                0,
                idx,
            ),
    ensures
        forall|idx: int|
            0 <= idx < f.len() ==> (#[trigger] f[idx]) == cc_done_cell(
                meta,
                q,
                lay,
                data,
                nan,
                oldf,
                idx,
            ),
{
    assert forall|idx: int|
        0 <= idx < f.len() implies (#[trigger] f[idx]) == cc_done_cell(
        meta,
        q,
        lay,
        data,
        nan,
        oldf,
        idx,
    ) by {
        if lay.owns(idx) {
            lemma_owns_inverse(lay, idx);
            crate::mem::lemma_time_to_day(meta, q, lay.t_of(idx));
        }
    }
}

} // verus!

verus! {

/// Random-fetching of temporal column-contiguous data through a fetcher.
///
/// Plans the query, drives every fetch task through `data_getter` (one by
/// one, or day by day when the fetcher batches), and writes the slices
/// back. On success every output position this call owns holds the queried
/// cell (NaN where the day does not list the symbol), and every other
/// position of `flattened` is unchanged.
#[verifier::rlimit(100)]
pub fn column_contiguous<T: Copy, F: Fetcher<T>>(
    c: Option<usize>,
    datetime_start: i64,
    datetime_end: i64,
    datetime_len: i64,
    columns: &Vec<i64>,
    num_ticks_per_day: i64,
    full_index: &Vec<i64>,
    time_idx_to_date_idx: &Vec<i64>,
    date_columns_offset: &Vec<i64>,
    compact_columns: &Vec<i64>,
    columns_indices_getter: &mut CachedGetter,
    data_getter: &F,
    flattened: &mut Vec<T>,
    nan: T,
    out_offset: usize,
    multiplier: Option<i64>,
    offsets: Option<Offsets>,
) -> (r: Result<(), MemError>)
    requires
        ({
            let meta = mk_meta(
                full_index@,
                time_idx_to_date_idx@,
                date_columns_offset@,
                compact_columns@,
                num_ticks_per_day,
            );
            let q = mk_query(datetime_start, datetime_end, datetime_len, columns@);
            let lay = cc_layout(
                out_offset as int,
                datetime_len as int,
                columns@.len() as int,
                multiplier,
                offsets,
            );
            &&& cc_req(meta, q, lay, old(flattened)@.len() as int)
            &&& (offsets is Some ==> multiplier is Some)
            &&& old(columns_indices_getter).wf()
            &&& old(columns_indices_getter).cols() == columns@
            &&& data_getter.multiplier() == lay.m
            &&& data_getter.contents().len() == lay.m * (meta.total_cols() * meta.tpd)
            &&& (forall|args: FetcherArgs|
                cc_valid_args(meta, q, c, args) ==> #[trigger] data_getter.args_ok(args))
        }),
    ensures
        ({
            let meta = mk_meta(
                full_index@,
                time_idx_to_date_idx@,
                date_columns_offset@,
                compact_columns@,
                num_ticks_per_day,
            );
            let q = mk_query(datetime_start, datetime_end, datetime_len, columns@);
            let lay = cc_layout(
                out_offset as int,
                datetime_len as int,
                columns@.len() as int,
                multiplier,
                offsets,
            );
            &&& final(flattened)@.len() == old(flattened)@.len()
            &&& final(columns_indices_getter).wf()
            &&& final(columns_indices_getter).cols() == columns@
            &&& (!q.continuous(meta) ==> r == Result::<(), MemError>::Err(
                MemError::DatetimeIndexNotContinuous,
            ) && final(flattened)@ == old(flattened)@)
            &&& (q.continuous(meta) && data_getter.infallible() ==> r is Ok)
            &&& (r is Ok ==> q.continuous(meta) && (forall|i: int|
                0 <= i < final(flattened)@.len() ==> (#[trigger] final(flattened)@[i])
                    == cc_done_cell(
                    meta,
                    q,
                    lay,
                    data_getter.contents(),
                    nan,
                    old(flattened)@,
                    i,
                )))
        }),
{
    let ghost meta = mk_meta(
        full_index@,
        time_idx_to_date_idx@,
        date_columns_offset@,
        compact_columns@,
        num_ticks_per_day,
    );
    let ghost q = mk_query(datetime_start, datetime_end, datetime_len, columns@);
    let ghost lay = cc_layout(
        out_offset as int,
        datetime_len as int,
        columns@.len() as int,
        multiplier,
        offsets,
    );
    let flat_len = flattened.len();
    proof {
        assert(lay.tm() <= lay.len * lay.tm() && lay.m <= lay.tm() && lay.co <= (lay.co
            + lay.ncols) * lay.len * lay.tm()) by (nonlinear_arith)
            requires
                1 <= lay.len,
                1 <= lay.tm(),
                1 <= lay.m,
                0 <= lay.ps,
                0 <= lay.pe,
                0 <= lay.co,
                0 <= lay.ncols,
                lay.tm() == lay.m + lay.ps + lay.pe,
        ;
    }
    let m: usize = match multiplier {
        None => 1,
        Some(mm) => mm as usize,
    };
    let (ps, pe): (usize, usize) = match &offsets {
        None => (0, 0),
        Some(o) => (o.channel_pad_start as usize, o.channel_pad_end as usize),
    };
    let tm = m + ps + pe;
    let plan = match cc_plan(
        c,
        datetime_start,
        datetime_end,
        datetime_len,
        columns,
        num_ticks_per_day,
        full_index,
        time_idx_to_date_idx,
        date_columns_offset,
        compact_columns,
        columns_indices_getter,
        flattened,
        nan,
        out_offset,
        multiplier,
        offsets,
    ) {
        Ok(p) => p,
        Err(e) => {
            return Err(e);
        },
    };
    let ghost data = data_getter.contents();
    let ghost oldf = old(flattened)@;
    proof {
        lemma_query_days(meta, q);
        lemma_cc_start(meta, q, lay, data, flattened@, oldf, nan);
    }
    let batch = data_getter.can_batch_fetch();
    let n_days = plan.len();
    let mut di: usize = 0;
    while di < n_days
        invariant
            meta == mk_meta(
                full_index@,
                time_idx_to_date_idx@,
                date_columns_offset@,
                compact_columns@,
                num_ticks_per_day,
            ),
            q == mk_query(datetime_start, datetime_end, datetime_len, columns@),
            lay == cc_layout(
                out_offset as int,
                datetime_len as int,
                columns@.len() as int,
                multiplier,
                offsets,
            ),
            cc_req(meta, q, lay, flat_len as int),
            data == data_getter.contents(),
            oldf == old(flattened)@,
            data.len() == lay.m * (meta.total_cols() * meta.tpd),
            data_getter.multiplier() == lay.m,
            forall|args: FetcherArgs|
                cc_valid_args(meta, q, c, args) ==> #[trigger] data_getter.args_ok(args),
            batch == data_getter.batchable(),
            columns_indices_getter.wf(),
            columns_indices_getter.cols() == columns@,
            flattened@.len() == flat_len,
            flattened@.len() == oldf.len(),
            q.continuous(meta),
            m == lay.m,
            ps == lay.ps,
            pe == lay.pe,
            tm == lay.tm(),
            n_days == plan@.len(),
            n_days == q.d1(meta) - q.d0(meta) + 1,
            di <= n_days,
            forall|dd: int|
                0 <= dd < plan@.len() ==> day_plan_ok(
                    meta,
                    q,
                    lay,
                    c,
                    q.d0(meta) + dd,
                    (#[trigger] plan@[dd]).js@,
                    plan@[dd].tasks@,
                    plan@[dd].f_starts@,
                ),
            forall|idx: int|
                0 <= idx < flat_len ==> (#[trigger] flattened@[idx]) == cc_progress_cell(
                    meta,
                    q,
                    lay,
                    data,
                    nan,
                    oldf,
                    q.d0(meta) + di,
                    Seq::<usize>::empty(),
                    0,
                    idx,
                ),
        decreases n_days - di,
    {
        let ghost d = q.d0(meta) + di;
        proof {
            lemma_query_days(meta, q);
            lemma_day_window(meta, q, d);
        }
        let dayp = &plan[di];
        let n_tasks = dayp.tasks.len();
        let ghost js = dayp.js@;
        let ghost tasks = dayp.tasks@;
        let ghost fss = dayp.f_starts@;
        if batch && n_tasks > 0 {
            proof {
                assert forall|x: int| 0 <= x < tasks.len() implies data_getter.args_ok(
                    #[trigger] tasks[x],
                ) by {
                    assert(tasks[x] == cc_task(meta, q, c, d, js[x] as int));
                    assert(cc_valid_args(meta, q, c, tasks[x]));
                }
                assert forall|x: int|
                    0 <= x < tasks.len() implies (#[trigger] tasks[x]).date_idx == tasks[0].date_idx
                    && tasks[x].c == tasks[0].c by {
                    assert(tasks[x] == cc_task(meta, q, c, d, js[x] as int));
                    assert(tasks[0] == cc_task(meta, q, c, d, js[0] as int));
                }
            }
            let vs = match data_getter.batch_fetch(&dayp.tasks) {
                Ok(v) => v,
                Err(e) => {
                    return Err(e);
                },
            };
            let mut ti: usize = 0;
            while ti < n_tasks
                invariant
                    meta == mk_meta(
                        full_index@,
                        time_idx_to_date_idx@,
                        date_columns_offset@,
                        compact_columns@,
                        num_ticks_per_day,
                    ),
                    q == mk_query(datetime_start, datetime_end, datetime_len, columns@),
                    lay == cc_layout(
                        out_offset as int,
                        datetime_len as int,
                        columns@.len() as int,
                        multiplier,
                        offsets,
                    ),
                    cc_req(meta, q, lay, flat_len as int),
                    data.len() == lay.m * (meta.total_cols() * meta.tpd),
                    q.d0(meta) <= d <= q.d1(meta),
                    day_plan_ok(meta, q, lay, c, d, js, tasks, fss),
                    flattened@.len() == flat_len,
                    flattened@.len() == oldf.len(),
                    m == lay.m,
                    ps == lay.ps,
                    tm == lay.tm(),
                    n_tasks == tasks.len(),
                    js == dayp.js@,
                    tasks == dayp.tasks@,
                    fss == dayp.f_starts@,
                    vs@.len() == tasks.len(),
                    forall|x: int|
                        0 <= x < tasks.len() ==> (#[trigger] vs@[x])@ == data.subrange(
                            lay.m * (tasks[x].start_idx as int),
                            lay.m * (tasks[x].end_idx as int),
                        ),
                    ti <= n_tasks,
                    forall|idx: int|
                        0 <= idx < flat_len ==> (#[trigger] flattened@[idx]) == cc_progress_cell(
                            meta,
                            q,
                            lay,
                            data,
                            nan,
                            oldf,
                            d,
                            js,
                            ti as int,
                            idx,
                        ),
                decreases n_tasks - ti,
            {
                let args = &dayp.tasks[ti];
                let win = args.data_len as usize;
                let f_start = dayp.f_starts[ti];
                let ghost pre_fill = flattened@;
                proof {
                    cc_fill_support(meta, q, lay, data, c, d, js, tasks, fss, ti as int);
                }
                let v = &vs[ti];
                proof {
                    assert(v@ == data.subrange(
                        lay.m * (tasks[ti as int].start_idx as int),
                        lay.m * (tasks[ti as int].end_idx as int),
                    ));
                    assert(v@.len() == lay.m * (tasks[ti as int].end_idx as int) - lay.m * (
                    tasks[ti as int].start_idx as int));
                    assert(win == q.day_t1(meta, d) - q.day_t0(meta, d));
                    assert(v@.len() == win * m);
                    assert(f_start == fss[ti as int]);
                }
                fill_data(flattened, f_start, v, win, m, tm, ps);
                proof {
                    lemma_cc_fill_task(
                        meta,
                        q,
                        lay,
                        data,
                        c,
                        d,
                        js,
                        tasks,
                        fss,
                        ti as int,
                        v@,
                        pre_fill,
                        flattened@,
                        oldf,
                        nan,
                    );
                }
                ti = ti + 1;
            }
            proof {
                lemma_cc_day_done(meta, q, lay, data, c, d, js, tasks, fss, flattened@, oldf, nan);
            }
        } else {
            let mut ti: usize = 0;
            while ti < n_tasks
                invariant
                    meta == mk_meta(
                        full_index@,
                        time_idx_to_date_idx@,
                        date_columns_offset@,
                        compact_columns@,
                        num_ticks_per_day,
                    ),
                    q == mk_query(datetime_start, datetime_end, datetime_len, columns@),
                    lay == cc_layout(
                        out_offset as int,
                        datetime_len as int,
                        columns@.len() as int,
                        multiplier,
                        offsets,
                    ),
                    cc_req(meta, q, lay, flat_len as int),
                    data == data_getter.contents(),
                    data.len() == lay.m * (meta.total_cols() * meta.tpd),
                    data_getter.multiplier() == lay.m,
                    forall|args: FetcherArgs|
                        cc_valid_args(meta, q, c, args) ==> #[trigger] data_getter.args_ok(args),
                    !data_getter.batchable() || n_tasks == 0,
                    q.continuous(meta),
                    columns_indices_getter.wf(),
                    columns_indices_getter.cols() == columns@,
                    q.d0(meta) <= d <= q.d1(meta),
                    day_plan_ok(meta, q, lay, c, d, js, tasks, fss),
                    flattened@.len() == flat_len,
                    flattened@.len() == oldf.len(),
                    oldf == old(flattened)@,
                    m == lay.m,
                    ps == lay.ps,
                    tm == lay.tm(),
                    n_tasks == tasks.len(),
                    js == dayp.js@,
                    tasks == dayp.tasks@,
                    fss == dayp.f_starts@,
                    ti <= n_tasks,
                    forall|idx: int|
                        0 <= idx < flat_len ==> (#[trigger] flattened@[idx]) == cc_progress_cell(
                            meta,
                            q,
                            lay,
                            data,
                            nan,
                            oldf,
                            d,
                            js,
                            ti as int,
                            idx,
                        ),
                decreases n_tasks - ti,
            {
                let args = &dayp.tasks[ti];
                proof {
                    assert(tasks[ti as int] == cc_task(meta, q, c, d, js[ti as int] as int));
                    assert(cc_valid_args(meta, q, c, tasks[ti as int]));
                }
                let v = match data_getter.fetch(args) {
                    Ok(v) => v,
                    Err(e) => {
                        return Err(e);
                    },
                };
                let win = args.data_len as usize;
                let f_start = dayp.f_starts[ti];
                let ghost pre_fill = flattened@;
                proof {
                    cc_fill_support(meta, q, lay, data, c, d, js, tasks, fss, ti as int);
                    assert(v@ == data.subrange(
                        lay.m * (tasks[ti as int].start_idx as int),
                        lay.m * (tasks[ti as int].end_idx as int),
                    ));
                    assert(v@.len() == lay.m * (tasks[ti as int].end_idx as int) - lay.m * (
                    tasks[ti as int].start_idx as int));
                    assert(win == q.day_t1(meta, d) - q.day_t0(meta, d));
                    assert(v@.len() == win * m);
                    assert(f_start == fss[ti as int]);
                }
                fill_data(flattened, f_start, &v, win, m, tm, ps);
                proof {
                    lemma_cc_fill_task(
                        meta,
                        q,
                        lay,
                        data,
                        c,
                        d,
                        js,
                        tasks,
                        fss,
                        ti as int,
                        v@,
                        pre_fill,
                        flattened@,
                        oldf,
                        nan,
                    );
                }
                ti = ti + 1;
            }
            proof {
                lemma_cc_day_done(meta, q, lay, data, c, d, js, tasks, fss, flattened@, oldf, nan);
            }
        }
        di = di + 1;
    }
    proof {
        lemma_cc_finish(meta, q, lay, data, flattened@, oldf, nan);
    }
    Ok(())
}

/// Exec-facing bounds of task `ti` of a day plan: the window size, the
/// output base, and the fetched slice, all within their buffers.
proof fn cc_fill_support<T>(
    meta: MemMeta,
    q: MemQuery,
    lay: CcLayout,
    data: Seq<T>,
    c: Option<usize>,
    d: int,
    js: Seq<usize>,
    tasks: Seq<FetcherArgs>,
    fs: Seq<usize>,
    ti: int,
)
    requires
        cc_ctx(meta, q, lay, data),
        q.d0(meta) <= d <= q.d1(meta),
        day_plan_ok(meta, q, lay, c, d, js, tasks, fs),
        0 <= ti < js.len(),
    ensures
        ({
            let t0 = q.day_t0(meta, d);
            let win = q.day_t1(meta, d) - t0;
            let j = js[ti] as int;
            &&& 1 <= win <= meta.tpd
            &&& tasks[ti].data_len as int == win
            &&& 0 <= tasks[ti].start_idx as int
            &&& tasks[ti].start_idx as int <= tasks[ti].end_idx as int
            &&& tasks[ti].end_idx as int - tasks[ti].start_idx as int == win
            &&& lay.m * (tasks[ti].end_idx as int) <= data.len()
            &&& 0 <= lay.m * (tasks[ti].start_idx as int)
            &&& lay.m * (tasks[ti].end_idx as int) - lay.m * (tasks[ti].start_idx as int) == win
                * lay.m
            &&& fs[ti] as int == cc_f_base(lay, q.cum_t(meta, d), j)
            &&& fs[ti] + win * lay.tm() <= lay.hi()
            &&& win * lay.m <= win * lay.tm()
            &&& win <= meta.total_cols() * meta.tpd
        }),
{
    let t0 = q.day_t0(meta, d);
    let t1 = q.day_t1(meta, d);
    let win = t1 - t0;
    let j = js[ti] as int;
    let pos = meta.pos_of(d, q.columns[j]);
    lemma_day_window(meta, q, d);
    lemma_query_days(meta, q);
    lemma_off_lower(meta, d);
    lemma_off_lower(meta, d + 1);
    crate::array::lemma_lower_bound_props(meta.day_cols(d), q.columns[j]);
    assert(tasks[ti] == cc_task(meta, q, c, d, j));
    let ds = (meta.off[d] + pos) * meta.tpd;
    assert(ds + meta.tpd <= meta.total_cols() * meta.tpd && 0 <= ds) by (nonlinear_arith)
        requires
            0 <= meta.off[d],
            0 <= pos,
            meta.off[d] + pos < meta.off[d + 1] <= meta.total_cols(),
            ds == (meta.off[d] + pos) * meta.tpd,
            1 <= meta.tpd,
    ;
    crate::mem::lemma_off_at_least(meta, meta.n_days());
    assert(meta.tpd <= meta.total_cols() * meta.tpd) by (nonlinear_arith)
        requires
            1 <= meta.total_cols(),
            1 <= meta.tpd,
    ;
    assert(lay.m * (ds + t0) >= 0 && lay.m * (ds + t1) <= lay.m * (meta.total_cols() * meta.tpd)
        && lay.m * (ds + t1) - lay.m * (ds + t0) == win * lay.m && win * lay.m <= win * lay.tm())
        by (nonlinear_arith)
        requires
            0 <= ds,
            0 <= t0 < t1 <= meta.tpd,
            win == t1 - t0,
            ds + meta.tpd <= meta.total_cols() * meta.tpd,
            1 <= lay.m,
            lay.m <= lay.tm(),
    ;
    lemma_f_base_bound(lay, q.cum_t(meta, d), win, j);
}

} // verus!

verus! {

/// Bounds of one valid task's compact-data slice.
pub proof fn lemma_cc_task_bounds(meta: MemMeta, q: MemQuery, c: Option<usize>, d: int, j: int)
    requires
        meta.wf(),
        q.wf(meta),
        q.d0(meta) <= d <= q.d1(meta),
        0 <= j < q.columns.len(),
        meta.hit(d, q.columns[j]),
    ensures
        ({
            let task = cc_task(meta, q, c, d, j);
            let pos = meta.pos_of(d, q.columns[j]);
            let t0 = q.day_t0(meta, d);
            let t1 = q.day_t1(meta, d);
            &&& task.start_idx as int == (meta.off[d] + pos) * meta.tpd + t0
            &&& task.end_idx as int == (meta.off[d] + pos) * meta.tpd + t1
            &&& task.time_start_idx as int == pos * meta.tpd + t0
            &&& task.time_end_idx as int == pos * meta.tpd + t1
            &&& task.date_idx as int == d
            &&& task.data_len as int == t1 - t0
            &&& 0 <= task.start_idx as int <= task.end_idx as int
            &&& task.end_idx as int <= meta.total_cols() * meta.tpd
            &&& 0 <= task.time_start_idx as int <= task.time_end_idx as int
            &&& 1 <= task.time_end_idx as int
            &&& task.time_end_idx as int <= meta.s_n(d) * meta.tpd
            &&& (meta.off[d] + pos) * meta.tpd == meta.off[d] * meta.tpd + pos * meta.tpd
            &&& 0 <= pos * meta.tpd
            &&& 0 <= meta.off[d] * meta.tpd
        }),
{
    let pos = meta.pos_of(d, q.columns[j]);
    let t0 = q.day_t0(meta, d);
    let t1 = q.day_t1(meta, d);
    lemma_day_window(meta, q, d);
    lemma_query_days(meta, q);
    lemma_off_lower(meta, d);
    lemma_off_lower(meta, d + 1);
    crate::mem::lemma_off_at_least(meta, meta.n_days());
    assert(meta.total_cols() <= meta.total_cols() * meta.tpd) by (nonlinear_arith)
        requires
            0 <= meta.total_cols(),
            1 <= meta.tpd,
    ;
    crate::array::lemma_lower_bound_props(meta.day_cols(d), q.columns[j]);
    assert(0 <= pos < meta.s_n(d));
    assert((meta.off[d] + pos) * meta.tpd + meta.tpd <= meta.total_cols() * meta.tpd && 0 <= (
    meta.off[d] + pos) * meta.tpd && (meta.off[d] + pos) * meta.tpd == meta.off[d] * meta.tpd + pos
        * meta.tpd && 0 <= pos * meta.tpd && 0 <= meta.off[d] * meta.tpd && pos * meta.tpd
        + meta.tpd <= meta.s_n(d) * meta.tpd && meta.s_n(d) * meta.tpd <= meta.total_cols()
        * meta.tpd) by (nonlinear_arith)
        requires
            0 <= meta.off[d],
            0 <= pos,
            pos < meta.s_n(d),
            meta.off[d] + pos < meta.off[d + 1] <= meta.total_cols(),
            meta.s_n(d) == meta.off[d + 1] - meta.off[d],
            1 <= meta.tpd,
    ;
}

/// The per-day buffers of a sliced store concatenate to the whole
/// column-contiguous compact array.
pub proof fn lemma_sliced_prefix<T>(bs: Seq<Seq<T>>, meta: MemMeta, m: int, d: int)
    requires
        meta.wf(),
        1 <= m,
        bs.len() == meta.n_days(),
        forall|dd: int|
            0 <= dd < bs.len() ==> (#[trigger] bs[dd]).len() == m * (meta.s_n(dd) * meta.tpd),
        0 <= d <= meta.n_days(),
    ensures
        crate::fetchers::prefix_len(bs, d) == m * (meta.off[d] * meta.tpd),
    decreases d,
{
    lemma_off_lower(meta, d);
    if d == 0 {
        assert(m * (meta.off[0] * meta.tpd) == 0) by (nonlinear_arith)
            requires
                meta.off[0] == 0,
        ;
    } else {
        lemma_sliced_prefix(bs, meta, m, d - 1);
        assert(crate::fetchers::prefix_len(bs, d) == crate::fetchers::prefix_len(bs, d - 1)
            + bs[d - 1].len());
        assert(m * ((meta.off[d - 1] + meta.s_n(d - 1)) * meta.tpd) == m * (meta.off[d - 1]
            * meta.tpd) + m * (meta.s_n(d - 1) * meta.tpd)) by (nonlinear_arith);
        assert(meta.off[(d - 1) + 1] == meta.off[d - 1] + meta.s_n(d - 1));
    }
}

/// Random-fetching of temporal data from a column-contiguous compact array
/// held in memory. The output is symbol-major: requested column `j`'s cell
/// at time `t` lands at `j * datetime_len + t`.
pub fn shm_column_contiguous<T: Copy>(
    datetime_start: i64,
    datetime_end: i64,
    datetime_len: i64,
    columns: &Vec<i64>,
    num_ticks_per_day: i64,
    full_index: &Vec<i64>,
    time_idx_to_date_idx: &Vec<i64>,
    date_columns_offset: &Vec<i64>,
    compact_columns: &Vec<i64>,
    compact_data: &Vec<T>,
    nan: T,
) -> (r: Result<Vec<T>, MemError>)
    requires
        ({
            let meta = mk_meta(
                full_index@,
                time_idx_to_date_idx@,
                date_columns_offset@,
                compact_columns@,
                num_ticks_per_day,
            );
            let q = mk_query(datetime_start, datetime_end, datetime_len, columns@);
            &&& meta.wf()
            &&& q.wf(meta)
            &&& compact_data@.len() == meta.total_cols() * meta.tpd
            &&& q.columns.len() * q.datetime_len + q.datetime_len <= usize::MAX
        }),
    ensures
        ({
            let meta = mk_meta(
                full_index@,
                time_idx_to_date_idx@,
                date_columns_offset@,
                compact_columns@,
                num_ticks_per_day,
            );
            let q = mk_query(datetime_start, datetime_end, datetime_len, columns@);
            &&& (r is Ok <==> q.continuous(meta))
            &&& (r is Err ==> r == Result::<Vec<T>, MemError>::Err(
                MemError::DatetimeIndexNotContinuous,
            ))
            &&& (match r {
                Result::Ok(v) => {
                    &&& v@.len() == q.columns.len() * q.datetime_len
                    &&& (forall|j: int, t: int|
                        0 <= j < q.columns.len() && 0 <= t < q.datetime_len ==> v@[j
                            * q.datetime_len + t] == crate::mem::cc_cell(
                            meta,
                            q,
                            compact_data@,
                            nan,
                            1,
                            t,
                            j,
                            0,
                        ))
                },
                Result::Err(_) => true,
            })
        }),
{
    let ghost meta = mk_meta(
        full_index@,
        time_idx_to_date_idx@,
        date_columns_offset@,
        compact_columns@,
        num_ticks_per_day,
    );
    let ghost q = mk_query(datetime_start, datetime_end, datetime_len, columns@);
    let ghost lay = cc_layout(
        0,
        datetime_len as int,
        columns@.len() as int,
        None,
        None,
    );
    let data_len = compact_data.len();
    proof {
        crate::array::lemma_lower_bound_props(full_index@, datetime_start);
        assert(lay.hi() == q.columns.len() * q.datetime_len) by (nonlinear_arith)
            requires
                lay.hi() == (0 + lay.ncols) * lay.len * 1,
                lay.ncols == q.columns.len(),
                lay.len == q.datetime_len,
        ;
        assert(meta.total_cols() * meta.tpd <= lay.m * (meta.total_cols() * meta.tpd))
            by (nonlinear_arith)
            requires
                lay.m == 1,
        ;
    }
    let ncols = columns.len();
    let dlen = datetime_len as usize;
    let mut flattened = filled(ncols * dlen, nan);
    let fetcher = SHMFetcher::new(compact_data);
    let mut getter = CachedGetter::new(columns);
    proof {
        assert forall|args: FetcherArgs|
            cc_valid_args(meta, q, None, args) implies #[trigger] fetcher.args_ok(args) by {
            let (d, j): (int, int) = choose|d: int, j: int|
                q.d0(meta) <= d <= q.d1(meta) && 0 <= j < q.columns.len() && #[trigger] cc_task(
                    meta,
                    q,
                    None,
                    d,
                    j,
                ) == args && meta.hit(d, q.columns[j]);
            lemma_cc_task_bounds(meta, q, None, d, j);
        }
    }
    let rr = column_contiguous(
        None,
        datetime_start,
        datetime_end,
        datetime_len,
        columns,
        num_ticks_per_day,
        full_index,
        time_idx_to_date_idx,
        date_columns_offset,
        compact_columns,
        &mut getter,
        &fetcher,
        &mut flattened,
        nan,
        0,
        None,
        None,
    );
    match rr {
        Ok(_) => {
            proof {
                assert forall|j: int, t: int|
                    0 <= j < q.columns.len() && 0 <= t < q.datetime_len implies flattened@[j
                    * q.datetime_len + t] == crate::mem::cc_cell(
                    meta,
                    q,
                    compact_data@,
                    nan,
                    1,
                    t,
                    j,
                    0,
                ) by {
                    lemma_out_index(lay, j, t, 0);
                    assert(lay.out_index(j, t, 0) == j * q.datetime_len + t) by (nonlinear_arith)
                        requires
                            lay.out_index(j, t, 0) == 0 + ((j + 0) * lay.len + t) * 1 + 0 + 0,
                            lay.len == q.datetime_len,
                    ;
                }
            }
            Ok(flattened)
        },
        Err(e) => Err(e),
    }
}

} // verus!

verus! {

/// Random-fetching of temporal data from per-day column-contiguous
/// buffers, optionally `multiplier` channel values per cell. The output is
/// symbol-major: column `j`, time `t`, channel `k` lands at
/// `(j * datetime_len + t) * m + k`.
pub fn shm_sliced_column_contiguous<T: Copy>(
    datetime_start: i64,
    datetime_end: i64,
    datetime_len: i64,
    columns: &Vec<i64>,
    num_ticks_per_day: i64,
    full_index: &Vec<i64>,
    time_idx_to_date_idx: &Vec<i64>,
    date_columns_offset: &Vec<i64>,
    compact_columns: &Vec<i64>,
    sliced_data: &Vec<Vec<T>>,
    multiplier: Option<i64>,
    nan: T,
) -> (r: Result<Vec<T>, MemError>)
    requires
        ({
            let meta = mk_meta(
                full_index@,
                time_idx_to_date_idx@,
                date_columns_offset@,
                compact_columns@,
                num_ticks_per_day,
            );
            let q = mk_query(datetime_start, datetime_end, datetime_len, columns@);
            let m = cc_layout(0, datetime_len as int, columns@.len() as int, multiplier, None).m;
            &&& meta.wf()
            &&& q.wf(meta)
            &&& 1 <= m
            &&& sliced_data@.len() == meta.n_days()
            &&& (forall|dd: int|
                0 <= dd < sliced_data@.len() ==> (#[trigger] sliced_data@[dd])@.len() == m * (
                meta.s_n(dd) * meta.tpd))
            &&& q.columns.len() * q.datetime_len * m + q.datetime_len * m <= usize::MAX
            &&& meta.total_cols() * meta.tpd <= usize::MAX
            &&& m * (meta.total_cols() * meta.tpd) <= i64::MAX
        }),
    ensures
        ({
            let meta = mk_meta(
                full_index@,
                time_idx_to_date_idx@,
                date_columns_offset@,
                compact_columns@,
                num_ticks_per_day,
            );
            let q = mk_query(datetime_start, datetime_end, datetime_len, columns@);
            let m = cc_layout(0, datetime_len as int, columns@.len() as int, multiplier, None).m;
            let data = crate::fetchers::flat_of(crate::fetchers::bufs_views(sliced_data@));
            &&& (r is Ok <==> q.continuous(meta))
            &&& (r is Err ==> r == Result::<Vec<T>, MemError>::Err(
                MemError::DatetimeIndexNotContinuous,
            ))
            &&& (match r {
                Result::Ok(v) => {
                    &&& v@.len() == q.columns.len() * q.datetime_len * m
                    &&& (forall|j: int, t: int, k: int|
                        0 <= j < q.columns.len() && 0 <= t < q.datetime_len && 0 <= k < m
                            ==> v@[(j * q.datetime_len + t) * m + k] == crate::mem::cc_cell(
                            meta,
                            q,
                            data,
                            nan,
                            m,
                            t,
                            j,
                            k,
                        ))
                },
                Result::Err(_) => true,
            })
        }),
{
    let ghost meta = mk_meta(
        full_index@,
        time_idx_to_date_idx@,
        date_columns_offset@,
        compact_columns@,
        num_ticks_per_day,
    );
    let ghost q = mk_query(datetime_start, datetime_end, datetime_len, columns@);
    let ghost lay = cc_layout(0, datetime_len as int, columns@.len() as int, multiplier, None);
    let ghost bs = crate::fetchers::bufs_views(sliced_data@);
    let ghost data = crate::fetchers::flat_of(bs);
    let n_index = full_index.len();
    proof {
        crate::array::lemma_lower_bound_props(full_index@, datetime_start);
        assert(1 <= datetime_len as int <= n_index);
        crate::fetchers::lemma_flat_of_len(bs);
        lemma_sliced_prefix(bs, meta, lay.m, meta.n_days());
        assert(data.len() == lay.m * (meta.total_cols() * meta.tpd)) by (nonlinear_arith)
            requires
                data.len() == lay.m * (meta.off[meta.n_days()] * meta.tpd),
                meta.off[meta.n_days()] == meta.total_cols(),
        ;
        assert(lay.hi() == q.columns.len() * q.datetime_len * lay.m && lay.len * lay.tm()
            == q.datetime_len * lay.m) by (nonlinear_arith)
            requires
                lay.hi() == (0 + lay.ncols) * lay.len * lay.tm(),
                lay.ncols == q.columns.len(),
                lay.len == q.datetime_len,
                lay.tm() == lay.m + 0 + 0,
        ;
        assert(meta.total_cols() * meta.tpd <= lay.m * (meta.total_cols() * meta.tpd))
            by (nonlinear_arith)
            requires
                1 <= lay.m,
                0 <= meta.total_cols() * meta.tpd,
        ;
    }
    let ncols = columns.len();
    let dlen = datetime_len as usize;
    let m: usize = match multiplier {
        None => 1,
        Some(mm) => {
            proof {
                assert(lay.m <= lay.len * lay.m && 0 <= lay.ncols * lay.len * lay.m)
                    by (nonlinear_arith)
                    requires
                        1 <= lay.m,
                        0 <= lay.ncols,
                        1 <= lay.len,
                ;
            }
            mm as usize
        },
    };
    proof {
        assert(m == lay.m);
        assert(ncols * dlen <= ncols * dlen * m && 0 <= dlen * m && m <= dlen * m && 0 <= ncols
            * dlen * m) by (nonlinear_arith)
            requires
                1 <= m,
                0 <= ncols,
                1 <= dlen,
        ;
        assert(ncols * dlen * m + dlen * m <= usize::MAX);
    }
    let mut flattened = filled(ncols * dlen * m, nan);
    let fetcher = SlicedSHMFetcher::new(sliced_data, multiplier);
    let mut getter = CachedGetter::new(columns);
    proof {
        assert(fetcher.multiplier() == lay.m);
        assert(fetcher.contents() == data);
        assert forall|args: FetcherArgs|
            cc_valid_args(meta, q, None, args) implies #[trigger] fetcher.args_ok(args) by {
            let (d, j): (int, int) = choose|d: int, j: int|
                q.d0(meta) <= d <= q.d1(meta) && 0 <= j < q.columns.len() && #[trigger] cc_task(
                    meta,
                    q,
                    None,
                    d,
                    j,
                ) == args && meta.hit(d, q.columns[j]);
            lemma_query_days(meta, q);
            crate::mem::lemma_day_in_range(meta, q.time_end(meta));
            lemma_cc_task_bounds(meta, q, None, d, j);
            lemma_sliced_prefix(bs, meta, lay.m, d);
            assert(args.time_end_idx as int <= meta.s_n(d) * meta.tpd);
            assert(lay.m * (args.time_end_idx as int) <= lay.m * (meta.s_n(d) * meta.tpd)
                && lay.m * (args.start_idx as int) == lay.m * (meta.off[d] * meta.tpd) + lay.m
                * (args.time_start_idx as int)) by (nonlinear_arith)
                requires
                    1 <= lay.m,
                    args.time_end_idx as int <= meta.s_n(d) * meta.tpd,
                    args.start_idx as int == meta.off[d] * meta.tpd + args.time_start_idx as int,
            ;
            assert(bs[d].len() == lay.m * (meta.s_n(d) * meta.tpd));
        }
    }
    let rr = column_contiguous(
        None,
        datetime_start,
        datetime_end,
        datetime_len,
        columns,
        num_ticks_per_day,
        full_index,
        time_idx_to_date_idx,
        date_columns_offset,
        compact_columns,
        &mut getter,
        &fetcher,
        &mut flattened,
        nan,
        0,
        multiplier,
        None,
    );
    match rr {
        Ok(_) => {
            proof {
                assert forall|j: int, t: int, k: int|
                    0 <= j < q.columns.len() && 0 <= t < q.datetime_len && 0 <= k
                    < lay.m implies flattened@[(j * q.datetime_len + t) * lay.m + k]
                    == crate::mem::cc_cell(meta, q, data, nan, lay.m, t, j, k) by {
                    lemma_out_index(lay, j, t, k);
                    assert(lay.out_index(j, t, k) == (j * q.datetime_len + t) * lay.m + k)
                        by (nonlinear_arith)
                        requires
                            lay.out_index(j, t, k) == 0 + ((j + 0) * lay.len + t) * lay.tm() + 0
                                + k,
                            lay.len == q.datetime_len,
                            lay.tm() == lay.m + 0 + 0,
                    ;
                }
            }
            Ok(flattened)
        },
        Err(e) => Err(e),
    }
}

/// Random-fetching of temporal data from a row-contiguous compact array
/// held in memory. The output is time-major: time `t`'s cell of requested
/// column `j` lands at `t * columns.len() + j`.
pub fn shm_row_contiguous<T: Copy>(
    datetime_start: i64,
    datetime_end: i64,
    datetime_len: i64,
    columns: &Vec<i64>,
    num_ticks_per_day: i64,
    full_index: &Vec<i64>,
    time_idx_to_date_idx: &Vec<i64>,
    date_columns_offset: &Vec<i64>,
    compact_columns: &Vec<i64>,
    compact_data: &Vec<T>,
    nan: T,
) -> (r: Result<Vec<T>, MemError>)
    requires
        ({
            let meta = mk_meta(
                full_index@,
                time_idx_to_date_idx@,
                date_columns_offset@,
                compact_columns@,
                num_ticks_per_day,
            );
            let q = mk_query(datetime_start, datetime_end, datetime_len, columns@);
            &&& meta.wf()
            &&& q.wf(meta)
            &&& compact_data@.len() == meta.total_cols() * meta.tpd
            &&& q.datetime_len * q.columns.len() <= usize::MAX
        }),
    ensures
        ({
            let meta = mk_meta(
                full_index@,
                time_idx_to_date_idx@,
                date_columns_offset@,
                compact_columns@,
                num_ticks_per_day,
            );
            let q = mk_query(datetime_start, datetime_end, datetime_len, columns@);
            &&& (r is Ok <==> q.continuous(meta))
            &&& (r is Err ==> r == Result::<Vec<T>, MemError>::Err(
                MemError::DatetimeIndexNotContinuous,
            ))
            &&& (match r {
                Result::Ok(v) => {
                    &&& v@.len() == q.datetime_len * q.columns.len()
                    &&& (forall|t: int, j: int|
                        0 <= t < q.datetime_len && 0 <= j < q.columns.len() ==> v@[t
                            * q.columns.len() + j] == crate::mem::rc_cell(
                            meta,
                            q,
                            compact_data@,
                            nan,
                            t,
                            j,
                        ))
                },
                Result::Err(_) => true,
            })
        }),
{
    let n_index = full_index.len();
    proof {
        crate::array::lemma_lower_bound_props(full_index@, datetime_start);
        assert(1 <= datetime_len as int <= n_index);
    }
    let dlen = datetime_len as usize;
    let ncols = columns.len();
    let mut flattened = filled(dlen * ncols, nan);
    let rr = crate::mem::row_contiguous(
        datetime_start,
        datetime_end,
        datetime_len,
        columns,
        num_ticks_per_day,
        full_index,
        time_idx_to_date_idx,
        date_columns_offset,
        compact_columns,
        compact_data,
        &mut flattened,
        nan,
    );
    match rr {
        Ok(_) => Ok(flattened),
        Err(e) => Err(e),
    }
}

} // verus!

verus! {

/// Copy one task's finished output into its region of the shared batch
/// output.
pub(crate) fn write_region<T: Copy>(out: &mut Vec<T>, offset: usize, v: &Vec<T>) -> (r: ())
    requires
        offset + v@.len() <= old(out)@.len(),
    ensures
        final(out)@.len() == old(out)@.len(),
        forall|i: int| 0 <= i < v@.len() ==> final(out)@[offset + i] == #[trigger] v@[i],
        forall|i: int|
            0 <= i < old(out)@.len() && !(offset <= i < offset + v@.len()) ==> final(out)@[i]
                == old(out)@[i],
{
    let n = v.len();
    let out_len = out.len();
    let mut i: usize = 0;
    while i < n
        invariant
            offset + n <= out@.len(),
            out@.len() == out_len,
            out@.len() == old(out)@.len(),
            n == v@.len(),
            i <= n,
            forall|x: int| 0 <= x < i ==> out@[offset + x] == #[trigger] v@[x],
            forall|x: int|
                0 <= x < old(out)@.len() && !(offset <= x < offset + n) ==> out@[x] == old(out)@[x],
        decreases n - i,
    {
        let idx = offset + i;
        out[idx] = v[i];
        i = i + 1;
    }
}

/// A batched version of `shm_column_contiguous`: `B` queries over `C`
/// backing stores, the `(b, c)` result standing at region
/// `(b * C + c) * datetime_len * ncols`. The work runs task by task; the
/// worker-pool size hint does not change the result.
pub fn shm_batch_column_contiguous<T: Copy>(
    datetime_start: &Vec<i64>,
    datetime_end: &Vec<i64>,
    datetime_len: i64,
    columns: &Vec<Vec<i64>>,
    num_ticks_per_day: i64,
    full_index: &Vec<Vec<i64>>,
    time_idx_to_date_idx: &Vec<Vec<i64>>,
    date_columns_offset: &Vec<Vec<i64>>,
    compact_columns: &Vec<Vec<i64>>,
    compact_data: &Vec<Vec<T>>,
    num_threads: usize,
    nan: T,
) -> (r: Result<Vec<T>, MemError>)
    requires
        ({
            let nb = datetime_start@.len();
            let nc = compact_data@.len();
            &&& nb >= 1
            &&& nc >= 1
            &&& datetime_end@.len() == nb
            &&& columns@.len() == nb
            &&& full_index@.len() == nc
            &&& time_idx_to_date_idx@.len() == nc
            &&& date_columns_offset@.len() == nc
            &&& compact_columns@.len() == nc
            &&& (forall|b: int|
                0 <= b < nb ==> (#[trigger] columns@[b])@.len() == columns@[0]@.len())
            &&& (forall|c: int|
                {
                    let meta = mk_meta(
                        (#[trigger] full_index@[c])@,
                        time_idx_to_date_idx@[c]@,
                        date_columns_offset@[c]@,
                        compact_columns@[c]@,
                        num_ticks_per_day,
                    );
                    0 <= c < nc ==> meta.wf() && compact_data@[c]@.len() == meta.total_cols()
                        * meta.tpd
                })
            &&& (forall|b: int, c: int|
                0 <= b < nb && 0 <= c < nc ==> (#[trigger] mk_query(
                    datetime_start@[b],
                    datetime_end@[b],
                    datetime_len,
                    columns@[b]@,
                )).wf(
                    mk_meta(
                        (#[trigger] full_index@[c])@,
                        time_idx_to_date_idx@[c]@,
                        date_columns_offset@[c]@,
                        compact_columns@[c]@,
                        num_ticks_per_day,
                    ),
                ))
            &&& nb * nc * (columns@[0]@.len() * (datetime_len as int)) + columns@[0]@.len() * (
            datetime_len as int) <= usize::MAX
            &&& nb * nc <= usize::MAX
        }),
    ensures
        ({
            let nb = datetime_start@.len();
            let nc = compact_data@.len();
            let npt = columns@[0]@.len() * (datetime_len as int);
            &&& (r is Ok <==> (forall|b: int, c: int|
                0 <= b < nb && 0 <= c < nc ==> (#[trigger] mk_query(
                    datetime_start@[b],
                    datetime_end@[b],
                    datetime_len,
                    columns@[b]@,
                )).continuous(
                    mk_meta(
                        (#[trigger] full_index@[c])@,
                        time_idx_to_date_idx@[c]@,
                        date_columns_offset@[c]@,
                        compact_columns@[c]@,
                        num_ticks_per_day,
                    ),
                )))
            &&& (r is Err ==> r == Result::<Vec<T>, MemError>::Err(
                MemError::DatetimeIndexNotContinuous,
            ))
            &&& (match r {
                Result::Ok(v) => {
                    &&& v@.len() == nb * nc * npt
                    &&& (forall|b: int, c: int, j: int, t: int|
                        0 <= b < nb && 0 <= c < nc && 0 <= j < columns@[0]@.len() && 0 <= t
                            < datetime_len as int ==> #[trigger] v@[(b * nc + c) * npt + j * (
                        datetime_len as int) + t] == crate::mem::cc_cell(
                            mk_meta(
                                full_index@[c]@,
                                time_idx_to_date_idx@[c]@,
                                date_columns_offset@[c]@,
                                compact_columns@[c]@,
                                num_ticks_per_day,
                            ),
                            #[trigger] mk_query(
                                datetime_start@[b],
                                datetime_end@[b],
                                datetime_len,
                                columns@[b]@,
                            ),
                            compact_data@[c]@,
                            nan,
                            1,
                            t,
                            j,
                            0,
                        ))
                },
                Result::Err(_) => true,
            })
        }),
{
    let nb = datetime_start.len();
    let nc = compact_data.len();
    let ncols = columns[0].len();
    let ghost q0 = mk_query(datetime_start@[0], datetime_end@[0], datetime_len, columns@[0]@);
    let ghost meta0 = mk_meta(
        full_index@[0]@,
        time_idx_to_date_idx@[0]@,
        date_columns_offset@[0]@,
        compact_columns@[0]@,
        num_ticks_per_day,
    );
    let n_index0 = full_index[0].len();
    proof {
        crate::array::lemma_lower_bound_props(full_index@[0]@, datetime_start@[0]);
        assert(1 <= datetime_len as int <= n_index0);
    }
    let dlen = datetime_len as usize;
    let npt = ncols * dlen;
    proof {
        assert(npt <= nb * nc * npt && 0 <= nb * nc * npt && nb * nc * npt <= nb * nc * npt + npt
            && (nb * nc) * npt == nb * nc * npt) by (nonlinear_arith)
            requires
                1 <= nb,
                1 <= nc,
                0 <= npt,
        ;
    }
    let total = nb * nc;
    let mut out = filled(total * npt, nan);
    let ghost npt_i = columns@[0]@.len() * (datetime_len as int);
    let mut c: usize = 0;
    while c < nc
        invariant
            nb == datetime_start@.len(),
            nc == compact_data@.len(),
            ncols == columns@[0]@.len(),
            1 <= nb,
            1 <= nc,
            datetime_end@.len() == nb,
            columns@.len() == nb,
            full_index@.len() == nc,
            time_idx_to_date_idx@.len() == nc,
            date_columns_offset@.len() == nc,
            compact_columns@.len() == nc,
            forall|b: int| 0 <= b < nb ==> (#[trigger] columns@[b])@.len() == ncols,
            forall|cc0: int|
                {
                    let meta = mk_meta(
                        (#[trigger] full_index@[cc0])@,
                        time_idx_to_date_idx@[cc0]@,
                        date_columns_offset@[cc0]@,
                        compact_columns@[cc0]@,
                        num_ticks_per_day,
                    );
                    0 <= cc0 < nc ==> meta.wf() && compact_data@[cc0]@.len() == meta.total_cols()
                        * meta.tpd
                },
            forall|b: int, cc0: int|
                0 <= b < nb && 0 <= cc0 < nc ==> (#[trigger] mk_query(
                    datetime_start@[b],
                    datetime_end@[b],
                    datetime_len,
                    columns@[b]@,
                )).wf(
                    mk_meta(
                        (#[trigger] full_index@[cc0])@,
                        time_idx_to_date_idx@[cc0]@,
                        date_columns_offset@[cc0]@,
                        compact_columns@[cc0]@,
                        num_ticks_per_day,
                    ),
                ),
            dlen == datetime_len as int,
            1 <= dlen,
            npt == ncols * dlen,
            npt_i == npt,
            total == nb * nc,
            out@.len() == total * npt,
            nb * nc * npt + npt <= usize::MAX,
            c <= nc,
            forall|b: int, cc0: int, j: int, t: int|
                0 <= b < nb && 0 <= cc0 < c && 0 <= j < ncols && 0 <= t < dlen
                    ==> #[trigger] out@[(b * nc + cc0) * npt_i + j * (datetime_len as int) + t]
                    == crate::mem::cc_cell(
                    mk_meta(
                        full_index@[cc0]@,
                        time_idx_to_date_idx@[cc0]@,
                        date_columns_offset@[cc0]@,
                        compact_columns@[cc0]@,
                        num_ticks_per_day,
                    ),
                    #[trigger] mk_query(
                        datetime_start@[b],
                        datetime_end@[b],
                        datetime_len,
                        columns@[b]@,
                    ),
                    compact_data@[cc0]@,
                    nan,
                    1,
                    t,
                    j,
                    0,
                ),
            forall|b: int, cc0: int|
                0 <= b < nb && 0 <= cc0 < c ==> (#[trigger] mk_query(
                    datetime_start@[b],
                    datetime_end@[b],
                    datetime_len,
                    columns@[b]@,
                )).continuous(
                    mk_meta(
                        (#[trigger] full_index@[cc0])@,
                        time_idx_to_date_idx@[cc0]@,
                        date_columns_offset@[cc0]@,
                        compact_columns@[cc0]@,
                        num_ticks_per_day,
                    ),
                ),
        decreases nc - c,
    {
        let mut b: usize = 0;
        while b < nb
            invariant
                nb == datetime_start@.len(),
                nc == compact_data@.len(),
                ncols == columns@[0]@.len(),
                1 <= nb,
                1 <= nc,
                datetime_end@.len() == nb,
                columns@.len() == nb,
                full_index@.len() == nc,
                time_idx_to_date_idx@.len() == nc,
                date_columns_offset@.len() == nc,
                compact_columns@.len() == nc,
                forall|b0: int| 0 <= b0 < nb ==> (#[trigger] columns@[b0])@.len() == ncols,
                forall|cc0: int|
                    {
                        let meta = mk_meta(
                            (#[trigger] full_index@[cc0])@,
                            time_idx_to_date_idx@[cc0]@,
                            date_columns_offset@[cc0]@,
                            compact_columns@[cc0]@,
                            num_ticks_per_day,
                        );
                        0 <= cc0 < nc ==> meta.wf() && compact_data@[cc0]@.len()
                            == meta.total_cols() * meta.tpd
                    },
                forall|b0: int, cc0: int|
                    0 <= b0 < nb && 0 <= cc0 < nc ==> (#[trigger] mk_query(
                        datetime_start@[b0],
                        datetime_end@[b0],
                        datetime_len,
                        columns@[b0]@,
                    )).wf(
                        mk_meta(
                            (#[trigger] full_index@[cc0])@,
                            time_idx_to_date_idx@[cc0]@,
                            date_columns_offset@[cc0]@,
                            compact_columns@[cc0]@,
                            num_ticks_per_day,
                        ),
                    ),
                dlen == datetime_len as int,
                1 <= dlen,
                npt == ncols * dlen,
                npt_i == npt,
                total == nb * nc,
                out@.len() == total * npt,
                nb * nc * npt + npt <= usize::MAX,
                c < nc,
                b <= nb,
                forall|b0: int, cc0: int, j: int, t: int|
                    0 <= b0 < nb && 0 <= cc0 < c && 0 <= j < ncols && 0 <= t < dlen
                        ==> #[trigger] out@[(b0 * nc + cc0) * npt_i + j * (datetime_len as int)
                        + t] == crate::mem::cc_cell(
                        mk_meta(
                            full_index@[cc0]@,
                            time_idx_to_date_idx@[cc0]@,
                            date_columns_offset@[cc0]@,
                            compact_columns@[cc0]@,
                            num_ticks_per_day,
                        ),
                        #[trigger] mk_query(
                            datetime_start@[b0],
                            datetime_end@[b0],
                            datetime_len,
                            columns@[b0]@,
                        ),
                        compact_data@[cc0]@,
                        nan,
                        1,
                        t,
                        j,
                        0,
                    ),
                forall|b0: int, j: int, t: int|
                    0 <= b0 < b && 0 <= j < ncols && 0 <= t < dlen ==> #[trigger] out@[(b0 * nc
                        + c) * npt_i + j * (datetime_len as int) + t] == crate::mem::cc_cell(
                        mk_meta(
                            full_index@[c as int]@,
                            time_idx_to_date_idx@[c as int]@,
                            date_columns_offset@[c as int]@,
                            compact_columns@[c as int]@,
                            num_ticks_per_day,
                        ),
                        #[trigger] mk_query(
                            datetime_start@[b0],
                            datetime_end@[b0],
                            datetime_len,
                            columns@[b0]@,
                        ),
                        compact_data@[c as int]@,
                        nan,
                        1,
                        t,
                        j,
                        0,
                    ),
                forall|b0: int, cc0: int|
                    0 <= b0 < nb && 0 <= cc0 < c ==> (#[trigger] mk_query(
                        datetime_start@[b0],
                        datetime_end@[b0],
                        datetime_len,
                        columns@[b0]@,
                    )).continuous(
                        mk_meta(
                            (#[trigger] full_index@[cc0])@,
                            time_idx_to_date_idx@[cc0]@,
                            date_columns_offset@[cc0]@,
                            compact_columns@[cc0]@,
                            num_ticks_per_day,
                        ),
                    ),
                forall|b0: int|
                    0 <= b0 < b ==> (#[trigger] mk_query(
                        datetime_start@[b0],
                        datetime_end@[b0],
                        datetime_len,
                        columns@[b0]@,
                    )).continuous(
                        mk_meta(
                            full_index@[c as int]@,
                            time_idx_to_date_idx@[c as int]@,
                            date_columns_offset@[c as int]@,
                            compact_columns@[c as int]@,
                            num_ticks_per_day,
                        ),
                    ),
            decreases nb - b,
        {
            let ghost metac = mk_meta(
                full_index@[c as int]@,
                time_idx_to_date_idx@[c as int]@,
                date_columns_offset@[c as int]@,
                compact_columns@[c as int]@,
                num_ticks_per_day,
            );
            let ghost qb = mk_query(
                datetime_start@[b as int],
                datetime_end@[b as int],
                datetime_len,
                columns@[b as int]@,
            );
            proof {
                assert(ncols * dlen + dlen <= usize::MAX) by (nonlinear_arith)
                    requires
                        npt == ncols * dlen,
                        1 <= nb,
                        1 <= nc,
                        0 <= ncols,
                        1 <= dlen,
                        dlen <= usize::MAX,
                        nb * nc * npt + npt <= usize::MAX,
                ;
            }
            let v = match shm_column_contiguous(
                datetime_start[b],
                datetime_end[b],
                datetime_len,
                &columns[b],
                num_ticks_per_day,
                &full_index[c],
                &time_idx_to_date_idx[c],
                &date_columns_offset[c],
                &compact_columns[c],
                &compact_data[c],
                nan,
            ) {
                Ok(v) => v,
                Err(e) => {
                    return Err(e);
                },
            };
            proof {
                assert((b * nc + c) * npt_i + npt_i <= nb * nc * npt_i && 0 <= (b * nc + c)
                    * npt_i && b * nc + c < nb * nc) by (nonlinear_arith)
                    requires
                        0 <= b < nb,
                        0 <= c < nc,
                        0 <= npt_i,
                ;
            }
            let offset = (b * nc + c) * npt;
            proof {
                assert(v@.len() == npt_i) by (nonlinear_arith)
                    requires
                        v@.len() == qb.columns.len() * qb.datetime_len,
                        qb.columns.len() == ncols,
                        qb.datetime_len == dlen,
                        npt_i == ncols * dlen,
                ;
            }
            let ghost pre_out = out@;
            write_region(&mut out, offset, &v);
            proof {
                assert forall|b0: int, j: int, t: int|
                    0 <= b0 < b + 1 && 0 <= j < ncols && 0 <= t
                    < dlen implies #[trigger] out@[(b0 * nc + c) * npt_i + j * (
                datetime_len as int) + t] == crate::mem::cc_cell(
                    metac,
                    mk_query(
                        datetime_start@[b0],
                        datetime_end@[b0],
                        datetime_len,
                        columns@[b0]@,
                    ),
                    compact_data@[c as int]@,
                    nan,
                    1,
                    t,
                    j,
                    0,
                ) by {
                    assert(0 <= j * (datetime_len as int) + t < npt_i && j * dlen + t < npt_i)
                        by (nonlinear_arith)
                        requires
                            0 <= j < ncols,
                            0 <= t < dlen,
                            npt_i == ncols * dlen,
                            dlen == datetime_len as int,
                    ;
                    if b0 == b {
                        assert(out@[offset + (j * (datetime_len as int) + t)] == v@[j * (
                        datetime_len as int) + t]);
                        assert((b0 * nc + c) * npt_i + j * (datetime_len as int) + t == offset + (
                        j * (datetime_len as int) + t));
                    } else {
                        let pos = (b0 * nc + c) * npt_i + j * (datetime_len as int) + t;
                        assert(!(offset <= pos < offset + npt_i) && 0 <= pos < nb * nc * npt_i)
                            by (nonlinear_arith)
                            requires
                                pos == (b0 * nc + c) * npt_i + j * (datetime_len as int) + t,
                                offset == (b * nc + c) * npt_i,
                                0 <= b0 < b,
                                b < nb,
                                0 <= c < nc,
                                0 <= j * (datetime_len as int) + t < npt_i,
                                t < datetime_len as int,
                                dlen == datetime_len as int,
                        ;
                    }
                }
                assert forall|b0: int, cc0: int, j: int, t: int|
                    0 <= b0 < nb && 0 <= cc0 < c && 0 <= j < ncols && 0 <= t
                    < dlen implies #[trigger] out@[(b0 * nc + cc0) * npt_i + j * (
                datetime_len as int) + t] == crate::mem::cc_cell(
                    mk_meta(
                        full_index@[cc0]@,
                        time_idx_to_date_idx@[cc0]@,
                        date_columns_offset@[cc0]@,
                        compact_columns@[cc0]@,
                        num_ticks_per_day,
                    ),
                    #[trigger] mk_query(
                        datetime_start@[b0],
                        datetime_end@[b0],
                        datetime_len,
                        columns@[b0]@,
                    ),
                    compact_data@[cc0]@,
                    nan,
                    1,
                    t,
                    j,
                    0,
                ) by {
                    let pos = (b0 * nc + cc0) * npt_i + j * (datetime_len as int) + t;
                    assert(mk_query(
                        datetime_start@[b0],
                        datetime_end@[b0],
                        datetime_len,
                        columns@[b0]@,
                    ) == mk_query(
                        datetime_start@[b0],
                        datetime_end@[b0],
                        datetime_len,
                        columns@[b0]@,
                    ));
                    assert(0 <= j * (datetime_len as int) + t < npt_i) by (nonlinear_arith)
                        requires
                            0 <= j < ncols,
                            0 <= t < dlen,
                            npt_i == ncols * dlen,
                            dlen == datetime_len as int,
                    ;
                    assert(!(offset <= pos < offset + npt_i) && 0 <= pos < nb * nc * npt_i)
                        by (nonlinear_arith)
                        requires
                            pos == (b0 * nc + cc0) * npt_i + j * (datetime_len as int) + t,
                            offset == (b * nc + c) * npt_i,
                            0 <= b0 < nb,
                            0 <= cc0 < c,
                            c < nc,
                            0 <= b < nb,
                            1 <= nc,
                            0 <= j * (datetime_len as int) + t < npt_i,
                    ;
                    assert(out@[pos] == pre_out[pos]);
                }
            }
            b = b + 1;
        }
        c = c + 1;
    }
    Ok(out)
}

} // verus!

verus! {

/// A batched version of `shm_sliced_column_contiguous`: `B` queries over
/// `C` per-day buffer lists, one channel value per cell, the `(b, c)`
/// result standing at region `(b * C + c) * datetime_len * ncols`.
pub fn shm_batch_sliced_column_contiguous<T: Copy>(
    datetime_start: &Vec<i64>,
    datetime_end: &Vec<i64>,
    datetime_len: i64,
    columns: &Vec<Vec<i64>>,
    num_ticks_per_day: i64,
    full_index: &Vec<Vec<i64>>,
    time_idx_to_date_idx: &Vec<Vec<i64>>,
    date_columns_offset: &Vec<Vec<i64>>,
    compact_columns: &Vec<Vec<i64>>,
    sliced_data: &Vec<Vec<Vec<T>>>,
    num_threads: usize,
    nan: T,
) -> (r: Result<Vec<T>, MemError>)
    requires
        ({
            let nb = datetime_start@.len();
            let nc = sliced_data@.len();
            &&& nb >= 1
            &&& nc >= 1
            &&& datetime_end@.len() == nb
            &&& columns@.len() == nb
            &&& full_index@.len() == nc
            &&& time_idx_to_date_idx@.len() == nc
            &&& date_columns_offset@.len() == nc
            &&& compact_columns@.len() == nc
            &&& (forall|b: int|
                0 <= b < nb ==> (#[trigger] columns@[b])@.len() == columns@[0]@.len())
            &&& (forall|c: int|
                {
                    let meta = mk_meta(
                        (#[trigger] full_index@[c])@,
                        time_idx_to_date_idx@[c]@,
                        date_columns_offset@[c]@,
                        compact_columns@[c]@,
                        num_ticks_per_day,
                    );
                    0 <= c < nc ==> meta.wf() && sliced_data@[c]@.len() == meta.n_days() && (
                    forall|dd: int|
                        0 <= dd < sliced_data@[c]@.len() ==> (#[trigger] sliced_data@[c]@[dd])@.len()
                            == meta.s_n(dd) * meta.tpd) && meta.total_cols() * meta.tpd
                        <= usize::MAX
                })
            &&& (forall|b: int, c: int|
                0 <= b < nb && 0 <= c < nc ==> (#[trigger] mk_query(
                    datetime_start@[b],
                    datetime_end@[b],
                    datetime_len,
                    columns@[b]@,
                )).wf(
                    mk_meta(
                        (#[trigger] full_index@[c])@,
                        time_idx_to_date_idx@[c]@,
                        date_columns_offset@[c]@,
                        compact_columns@[c]@,
                        num_ticks_per_day,
                    ),
                ))
            &&& nb * nc * (columns@[0]@.len() * (datetime_len as int)) + columns@[0]@.len() * (
            datetime_len as int) <= usize::MAX
            &&& nb * nc <= usize::MAX
        }),
    ensures
        ({
            let nb = datetime_start@.len();
            let nc = sliced_data@.len();
            let npt = columns@[0]@.len() * (datetime_len as int);
            &&& (r is Ok <==> (forall|b: int, c: int|
                0 <= b < nb && 0 <= c < nc ==> (#[trigger] mk_query(
                    datetime_start@[b],
                    datetime_end@[b],
                    datetime_len,
                    columns@[b]@,
                )).continuous(
                    mk_meta(
                        (#[trigger] full_index@[c])@,
                        time_idx_to_date_idx@[c]@,
                        date_columns_offset@[c]@,
                        compact_columns@[c]@,
                        num_ticks_per_day,
                    ),
                )))
            &&& (r is Err ==> r == Result::<Vec<T>, MemError>::Err(
                MemError::DatetimeIndexNotContinuous,
            ))
            &&& (match r {
                Result::Ok(v) => {
                    &&& v@.len() == nb * nc * npt
                    &&& (forall|b: int, c: int, j: int, t: int|
                        0 <= b < nb && 0 <= c < nc && 0 <= j < columns@[0]@.len() && 0 <= t
                            < datetime_len as int ==> #[trigger] v@[(b * nc + c) * npt + j * (
                        datetime_len as int) + t] == crate::mem::cc_cell(
                            mk_meta(
                                full_index@[c]@,
                                time_idx_to_date_idx@[c]@,
                                date_columns_offset@[c]@,
                                compact_columns@[c]@,
                                num_ticks_per_day,
                            ),
                            mk_query(
                                datetime_start@[b],
                                datetime_end@[b],
                                datetime_len,
                                columns@[b]@,
                            ),
                            crate::fetchers::flat_of(
                                crate::fetchers::bufs_views(sliced_data@[c]@),
                            ),
                            nan,
                            1,
                            t,
                            j,
                            0,
                        ))
                },
                Result::Err(_) => true,
            })
        }),
{
    let nb = datetime_start.len();
    let nc = sliced_data.len();
    let ncols = columns[0].len();
    let ghost q0 = mk_query(datetime_start@[0], datetime_end@[0], datetime_len, columns@[0]@);
    let ghost meta0 = mk_meta(
        full_index@[0]@,
        time_idx_to_date_idx@[0]@,
        date_columns_offset@[0]@,
        compact_columns@[0]@,
        num_ticks_per_day,
    );
    let n_index0 = full_index[0].len();
    proof {
        crate::array::lemma_lower_bound_props(full_index@[0]@, datetime_start@[0]);
        assert(1 <= datetime_len as int <= n_index0);
    }
    let dlen = datetime_len as usize;
    let npt = ncols * dlen;
    proof {
        assert(npt <= nb * nc * npt && 0 <= nb * nc * npt && nb * nc * npt <= nb * nc * npt + npt
            && (nb * nc) * npt == nb * nc * npt) by (nonlinear_arith)
            requires
                1 <= nb,
                1 <= nc,
                0 <= npt,
        ;
    }
    let total = nb * nc;
    let mut out = filled(total * npt, nan);
    let ghost npt_i = columns@[0]@.len() * (datetime_len as int);
    let mut c: usize = 0;
    while c < nc
        invariant
            nb == datetime_start@.len(),
            nc == sliced_data@.len(),
            ncols == columns@[0]@.len(),
            1 <= nb,
            1 <= nc,
            datetime_end@.len() == nb,
            columns@.len() == nb,
            full_index@.len() == nc,
            time_idx_to_date_idx@.len() == nc,
            date_columns_offset@.len() == nc,
            compact_columns@.len() == nc,
            forall|b: int| 0 <= b < nb ==> (#[trigger] columns@[b])@.len() == ncols,
            forall|cc0: int|
                {
                    let meta = mk_meta(
                        (#[trigger] full_index@[cc0])@,
                        time_idx_to_date_idx@[cc0]@,
                        date_columns_offset@[cc0]@,
                        compact_columns@[cc0]@,
                        num_ticks_per_day,
                    );
                    0 <= cc0 < nc ==> meta.wf() && sliced_data@[cc0]@.len() == meta.n_days() && (
                    forall|dd: int|
                        0 <= dd < sliced_data@[cc0]@.len() ==> (
                        #[trigger] sliced_data@[cc0]@[dd])@.len() == meta.s_n(dd) * meta.tpd)
                        && meta.total_cols() * meta.tpd <= usize::MAX
                },
            forall|b: int, cc0: int|
                0 <= b < nb && 0 <= cc0 < nc ==> (#[trigger] mk_query(
                    datetime_start@[b],
                    datetime_end@[b],
                    datetime_len,
                    columns@[b]@,
                )).wf(
                    mk_meta(
                        (#[trigger] full_index@[cc0])@,
                        time_idx_to_date_idx@[cc0]@,
                        date_columns_offset@[cc0]@,
                        compact_columns@[cc0]@,
                        num_ticks_per_day,
                    ),
                ),
            dlen == datetime_len as int,
            1 <= dlen,
            npt == ncols * dlen,
            npt_i == npt,
            total == nb * nc,
            out@.len() == total * npt,
            nb * nc * npt + npt <= usize::MAX,
            c <= nc,
            forall|b: int, cc0: int, j: int, t: int|
                0 <= b < nb && 0 <= cc0 < c && 0 <= j < ncols && 0 <= t < dlen
                    ==> #[trigger] out@[(b * nc + cc0) * npt_i + j * (datetime_len as int) + t]
                    == crate::mem::cc_cell(
                    mk_meta(
                        full_index@[cc0]@,
                        time_idx_to_date_idx@[cc0]@,
                        date_columns_offset@[cc0]@,
                        compact_columns@[cc0]@,
                        num_ticks_per_day,
                    ),
                    mk_query(
                        datetime_start@[b],
                        datetime_end@[b],
                        datetime_len,
                        columns@[b]@,
                    ),
                    crate::fetchers::flat_of(crate::fetchers::bufs_views(sliced_data@[cc0]@)),
                    nan,
                    1,
                    t,
                    j,
                    0,
                ),
            forall|b: int, cc0: int|
                0 <= b < nb && 0 <= cc0 < c ==> (#[trigger] mk_query(
                    datetime_start@[b],
                    datetime_end@[b],
                    datetime_len,
                    columns@[b]@,
                )).continuous(
                    mk_meta(
                        (#[trigger] full_index@[cc0])@,
                        time_idx_to_date_idx@[cc0]@,
                        date_columns_offset@[cc0]@,
                        compact_columns@[cc0]@,
                        num_ticks_per_day,
                    ),
                ),
        decreases nc - c,
    {
        let mut b: usize = 0;
        while b < nb
            invariant
                nb == datetime_start@.len(),
                nc == sliced_data@.len(),
                ncols == columns@[0]@.len(),
                1 <= nb,
                1 <= nc,
                datetime_end@.len() == nb,
                columns@.len() == nb,
                full_index@.len() == nc,
                time_idx_to_date_idx@.len() == nc,
                date_columns_offset@.len() == nc,
                compact_columns@.len() == nc,
                forall|b0: int| 0 <= b0 < nb ==> (#[trigger] columns@[b0])@.len() == ncols,
                forall|cc0: int|
                    {
                        let meta = mk_meta(
                            (#[trigger] full_index@[cc0])@,
                            time_idx_to_date_idx@[cc0]@,
                            date_columns_offset@[cc0]@,
                            compact_columns@[cc0]@,
                            num_ticks_per_day,
                        );
                        0 <= cc0 < nc ==> meta.wf() && sliced_data@[cc0]@.len() == meta.n_days()
                            && (forall|dd: int|
                            0 <= dd < sliced_data@[cc0]@.len() ==> (
                            #[trigger] sliced_data@[cc0]@[dd])@.len() == meta.s_n(dd) * meta.tpd)
                            && meta.total_cols() * meta.tpd <= usize::MAX
                    },
                forall|b0: int, cc0: int|
                    0 <= b0 < nb && 0 <= cc0 < nc ==> (#[trigger] mk_query(
                        datetime_start@[b0],
                        datetime_end@[b0],
                        datetime_len,
                        columns@[b0]@,
                    )).wf(
                        mk_meta(
                            (#[trigger] full_index@[cc0])@,
                            time_idx_to_date_idx@[cc0]@,
                            date_columns_offset@[cc0]@,
                            compact_columns@[cc0]@,
                            num_ticks_per_day,
                        ),
                    ),
                dlen == datetime_len as int,
                1 <= dlen,
                npt == ncols * dlen,
                npt_i == npt,
                total == nb * nc,
                out@.len() == total * npt,
                nb * nc * npt + npt <= usize::MAX,
                c < nc,
                b <= nb,
                forall|b0: int, cc0: int, j: int, t: int|
                    0 <= b0 < nb && 0 <= cc0 < c && 0 <= j < ncols && 0 <= t < dlen
                        ==> #[trigger] out@[(b0 * nc + cc0) * npt_i + j * (datetime_len as int)
                        + t] == crate::mem::cc_cell(
                        mk_meta(
                            full_index@[cc0]@,
                            time_idx_to_date_idx@[cc0]@,
                            date_columns_offset@[cc0]@,
                            compact_columns@[cc0]@,
                            num_ticks_per_day,
                        ),
                        mk_query(
                            datetime_start@[b0],
                            datetime_end@[b0],
                            datetime_len,
                            columns@[b0]@,
                        ),
                        crate::fetchers::flat_of(crate::fetchers::bufs_views(sliced_data@[cc0]@)),
                        nan,
                        1,
                        t,
                        j,
                        0,
                    ),
                forall|b0: int, j: int, t: int|
                    0 <= b0 < b && 0 <= j < ncols && 0 <= t < dlen ==> #[trigger] out@[(b0 * nc
                        + c) * npt_i + j * (datetime_len as int) + t] == crate::mem::cc_cell(
                        mk_meta(
                            full_index@[c as int]@,
                            time_idx_to_date_idx@[c as int]@,
                            date_columns_offset@[c as int]@,
                            compact_columns@[c as int]@,
                            num_ticks_per_day,
                        ),
                        mk_query(
                            datetime_start@[b0],
                            datetime_end@[b0],
                            datetime_len,
                            columns@[b0]@,
                        ),
                        crate::fetchers::flat_of(
                            crate::fetchers::bufs_views(sliced_data@[c as int]@),
                        ),
                        nan,
                        1,
                        t,
                        j,
                        0,
                    ),
                forall|b0: int, cc0: int|
                    0 <= b0 < nb && 0 <= cc0 < c ==> (#[trigger] mk_query(
                        datetime_start@[b0],
                        datetime_end@[b0],
                        datetime_len,
                        columns@[b0]@,
                    )).continuous(
                        mk_meta(
                            (#[trigger] full_index@[cc0])@,
                            time_idx_to_date_idx@[cc0]@,
                            date_columns_offset@[cc0]@,
                            compact_columns@[cc0]@,
                            num_ticks_per_day,
                        ),
                    ),
                forall|b0: int|
                    0 <= b0 < b ==> (#[trigger] mk_query(
                        datetime_start@[b0],
                        datetime_end@[b0],
                        datetime_len,
                        columns@[b0]@,
                    )).continuous(
                        mk_meta(
                            full_index@[c as int]@,
                            time_idx_to_date_idx@[c as int]@,
                            date_columns_offset@[c as int]@,
                            compact_columns@[c as int]@,
                            num_ticks_per_day,
                        ),
                    ),
            decreases nb - b,
        {
            let ghost metac = mk_meta(
                full_index@[c as int]@,
                time_idx_to_date_idx@[c as int]@,
                date_columns_offset@[c as int]@,
                compact_columns@[c as int]@,
                num_ticks_per_day,
            );
            let ghost qb = mk_query(
                datetime_start@[b as int],
                datetime_end@[b as int],
                datetime_len,
                columns@[b as int]@,
            );
            proof {
                assert(ncols * dlen * 1 == npt_i && ncols * dlen * 1 + dlen * 1 <= usize::MAX)
                    by (nonlinear_arith)
                    requires
                        npt_i == ncols * dlen,
                        1 <= nb,
                        1 <= nc,
                        0 <= ncols,
                        1 <= dlen,
                        dlen <= usize::MAX,
                        nb * nc * npt_i + npt_i <= usize::MAX,
                ;
                assert(metac.total_cols() * metac.tpd <= 1 * (metac.total_cols() * metac.tpd)
                    && metac.total_cols() * metac.tpd <= i64::MAX) by (nonlinear_arith)
                    requires
                        metac.compact_columns.len() * metac.tpd <= i64::MAX,
                        metac.total_cols() == metac.compact_columns.len(),
                ;
                assert forall|dd: int|
                    0 <= dd < sliced_data@[c as int]@.len() implies (
                #[trigger] sliced_data@[c as int]@[dd])@.len() == 1 * (metac.s_n(dd)
                    * metac.tpd) by {
                    assert(sliced_data@[c as int]@[dd]@.len() == metac.s_n(dd) * metac.tpd);
                }
            }
            let v = match shm_sliced_column_contiguous(
                datetime_start[b],
                datetime_end[b],
                datetime_len,
                &columns[b],
                num_ticks_per_day,
                &full_index[c],
                &time_idx_to_date_idx[c],
                &date_columns_offset[c],
                &compact_columns[c],
                &sliced_data[c],
                None,
                nan,
            ) {
                Ok(v) => v,
                Err(e) => {
                    return Err(e);
                },
            };
            proof {
                assert((b * nc + c) * npt_i + npt_i <= nb * nc * npt_i && 0 <= (b * nc + c)
                    * npt_i && b * nc + c < nb * nc) by (nonlinear_arith)
                    requires
                        0 <= b < nb,
                        0 <= c < nc,
                        0 <= npt_i,
                ;
                assert(v@.len() == npt_i) by (nonlinear_arith)
                    requires
                        v@.len() == qb.columns.len() * qb.datetime_len * 1,
                        qb.columns.len() == ncols,
                        qb.datetime_len == dlen,
                        npt_i == ncols * dlen,
                ;
            }
            let offset = (b * nc + c) * npt;
            let ghost pre_out = out@;
            write_region(&mut out, offset, &v);
            proof {
                let ghost datac = crate::fetchers::flat_of(
                    crate::fetchers::bufs_views(sliced_data@[c as int]@),
                );
                assert forall|b0: int, j: int, t: int|
                    0 <= b0 < b + 1 && 0 <= j < ncols && 0 <= t
                    < dlen implies #[trigger] out@[(b0 * nc + c) * npt_i + j * (
                datetime_len as int) + t] == crate::mem::cc_cell(
                    metac,
                    mk_query(
                        datetime_start@[b0],
                        datetime_end@[b0],
                        datetime_len,
                        columns@[b0]@,
                    ),
                    datac,
                    nan,
                    1,
                    t,
                    j,
                    0,
                ) by {
                    assert(0 <= j * (datetime_len as int) + t < npt_i && (j * dlen + t) * 1 == j
                        * dlen + t) by (nonlinear_arith)
                        requires
                            0 <= j < ncols,
                            0 <= t < dlen,
                            npt_i == ncols * dlen,
                            dlen == datetime_len as int,
                    ;
                    if b0 == b {
                        assert(v@[(j * (datetime_len as int) + t) * 1 + 0] == crate::mem::cc_cell(
                            metac,
                            qb,
                            datac,
                            nan,
                            1,
                            t,
                            j,
                            0,
                        ));
                        assert(out@[offset + (j * (datetime_len as int) + t)] == v@[j * (
                        datetime_len as int) + t]);
                        assert((j * (datetime_len as int) + t) * 1 + 0 == j * (
                        datetime_len as int) + t);
                        assert((b0 * nc + c) * npt_i + j * (datetime_len as int) + t == offset + (
                        j * (datetime_len as int) + t));
                    } else {
                        let pos = (b0 * nc + c) * npt_i + j * (datetime_len as int) + t;
                        assert(!(offset <= pos < offset + npt_i) && 0 <= pos < nb * nc * npt_i)
                            by (nonlinear_arith)
                            requires
                                pos == (b0 * nc + c) * npt_i + j * (datetime_len as int) + t,
                                offset == (b * nc + c) * npt_i,
                                0 <= b0 < b,
                                b < nb,
                                0 <= c < nc,
                                1 <= nc,
                                0 <= j * (datetime_len as int) + t < npt_i,
                        ;
                    }
                }
                assert forall|b0: int, cc0: int, j: int, t: int|
                    0 <= b0 < nb && 0 <= cc0 < c && 0 <= j < ncols && 0 <= t
                    < dlen implies #[trigger] out@[(b0 * nc + cc0) * npt_i + j * (
                datetime_len as int) + t] == crate::mem::cc_cell(
                    mk_meta(
                        full_index@[cc0]@,
                        time_idx_to_date_idx@[cc0]@,
                        date_columns_offset@[cc0]@,
                        compact_columns@[cc0]@,
                        num_ticks_per_day,
                    ),
                    mk_query(
                        datetime_start@[b0],
                        datetime_end@[b0],
                        datetime_len,
                        columns@[b0]@,
                    ),
                    crate::fetchers::flat_of(crate::fetchers::bufs_views(sliced_data@[cc0]@)),
                    nan,
                    1,
                    t,
                    j,
                    0,
                ) by {
                    let pos = (b0 * nc + cc0) * npt_i + j * (datetime_len as int) + t;
                    assert(0 <= j * (datetime_len as int) + t < npt_i) by (nonlinear_arith)
                        requires
                            0 <= j < ncols,
                            0 <= t < dlen,
                            npt_i == ncols * dlen,
                            dlen == datetime_len as int,
                    ;
                    assert(!(offset <= pos < offset + npt_i) && 0 <= pos < nb * nc * npt_i)
                        by (nonlinear_arith)
                        requires
                            pos == (b0 * nc + cc0) * npt_i + j * (datetime_len as int) + t,
                            offset == (b * nc + c) * npt_i,
                            0 <= b0 < nb,
                            0 <= cc0 < c,
                            c < nc,
                            0 <= b < nb,
                            1 <= nc,
                            0 <= j * (datetime_len as int) + t < npt_i,
                    ;
                    assert(out@[pos] == pre_out[pos]);
                }
            }
            b = b + 1;
        }
        c = c + 1;
    }
    Ok(out)
}

} // verus!

verus! {

/// A batched and grouped version of `shm_sliced_column_contiguous`: `B`
/// queries over one list of per-day buffers, each cell `num_groups`
/// channel values wide; query `b`'s result stands at region
/// `b * datetime_len * ncols * num_groups`.
pub fn shm_batch_grouped_sliced_column_contiguous<T: Copy>(
    datetime_start: &Vec<i64>,
    datetime_end: &Vec<i64>,
    datetime_len: i64,
    columns: &Vec<Vec<i64>>,
    num_ticks_per_day: i64,
    full_index: &Vec<i64>,
    time_idx_to_date_idx: &Vec<i64>,
    date_columns_offset: &Vec<i64>,
    compact_columns: &Vec<i64>,
    sliced_data: &Vec<Vec<T>>,
    num_threads: usize,
    num_groups: i64,
    nan: T,
) -> (r: Result<Vec<T>, MemError>)
    requires
        ({
            let nb = datetime_start@.len();
            let meta = mk_meta(
                full_index@,
                time_idx_to_date_idx@,
                date_columns_offset@,
                compact_columns@,
                num_ticks_per_day,
            );
            let m = num_groups as int;
            let npt = columns@[0]@.len() * (datetime_len as int) * m;
            &&& nb >= 1
            &&& 1 <= m
            &&& datetime_end@.len() == nb
            &&& columns@.len() == nb
            &&& meta.wf()
            &&& sliced_data@.len() == meta.n_days()
            &&& (forall|dd: int|
                0 <= dd < sliced_data@.len() ==> (#[trigger] sliced_data@[dd])@.len() == m * (
                meta.s_n(dd) * meta.tpd))
            &&& (forall|b: int|
                0 <= b < nb ==> (#[trigger] columns@[b])@.len() == columns@[0]@.len())
            &&& (forall|b: int|
                0 <= b < nb ==> (#[trigger] mk_query(
                    datetime_start@[b],
                    datetime_end@[b],
                    datetime_len,
                    columns@[b]@,
                )).wf(meta))
            &&& meta.total_cols() * meta.tpd <= usize::MAX
            &&& m * (meta.total_cols() * meta.tpd) <= i64::MAX
            &&& nb * npt + npt + (datetime_len as int) * m <= usize::MAX
        }),
    ensures
        ({
            let nb = datetime_start@.len();
            let meta = mk_meta(
                full_index@,
                time_idx_to_date_idx@,
                date_columns_offset@,
                compact_columns@,
                num_ticks_per_day,
            );
            let m = num_groups as int;
            let npt = columns@[0]@.len() * (datetime_len as int) * m;
            let data = crate::fetchers::flat_of(crate::fetchers::bufs_views(sliced_data@));
            &&& (r is Ok <==> (forall|b: int|
                0 <= b < nb ==> (#[trigger] mk_query(
                    datetime_start@[b],
                    datetime_end@[b],
                    datetime_len,
                    columns@[b]@,
                )).continuous(meta)))
            &&& (r is Err ==> r == Result::<Vec<T>, MemError>::Err(
                MemError::DatetimeIndexNotContinuous,
            ))
            &&& (match r {
                Result::Ok(v) => {
                    &&& v@.len() == nb * npt
                    &&& (forall|b: int, j: int, t: int, k: int|
                        0 <= b < nb && 0 <= j < columns@[0]@.len() && 0 <= t < datetime_len as int
                            && 0 <= k < m ==> #[trigger] v@[b * npt + (j * (datetime_len as int)
                            + t) * m + k] == crate::mem::cc_cell(
                            meta,
                            mk_query(
                                datetime_start@[b],
                                datetime_end@[b],
                                datetime_len,
                                columns@[b]@,
                            ),
                            data,
                            nan,
                            m,
                            t,
                            j,
                            k,
                        ))
                },
                Result::Err(_) => true,
            })
        }),
{
    let nb = datetime_start.len();
    let ncols = columns[0].len();
    let ghost meta = mk_meta(
        full_index@,
        time_idx_to_date_idx@,
        date_columns_offset@,
        compact_columns@,
        num_ticks_per_day,
    );
    let ghost q0 = mk_query(datetime_start@[0], datetime_end@[0], datetime_len, columns@[0]@);
    let ghost data = crate::fetchers::flat_of(crate::fetchers::bufs_views(sliced_data@));
    let n_index = full_index.len();
    proof {
        crate::array::lemma_lower_bound_props(full_index@, datetime_start@[0]);
        assert(1 <= datetime_len as int <= n_index);
        assert(num_groups as int <= (datetime_len as int) * (num_groups as int))
            by (nonlinear_arith)
            requires
                1 <= datetime_len as int,
                1 <= num_groups as int,
        ;
    }
    let dlen = datetime_len as usize;
    let m = num_groups as usize;
    let ghost npt_i = columns@[0]@.len() * (datetime_len as int) * (num_groups as int);
    proof {
        assert(npt_i <= nb * npt_i && 0 <= nb * npt_i && ncols * dlen <= ncols * dlen * m && 0
            <= ncols * dlen) by (nonlinear_arith)
            requires
                1 <= nb,
                0 <= npt_i,
                1 <= m,
                0 <= ncols,
                0 <= dlen,
                npt_i == ncols * dlen * m,
        ;
    }
    let npt = ncols * dlen * m;
    let mut out = filled(nb * npt, nan);
    let mut b: usize = 0;
    while b < nb
        invariant
            nb == datetime_start@.len(),
            ncols == columns@[0]@.len(),
            1 <= nb,
            datetime_end@.len() == nb,
            columns@.len() == nb,
            meta == mk_meta(
                full_index@,
                time_idx_to_date_idx@,
                date_columns_offset@,
                compact_columns@,
                num_ticks_per_day,
            ),
            meta.wf(),
            data == crate::fetchers::flat_of(crate::fetchers::bufs_views(sliced_data@)),
            sliced_data@.len() == meta.n_days(),
            forall|dd: int|
                0 <= dd < sliced_data@.len() ==> (#[trigger] sliced_data@[dd])@.len() == (
                num_groups as int) * (meta.s_n(dd) * meta.tpd),
            forall|b0: int| 0 <= b0 < nb ==> (#[trigger] columns@[b0])@.len() == ncols,
            forall|b0: int|
                0 <= b0 < nb ==> (#[trigger] mk_query(
                    datetime_start@[b0],
                    datetime_end@[b0],
                    datetime_len,
                    columns@[b0]@,
                )).wf(meta),
            meta.total_cols() * meta.tpd <= usize::MAX,
            (num_groups as int) * (meta.total_cols() * meta.tpd) <= i64::MAX,
            dlen == datetime_len as int,
            1 <= dlen,
            m == num_groups as int,
            1 <= m,
            npt == ncols * dlen * m,
            npt_i == npt,
            out@.len() == nb * npt,
            nb * npt + npt + dlen * m <= usize::MAX,
            b <= nb,
            forall|b0: int, j: int, t: int, k: int|
                0 <= b0 < b && 0 <= j < ncols && 0 <= t < dlen && 0 <= k < m
                    ==> #[trigger] out@[b0 * npt_i + (j * (datetime_len as int) + t) * (
                num_groups as int) + k] == crate::mem::cc_cell(
                    meta,
                    mk_query(
                        datetime_start@[b0],
                        datetime_end@[b0],
                        datetime_len,
                        columns@[b0]@,
                    ),
                    data,
                    nan,
                    num_groups as int,
                    t,
                    j,
                    k,
                ),
            forall|b0: int|
                0 <= b0 < b ==> (#[trigger] mk_query(
                    datetime_start@[b0],
                    datetime_end@[b0],
                    datetime_len,
                    columns@[b0]@,
                )).continuous(meta),
        decreases nb - b,
    {
        let ghost qb = mk_query(
            datetime_start@[b as int],
            datetime_end@[b as int],
            datetime_len,
            columns@[b as int]@,
        );
        proof {
            assert(ncols * dlen * m + dlen * m <= usize::MAX && ncols * dlen * m == npt_i)
                by (nonlinear_arith)
                requires
                    npt_i == ncols * dlen * m,
                    1 <= nb,
                    0 <= ncols,
                    1 <= dlen,
                    1 <= m,
                    dlen * m <= usize::MAX,
                    nb * npt_i + npt_i + dlen * m <= usize::MAX,
            ;
        }
        let v = match shm_sliced_column_contiguous(
            datetime_start[b],
            datetime_end[b],
            datetime_len,
            &columns[b],
            num_ticks_per_day,
            full_index,
            time_idx_to_date_idx,
            date_columns_offset,
            compact_columns,
            sliced_data,
            Some(num_groups),
            nan,
        ) {
            Ok(v) => v,
            Err(e) => {
                return Err(e);
            },
        };
        proof {
            assert(b * npt_i + npt_i <= nb * npt_i && 0 <= b * npt_i) by (nonlinear_arith)
                requires
                    0 <= b < nb,
                    0 <= npt_i,
            ;
            assert(v@.len() == npt_i) by (nonlinear_arith)
                requires
                    v@.len() == qb.columns.len() * qb.datetime_len * (num_groups as int),
                    qb.columns.len() == ncols,
                    qb.datetime_len == dlen,
                    npt_i == ncols * dlen * m,
                    m == num_groups as int,
            ;
        }
        let offset = b * npt;
        let ghost pre_out = out@;
        write_region(&mut out, offset, &v);
        proof {
            assert forall|b0: int, j: int, t: int, k: int|
                0 <= b0 < b + 1 && 0 <= j < ncols && 0 <= t < dlen && 0 <= k
                < m implies #[trigger] out@[b0 * npt_i + (j * (datetime_len as int) + t) * (
            num_groups as int) + k] == crate::mem::cc_cell(
                meta,
                mk_query(
                    datetime_start@[b0],
                    datetime_end@[b0],
                    datetime_len,
                    columns@[b0]@,
                ),
                data,
                nan,
                num_groups as int,
                t,
                j,
                k,
            ) by {
                let cell = (j * (datetime_len as int) + t) * (num_groups as int) + k;
                assert(0 <= cell < npt_i) by (nonlinear_arith)
                    requires
                        cell == (j * (datetime_len as int) + t) * (num_groups as int) + k,
                        0 <= j < ncols,
                        0 <= t < dlen,
                        0 <= k < num_groups as int,
                        npt_i == ncols * dlen * (num_groups as int),
                        dlen == datetime_len as int,
                        1 <= num_groups as int,
                ;
                if b0 == b {
                    assert(out@[offset + cell] == v@[cell]);
                    assert(b0 * npt_i + cell == offset + cell);
                } else {
                    let pos = b0 * npt_i + cell;
                    assert(!(offset <= pos < offset + npt_i) && 0 <= pos < nb * npt_i)
                        by (nonlinear_arith)
                        requires
                            pos == b0 * npt_i + cell,
                            offset == b * npt_i,
                            0 <= b0 < b,
                            b < nb,
                            0 <= cell < npt_i,
                    ;
                    assert(out@[pos] == pre_out[pos]);
                }
            }
        }
        b = b + 1;
    }
    Ok(out)
}

} // verus!

verus! {

/// Running a batched planner twice with identical inputs produces
/// bitwise-equal outputs: the planners' contracts pin every cell of the
/// output, one cell per `(task, column, time)` position, so any two
/// outputs that meet them agree everywhere.
pub proof fn lemma_batch_deterministic<T>(
    v1: Seq<T>,
    v2: Seq<T>,
    n_tasks: int,
    s: int,
    l: int,
)
    requires
        0 <= n_tasks,
        0 <= s,
        1 <= l,
        v1.len() == n_tasks * (s * l),
        v2.len() == v1.len(),
        forall|bc: int, j: int, t: int|
            0 <= bc < n_tasks && 0 <= j < s && 0 <= t < l ==> #[trigger] v1[bc * (s * l) + j * l
                + t] == v2[bc * (s * l) + j * l + t],
    ensures
        v1 == v2,
{
    assert forall|i: int| 0 <= i < v1.len() implies v1[i] == v2[i] by {
        let npt = s * l;
        assert(1 <= npt) by (nonlinear_arith)
            requires
                0 <= s,
                1 <= l,
                0 <= i,
                i < n_tasks * npt,
                npt == s * l,
        ;
        let bc = i / npt;
        let rem = i % npt;
        let j = rem / l;
        let t = rem % l;
        lemma_div_bounds(i, npt);
        lemma_div_bounds(rem, l);
        assert(0 <= bc < n_tasks) by (nonlinear_arith)
            requires
                bc * npt <= i < bc * npt + npt,
                0 <= bc,
                i < n_tasks * npt,
                1 <= npt,
        ;
        assert(0 <= j < s) by (nonlinear_arith)
            requires
                j * l <= rem < j * l + l,
                0 <= j,
                rem < npt,
                npt == s * l,
                1 <= l,
        ;
        assert(i == bc * npt + j * l + t);
        assert(v1[bc * (s * l) + j * l + t] == v2[bc * (s * l) + j * l + t]);
    }
    assert(v1 =~= v2);
}

} // verus!
