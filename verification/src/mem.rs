//! Random-access fetching of temporal (time x symbol) data.
//!
//! The backing store holds one flattened block per day; the blocks are
//! concatenated into a single "compact" array. A query names a half-open
//! datetime range and an ordered set of symbol identifiers; the planner walks
//! the covered days, finds each requested symbol in the day's own (sorted)
//! column set, and assembles a densely packed output, filling the cells of
//! symbols a day does not list with the caller's NaN value.

use vstd::arithmetic::div_mod::lemma_fundamental_div_mod;
use vstd::arithmetic::div_mod::lemma_mod_bound;
use vstd::prelude::*;

use crate::array::lower_bound;
use crate::array::searchsorted;
use crate::array::searchsorted_range;
use crate::array::seq_sorted;
use crate::array::seq_strictly_sorted;

verus! {

/// Errors raised by the fetch planners.
#[derive(Debug, Clone, PartialEq, Eq)]
pub enum MemError {
    /// A free-form error.
    Custom { msg: String },
    /// The requested datetime range does not line up with the backing index.
    DatetimeIndexNotContinuous,
    /// A data getter handed back a view that is not contiguous.
    DataGetterNotContiguous,
}

impl MemError {
    /// A free-form planner error.
    pub fn new(msg: &str) -> (r: MemError)
        ensures
            r matches MemError::Custom { msg: m } && m@ == msg@,
    {
        MemError::Custom { msg: msg.to_string() }
    }

    /// The error reported when the requested range does not line up with the index.
    pub fn datetime_index_not_continuous() -> (r: Result<(), MemError>)
        ensures
            r == Result::<(), MemError>::Err(MemError::DatetimeIndexNotContinuous),
    {
        Err(MemError::DatetimeIndexNotContinuous)
    }

    /// The error reported when a data getter returns non-contiguous data.
    pub fn data_getter_not_contiguous() -> (r: Result<(), MemError>)
        ensures
            r == Result::<(), MemError>::Err(MemError::DataGetterNotContiguous),
    {
        Err(MemError::DataGetterNotContiguous)
    }
}

/// Arguments for one fetch task: a single contiguous slice of the compact data.
///
/// - `c`: index of this planner call within a batch; `None` outside batches.
/// - `start_idx` / `end_idx`: slice bounds within the compact data.
/// - `date_idx`: which day the slice belongs to.
/// - `date_col_idx`: which column of that day the slice reads.
/// - `date_start_idx`: where the day's data starts in the compact data.
/// - `time_start_idx` / `time_end_idx`: slice bounds within the day's data.
/// - `num_ticks_per_day`: ticks per day, constant over all days.
/// - `data_len`: `end_idx - start_idx`, the element count before any multiplier.
#[derive(Debug, Clone)]
pub struct FetcherArgs {
    pub c: Option<usize>,
    pub start_idx: i64,
    pub end_idx: i64,
    pub date_idx: i64,
    pub date_col_idx: i64,
    pub date_start_idx: i64,
    pub time_start_idx: i64,
    pub time_end_idx: i64,
    pub num_ticks_per_day: i64,
    pub data_len: i64,
}

/// Position of one planner call along the channel axis of an interleaved output.
///
/// When several channel groups share one output row, each cell of a group is
/// written `channel_pad_start` channels after the row position's start, and
/// `channel_pad_end` channels of other groups follow it. `column_offset` shifts
/// the group's columns within the full column axis.
#[derive(Debug, Clone)]
pub struct Offsets {
    pub column_offset: i64,
    pub channel_pad_start: i64,
    pub channel_pad_end: i64,
}

impl Default for Offsets {
    /// All offsets zero: a lone planner call writing a plain output.
    fn default() -> (r: Self)
        ensures
            r.column_offset == 0,
            r.channel_pad_start == 0,
            r.channel_pad_end == 0,
    {
        Offsets { column_offset: 0, channel_pad_start: 0, channel_pad_end: 0 }
    }
}

/// The mathematical model of one backing store's metadata.
pub ghost struct MemMeta {
    /// Sorted timestamps of the backing store, `n_days * tpd` of them.
    pub full_index: Seq<i64>,
    /// Day index of each time index; must equal `g / tpd`.
    pub t2d: Seq<i64>,
    /// Cumulative column counts: `off[d]..off[d+1]` are day `d`'s columns.
    pub off: Seq<i64>,
    /// Symbol identifier at each (day, local column) position.
    pub compact_columns: Seq<i64>,
    /// Ticks per day.
    pub tpd: int,
}

impl MemMeta {
    pub open spec fn n_days(self) -> int {
        self.off.len() - 1
    }

    /// Total column count over all days.
    pub open spec fn total_cols(self) -> int {
        self.off[self.off.len() - 1] as int
    }

    /// The sorted symbol identifiers of day `d`.
    pub open spec fn day_cols(self, d: int) -> Seq<i64> {
        self.compact_columns.subrange(self.off[d] as int, self.off[d + 1] as int)
    }

    /// Number of columns of day `d`.
    pub open spec fn s_n(self, d: int) -> int {
        self.off[d + 1] - self.off[d]
    }

    /// Position of symbol `sym` in day `d`'s columns (leftmost insertion point).
    pub open spec fn pos_of(self, d: int, sym: i64) -> int {
        lower_bound(self.day_cols(d), sym)
    }

    /// Whether day `d` lists symbol `sym`.
    pub open spec fn hit(self, d: int, sym: i64) -> bool {
        self.pos_of(d, sym) < self.s_n(d) && self.day_cols(d)[self.pos_of(d, sym)] == sym
    }

    /// Well-formedness of the metadata.
    pub open spec fn wf(self) -> bool {
        &&& 1 <= self.tpd
        &&& 2 <= self.off.len()
        &&& self.off[0] == 0
        &&& (forall|d: int| 0 <= d < self.n_days() ==> self.off[d] < #[trigger] self.off[d + 1])
        &&& self.total_cols() == self.compact_columns.len()
        &&& self.full_index.len() == self.n_days() * self.tpd
        &&& self.t2d.len() == self.full_index.len()
        &&& (forall|g: int| 0 <= g < self.t2d.len() ==> self.t2d[g] == g / self.tpd)
        &&& seq_strictly_sorted(self.full_index)
        &&& (forall|d: int| 0 <= d < self.n_days() ==> seq_sorted(#[trigger] self.day_cols(d)))
        &&& self.compact_columns.len() * self.tpd <= i64::MAX
    }
}

/// The model of the metadata as handed to a planner.
pub open spec fn mk_meta(
    full_index: Seq<i64>,
    t2d: Seq<i64>,
    off: Seq<i64>,
    compact_columns: Seq<i64>,
    tpd: i64,
) -> MemMeta {
    MemMeta { full_index, t2d, off, compact_columns, tpd: tpd as int }
}

/// The mathematical model of one query.
pub ghost struct MemQuery {
    pub datetime_start: i64,
    pub datetime_end: i64,
    pub datetime_len: int,
    pub columns: Seq<i64>,
}

impl MemQuery {
    /// First time index of the query within the backing index.
    pub open spec fn time_start(self, meta: MemMeta) -> int {
        lower_bound(meta.full_index, self.datetime_start)
    }

    /// Last time index of the query (inclusive).
    pub open spec fn time_end(self, meta: MemMeta) -> int {
        self.time_start(meta) + self.datetime_len - 1
    }

    /// First day touched by the query.
    pub open spec fn d0(self, meta: MemMeta) -> int {
        self.time_start(meta) / meta.tpd
    }

    /// Last day touched by the query.
    pub open spec fn d1(self, meta: MemMeta) -> int {
        self.time_end(meta) / meta.tpd
    }

    /// The query shape is acceptable: the range fits inside the index.
    pub open spec fn wf(self, meta: MemMeta) -> bool {
        &&& 1 <= self.datetime_len
        &&& self.time_start(meta) + self.datetime_len <= meta.full_index.len()
    }

    /// The requested range lines up with the backing index: exactly
    /// `datetime_len` index entries lie in it.
    pub open spec fn continuous(self, meta: MemMeta) -> bool {
        meta.full_index[self.time_end(meta)] == self.datetime_end
    }

    /// Tick-in-day where the query enters day `d`.
    pub open spec fn day_t0(self, meta: MemMeta, d: int) -> int {
        if d * meta.tpd < self.time_start(meta) {
            self.time_start(meta) - d * meta.tpd
        } else {
            0
        }
    }

    /// Tick-in-day where the query leaves day `d` (exclusive).
    pub open spec fn day_t1(self, meta: MemMeta, d: int) -> int {
        if self.time_end(meta) + 1 < (d + 1) * meta.tpd {
            self.time_end(meta) + 1 - d * meta.tpd
        } else {
            meta.tpd
        }
    }

    /// Output time position of the first tick of day `d`.
    pub open spec fn cum_t(self, meta: MemMeta, d: int) -> int {
        let raw = d * meta.tpd - self.time_start(meta);
        if raw < 0 {
            0
        } else {
            raw
        }
    }
}

/// The model of a query as handed to a planner.
pub open spec fn mk_query(
    datetime_start: i64,
    datetime_end: i64,
    datetime_len: i64,
    columns: Seq<i64>,
) -> MemQuery {
    MemQuery { datetime_start, datetime_end, datetime_len: datetime_len as int, columns }
}

/// The value a planner owes at logical time `t` and requested column `j`,
/// reading a row-contiguous store: day blocks are time-major `(tpd, s_n)`.
pub open spec fn rc_cell<T>(
    meta: MemMeta,
    q: MemQuery,
    data: Seq<T>,
    nan: T,
    t: int,
    j: int,
) -> T {
    let g = q.time_start(meta) + t;
    let d = g / meta.tpd;
    let pos = meta.pos_of(d, q.columns[j]);
    if meta.hit(d, q.columns[j]) {
        data[meta.off[d] * meta.tpd + (g % meta.tpd) * meta.s_n(d) + pos]
    } else {
        nan
    }
}

/// The value a planner owes at requested column `j`, logical time `t` and
/// channel `k`, reading a column-contiguous store with `m` channels per cell:
/// day blocks are symbol-major `(s_n, tpd, m)`.
pub open spec fn cc_cell<T>(
    meta: MemMeta,
    q: MemQuery,
    data: Seq<T>,
    nan: T,
    m: int,
    t: int,
    j: int,
    k: int,
) -> T {
    let g = q.time_start(meta) + t;
    let d = g / meta.tpd;
    let pos = meta.pos_of(d, q.columns[j]);
    if meta.hit(d, q.columns[j]) {
        data[m * ((meta.off[d] + pos) * meta.tpd + g % meta.tpd) + k]
    } else {
        nan
    }
}

/// Division bounds: `g / tpd` brackets `g` between consecutive multiples.
pub proof fn lemma_div_bounds(g: int, tpd: int)
    requires
        0 <= g,
        1 <= tpd,
    ensures
        0 <= g / tpd,
        (g / tpd) * tpd <= g,
        g < (g / tpd) * tpd + tpd,
        g % tpd == g - (g / tpd) * tpd,
        0 <= g % tpd < tpd,
{
    lemma_fundamental_div_mod(g, tpd);
    lemma_mod_bound(g, tpd);
    assert((g / tpd) * tpd == tpd * (g / tpd)) by (nonlinear_arith);
    assert(0 <= g / tpd) by (nonlinear_arith)
        requires
            g == tpd * (g / tpd) + g % tpd,
            0 <= g % tpd < tpd,
            0 <= g,
            1 <= tpd,
    ;
}

/// Monotonicity of the cumulative column offsets.
pub proof fn lemma_off_mono(meta: MemMeta, a: int, b: int)
    requires
        meta.wf(),
        0 <= a <= b <= meta.n_days(),
    ensures
        meta.off[a] <= meta.off[b],
        0 <= meta.off[a],
    decreases b - a,
{
    if a < b {
        lemma_off_mono(meta, a + 1, b);
        assert(meta.off[a] < meta.off[a + 1]);
    }
    lemma_off_lower(meta, a);
}

/// Every cumulative offset is at least zero.
pub proof fn lemma_off_lower(meta: MemMeta, a: int)
    requires
        meta.wf(),
        0 <= a <= meta.n_days(),
    ensures
        0 <= meta.off[a],
        meta.off[a] <= meta.total_cols(),
    decreases meta.n_days(),
{
    lemma_off_mono_raw(meta, 0, a);
    lemma_off_mono_raw(meta, a, meta.n_days());
}

/// Each day holds at least one column, so offsets grow at least one per day.
pub proof fn lemma_off_at_least(meta: MemMeta, d: int)
    requires
        meta.wf(),
        0 <= d <= meta.n_days(),
    ensures
        d <= meta.off[d],
    decreases d,
{
    if d > 0 {
        lemma_off_at_least(meta, d - 1);
        assert(meta.off[d - 1] < meta.off[(d - 1) + 1]);
    }
}

/// Monotonicity without the derived bounds (helper to avoid circularity).
proof fn lemma_off_mono_raw(meta: MemMeta, a: int, b: int)
    requires
        meta.wf(),
        0 <= a <= b <= meta.n_days(),
    ensures
        meta.off[a] <= meta.off[b],
    decreases b - a,
{
    if a < b {
        lemma_off_mono_raw(meta, a + 1, b);
        assert(meta.off[a] < meta.off[a + 1]);
    }
}

/// A day's interior cell index stays inside the day's block: for a
/// row-contiguous block of day `d`, positions fall short of `off[d+1] * tpd`.
pub proof fn lemma_rc_index_bound(meta: MemMeta, d: int, tk: int, pos: int)
    requires
        meta.wf(),
        0 <= d < meta.n_days(),
        0 <= tk < meta.tpd,
        0 <= pos < meta.s_n(d),
    ensures
        0 <= meta.off[d] * meta.tpd + tk * meta.s_n(d) + pos,
        meta.off[d] * meta.tpd + tk * meta.s_n(d) + pos < meta.off[d + 1] * meta.tpd,
        meta.off[d + 1] * meta.tpd <= meta.total_cols() * meta.tpd,
{
    lemma_off_lower(meta, d);
    lemma_off_lower(meta, d + 1);
    assert(meta.off[d] * meta.tpd + tk * meta.s_n(d) + pos < meta.off[d + 1] * meta.tpd
        && 0 <= meta.off[d] * meta.tpd + tk * meta.s_n(d) + pos) by (nonlinear_arith)
        requires
            0 <= meta.off[d],
            meta.off[d + 1] == meta.off[d] + meta.s_n(d),
            0 <= tk < meta.tpd,
            0 <= pos < meta.s_n(d),
            1 <= meta.tpd,
    ;
    assert(meta.off[d + 1] * meta.tpd <= meta.total_cols() * meta.tpd) by (nonlinear_arith)
        requires
            meta.off[d + 1] <= meta.total_cols(),
            1 <= meta.tpd,
    ;
    lemma_off_mono(meta, d + 1, meta.n_days());
}

/// Uniqueness of division with remainder.
pub proof fn lemma_div_mod_unique(x: int, d: int, q: int, r: int)
    requires
        1 <= d,
        x == q * d + r,
        0 <= r < d,
    ensures
        x / d == q,
        x % d == r,
{
    lemma_fundamental_div_mod(x, d);
    lemma_mod_bound(x, d);
    assert(x / d == q && x % d == r) by (nonlinear_arith)
        requires
            x == d * (x / d) + x % d,
            0 <= x % d < d,
            x == q * d + r,
            0 <= r < d,
            1 <= d,
    ;
}

/// Multiplication keeps order on the left.
pub proof fn lemma_mul_mono(a: int, b: int, c: int)
    requires
        a <= b,
        0 <= c,
    ensures
        a * c <= b * c,
{
    assert(a * c <= b * c) by (nonlinear_arith)
        requires
            a <= b,
            0 <= c,
    ;
}

/// The day of every queried time index lies inside the store.
pub proof fn lemma_day_in_range(meta: MemMeta, g: int)
    requires
        meta.wf(),
        0 <= g < meta.full_index.len(),
    ensures
        0 <= g / meta.tpd < meta.n_days(),
{
    lemma_div_bounds(g, meta.tpd);
    assert(g / meta.tpd < meta.n_days()) by (nonlinear_arith)
        requires
            (g / meta.tpd) * meta.tpd <= g,
            g < meta.n_days() * meta.tpd,
            1 <= meta.tpd,
            0 <= g / meta.tpd,
    ;
}

/// The days of a well-formed query lie inside the store, in order.
pub proof fn lemma_query_days(meta: MemMeta, q: MemQuery)
    requires
        meta.wf(),
        q.wf(meta),
    ensures
        0 <= q.d0(meta) <= q.d1(meta) < meta.n_days(),
        q.d0(meta) * meta.tpd <= q.time_start(meta) < (q.d0(meta) + 1) * meta.tpd,
        q.d1(meta) * meta.tpd <= q.time_end(meta) < (q.d1(meta) + 1) * meta.tpd,
        0 <= q.time_start(meta) <= q.time_end(meta) < meta.full_index.len(),
{
    crate::array::lemma_lower_bound_props(meta.full_index, q.datetime_start);
    let ts = q.time_start(meta);
    let te = q.time_end(meta);
    lemma_div_bounds(ts, meta.tpd);
    lemma_div_bounds(te, meta.tpd);
    assert((q.d0(meta) + 1) * meta.tpd == q.d0(meta) * meta.tpd + meta.tpd && (q.d1(meta) + 1)
        * meta.tpd == q.d1(meta) * meta.tpd + meta.tpd) by (nonlinear_arith);
    vstd::arithmetic::div_mod::lemma_div_is_ordered(ts, te, meta.tpd);
    lemma_day_in_range(meta, te);
}

/// Day `d`'s window within the query: nonempty, inside the day, and the
/// cumulative output time positions progress through it.
pub proof fn lemma_day_window(meta: MemMeta, q: MemQuery, d: int)
    requires
        meta.wf(),
        q.wf(meta),
        q.d0(meta) <= d <= q.d1(meta),
    ensures
        0 <= q.day_t0(meta, d) < q.day_t1(meta, d) <= meta.tpd,
        0 <= q.cum_t(meta, d),
        q.cum_t(meta, d) + (q.day_t1(meta, d) - q.day_t0(meta, d)) == (if d < q.d1(meta) {
            q.cum_t(meta, d + 1)
        } else {
            q.datetime_len
        }),
        q.cum_t(meta, d) + (q.day_t1(meta, d) - q.day_t0(meta, d)) <= q.datetime_len,
        q.cum_t(meta, d) < q.datetime_len,
        d == q.d0(meta) ==> q.cum_t(meta, d) == 0 && q.day_t0(meta, d) == q.time_start(meta)
            % meta.tpd,
        d > q.d0(meta) ==> q.day_t0(meta, d) == 0,
{
    lemma_query_days(meta, q);
    let ts = q.time_start(meta);
    let te = q.time_end(meta);
    let tpd = meta.tpd;
    lemma_mul_mono(q.d0(meta), d, tpd);
    lemma_mul_mono(d, q.d1(meta), tpd);
    lemma_mul_mono(q.d0(meta) + 1, d + 1, tpd);
    lemma_mul_mono(d + 1, q.d1(meta) + 1, tpd);
    assert(d * tpd + tpd == (d + 1) * tpd && q.d0(meta) * tpd + tpd == (q.d0(meta) + 1) * tpd
        && q.d1(meta) * tpd + tpd == (q.d1(meta) + 1) * tpd) by (nonlinear_arith);
    if d == q.d0(meta) {
        lemma_div_bounds(ts, tpd);
        assert(q.day_t0(meta, d) == ts % tpd);
    }
    if d < q.d1(meta) {
        lemma_mul_mono(d + 1, q.d1(meta), tpd);
    }
    if d > q.d0(meta) {
        lemma_mul_mono(q.d0(meta) + 1, d, tpd);
    }
}

/// The global time index of tick `t_rel` within day `d`'s window, and its
/// day and tick-in-day.
pub proof fn lemma_day_tick(meta: MemMeta, q: MemQuery, d: int, t_rel: int)
    requires
        meta.wf(),
        q.wf(meta),
        q.d0(meta) <= d <= q.d1(meta),
        0 <= t_rel < q.day_t1(meta, d) - q.day_t0(meta, d),
    ensures
        0 <= q.cum_t(meta, d) + t_rel < q.datetime_len,
        q.time_start(meta) + q.cum_t(meta, d) + t_rel == d * meta.tpd + q.day_t0(meta, d) + t_rel,
        (q.time_start(meta) + q.cum_t(meta, d) + t_rel) / meta.tpd == d,
        (q.time_start(meta) + q.cum_t(meta, d) + t_rel) % meta.tpd == q.day_t0(meta, d) + t_rel,
{
    lemma_day_window(meta, q, d);
    let ts = q.time_start(meta);
    let tpd = meta.tpd;
    let t0 = q.day_t0(meta, d);
    assert(ts + q.cum_t(meta, d) == d * tpd + t0);
    lemma_div_mod_unique(d * tpd + (t0 + t_rel), tpd, d, t0 + t_rel);
}

/// Two distinct grid positions land on distinct flat indices.
pub proof fn lemma_grid_injective(s: int, t0: int, j0: int, t1: int, j1: int)
    requires
        0 <= j0 < s,
        0 <= j1 < s,
        0 <= t0,
        0 <= t1,
        t0 != t1 || j0 != j1,
    ensures
        t0 * s + j0 != t1 * s + j1,
{
    assert(t0 * s + j0 != t1 * s + j1) by (nonlinear_arith)
        requires
            0 <= j0 < s,
            0 <= j1 < s,
            0 <= t0,
            0 <= t1,
            t0 != t1 || j0 != j1,
    ;
}

/// Random-fetching of temporal row-contiguous data.
///
/// Fills `flattened` (time-major, `datetime_len` rows of `columns.len()`
/// cells) with the queried submatrix of `compact_data`, putting `nan` in the
/// cells of symbols the day does not list. Fails with
/// `DatetimeIndexNotContinuous` when the requested range does not line up
/// with `full_index`; `flattened` is then unchanged.
pub fn row_contiguous<T: Copy>(
    datetime_start: i64,
    datetime_end: i64,
    datetime_len: i64,
    columns: &Vec<i64>,
    num_ticks_per_day: i64,
    full_index: &Vec<i64>,
    time_idx_to_date_idx: &Vec<i64>,
    date_columns_offset: &Vec<i64>,
    compact_columns: &Vec<i64>,
    compact_data: &Vec<T>,
    flattened: &mut Vec<T>,
    nan: T,
) -> (r: Result<(), MemError>)
    requires
        ({
            let meta = mk_meta(
                full_index@,
                time_idx_to_date_idx@,
                date_columns_offset@,
                compact_columns@,
                num_ticks_per_day,
            );
            let q = mk_query(datetime_start, datetime_end, datetime_len, columns@);
            &&& meta.wf()
            &&& q.wf(meta)
            &&& compact_data@.len() == meta.total_cols() * meta.tpd
            &&& old(flattened)@.len() == q.datetime_len * q.columns.len()
        }),
    ensures
        ({
            let meta = mk_meta(
                full_index@,
                time_idx_to_date_idx@,
                date_columns_offset@,
                compact_columns@,
                num_ticks_per_day,
            );
            let q = mk_query(datetime_start, datetime_end, datetime_len, columns@);
            &&& final(flattened)@.len() == old(flattened)@.len()
            &&& (r is Ok <==> q.continuous(meta))
            &&& (r is Err ==> r == Result::<(), MemError>::Err(
                MemError::DatetimeIndexNotContinuous,
            ) && final(flattened)@ == old(flattened)@)
            &&& (r is Ok ==> forall|t: int, j: int|
                0 <= t < q.datetime_len && 0 <= j < q.columns.len()
                    ==> final(flattened)@[t * q.columns.len() + j] == rc_cell(
                    meta,
                    q,
                    compact_data@,
                    nan,
                    t,
                    j,
                ))
        }),
{
    let ghost meta = mk_meta(
        full_index@,
        time_idx_to_date_idx@,
        date_columns_offset@,
        compact_columns@,
        num_ticks_per_day,
    );
    let ghost q = mk_query(datetime_start, datetime_end, datetime_len, columns@);
    let n_index = full_index.len();
    let n_cols_total = compact_columns.len();
    let data_len = compact_data.len();
    let flat_len = flattened.len();
    proof {
        crate::array::lemma_lower_bound_props(full_index@, datetime_start);
        assert(meta.tpd <= meta.n_days() * meta.tpd && meta.n_days() <= meta.n_days() * meta.tpd)
            by (nonlinear_arith)
            requires
                1 <= meta.tpd,
                1 <= meta.n_days(),
        ;
    }
    let time_start_idx = searchsorted(full_index, datetime_start);
    let dlen = datetime_len as usize;
    let time_end_idx = time_start_idx + (dlen - 1);
    if full_index[time_end_idx] != datetime_end {
        return Err(MemError::DatetimeIndexNotContinuous);
    }
    let tpd = num_ticks_per_day as usize;
    let s = columns.len();
    let mut t: usize = 0;
    while t < dlen
        invariant
            meta == mk_meta(
                full_index@,
                time_idx_to_date_idx@,
                date_columns_offset@,
                compact_columns@,
                num_ticks_per_day,
            ),
            q == mk_query(datetime_start, datetime_end, datetime_len, columns@),
            meta.wf(),
            q.wf(meta),
            compact_data@.len() == meta.total_cols() * meta.tpd,
            flattened@.len() == q.datetime_len * q.columns.len(),
            flattened@.len() == flat_len,
            time_start_idx == q.time_start(meta),
            tpd == meta.tpd,
            dlen == q.datetime_len,
            s == q.columns.len(),
            n_index == full_index@.len(),
            n_cols_total == compact_columns@.len(),
            data_len == compact_data@.len(),
            t <= dlen,
            forall|t0: int, j0: int|
                0 <= t0 < t && 0 <= j0 < s ==> flattened@[t0 * s + j0] == rc_cell(
                    meta,
                    q,
                    compact_data@,
                    nan,
                    t0,
                    j0,
                ),
        decreases dlen - t,
    {
        let g = time_start_idx + t;
        proof {
            lemma_day_in_range(meta, g as int);
            lemma_div_bounds(g as int, meta.tpd);
        }
        let d = g / tpd;
        proof {
            lemma_off_lower(meta, d as int);
            lemma_off_lower(meta, d + 1);
            lemma_off_mono(meta, d as int, d + 1);
        }
        let off_d = date_columns_offset[d] as usize;
        let off_d1 = date_columns_offset[d + 1] as usize;
        let s_n = off_d1 - off_d;
        let ghost day = meta.day_cols(d as int);
        let mut j: usize = 0;
        while j < s
            invariant
                meta == mk_meta(
                    full_index@,
                    time_idx_to_date_idx@,
                    date_columns_offset@,
                    compact_columns@,
                    num_ticks_per_day,
                ),
                q == mk_query(datetime_start, datetime_end, datetime_len, columns@),
                meta.wf(),
                q.wf(meta),
                compact_data@.len() == meta.total_cols() * meta.tpd,
                flattened@.len() == q.datetime_len * q.columns.len(),
                flattened@.len() == flat_len,
                time_start_idx == q.time_start(meta),
                tpd == meta.tpd,
                dlen == q.datetime_len,
                s == q.columns.len(),
                n_index == full_index@.len(),
                n_cols_total == compact_columns@.len(),
                data_len == compact_data@.len(),
                t < dlen,
                j <= s,
                g == time_start_idx + t,
                g < meta.full_index.len(),
                d == g as int / meta.tpd,
                0 <= d < meta.n_days(),
                off_d == meta.off[d as int],
                off_d1 == meta.off[d + 1],
                s_n == meta.s_n(d as int),
                off_d1 <= compact_columns@.len(),
                day == meta.day_cols(d as int),
                forall|t0: int, j0: int|
                    0 <= t0 < t && 0 <= j0 < s ==> flattened@[t0 * s + j0] == rc_cell(
                        meta,
                        q,
                        compact_data@,
                        nan,
                        t0,
                        j0,
                    ),
                forall|j0: int|
                    0 <= j0 < j ==> flattened@[t * s + j0] == rc_cell(
                        meta,
                        q,
                        compact_data@,
                        nan,
                        t as int,
                        j0,
                    ),
        decreases s - j,
        {
            let pos = searchsorted_range(compact_columns, off_d, off_d1, columns[j]);
            let val: T = if pos < s_n && compact_columns[off_d + pos] == columns[j] {
                proof {
                    let tk = (g as int) % meta.tpd;
                    lemma_div_bounds(g as int, meta.tpd);
                    lemma_rc_index_bound(meta, d as int, tk, pos as int);
                    assert(0 <= meta.off[d as int] * meta.tpd && 0 <= tk * meta.s_n(d as int))
                        by (nonlinear_arith)
                        requires
                            0 <= meta.off[d as int],
                            1 <= meta.tpd,
                            0 <= tk,
                            0 <= meta.s_n(d as int),
                    ;
                    assert(meta.off[d + 1] * meta.tpd <= compact_data@.len());
                }
                compact_data[off_d * tpd + (g % tpd) * s_n + pos]
            } else {
                nan
            };
            proof {
                assert(val == rc_cell(meta, q, compact_data@, nan, t as int, j as int)) by {
                    if pos < s_n {
                        assert(day[pos as int] == compact_columns@.subrange(
                            off_d as int,
                            off_d1 as int,
                        )[pos as int]);
                    }
                };
                assert(t * s + j < flattened@.len() && t * s + j >= 0) by (nonlinear_arith)
                    requires
                        0 <= t < dlen,
                        0 <= j < s,
                        flattened@.len() == dlen * s,
                ;
            }
            let idx = t * s + j;
            flattened[idx] = val;
            proof {
                assert forall|t0: int, j0: int|
                    (0 <= t0 < t && 0 <= j0 < s) || (t0 == t && 0 <= j0
                        < j) implies flattened@[t0 * s + j0] == rc_cell(
                    meta,
                    q,
                    compact_data@,
                    nan,
                    t0,
                    j0,
                ) by {
                    lemma_grid_injective(s as int, t0, j0, t as int, j as int);
                    assert(0 <= t0 * s + j0 < flattened@.len()) by (nonlinear_arith)
                        requires
                            0 <= t0 <= t,
                            t < dlen,
                            0 <= j0 < s,
                            flattened@.len() == dlen * s,
                    ;
                }
            }
            j = j + 1;
        }
        t = t + 1;
    }
    Ok(())
}

} // verus!

verus! {

/// Each queried output time position lies inside its own day's window.
pub proof fn lemma_time_to_day(meta: MemMeta, q: MemQuery, t: int)
    requires
        meta.wf(),
        q.wf(meta),
        0 <= t < q.datetime_len,
    ensures
        q.d0(meta) <= (q.time_start(meta) + t) / meta.tpd <= q.d1(meta),
        q.cum_t(meta, (q.time_start(meta) + t) / meta.tpd) <= t,
        t - q.cum_t(meta, (q.time_start(meta) + t) / meta.tpd) < q.day_t1(
            meta,
            (q.time_start(meta) + t) / meta.tpd,
        ) - q.day_t0(meta, (q.time_start(meta) + t) / meta.tpd),
        t == q.cum_t(meta, (q.time_start(meta) + t) / meta.tpd) + ((q.time_start(meta) + t)
            % meta.tpd - q.day_t0(meta, (q.time_start(meta) + t) / meta.tpd)),
{
    lemma_query_days(meta, q);
    let ts = q.time_start(meta);
    let te = q.time_end(meta);
    let tpd = meta.tpd;
    let g = ts + t;
    let d = g / tpd;
    lemma_div_bounds(g, tpd);
    vstd::arithmetic::div_mod::lemma_div_is_ordered(ts, g, tpd);
    vstd::arithmetic::div_mod::lemma_div_is_ordered(g, te, tpd);
    lemma_day_window(meta, q, d);
    lemma_div_bounds(ts, tpd);
    lemma_div_bounds(te, tpd);
    assert(ts + q.cum_t(meta, d) == d * tpd + q.day_t0(meta, d));
}

} // verus!

verus! {

/// A requested symbol that a day does not list yields NaN at every one of
/// the day's output cells, in either layout; a listed symbol always yields
/// the backing store's own value, never NaN of the planner's making.
pub proof fn lemma_missing_symbol_nan<T>(
    meta: MemMeta,
    q: MemQuery,
    data: Seq<T>,
    nan: T,
    m: int,
    t: int,
    j: int,
    k: int,
)
    requires
        meta.wf(),
        q.wf(meta),
        0 <= t < q.datetime_len,
        0 <= j < q.columns.len(),
    ensures
        !meta.hit((q.time_start(meta) + t) / meta.tpd, q.columns[j]) ==> cc_cell(
            meta,
            q,
            data,
            nan,
            m,
            t,
            j,
            k,
        ) == nan && rc_cell(meta, q, data, nan, t, j) == nan,
        meta.hit((q.time_start(meta) + t) / meta.tpd, q.columns[j]) ==> ({
            let g = q.time_start(meta) + t;
            let d = g / meta.tpd;
            let pos = meta.pos_of(d, q.columns[j]);
            cc_cell(meta, q, data, nan, m, t, j, k) == data[m * ((meta.off[d] + pos) * meta.tpd
                + g % meta.tpd) + k] && rc_cell(meta, q, data, nan, t, j) == data[meta.off[d]
                * meta.tpd + (g % meta.tpd) * meta.s_n(d) + pos]
        }),
{
}

/// The same logical data laid out row-contiguously (`data_r`) and
/// column-contiguously (`data_c`): day `d`'s tick `tk` of its column `p`
/// stands at `off[d] * tpd + tk * s_n(d) + p` in the one and at
/// `(off[d] + p) * tpd + tk` in the other.
pub open spec fn transposed_layouts<T>(meta: MemMeta, data_r: Seq<T>, data_c: Seq<T>) -> bool {
    forall|d: int, p: int, tk: int|
        0 <= d < meta.n_days() && 0 <= p < meta.s_n(d) && 0 <= tk < meta.tpd
            ==> #[trigger] data_r[meta.off[d] * meta.tpd + tk * meta.s_n(d) + p]
            == data_c[(meta.off[d] + p) * meta.tpd + tk]
}

/// Row-contiguous and column-contiguous planners agree: on the same
/// logical data in either orientation, the cell of time `t` and requested
/// column `j` is the same value (the outputs differ only in their
/// time-major versus symbol-major arrangement).
pub proof fn lemma_row_column_equivalence<T>(
    meta: MemMeta,
    q: MemQuery,
    data_r: Seq<T>,
    data_c: Seq<T>,
    nan: T,
    t: int,
    j: int,
)
    requires
        meta.wf(),
        q.wf(meta),
        transposed_layouts(meta, data_r, data_c),
        0 <= t < q.datetime_len,
        0 <= j < q.columns.len(),
    ensures
        rc_cell(meta, q, data_r, nan, t, j) == cc_cell(meta, q, data_c, nan, 1, t, j, 0),
{
    let g = q.time_start(meta) + t;
    let d = g / meta.tpd;
    lemma_time_to_day(meta, q, t);
    lemma_query_days(meta, q);
    lemma_day_in_range(meta, g);
    lemma_div_bounds(g, meta.tpd);
    if meta.hit(d, q.columns[j]) {
        let pos = meta.pos_of(d, q.columns[j]);
        crate::array::lemma_lower_bound_props(meta.day_cols(d), q.columns[j]);
        assert(data_r[meta.off[d] * meta.tpd + (g % meta.tpd) * meta.s_n(d) + pos]
            == data_c[(meta.off[d] + pos) * meta.tpd + g % meta.tpd]);
        assert(1 * ((meta.off[d] + pos) * meta.tpd + g % meta.tpd) + 0 == (meta.off[d] + pos)
            * meta.tpd + g % meta.tpd);
    }
}

} // verus!

verus! {

/// The expansion of a run-length encoding: each value repeated its count.
pub open spec fn rle_expand(vals: Seq<i64>, counts: Seq<i64>) -> Seq<i64>
    decreases vals.len(),
{
    if vals.len() == 0 {
        Seq::empty()
    } else {
        Seq::new(counts[0] as nat, |x: int| vals[0]) + rle_expand(
            vals.drop_first(),
            counts.drop_first(),
        )
    }
}

/// Opening a fresh run appends its value once.
proof fn lemma_rle_push_new(vals: Seq<i64>, counts: Seq<i64>, v: i64)
    requires
        vals.len() == counts.len(),
    ensures
        rle_expand(vals.push(v), counts.push(1)) == rle_expand(vals, counts).push(v),
    decreases vals.len(),
{
    let lv = vals.push(v);
    let lc = counts.push(1);
    if vals.len() == 0 {
        assert(lv.drop_first() =~= Seq::<i64>::empty());
        assert(lc.drop_first() =~= Seq::<i64>::empty());
        assert(rle_expand(lv, lc) == Seq::new(lc[0] as nat, |x: int| lv[0]) + rle_expand(
            lv.drop_first(),
            lc.drop_first(),
        ));
        assert(lc[0] == 1 && lv[0] == v);
        assert(rle_expand(lv, lc).len() == 1);
        assert(rle_expand(lv, lc)[0] == v);
        assert(rle_expand(vals, counts) == Seq::<i64>::empty());
        assert(rle_expand(lv, lc) =~= rle_expand(vals, counts).push(v));
    } else {
        lemma_rle_push_new(vals.drop_first(), counts.drop_first(), v);
        assert(lv.drop_first() =~= vals.drop_first().push(v));
        assert(lc.drop_first() =~= counts.drop_first().push(1));
        assert(rle_expand(lv, lc) == Seq::new(lc[0] as nat, |x: int| lv[0]) + rle_expand(
            lv.drop_first(),
            lc.drop_first(),
        ));
        assert(rle_expand(lv.drop_first(), lc.drop_first()) == rle_expand(
            vals.drop_first(),
            counts.drop_first(),
        ).push(v));
        assert(lc[0] == counts[0] && lv[0] == vals[0]);
        assert(rle_expand(vals, counts) == Seq::new(counts[0] as nat, |x: int| vals[0])
            + rle_expand(vals.drop_first(), counts.drop_first()));
        assert(rle_expand(lv, lc) =~= rle_expand(vals, counts).push(v));
    }
}

/// Raising the last run's count appends its value once.
proof fn lemma_rle_bump_last(vals: Seq<i64>, counts: Seq<i64>)
    requires
        vals.len() == counts.len(),
        1 <= vals.len(),
        0 <= counts[counts.len() - 1] < i64::MAX,
    ensures
        rle_expand(vals, counts.update(counts.len() - 1, (counts[counts.len() - 1] + 1) as i64))
            == rle_expand(vals, counts).push(vals[vals.len() - 1]),
    decreases vals.len(),
{
    let last = counts.len() - 1;
    let bumped = counts.update(last, (counts[last] + 1) as i64);
    if vals.len() == 1 {
        assert(vals.drop_first() =~= Seq::<i64>::empty());
        assert(bumped.drop_first() =~= Seq::<i64>::empty());
        assert(counts.drop_first() =~= Seq::<i64>::empty());
        assert(rle_expand(vals, bumped) == Seq::new(bumped[0] as nat, |x: int| vals[0])
            + rle_expand(vals.drop_first(), bumped.drop_first()));
        assert(rle_expand(vals, counts) == Seq::new(counts[0] as nat, |x: int| vals[0])
            + rle_expand(vals.drop_first(), counts.drop_first()));
        assert(bumped[0] == counts[0] + 1);
        assert(rle_expand(vals, bumped) =~= rle_expand(vals, counts).push(vals[0]));
    } else {
        lemma_rle_bump_last(vals.drop_first(), counts.drop_first());
        assert(bumped.drop_first() =~= counts.drop_first().update(
            counts.drop_first().len() - 1,
            (counts[last] + 1) as i64,
        ));
        assert(bumped[0] == counts[0]);
        assert(rle_expand(vals, bumped) == Seq::new(bumped[0] as nat, |x: int| vals[0])
            + rle_expand(vals.drop_first(), bumped.drop_first()));
        assert(rle_expand(vals, counts) == Seq::new(counts[0] as nat, |x: int| vals[0])
            + rle_expand(vals.drop_first(), counts.drop_first()));
        assert(rle_expand(vals.drop_first(), bumped.drop_first()) == rle_expand(
            vals.drop_first(),
            counts.drop_first(),
        ).push(vals.drop_first()[vals.drop_first().len() - 1]));
        assert(vals.drop_first()[vals.drop_first().len() - 1] == vals[vals.len() - 1]);
        assert(rle_expand(vals, bumped) =~= rle_expand(vals, counts).push(vals[vals.len() - 1]));
    }
}

/// The value-ordered unique pass over a sorted array: the distinct values
/// in ascending order, each with how many times it occurs. Expanding the
/// runs gives the array back.
pub fn unique(arr: &Vec<i64>) -> (r: (Vec<i64>, Vec<i64>))
    requires
        seq_sorted(arr@),
        arr@.len() <= i64::MAX,
    ensures
        r.0@.len() == r.1@.len(),
        seq_strictly_sorted(r.0@),
        forall|i: int| 0 <= i < r.1@.len() ==> 1 <= #[trigger] r.1@[i],
        rle_expand(r.0@, r.1@) == arr@,
{
    let n = arr.len();
    let mut vals: Vec<i64> = Vec::new();
    let mut counts: Vec<i64> = Vec::new();
    let mut i: usize = 0;
    while i < n
        invariant
            n == arr@.len(),
            n <= i64::MAX,
            seq_sorted(arr@),
            i <= n,
            vals@.len() == counts@.len(),
            seq_strictly_sorted(vals@),
            forall|k: int| 0 <= k < counts@.len() ==> 1 <= #[trigger] counts@[k] <= i,
            rle_expand(vals@, counts@) == arr@.subrange(0, i as int),
            i > 0 ==> vals@.len() >= 1 && vals@[vals@.len() - 1] == arr@[i - 1],
            i == 0 ==> vals@.len() == 0,
        decreases n - i,
    {
        let x = arr[i];
        let ghost pre_vals = vals@;
        let ghost pre_counts = counts@;
        let m = vals.len();
        if m > 0 && vals[m - 1] == x {
            proof {
                lemma_rle_bump_last(pre_vals, pre_counts);
            }
            let bumped = counts[m - 1] + 1;
            counts[m - 1] = bumped;
            proof {
                assert(counts@ =~= pre_counts.update(
                    pre_counts.len() - 1,
                    (pre_counts[pre_counts.len() - 1] + 1) as i64,
                ));
                assert(arr@.subrange(0, i + 1) =~= arr@.subrange(0, i as int).push(
                    arr@[i as int],
                ));
            }
        } else {
            proof {
                lemma_rle_push_new(pre_vals, pre_counts, x);
                if m > 0 {
                    assert(arr@[i - 1] <= arr@[i as int]);
                }
                assert(arr@.subrange(0, i + 1) =~= arr@.subrange(0, i as int).push(
                    arr@[i as int],
                ));
            }
            vals.push(x);
            counts.push(1);
        }
        i = i + 1;
    }
    proof {
        assert(arr@.subrange(0, n as int) =~= arr@);
    }
    (vals, counts)
}

} // verus!
