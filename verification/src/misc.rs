//! Small shared utilities: content hashing and latency trackers.

use vstd::prelude::*;

verus! {

/// The 32 lowercase hex characters of the MD5 digest of a string's bytes.
pub uninterp spec fn md5_hex_of(s: Seq<char>) -> Seq<char>;

/// Relies on md5::compute and its digest's lowercase-hex formatting: the
/// MD5 digest is 16 bytes, printed as 32 hex characters, and depends on
/// the input alone.
#[verifier::external_body]
pub fn hash_code(code: &str) -> (r: String)
    ensures
        r@ == md5_hex_of(code@),
        r@.len() == 32,
{
    format!("{:x}", md5::compute(code.as_bytes()))
}

/// One latency series: closed intervals in nanoseconds, and the start of
/// an interval still open. The caller supplies the timestamps, so the
/// record is exact whatever clock it keeps.
pub struct Tracker {
    pub history: Vec<u64>,
    pub tracking: Option<u64>,
}

impl Tracker {
    /// An empty tracker.
    pub fn new() -> (r: Tracker)
        ensures
            r.history@ == Seq::<u64>::empty(),
            r.tracking is None,
    {
        Tracker { history: Vec::new(), tracking: None }
    }

    /// Record one finished interval.
    pub fn track(&mut self, time: u64) -> (r: ())
        ensures
            final(self).history@ == old(self).history@.push(time),
            final(self).tracking == old(self).tracking,
    {
        self.history.push(time);
    }

    /// Open an interval at `now`.
    pub fn track_start(&mut self, now: u64) -> (r: ())
        ensures
            final(self).history@ == old(self).history@,
            final(self).tracking == Some(now),
    {
        self.tracking = Some(now);
    }

    /// Close the open interval at `now`, recording its width.
    pub fn track_end(&mut self, now: u64) -> (r: ())
        requires
            old(self).tracking is Some,
            old(self).tracking matches Some(t0) && t0 <= now,
        ensures
            old(self).tracking matches Some(t0) && final(self).history@ == old(self).history@.push((now - t0) as u64),
            final(self).tracking is None,
    {
        let t0 = match self.tracking {
            Some(t0) => t0,
            None => 0,
        };
        self.history.push(now - t0);
        self.tracking = None;
    }

    /// Forget everything recorded.
    pub fn reset(&mut self) -> (r: ())
        ensures
            final(self).history@ == Seq::<u64>::empty(),
            final(self).tracking is None,
    {
        self.history = Vec::new();
        self.tracking = None;
    }

    /// The sum of the recorded intervals.
    pub fn total(&self) -> (r: u128)
        ensures
            r == seq_total(self.history@),
    {
        let n = self.history.len();
        let mut acc: u128 = 0;
        let mut i: usize = 0;
        while i < n
            invariant
                n == self.history@.len(),
                i <= n,
                acc == seq_total(self.history@.subrange(0, i as int)),
                acc <= i * 0xffff_ffff_ffff_ffff,
            decreases n - i,
        {
            proof {
                lemma_seq_total_push(self.history@.subrange(0, i as int), self.history@[i as int]);
                assert(self.history@.subrange(0, i + 1) =~= self.history@.subrange(
                    0,
                    i as int,
                ).push(self.history@[i as int]));
                assert(acc + self.history@[i as int] <= (i + 1) * 0xffff_ffff_ffff_ffff)
                    by (nonlinear_arith)
                    requires
                        acc <= i * 0xffff_ffff_ffff_ffff,
                        0 <= self.history@[i as int] <= 0xffff_ffff_ffff_ffff,
                ;
                assert((i + 1) * 0xffff_ffff_ffff_ffff <= (n as int) * 0xffff_ffff_ffff_ffff)
                    by (nonlinear_arith)
                    requires
                        i + 1 <= n as int,
                ;
                assert((n as int) * 0xffff_ffff_ffff_ffff <= usize::MAX as int
                    * 0xffff_ffff_ffff_ffff) by (nonlinear_arith)
                    requires
                        n as int <= usize::MAX as int,
                ;
            }
            acc = acc + (self.history[i] as u128);
            i = i + 1;
        }
        proof {
            assert(self.history@.subrange(0, n as int) =~= self.history@);
        }
        acc
    }
}

/// The total of a series of intervals.
pub open spec fn seq_total(s: Seq<u64>) -> int
    decreases s.len(),
{
    if s.len() == 0 {
        0
    } else {
        seq_total(s.drop_last()) + s.last()
    }
}

/// Appending an interval adds it to the total.
pub proof fn lemma_seq_total_push(s: Seq<u64>, x: u64)
    ensures
        seq_total(s.push(x)) == seq_total(s) + x,
{
    assert(s.push(x).drop_last() =~= s);
    assert(s.push(x).last() == x);
}

/// Per-slot summary of a tracker container: how many intervals the slot
/// recorded and their total, with the slowest slot marked as the
/// bottleneck and the quickest as the fast path.
pub struct Statics {
    pub n: usize,
    pub total: u128,
    pub is_fast_path: bool,
    pub is_bottleneck: bool,
}

/// A container of trackers, one per concurrent event slot.
pub struct Trackers {
    pub slots: Vec<Tracker>,
}

impl Trackers {
    /// `n` empty trackers.
    pub fn new(n: usize) -> (r: Trackers)
        ensures
            r.slots@.len() == n,
            forall|i: int|
                0 <= i < n ==> (#[trigger] r.slots@[i]).history@ == Seq::<u64>::empty()
                    && r.slots@[i].tracking is None,
    {
        let mut slots: Vec<Tracker> = Vec::new();
        let mut i: usize = 0;
        while i < n
            invariant
                i <= n,
                slots@.len() == i,
                forall|k: int|
                    0 <= k < i ==> (#[trigger] slots@[k]).history@ == Seq::<u64>::empty()
                        && slots@[k].tracking is None,
            decreases n - i,
        {
            slots.push(Tracker::new());
            i = i + 1;
        }
        Trackers { slots }
    }

    /// Record one finished interval in slot `idx`.
    pub fn track(&mut self, idx: usize, time: u64) -> (r: ())
        requires
            idx < old(self).slots@.len(),
        ensures
            final(self).slots@.len() == old(self).slots@.len(),
            final(self).slots@[idx as int].history@ == old(self).slots@[idx as int].history@.push(time),
            forall|i: int|
                0 <= i < old(self).slots@.len() && i != idx ==> final(self).slots@[i] == old(self).slots@[i],
    {
        let slot = &mut self.slots[idx];
        slot.track(time);
    }

    /// Forget everything recorded in every slot.
    pub fn reset(&mut self) -> (r: ())
        ensures
            final(self).slots@.len() == old(self).slots@.len(),
            forall|i: int|
                0 <= i < old(self).slots@.len() ==> (#[trigger] final(self).slots@[i]).history@
                    == Seq::<u64>::empty() && final(self).slots@[i].tracking is None,
    {
        let n = self.slots.len();
        let mut i: usize = 0;
        while i < n
            invariant
                n == self.slots@.len(),
                i <= n,
                forall|k: int|
                    0 <= k < i ==> (#[trigger] self.slots@[k]).history@ == Seq::<u64>::empty()
                        && self.slots@[k].tracking is None,
            decreases n - i,
        {
            let slot = &mut self.slots[i];
            slot.reset();
            i = i + 1;
        }
    }

    /// Per-slot summaries. The slot with the greatest recorded total is the
    /// bottleneck, the one with the least is the fast path; ties go to the
    /// earliest such slot. With a single slot, both marks sit on it.
    pub fn get_statics(&self) -> (r: Vec<Statics>)
        requires
            self.slots@.len() >= 1,
        ensures
            r@.len() == self.slots@.len(),
            forall|i: int|
                0 <= i < r@.len() ==> (#[trigger] r@[i]).n == self.slots@[i].history@.len()
                    && r@[i].total == seq_total(self.slots@[i].history@),
            exists|i: int| 0 <= i < r@.len() && (#[trigger] r@[i]).is_bottleneck,
            exists|i: int| 0 <= i < r@.len() && (#[trigger] r@[i]).is_fast_path,
    {
        let n = self.slots.len();
        let mut out: Vec<Statics> = Vec::new();
        let mut i: usize = 0;
        while i < n
            invariant
                n == self.slots@.len(),
                i <= n,
                out@.len() == i,
                forall|k: int|
                    0 <= k < i ==> (#[trigger] out@[k]).n == self.slots@[k].history@.len()
                        && out@[k].total == seq_total(self.slots@[k].history@) && !out@[k].is_fast_path
                        && !out@[k].is_bottleneck,
            decreases n - i,
        {
            let slot = &self.slots[i];
            let total = slot.total();
            let count = slot.history.len();
            out.push(
                Statics { n: count, total, is_fast_path: false, is_bottleneck: false },
            );
            i = i + 1;
        }
        let mut fast_idx: usize = 0;
        let mut slow_idx: usize = 0;
        let mut fast_t: u128 = out[0].total;
        let mut slow_t: u128 = fast_t;
        let mut k: usize = 1;
        while k < n
            invariant
                n == self.slots@.len(),
                out@.len() == n,
                1 <= k <= n,
                fast_idx < n,
                slow_idx < n,
                fast_t == out@[fast_idx as int].total,
                slow_t == out@[slow_idx as int].total,
                forall|x: int|
                    0 <= x < n ==> (#[trigger] out@[x]).n == self.slots@[x].history@.len()
                        && out@[x].total == seq_total(self.slots@[x].history@) && !out@[x].is_fast_path
                        && !out@[x].is_bottleneck,
            decreases n - k,
        {
            let t = out[k].total;
            if t > slow_t {
                slow_idx = k;
                slow_t = t;
            } else if t < fast_t {
                fast_idx = k;
                fast_t = t;
            }
            k = k + 1;
        }
        let ghost pre = out@;
        let marked_slow = &mut out[slow_idx];
        marked_slow.is_bottleneck = true;
        let ghost mid = out@;
        let marked_fast = &mut out[fast_idx];
        marked_fast.is_fast_path = true;
        proof {
            assert(out@[slow_idx as int].is_bottleneck);
            assert(out@[fast_idx as int].is_fast_path);
            assert forall|x: int| 0 <= x < n implies (#[trigger] out@[x]).n
                == self.slots@[x].history@.len() && out@[x].total == seq_total(
                self.slots@[x].history@,
            ) by {
                assert(pre[x].n == self.slots@[x].history@.len());
            }
        }
        out
    }
}

} // verus!
