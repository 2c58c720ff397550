//! The state of an asynchronous work queue: a worker interface and the
//! store that maps each submitted job's cursor to its finished result.
//!
//! Scheduling itself (runtimes, handles, aborts) lives outside the
//! library; the store here is the part whose behaviour the queue's users
//! observe through `submit` and `pop`.

use vstd::prelude::*;

verus! {

/// A job processor: turns one submission into a result. The queue calls
/// `process` once per submitted cursor.
pub trait Worker<T, R> {
    fn process(&self, cursor: usize, data: T) -> Result<R, String>;
}

/// The results of finished jobs, keyed by each job's cursor.
pub struct QueueResults<R> {
    entries: Vec<(usize, Result<R, String>)>,
}

impl<R> QueueResults<R> {
    /// The cursors that currently hold a result.
    pub closed spec fn keys(self) -> Seq<usize> {
        Seq::new(self.entries@.len(), |i: int| self.entries@[i].0)
    }

    /// The stored result of the entry at position `i`.
    pub closed spec fn entry_at(self, i: int) -> Result<R, String> {
        self.entries@[i].1
    }

    /// Each cursor holds at most one result.
    pub closed spec fn wf(self) -> bool {
        forall|i: int, j: int|
            0 <= i < j < self.keys().len() ==> #[trigger] self.keys()[i] != #[trigger] self.keys()[j]
    }

    /// An empty store.
    pub fn new() -> (r: QueueResults<R>)
        ensures
            r.wf(),
            r.keys().len() == 0,
    {
        QueueResults { entries: Vec::new() }
    }

    /// Store `result` under `cursor`, replacing what the cursor held.
    pub fn insert(&mut self, cursor: usize, result: Result<R, String>) -> (r: ())
        requires
            old(self).wf(),
        ensures
            final(self).wf(),
            final(self).keys().contains(cursor),
            forall|c: usize|
                c != cursor ==> (final(self).keys().contains(c) <==> old(self).keys().contains(
                    c,
                )),
            forall|i: int|
                0 <= i < final(self).keys().len() && final(self).keys()[i] == cursor ==> final(self).entry_at(i) == result,
    {
        let ghost e0 = self.entries@;
        let ghost k0 = self.keys();
        let mut i: usize = 0;
        let n = self.entries.len();
        while i < n
            invariant
                n == self.entries@.len(),
                i <= n,
                self.wf(),
                self.entries@ == e0,
                k0 == self.keys(),
                e0 == old(self).entries@,
                k0 == old(self).keys(),
                forall|k: int| 0 <= k < i ==> #[trigger] self.keys()[k] != cursor,
            decreases n - i,
        {
            if self.entries[i].0 == cursor {
                let ghost pre = self.entries@;
                self.entries[i] = (cursor, result);
                proof {
                    assert(self.keys() =~= k0);
                    assert(self.keys().contains(cursor)) by {
                        assert(self.keys()[i as int] == cursor);
                    }
                    assert forall|k: int|
                        0 <= k < self.keys().len() && self.keys()[k] == cursor implies self.entry_at(
                        k,
                    ) == result by {
                        if k != i {
                            assert(self.keys()[k] != self.keys()[i as int]);
                        }
                    }
                }
                return ;
            }
            i = i + 1;
        }
        let ghost pre = self.entries@;
        self.entries.push((cursor, result));
        proof {
            assert(self.keys() =~= k0.push(cursor));
            assert(self.keys()[self.keys().len() - 1] == cursor);
            assert(self.keys().contains(cursor));
            assert forall|c: usize|
                c != cursor implies (self.keys().contains(c) <==> k0.contains(c)) by {
                let oldk = k0;
                if self.keys().contains(c) {
                    let x = choose|x: int| 0 <= x < self.keys().len() && self.keys()[x] == c;
                    assert(x < oldk.len());
                    assert(oldk[x] == c);
                }
                if oldk.contains(c) {
                    let x = choose|x: int| 0 <= x < oldk.len() && oldk[x] == c;
                    assert(self.keys()[x] == c);
                }
            }
        }
    }

    /// Remove and return what `cursor` holds, if anything.
    pub fn pop(&mut self, cursor: usize) -> (r: Option<Result<R, String>>)
        requires
            old(self).wf(),
        ensures
            final(self).wf(),
            r is Some <==> old(self).keys().contains(cursor),
            !final(self).keys().contains(cursor),
            forall|c: usize|
                c != cursor ==> (final(self).keys().contains(c) <==> old(self).keys().contains(
                    c,
                )),
            r matches Some(v) ==> exists|i: int|
                0 <= i < old(self).keys().len() && old(self).keys()[i] == cursor && old(self).entry_at(i) == v,
    {
        let ghost e0 = self.entries@;
        let ghost k0 = self.keys();
        let n = self.entries.len();
        let mut i: usize = 0;
        while i < n
            invariant
                n == self.entries@.len(),
                i <= n,
                self.wf(),
                self.entries@ == e0,
                k0 == self.keys(),
                e0 == old(self).entries@,
                k0 == old(self).keys(),
                forall|k: int| 0 <= k < i ==> #[trigger] self.keys()[k] != cursor,
            decreases n - i,
        {
            if self.entries[i].0 == cursor {
                let entry = self.entries.remove(i);
                proof {
                    let oldk = k0;
                    assert(self.keys() =~= oldk.subrange(0, i as int) + oldk.subrange(
                        i + 1,
                        oldk.len() as int,
                    ));
                    assert(oldk[i as int] == cursor);
                    assert forall|k: int|
                        0 <= k < self.keys().len() implies #[trigger] self.keys()[k] != cursor by {
                        if k < i {
                            assert(self.keys()[k] == oldk[k]);
                            assert(oldk[k] != oldk[i as int]);
                        } else {
                            assert(self.keys()[k] == oldk[k + 1]);
                            assert(oldk[k + 1] != oldk[i as int]);
                        }
                    }
                    assert(!self.keys().contains(cursor));
                    assert forall|c: usize|
                        c != cursor implies (self.keys().contains(c) <==> k0.contains(c)) by {
                        if self.keys().contains(c) {
                            let x = choose|x: int|
                                0 <= x < self.keys().len() && self.keys()[x] == c;
                            if x < i {
                                assert(oldk[x] == c);
                            } else {
                                assert(oldk[x + 1] == c);
                            }
                        }
                        if k0.contains(c) {
                            let x = choose|x: int| 0 <= x < oldk.len() && oldk[x] == c;
                            if x < i {
                                assert(self.keys()[x] == c);
                            } else {
                                assert(x != i);
                                assert(self.keys()[x - 1] == c);
                            }
                        }
                    }
                    assert forall|i1: int, j1: int|
                        0 <= i1 < j1 < self.keys().len() implies #[trigger] self.keys()[i1]
                        != #[trigger] self.keys()[j1] by {
                        let a = if i1 < i {
                            i1
                        } else {
                            i1 + 1
                        };
                        let b = if j1 < i {
                            j1
                        } else {
                            j1 + 1
                        };
                        assert(self.keys()[i1] == oldk[a] && self.keys()[j1] == oldk[b]);
                        assert(oldk[a] != oldk[b]);
                    }
                }
                proof {
                    assert(0 <= i < k0.len() && k0[i as int] == cursor && e0[i as int].1
                        == entry.1);
                    assert(old(self).keys()[i as int] == cursor && old(self).entry_at(i as int)
                        == entry.1);
                }
                return Some(entry.1);
            }
            i = i + 1;
        }
        proof {
            assert(!self.keys().contains(cursor)) by {
                if self.keys().contains(cursor) {
                    let x = choose|x: int| 0 <= x < self.keys().len() && self.keys()[x] == cursor;
                    assert(self.keys()[x] != cursor);
                }
            }
        }
        None
    }

    /// Forget every stored result.
    pub fn clear(&mut self) -> (r: ())
        ensures
            final(self).wf(),
            final(self).keys().len() == 0,
    {
        self.entries = Vec::new();
    }
}

} // verus!
