//! The decision logic of the remote sharded key/value fetcher: connection
//! pool rotation, byte-range arithmetic, reply validation and decoding.
//!
//! The network calls themselves live outside the library; they hand their
//! byte replies to the functions here, which check the lengths, decode the
//! little-endian cells, and say exactly which reply shapes pass.

use vstd::prelude::*;

use crate::frame::le_val;
use crate::frame::lemma_le_val_bound;
use crate::frame::pow256;
use crate::frame::read_le;

verus! {

/// Errors raised by the remote fetcher's logic.
#[derive(Debug, Clone, PartialEq, Eq)]
pub enum RedisError {
    /// A free-form error with its context.
    NotEnough { ctx: String },
    /// A reply held `got` bytes where `want` were asked (one range).
    DataShort { start: usize, end: usize, got: usize, want: usize },
    /// A batched reply held `got` entries where `want` ranges were asked.
    BatchShort { got: usize, want: usize },
}

impl RedisError {
    /// The error reported when a reply holds fewer bytes than asked.
    pub fn data_not_enough<T>(ctx: &str) -> (r: Result<T, RedisError>)
        ensures
            r matches Result::Err(e) && e matches RedisError::NotEnough { ctx: m } && m@ == ctx@,
    {
        Err(RedisError::NotEnough { ctx: ctx.to_string() })
    }
}

/// Wrap-around scan of the connection pool: the first free slot at or
/// after the cursor wins and the cursor advances to one past it; with no
/// free slot the cursor's own slot is taken and the cursor advances by
/// one. This biases toward liveness over strict round-robin.
pub fn roll_pool_idx(cursor: &mut usize, free: &Vec<bool>) -> (r: usize)
    requires
        *old(cursor) < free@.len(),
    ensures
        r < free@.len(),
        *final(cursor) < free@.len(),
        ({
            let n = free@.len() as int;
            &&& ((exists|i: int| 0 <= i < n && #[trigger] free@[i]) ==> free@[r as int]
                && *final(cursor) == (r + 1) % n)
            &&& ((forall|i: int| 0 <= i < n ==> !(#[trigger] free@[i])) ==> r == *old(cursor)
                && *final(cursor) == (*old(cursor) + 1) % n)
        }),
{
    let n = free.len();
    let current = *cursor;
    let mut i: usize = 0;
    while i < n
        invariant
            n == free@.len(),
            current < n,
            i <= n,
            *cursor == current,
            forall|k: int|
                0 <= k < i ==> !(#[trigger] free@[(current + k) % (free@.len() as int)]),
        decreases n - i,
    {
        let idx = if i < n - current {
            current + i
        } else {
            i - (n - current)
        };
        proof {
            if i < n - current {
                crate::mem::lemma_div_mod_unique((current + i) as int, n as int, 0, idx as int);
            } else {
                crate::mem::lemma_div_mod_unique((current + i) as int, n as int, 1, idx as int);
            }
            assert(idx as int == (current + i) % (free@.len() as int));
        }
        if free[idx] {
            *cursor = (idx + 1) % n;
            proof {
                assert((idx + free@.len() - current) % (free@.len() as int) == i as int) by {
                    if current + i < n {
                        crate::mem::lemma_div_mod_unique(
                            (current + i) as int,
                            n as int,
                            0,
                            (current + i) as int,
                        );
                        crate::mem::lemma_div_mod_unique(
                            (idx + n - current) as int,
                            n as int,
                            1,
                            i as int,
                        );
                    } else {
                        crate::mem::lemma_div_mod_unique(
                            (current + i) as int,
                            n as int,
                            1,
                            (current + i - n) as int,
                        );
                        crate::mem::lemma_div_mod_unique(
                            (idx + n - current) as int,
                            n as int,
                            0,
                            i as int,
                        );
                    }
                }
            }
            return idx;
        }
        i = i + 1;
    }
    proof {
        assert forall|ii: int| 0 <= ii < n implies !(#[trigger] free@[ii]) by {
            if ii >= current {
                let k = ii - current;
                crate::mem::lemma_div_mod_unique(current + k, n as int, 0, ii);
                assert(!free@[(current + k) as int % n as int]);
            } else {
                let k = ii - current + n;
                crate::mem::lemma_div_mod_unique(current + k, n as int, 1, ii);
                assert(!free@[(current + k) as int % n as int]);
            }
        }
    }
    *cursor = (current + 1) % n;
    current
}

/// Over `n` or more uncontended fetches, the pool cursor visits every
/// slot: with all slots free, each call takes the cursor's slot and
/// advances by one, so the `k`-th call takes slot `(c0 + k) mod n`, and
/// within the first `n` calls every slot is taken at least once.
pub proof fn lemma_pool_rotation(c0: int, n: int)
    requires
        1 <= n,
        0 <= c0 < n,
    ensures
        forall|s: int| 0 <= s < n ==> #[trigger] slot_reached(c0, n, s),
{
    assert forall|s: int| 0 <= s < n implies #[trigger] slot_reached(c0, n, s) by {
        if s >= c0 {
            let k = s - c0;
            crate::mem::lemma_div_mod_unique(c0 + k, n, 0, s);
            assert(0 <= k < n && (c0 + k) % n == s);
        } else {
            let k = s - c0 + n;
            crate::mem::lemma_div_mod_unique(c0 + k, n, 1, s);
            assert(0 <= k < n && (c0 + k) % n == s);
        }
    }
}

/// Whether some of the first `n` uncontended fetches starting at cursor
/// `c0` lands on slot `s`.
pub open spec fn slot_reached(c0: int, n: int, s: int) -> bool {
    exists|k: int| 0 <= k < n && #[trigger] ((c0 + k) % n) == s
}

/// Check a single-range reply: the byte count must equal the half-open
/// range's width.
pub fn check_fetched_len(start: usize, end: usize, got: usize) -> (r: Result<
    (),
    RedisError,
>)
    requires
        start <= end,
    ensures
        r is Ok <==> got == end - start,
        r matches Result::Err(e) ==> e == (RedisError::DataShort {
            start,
            end,
            got,
            want: (end - start) as usize,
        }),
{
    if got != end - start {
        Err(RedisError::DataShort { start, end, got, want: end - start })
    } else {
        Ok(())
    }
}

/// Decode a reply of raw little-endian cells into values, four bytes per
/// cell; a trailing fragment shorter than one cell is dropped, as the
/// cell count is the byte count divided down.
pub fn decode_cells(bytes: &Vec<u8>) -> (r: Vec<u32>)
    ensures
        r@.len() == bytes@.len() as int / 4,
        forall|v: int|
            0 <= v < r@.len() ==> (#[trigger] r@[v]) as int == le_val(
                bytes@.subrange(4 * v, 4 * v + 4),
            ),
{
    let blen = bytes.len();
    let nv = blen / 4;
    proof {
        crate::mem::lemma_div_bounds(blen as int, 4);
    }
    let mut out: Vec<u32> = Vec::new();
    let mut v: usize = 0;
    while v < nv
        invariant
            blen == bytes@.len(),
            nv == blen as int / 4,
            4 * (nv as int) <= blen,
            v <= nv,
            out@.len() == v,
            forall|v0: int|
                0 <= v0 < v ==> (#[trigger] out@[v0]) as int == le_val(
                    bytes@.subrange(4 * v0, 4 * v0 + 4),
                ),
        decreases nv - v,
    {
        proof {
            assert(4 * (v as int) + 4 <= 4 * (nv as int)) by (nonlinear_arith)
                requires
                    v < nv,
            ;
        }
        let raw = read_le(bytes, 4 * v, 4);
        proof {
            lemma_le_val_bound(bytes@.subrange(4 * (v as int), 4 * (v as int) + 4));
            assert(pow256(4) == 0x1_0000_0000) by {
                reveal_with_fuel(pow256, 5);
            }
        }
        out.push(raw as u32);
        v = v + 1;
    }
    out
}

/// The inclusive-end byte range of a grouped fetch: `multiplier` channel
/// cells of four bytes per tick, between two tick bounds.
pub fn grouped_byte_range(
    time_start_idx: usize,
    time_end_idx: usize,
    multiplier: usize,
) -> (r: (usize, usize))
    requires
        time_start_idx <= time_end_idx,
        1 <= multiplier,
        time_end_idx * 4 * multiplier <= usize::MAX,
    ensures
        r.0 == time_start_idx * 4 * multiplier,
        r.1 == time_end_idx * 4 * multiplier,
        r.0 <= r.1,
{
    proof {
        assert(time_start_idx * 4 * multiplier <= time_end_idx * 4 * multiplier && time_start_idx
            * 4 <= time_end_idx * 4 && time_end_idx * 4 <= time_end_idx * 4 * multiplier && 0
            <= time_start_idx * 4 * multiplier) by (nonlinear_arith)
            requires
                time_start_idx <= time_end_idx,
                1 <= multiplier,
        ;
    }
    (time_start_idx * 4 * multiplier, time_end_idx * 4 * multiplier)
}

/// A fixed-width zero-padded key, trimmed for use: the bytes before the
/// first padding byte.
pub fn trim_key(key: &Vec<u8>) -> (r: Vec<u8>)
    ensures
        r@.len() <= key@.len(),
        forall|i: int| 0 <= i < r@.len() ==> #[trigger] r@[i] == key@[i] && key@[i] != 0,
        r@.len() < key@.len() ==> key@[r@.len() as int] == 0,
{
    let n = key.len();
    let mut cut: usize = 0;
    let mut found = false;
    let mut i: usize = 0;
    while i < n
        invariant
            n == key@.len(),
            i <= n,
            !found ==> forall|k: int| 0 <= k < i ==> key@[k] != 0,
            found ==> cut < n && key@[cut as int] == 0 && (forall|k: int|
                0 <= k < cut ==> key@[k] != 0),
            found ==> cut <= i,
        decreases n - i,
    {
        if !found && key[i] == 0 {
            cut = i;
            found = true;
        }
        i = i + 1;
    }
    let end = if found {
        cut
    } else {
        n
    };
    let r = crate::array::copy_range(key, 0, end);
    proof {
        assert(forall|k: int| 0 <= k < end ==> r@[k] == key@[k]);
    }
    r
}

} // verus!
