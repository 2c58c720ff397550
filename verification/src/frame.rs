//! The tabular container: an index of timestamps, fixed-width column
//! identifiers, and a dense row-major value matrix, with a self-describing
//! little-endian byte codec.
//!
//! This build fixes the column identifier width at `COLUMNS_NBYTES` bytes
//! and the cell width at four bytes; a cell carries the bit pattern of the
//! caller's 32-bit float, which the codec moves without interpreting.

use vstd::prelude::*;

use crate::mem::lemma_div_bounds;
use crate::mem::lemma_div_mod_unique;
use crate::COLUMNS_NBYTES;

verus! {

/// Width in bytes of one value cell.
pub const VALUES_NBYTES: usize = 4;

/// Errors raised by the byte codec.
#[derive(Debug, Clone, PartialEq, Eq)]
pub enum DecodeError {
    /// The buffer ends before the header plus the computed sections.
    Truncated,
    /// A zero-copy view was asked of a buffer whose alignment cannot carry it.
    Misaligned,
}

/// A temporal table: `index` holds `n()` timestamps, `columns` holds `s()`
/// fixed-width symbol identifiers, `values` holds the `n() x s()` cells
/// row-major.
pub struct DataFrame {
    pub index: Vec<i64>,
    pub columns: Vec<Vec<u8>>,
    pub values: Vec<u32>,
}

impl DataFrame {
    pub open spec fn n(self) -> int {
        self.index@.len() as int
    }

    pub open spec fn s(self) -> int {
        self.columns@.len() as int
    }

    /// Shapes match and every column identifier has the fixed width.
    pub open spec fn wf(self) -> bool {
        &&& self.values@.len() == self.n() * self.s()
        &&& (forall|c: int|
            0 <= c < self.s() ==> (#[trigger] self.columns@[c])@.len() == COLUMNS_NBYTES)
        &&& 16 + 8 * self.n() + 32 * self.s() + 4 * (self.n() * self.s()) <= usize::MAX
    }

    /// A frame from its three parts; the shapes must match.
    pub fn new(index: Vec<i64>, columns: Vec<Vec<u8>>, values: Vec<u32>) -> (r: DataFrame)
        requires
            values@.len() == index@.len() * columns@.len(),
            forall|c: int|
                0 <= c < columns@.len() ==> (#[trigger] columns@[c])@.len() == COLUMNS_NBYTES,
            16 + 8 * index@.len() + 32 * columns@.len() + 4 * (index@.len() * columns@.len())
                <= usize::MAX,
        ensures
            r.index == index,
            r.columns == columns,
            r.values == values,
            r.wf(),
    {
        DataFrame { index, columns, values }
    }
}

/// 256 to the `n`.
pub open spec fn pow256(n: nat) -> int
    decreases n,
{
    if n == 0 {
        1
    } else {
        256 * pow256((n - 1) as nat)
    }
}

/// The `n` little-endian bytes of the non-negative integer `x`.
pub open spec fn le_bytes(x: int, n: nat) -> Seq<u8>
    decreases n,
{
    if n == 0 {
        Seq::empty()
    } else {
        seq![(x % 256) as u8] + le_bytes(x / 256, (n - 1) as nat)
    }
}

/// The integer whose little-endian bytes are `s`.
pub open spec fn le_val(s: Seq<u8>) -> int
    decreases s.len(),
{
    if s.len() == 0 {
        0
    } else {
        s[0] + 256 * le_val(s.subrange(1, s.len() as int))
    }
}

/// The bit pattern of an `i64`, as a non-negative integer.
pub open spec fn i64_bits(x: i64) -> int {
    if x >= 0 {
        x as int
    } else {
        x as int + 0x1_0000_0000_0000_0000
    }
}

/// The `i64` whose bit pattern is `b`.
pub open spec fn i64_from_bits(b: int) -> i64 {
    if b < 0x8000_0000_0000_0000 {
        b as i64
    } else {
        (b - 0x1_0000_0000_0000_0000) as i64
    }
}

/// `le_bytes` always yields `n` bytes.
pub proof fn lemma_le_bytes_len(x: int, n: nat)
    ensures
        le_bytes(x, n).len() == n,
    decreases n,
{
    if n > 0 {
        lemma_le_bytes_len(x / 256, (n - 1) as nat);
    }
}

/// A value below `pow256(n)` survives the round trip through its bytes.
pub proof fn lemma_le_round_trip(x: int, n: nat)
    requires
        0 <= x < pow256(n),
    ensures
        le_val(le_bytes(x, n)) == x,
    decreases n,
{
    if n > 0 {
        vstd::arithmetic::div_mod::lemma_fundamental_div_mod(x, 256);
        vstd::arithmetic::div_mod::lemma_mod_bound(x, 256);
        assert(0 <= x / 256 < pow256((n - 1) as nat)) by (nonlinear_arith)
            requires
                x == 256 * (x / 256) + x % 256,
                0 <= x % 256 < 256,
                0 <= x < 256 * pow256((n - 1) as nat),
        ;
        lemma_le_round_trip(x / 256, (n - 1) as nat);
        lemma_le_bytes_len(x / 256, (n - 1) as nat);
        let s = le_bytes(x, n);
        assert(s.subrange(1, s.len() as int) =~= le_bytes(x / 256, (n - 1) as nat));
    }
}

/// The bit pattern of an `i64` fits in eight bytes, and decoding it gives
/// the value back.
pub proof fn lemma_i64_bits(x: i64)
    ensures
        0 <= i64_bits(x) < pow256(8),
        i64_from_bits(i64_bits(x)) == x,
        le_val(le_bytes(i64_bits(x), 8)) == i64_bits(x),
{
    assert(pow256(8) == 0x1_0000_0000_0000_0000) by {
        reveal_with_fuel(pow256, 9);
    }
    lemma_le_round_trip(i64_bits(x), 8);
}

/// A `u32` value fits in four bytes, and decoding gives it back.
pub proof fn lemma_u32_bytes(x: u32)
    ensures
        0 <= (x as int) < pow256(4),
        le_val(le_bytes(x as int, 4)) == x as int,
{
    assert(pow256(4) == 0x1_0000_0000) by {
        reveal_with_fuel(pow256, 5);
    }
    lemma_le_round_trip(x as int, 4);
}

/// Decoded values stay below `pow256` of the byte count.
pub proof fn lemma_le_val_bound(s: Seq<u8>)
    ensures
        0 <= le_val(s) < pow256(s.len()),
    decreases s.len(),
{
    if s.len() > 0 {
        lemma_le_val_bound(s.subrange(1, s.len() as int));
        assert(0 <= le_val(s) < 256 * pow256((s.len() - 1) as nat)) by (nonlinear_arith)
            requires
                le_val(s) == s[0] + 256 * le_val(s.subrange(1, s.len() as int)),
                0 <= s[0] < 256,
                0 <= le_val(s.subrange(1, s.len() as int)) < pow256((s.len() - 1) as nat),
        ;
    }
}

/// Append the `n`-byte little-endian form of `x` to `out`.
fn push_le(out: &mut Vec<u8>, x: u64, n: usize) -> (r: ())
    requires
        n <= 8,
        x < pow256(n as nat),
        old(out)@.len() + n <= usize::MAX,
    ensures
        final(out)@ == old(out)@ + le_bytes(x as int, n as nat),
{
    proof {
        lemma_le_bytes_len(x as int, n as nat);
        assert(out@ =~= old(out)@ + le_bytes(x as int, n as nat).subrange(0, 0));
    }
    let mut v = x;
    let mut i: usize = 0;
    while i < n
        invariant
            i <= n,
            n <= 8,
            out@.len() == old(out)@.len() + i,
            le_bytes(x as int, n as nat).len() == n,
            out@ == old(out)@ + le_bytes(x as int, n as nat).subrange(0, i as int),
            v == spec_shift_down(x as int, i as nat),
        decreases n - i,
    {
        proof {
            lemma_le_bytes_byte(x as int, n as nat, i as int);
        }
        out.push((v % 256) as u8);
        v = v / 256;
        i = i + 1;
        proof {
            assert(out@ =~= old(out)@ + le_bytes(x as int, n as nat).subrange(0, i as int));
        }
    }
    proof {
        assert(le_bytes(x as int, n as nat).subrange(0, n as int) =~= le_bytes(
            x as int,
            n as nat,
        ));
    }
}

/// `x` with its low `i` bytes shifted away.
pub open spec fn spec_shift_down(x: int, i: nat) -> int
    decreases i,
{
    if i == 0 {
        x
    } else {
        spec_shift_down(x, (i - 1) as nat) / 256
    }
}

/// Byte `i` of the little-endian form is the low byte after `i` shifts.
pub proof fn lemma_le_bytes_byte(x: int, n: nat, i: int)
    requires
        0 <= i < n,
        0 <= x,
    ensures
        le_bytes(x, n)[i] == (spec_shift_down(x, i as nat) % 256) as u8,
        spec_shift_down(x, (i + 1) as nat) == spec_shift_down(x, i as nat) / 256,
        0 <= spec_shift_down(x, i as nat),
    decreases i,
{
    lemma_le_bytes_len(x, n);
    if i == 0 {
    } else {
        lemma_le_bytes_byte(x / 256, (n - 1) as nat, i - 1);
        lemma_shift_of_div(x, (i - 1) as nat);
        assert(le_bytes(x, n)[i] == le_bytes(x / 256, (n - 1) as nat)[i - 1]);
        vstd::arithmetic::div_mod::lemma_div_pos_is_pos(x, 256);
    }
}

/// Shifting the quotient is one more shift of the value.
proof fn lemma_shift_of_div(x: int, i: nat)
    ensures
        spec_shift_down(x / 256, i) == spec_shift_down(x, (i + 1) as nat),
    decreases i,
{
    if i == 0 {
        assert(spec_shift_down(x, 1) == spec_shift_down(x, 0) / 256);
    } else {
        lemma_shift_of_div(x, (i - 1) as nat);
        assert(spec_shift_down(x / 256, i) == spec_shift_down(x / 256, (i - 1) as nat) / 256);
        assert(spec_shift_down(x, (i + 1) as nat) == spec_shift_down(x, i) / 256);
    }
}

} // verus!

verus! {

/// Alignment of the frame's sections inside a decoded buffer.
pub const DF_ALIGN: usize = 8;

/// `nbytes` rounded up to the container's alignment.
pub open spec fn spec_align_nbytes(nbytes: int) -> int {
    if nbytes % 8 == 0 {
        nbytes
    } else {
        nbytes + (8 - nbytes % 8)
    }
}

/// Round a byte count up to the container's alignment.
pub fn align_nbytes(nbytes: usize) -> (r: usize)
    requires
        nbytes + 8 <= usize::MAX,
    ensures
        r == spec_align_nbytes(nbytes as int),
        nbytes <= r < nbytes + 8,
        r % 8 == 0,
{
    let remainder = nbytes % 8;
    if remainder == 0 {
        nbytes
    } else {
        proof {
            assert((nbytes + (8 - remainder)) % 8 == 0) by (nonlinear_arith)
                requires
                    remainder == nbytes % 8,
                    nbytes >= 0,
                    0 < remainder < 8,
                    nbytes % 8 == nbytes - 8 * (nbytes / 8),
                    (nbytes + (8 - remainder)) % 8 == (nbytes + (8 - remainder)) - 8 * ((nbytes
                        + (8 - remainder)) / 8),
            ;
        }
        nbytes + (8 - remainder)
    }
}

/// The whole little-endian value of `n` bytes at `pos`.
pub fn read_le(bytes: &Vec<u8>, pos: usize, n: usize) -> (r: u64)
    requires
        n <= 8,
        pos + n <= bytes@.len(),
    ensures
        r as int == le_val(bytes@.subrange(pos as int, pos + n)),
{
    let blen = bytes.len();
    proof {
        assert(pow256(8) == 0x1_0000_0000_0000_0000) by {
            reveal_with_fuel(pow256, 9);
        }
        lemma_pow256_mono(n as nat, 8);
        lemma_le_val_bound(bytes@.subrange(pos as int, pos + n));
    }
    let mut acc: u64 = 0;
    let mut k: usize = 0;
    while k < n
        invariant
            k <= n,
            n <= 8,
            pos + n <= bytes@.len(),
            bytes@.len() == blen,
            acc as int == le_val(bytes@.subrange(pos + n - k, pos + n)),
            acc < pow256(k as nat),
            pow256(8) == 0x1_0000_0000_0000_0000,
            pow256(k as nat) <= pow256(8),
        decreases n - k,
    {
        let j = pos + n - 1 - k;
        proof {
            lemma_pow256_mono((k + 1) as nat, 8);
            assert((acc as int) * 256 + bytes@[j as int] < pow256((k + 1) as nat))
                by (nonlinear_arith)
                requires
                    (acc as int) < pow256(k as nat),
                    0 <= bytes@[j as int] < 256,
                    pow256((k + 1) as nat) == 256 * pow256(k as nat),
                    0 <= acc as int,
            ;
            let s = bytes@.subrange(pos + n - (k + 1), pos + n);
            assert(s[0] == bytes@[j as int]);
            assert(s.subrange(1, s.len() as int) =~= bytes@.subrange(pos + n - k, pos + n));
        }
        acc = acc * 256 + (bytes[j] as u64);
        k = k + 1;
    }
    proof {
        assert(bytes@.subrange(pos + n - n, pos + n) =~= bytes@.subrange(pos as int, pos + n));
    }
    acc
}

/// `pow256` grows with the exponent.
pub proof fn lemma_pow256_mono(a: nat, b: nat)
    requires
        a <= b,
    ensures
        pow256(a) <= pow256(b),
        0 < pow256(a),
    decreases b,
{
    if a < b {
        lemma_pow256_mono(a, (b - 1) as nat);
        assert(pow256(b) == 256 * pow256((b - 1) as nat));
        assert(pow256(a) <= 256 * pow256((b - 1) as nat)) by (nonlinear_arith)
            requires
                0 < pow256(a) <= pow256((b - 1) as nat),
        ;
    } else if a == 0 {
    } else {
        lemma_pow256_mono((a - 1) as nat, (a - 1) as nat);
        assert(0 < pow256(a)) by (nonlinear_arith)
            requires
                0 < pow256((a - 1) as nat),
                pow256(a) == 256 * pow256((a - 1) as nat),
        ;
    }
}

/// The eight-byte little-endian length read at the front of `bytes`,
/// with the rest of the buffer.
pub fn extract_usize(bytes: &Vec<u8>, pos: usize) -> (r: u64)
    requires
        pos + 8 <= bytes@.len(),
    ensures
        r as int == le_val(bytes@.subrange(pos as int, pos + 8)),
{
    read_le(bytes, pos, 8)
}

impl DataFrame {
    /// Serialise the frame: two little-endian eight-byte section lengths,
    /// then the index, column and value sections.
    pub fn to_bytes(&self) -> (r: Vec<u8>)
        requires
            self.wf(),
        ensures
            r@.len() == 16 + 8 * self.n() + 32 * self.s() + 4 * (self.n() * self.s()),
            r@.subrange(0, 8) == le_bytes(8 * self.n(), 8),
            r@.subrange(8, 16) == le_bytes(32 * self.s(), 8),
            forall|e: int|
                0 <= e < self.n() ==> r@.subrange(16 + 8 * e, 16 + 8 * e + 8) == le_bytes(
                    i64_bits(#[trigger] self.index@[e]),
                    8,
                ),
            forall|c: int|
                0 <= c < self.s() ==> r@.subrange(
                    16 + 8 * self.n() + 32 * c,
                    16 + 8 * self.n() + 32 * c + 32,
                ) == (#[trigger] self.columns@[c])@,
            forall|v: int|
                0 <= v < self.n() * self.s() ==> r@.subrange(
                    16 + 8 * self.n() + 32 * self.s() + 4 * v,
                    16 + 8 * self.n() + 32 * self.s() + 4 * v + 4,
                ) == le_bytes((#[trigger] self.values@[v]) as int, 4),
    {
        let n = self.index.len();
        let s = self.columns.len();
        let nv = self.values.len();
        let mut out: Vec<u8> = Vec::new();
        proof {
            assert(pow256(8) == 0x1_0000_0000_0000_0000) by {
                reveal_with_fuel(pow256, 9);
            }
            assert(pow256(4) == 0x1_0000_0000) by {
                reveal_with_fuel(pow256, 5);
            }
        }
        push_le(&mut out, (n as u64) * 8, 8);
        proof {
            lemma_le_bytes_len(8 * self.n(), 8);
        }
        push_le(&mut out, (s as u64) * 32, 8);
        proof {
            lemma_le_bytes_len(32 * self.s(), 8);
            assert(out@.subrange(0, 8) =~= le_bytes(8 * self.n(), 8));
            assert(out@.subrange(8, 16) =~= le_bytes(32 * self.s(), 8));
        }
        let mut e: usize = 0;
        while e < n
            invariant
                self.wf(),
                n == self.n(),
                s == self.s(),
                nv == self.n() * self.s(),
                e <= n,
                out@.len() == 16 + 8 * e,
                out@.subrange(0, 8) == le_bytes(8 * self.n(), 8),
                out@.subrange(8, 16) == le_bytes(32 * self.s(), 8),
                forall|e0: int|
                    0 <= e0 < e ==> out@.subrange(16 + 8 * e0, 16 + 8 * e0 + 8) == le_bytes(
                        i64_bits(#[trigger] self.index@[e0]),
                        8,
                    ),
                pow256(8) == 0x1_0000_0000_0000_0000,
                pow256(4) == 0x1_0000_0000,
            decreases n - e,
        {
            let ghost pre = out@;
            let x = self.index[e];
            proof {
                lemma_i64_bits(x);
            }
            push_le(&mut out, x as u64, 8);
            proof {
                assert((x as u64) as int == i64_bits(x)) by (bit_vector);
                lemma_le_bytes_len(i64_bits(x), 8);
                assert(out@.subrange(16 + 8 * e, 16 + 8 * e + 8) =~= le_bytes(i64_bits(x), 8));
                assert forall|e0: int|
                    0 <= e0 < e implies out@.subrange(16 + 8 * e0, 16 + 8 * e0 + 8) == le_bytes(
                    i64_bits(#[trigger] self.index@[e0]),
                    8,
                ) by {
                    assert(out@.subrange(16 + 8 * e0, 16 + 8 * e0 + 8) =~= pre.subrange(
                        16 + 8 * e0,
                        16 + 8 * e0 + 8,
                    ));
                }
                assert(out@.subrange(0, 8) =~= pre.subrange(0, 8));
                assert(out@.subrange(8, 16) =~= pre.subrange(8, 16));
            }
            e = e + 1;
        }
        let mut c: usize = 0;
        while c < s
            invariant
                self.wf(),
                n == self.n(),
                s == self.s(),
                nv == self.n() * self.s(),
                c <= s,
                out@.len() == 16 + 8 * n + 32 * c,
                out@.subrange(0, 8) == le_bytes(8 * self.n(), 8),
                out@.subrange(8, 16) == le_bytes(32 * self.s(), 8),
                forall|e0: int|
                    0 <= e0 < n ==> out@.subrange(16 + 8 * e0, 16 + 8 * e0 + 8) == le_bytes(
                        i64_bits(#[trigger] self.index@[e0]),
                        8,
                    ),
                forall|c0: int|
                    0 <= c0 < c ==> out@.subrange(16 + 8 * n + 32 * c0, 16 + 8 * n + 32 * c0 + 32)
                        == (#[trigger] self.columns@[c0])@,
                pow256(8) == 0x1_0000_0000_0000_0000,
                pow256(4) == 0x1_0000_0000,
            decreases s - c,
        {
            let ghost pre = out@;
            let col = &self.columns[c];
            let mut k: usize = 0;
            while k < 32
                invariant
                    col@.len() == 32,
                    col == self.columns@[c as int],
                    k <= 32,
                    out@.len() == pre.len() + k,
                    out@ == pre + col@.subrange(0, k as int),
                decreases 32 - k,
            {
                out.push(col[k]);
                proof {
                    assert(out@ =~= pre + col@.subrange(0, k + 1));
                }
                k = k + 1;
            }
            proof {
                assert(col@.subrange(0, 32) =~= col@);
                assert(out@.subrange(16 + 8 * n, 16 + 8 * n + 32 * c + 32) =~= pre.subrange(
                    16 + 8 * n,
                    pre.len() as int,
                ) + col@);
                assert(out@.subrange(16 + 8 * n + 32 * (c as int), 16 + 8 * n + 32 * (c as int)
                    + 32) =~= col@);
                assert forall|c0: int|
                    0 <= c0 < c implies out@.subrange(16 + 8 * n + 32 * c0, 16 + 8 * n + 32 * c0
                    + 32) == (#[trigger] self.columns@[c0])@ by {
                    assert(out@.subrange(16 + 8 * n + 32 * c0, 16 + 8 * n + 32 * c0 + 32)
                        =~= pre.subrange(16 + 8 * n + 32 * c0, 16 + 8 * n + 32 * c0 + 32));
                }
                assert forall|e0: int|
                    0 <= e0 < n implies out@.subrange(16 + 8 * e0, 16 + 8 * e0 + 8) == le_bytes(
                    i64_bits(#[trigger] self.index@[e0]),
                    8,
                ) by {
                    assert(out@.subrange(16 + 8 * e0, 16 + 8 * e0 + 8) =~= pre.subrange(
                        16 + 8 * e0,
                        16 + 8 * e0 + 8,
                    ));
                }
                assert(out@.subrange(0, 8) =~= pre.subrange(0, 8));
                assert(out@.subrange(8, 16) =~= pre.subrange(8, 16));
            }
            c = c + 1;
        }
        let ghost vbase = 16 + 8 * self.n() + 32 * self.s();
        let mut v: usize = 0;
        while v < nv
            invariant
                self.wf(),
                n == self.n(),
                s == self.s(),
                nv == self.n() * self.s(),
                vbase == 16 + 8 * self.n() + 32 * self.s(),
                v <= nv,
                out@.len() == vbase + 4 * v,
                out@.subrange(0, 8) == le_bytes(8 * self.n(), 8),
                out@.subrange(8, 16) == le_bytes(32 * self.s(), 8),
                forall|e0: int|
                    0 <= e0 < n ==> out@.subrange(16 + 8 * e0, 16 + 8 * e0 + 8) == le_bytes(
                        i64_bits(#[trigger] self.index@[e0]),
                        8,
                    ),
                forall|c0: int|
                    0 <= c0 < s ==> out@.subrange(16 + 8 * n + 32 * c0, 16 + 8 * n + 32 * c0 + 32)
                        == (#[trigger] self.columns@[c0])@,
                forall|v0: int|
                    0 <= v0 < v ==> out@.subrange(vbase + 4 * v0, vbase + 4 * v0 + 4) == le_bytes(
                        (#[trigger] self.values@[v0]) as int,
                        4,
                    ),
                pow256(8) == 0x1_0000_0000_0000_0000,
                pow256(4) == 0x1_0000_0000,
            decreases nv - v,
        {
            let ghost pre = out@;
            let x = self.values[v];
            push_le(&mut out, x as u64, 4);
            proof {
                lemma_le_bytes_len(x as int, 4);
                assert(out@.subrange(vbase + 4 * v, vbase + 4 * v + 4) =~= le_bytes(x as int, 4));
                assert forall|v0: int|
                    0 <= v0 < v implies out@.subrange(vbase + 4 * v0, vbase + 4 * v0 + 4)
                    == le_bytes((#[trigger] self.values@[v0]) as int, 4) by {
                    assert(out@.subrange(vbase + 4 * v0, vbase + 4 * v0 + 4) =~= pre.subrange(
                        vbase + 4 * v0,
                        vbase + 4 * v0 + 4,
                    ));
                }
                assert forall|e0: int|
                    0 <= e0 < n implies out@.subrange(16 + 8 * e0, 16 + 8 * e0 + 8) == le_bytes(
                    i64_bits(#[trigger] self.index@[e0]),
                    8,
                ) by {
                    assert(out@.subrange(16 + 8 * e0, 16 + 8 * e0 + 8) =~= pre.subrange(
                        16 + 8 * e0,
                        16 + 8 * e0 + 8,
                    ));
                }
                assert forall|c0: int|
                    0 <= c0 < s implies out@.subrange(16 + 8 * n + 32 * c0, 16 + 8 * n + 32 * c0
                    + 32) == (#[trigger] self.columns@[c0])@ by {
                    assert(out@.subrange(16 + 8 * n + 32 * c0, 16 + 8 * n + 32 * c0 + 32)
                        =~= pre.subrange(16 + 8 * n + 32 * c0, 16 + 8 * n + 32 * c0 + 32));
                }
                assert(out@.subrange(0, 8) =~= pre.subrange(0, 8));
                assert(out@.subrange(8, 16) =~= pre.subrange(8, 16));
            }
            v = v + 1;
        }
        out
    }
}

} // verus!

verus! {

/// The index section's byte count, read from a buffer's header.
pub open spec fn dec_ib(b: Seq<u8>) -> int {
    le_val(b.subrange(0, 8))
}

/// The columns section's byte count, read from a buffer's header.
pub open spec fn dec_cb(b: Seq<u8>) -> int {
    le_val(b.subrange(8, 16))
}

/// The row count a buffer describes.
pub open spec fn dec_n(b: Seq<u8>) -> int {
    dec_ib(b) / 8
}

/// The column count a buffer describes.
pub open spec fn dec_s(b: Seq<u8>) -> int {
    dec_cb(b) / 32
}

/// The byte count the buffer's header commits it to.
pub open spec fn dec_total(b: Seq<u8>) -> int {
    16 + spec_align_nbytes(dec_ib(b)) + spec_align_nbytes(dec_cb(b)) + 4 * (dec_n(b) * dec_s(b))
}

/// Whether the buffer holds the header plus all computed sections; a
/// longer tail is tolerated.
pub open spec fn decode_ok(b: Seq<u8>) -> bool {
    b.len() >= 16 && dec_total(b) <= b.len()
}

impl DataFrame {
    /// Decode an owned frame from a buffer, copying every section.
    ///
    /// Fails with `Truncated` exactly when the buffer is shorter than the
    /// header plus the sections its header announces.
    pub fn from_buffer(bytes: &Vec<u8>) -> (r: Result<DataFrame, DecodeError>)
        ensures
            r is Ok <==> decode_ok(bytes@),
            r is Err ==> r == Result::<DataFrame, DecodeError>::Err(DecodeError::Truncated),
            (match r {
                Result::Ok(df) => {
                    &&& df.wf()
                    &&& df.n() == dec_n(bytes@)
                    &&& df.s() == dec_s(bytes@)
                    &&& (forall|e: int|
                        0 <= e < df.n() ==> #[trigger] df.index@[e] == i64_from_bits(
                            le_val(bytes@.subrange(16 + 8 * e, 16 + 8 * e + 8)),
                        ))
                    &&& (forall|c: int|
                        0 <= c < df.s() ==> (#[trigger] df.columns@[c])@ == bytes@.subrange(
                            16 + spec_align_nbytes(dec_ib(bytes@)) + 32 * c,
                            16 + spec_align_nbytes(dec_ib(bytes@)) + 32 * c + 32,
                        ))
                    &&& (forall|v: int|
                        0 <= v < df.n() * df.s() ==> (#[trigger] df.values@[v]) as int == le_val(
                            bytes@.subrange(
                                16 + spec_align_nbytes(dec_ib(bytes@)) + spec_align_nbytes(
                                    dec_cb(bytes@),
                                ) + 4 * v,
                                16 + spec_align_nbytes(dec_ib(bytes@)) + spec_align_nbytes(
                                    dec_cb(bytes@),
                                ) + 4 * v + 4,
                            ),
                        ))
                },
                Result::Err(_) => true,
            }),
    {
        let blen = bytes.len();
        if blen < 16 {
            return Err(DecodeError::Truncated);
        }
        let ib64 = read_le(bytes, 0, 8);
        let cb64 = read_le(bytes, 8, 8);
        proof {
            lemma_le_val_bound(bytes@.subrange(0, 8));
            lemma_le_val_bound(bytes@.subrange(8, 16));
            lemma_div_bounds(dec_ib(bytes@), 8);
            lemma_div_bounds(dec_cb(bytes@), 32);
        }
        if ib64 > ((blen - 16) as u64) {
            proof {
                assert(dec_total(bytes@) > blen);
            }
            return Err(DecodeError::Truncated);
        }
        let ib = ib64 as usize;
        let aib = align_nbytes(ib);
        if aib > blen - 16 {
            proof {
                assert(dec_total(bytes@) > blen);
            }
            return Err(DecodeError::Truncated);
        }
        if cb64 > ((blen - 16 - aib) as u64) {
            proof {
                assert(dec_total(bytes@) > blen);
            }
            return Err(DecodeError::Truncated);
        }
        let cb = cb64 as usize;
        let acb = align_nbytes(cb);
        if acb > blen - 16 - aib {
            proof {
                assert(dec_total(bytes@) > blen);
            }
            return Err(DecodeError::Truncated);
        }
        let n = ib / 8;
        let s = cb / 32;
        let rem = blen - 16 - aib - acb;
        if n > 0 {
            let q = rem / (4 * n);
            if s > q {
                proof {
                    lemma_div_bounds(rem as int, 4 * n);
                    assert(4 * (n as int * s as int) > rem) by (nonlinear_arith)
                        requires
                            (rem as int / (4 * n as int)) * (4 * n as int) <= rem as int,
                            rem < (rem as int / (4 * n as int)) * (4 * n as int) + 4 * n,
                            s > rem as int / (4 * n as int),
                            1 <= n,
                            0 <= s,
                            0 <= rem,
                    ;
                }
                return Err(DecodeError::Truncated);
            }
            proof {
                lemma_div_bounds(rem as int, 4 * n);
                assert(4 * (n as int * s as int) <= rem && n as int * s as int <= rem)
                    by (nonlinear_arith)
                    requires
                        (rem as int / (4 * n as int)) * (4 * n as int) <= rem as int,
                        s <= rem as int / (4 * n as int),
                        1 <= n,
                        0 <= s,
                        0 <= rem,
                ;
            }
        } else {
            proof {
                assert(4 * (n as int * s as int) == 0) by (nonlinear_arith)
                    requires
                        n == 0,
                ;
            }
        }
        let nv = n * s;
        let mut index: Vec<i64> = Vec::new();
        let mut e: usize = 0;
        proof {
            assert(16 + 8 * (n as int) <= 16 + aib) by (nonlinear_arith)
                requires
                    n == ib as int / 8,
                    (ib as int / 8) * 8 <= ib,
                    ib <= aib,
                    0 <= n,
            ;
        }
        while e < n
            invariant
                blen == bytes@.len(),
                blen >= 16,
                16 + 8 * (n as int) <= 16 + aib <= blen,
                e <= n,
                index@.len() == e,
                forall|e0: int|
                    0 <= e0 < e ==> #[trigger] index@[e0] == i64_from_bits(
                        le_val(bytes@.subrange(16 + 8 * e0, 16 + 8 * e0 + 8)),
                    ),
            decreases n - e,
        {
            let raw = read_le(bytes, 16 + 8 * e, 8);
            proof {
                lemma_le_val_bound(bytes@.subrange(16 + 8 * e, 16 + 8 * e + 8));
                assert(pow256(8) == 0x1_0000_0000_0000_0000) by {
                    reveal_with_fuel(pow256, 9);
                }
            }
            let x: i64 = if raw >= 0x8000_0000_0000_0000u64 {
                proof {
                    assert((raw as i64) as int == raw as int - 0x1_0000_0000_0000_0000)
                        by (bit_vector)
                        requires
                            raw >= 0x8000_0000_0000_0000u64,
                    ;
                }
                raw as i64
            } else {
                raw as i64
            };
            index.push(x);
            e = e + 1;
        }
        let cols_base = 16 + aib;
        let mut columns: Vec<Vec<u8>> = Vec::new();
        let mut c: usize = 0;
        proof {
            assert(cols_base + 32 * (s as int) <= cols_base + acb) by (nonlinear_arith)
                requires
                    s == cb as int / 32,
                    (cb as int / 32) * 32 <= cb,
                    cb <= acb,
                    0 <= s,
            ;
        }
        while c < s
            invariant
                blen == bytes@.len(),
                cols_base == 16 + spec_align_nbytes(dec_ib(bytes@)),
                cols_base + 32 * (s as int) <= blen,
                c <= s,
                columns@.len() == c,
                forall|c0: int|
                    0 <= c0 < c ==> (#[trigger] columns@[c0])@ == bytes@.subrange(
                        cols_base + 32 * c0,
                        cols_base + 32 * c0 + 32,
                    ),
            decreases s - c,
        {
            let col = crate::array::copy_range(bytes, cols_base + 32 * c, cols_base + 32 * c + 32);
            columns.push(col);
            c = c + 1;
        }
        let vals_base = cols_base + acb;
        let mut values: Vec<u32> = Vec::new();
        let mut v: usize = 0;
        while v < nv
            invariant
                blen == bytes@.len(),
                vals_base == 16 + spec_align_nbytes(dec_ib(bytes@)) + spec_align_nbytes(
                    dec_cb(bytes@),
                ),
                nv == n * s,
                vals_base + 4 * (nv as int) <= blen,
                v <= nv,
                values@.len() == v,
                forall|v0: int|
                    0 <= v0 < v ==> (#[trigger] values@[v0]) as int == le_val(
                        bytes@.subrange(vals_base + 4 * v0, vals_base + 4 * v0 + 4),
                    ),
            decreases nv - v,
        {
            let raw = read_le(bytes, vals_base + 4 * v, 4);
            proof {
                lemma_le_val_bound(bytes@.subrange(vals_base + 4 * v, vals_base + 4 * v + 4));
                assert(pow256(4) == 0x1_0000_0000) by {
                    reveal_with_fuel(pow256, 5);
                }
            }
            values.push(raw as u32);
            v = v + 1;
        }
        proof {
            assert(16 + 8 * (index@.len() as int) + 32 * (columns@.len() as int) + 4 * (
            index@.len() * columns@.len()) <= usize::MAX) by (nonlinear_arith)
                requires
                    index@.len() == n as int,
                    columns@.len() == s as int,
                    16 + 8 * (n as int) <= 16 + aib,
                    aib <= blen,
                    32 * (s as int) <= acb,
                    acb <= blen,
                    4 * (n as int * s as int) <= rem,
                    rem == blen - 16 - aib - acb,
                    16 + aib + acb + rem == blen,
                    blen <= usize::MAX,
                    0 <= aib,
                    0 <= acb,
            ;
        }
        Ok(DataFrame { index, columns, values })
    }
}

/// Decoding an encoded frame yields the frame back, element for element:
/// the byte codec loses nothing.
pub proof fn lemma_codec_round_trip(df: DataFrame, bytes: Seq<u8>)
    requires
        df.wf(),
        bytes.len() == 16 + 8 * df.n() + 32 * df.s() + 4 * (df.n() * df.s()),
        bytes.subrange(0, 8) == le_bytes(8 * df.n(), 8),
        bytes.subrange(8, 16) == le_bytes(32 * df.s(), 8),
        forall|e: int|
            0 <= e < df.n() ==> bytes.subrange(16 + 8 * e, 16 + 8 * e + 8) == le_bytes(
                i64_bits(#[trigger] df.index@[e]),
                8,
            ),
        forall|c: int|
            0 <= c < df.s() ==> bytes.subrange(
                16 + 8 * df.n() + 32 * c,
                16 + 8 * df.n() + 32 * c + 32,
            ) == (#[trigger] df.columns@[c])@,
        forall|v: int|
            0 <= v < df.n() * df.s() ==> bytes.subrange(
                16 + 8 * df.n() + 32 * df.s() + 4 * v,
                16 + 8 * df.n() + 32 * df.s() + 4 * v + 4,
            ) == le_bytes((#[trigger] df.values@[v]) as int, 4),
    ensures
        decode_ok(bytes),
        dec_n(bytes) == df.n(),
        dec_s(bytes) == df.s(),
        spec_align_nbytes(dec_ib(bytes)) == 8 * df.n(),
        spec_align_nbytes(dec_cb(bytes)) == 32 * df.s(),
        forall|e: int|
            0 <= e < df.n() ==> i64_from_bits(
                le_val(bytes.subrange(16 + 8 * e, 16 + 8 * e + 8)),
            ) == #[trigger] df.index@[e],
        forall|v: int|
            0 <= v < df.n() * df.s() ==> le_val(
                bytes.subrange(
                    16 + 8 * df.n() + 32 * df.s() + 4 * v,
                    16 + 8 * df.n() + 32 * df.s() + 4 * v + 4,
                ),
            ) == (#[trigger] df.values@[v]) as int,
{
    let nn = df.n();
    let ss = df.s();
    assert(pow256(8) == 0x1_0000_0000_0000_0000) by {
        reveal_with_fuel(pow256, 9);
    }
    lemma_le_round_trip(8 * nn, 8);
    lemma_le_round_trip(32 * ss, 8);
    assert(dec_ib(bytes) == 8 * nn && dec_cb(bytes) == 32 * ss);
    lemma_div_mod_unique(8 * nn, 8, nn, 0);
    lemma_div_mod_unique(32 * ss, 32, ss, 0);
    assert((8 * nn) % 8 == 0 && (32 * ss) % 32 == 0);
    lemma_div_mod_unique(32 * ss, 8, 4 * ss, 0);
    assert(spec_align_nbytes(8 * nn) == 8 * nn && spec_align_nbytes(32 * ss) == 32 * ss);
    assert forall|e: int|
        0 <= e < df.n() implies i64_from_bits(
        le_val(bytes.subrange(16 + 8 * e, 16 + 8 * e + 8)),
    ) == #[trigger] df.index@[e] by {
        lemma_i64_bits(df.index@[e]);
    }
    assert forall|v: int|
        0 <= v < df.n() * df.s() implies le_val(
        bytes.subrange(
            16 + 8 * df.n() + 32 * df.s() + 4 * v,
            16 + 8 * df.n() + 32 * df.s() + 4 * v + 4,
        ),
    ) == (#[trigger] df.values@[v]) as int by {
        lemma_u32_bytes(df.values@[v]);
    }
}

} // verus!
