//! Quantization of a position to a Z-order code by binary space partitioning.
//!
//! An axis value is a fraction in `[0, 1)`, held as a `u32` that counts units of
//! `2^-32`. Quantizing bisects `[0, 1)` [`OPERATIONS`] times and writes one bit
//! per step, the first step into the highest bit. In this representation the
//! code of a value is the lower bound of the cell that the value lies in.

use vstd::arithmetic::div_mod::{
    lemma_div_denominator, lemma_div_multiples_vanish, lemma_fundamental_div_mod_converse,
    lemma_hoist_over_denominator, lemma_mod_breakdown,
};
use vstd::arithmetic::power2::{
    lemma2_to64, lemma_pow2_adds, lemma_pow2_pos, lemma_pow2_strictly_increases,
    lemma_pow2_unfold, pow2,
};
use vstd::bits::{lemma_u32_shl_is_mul, lemma_u64_shl_is_mul};
use vstd::prelude::*;

verus! {

/// The number of times an axis is bisected.
pub const OPERATIONS: u32 = 22;

/// The width of a cell of one axis, in units of `2^-32`.
pub const CELL: u32 = 1024;

/// The lower bound of the cell that the axis value `x` lies in.
pub open spec fn spec_quantize(x: u32) -> u32 {
    (x - x % CELL) as u32
}

/// Quantizes one axis value.
pub fn pack(x: u32) -> (out: u32)
    ensures
        out == spec_quantize(x),
{
    let mut out: u32 = 0;
    let mut min_x: u64 = 0;
    let mut max_x: u64 = 0x1_0000_0000;
    let ghost mut cell: int = 0;
    let mut n: u32 = 0;
    proof {
        lemma2_to64();
    }
    while n < OPERATIONS
        invariant
            n <= OPERATIONS,
            max_x - min_x == pow2((32 - n) as nat),
            min_x == cell * pow2((32 - n) as nat),
            min_x <= x < max_x <= 0x1_0000_0000,
            out == min_x,
        decreases OPERATIONS - n,
    {
        let ghost size = pow2((32 - n) as nat) as int;
        let ghost half = pow2((31 - n) as nat) as int;
        proof {
            lemma_pow2_unfold((32 - n) as nat);
            lemma_u32_shl_is_mul(1, (31 - n) as u32);
            assert(cell * size == (2 * cell) * half && cell * size + half == (2 * cell + 1)
                * half) by (nonlinear_arith)
                requires
                    size == 2 * half,
            ;
        }
        let midpoint = min_x + (max_x - min_x) / 2;
        if (x as u64) < midpoint {
            max_x = midpoint;
            proof {
                cell = 2 * cell;
            }
        } else {
            out += 1u32 << (31 - n);
            min_x = midpoint;
            proof {
                cell = 2 * cell + 1;
            }
        }
        n += 1;
    }
    proof {
        lemma2_to64();
        assert(cell * pow2(10) == cell * 1024) by (nonlinear_arith)
            requires
                pow2(10) == 1024,
        ;
    }
    out
}

/// Gives back the axis value that a code stands for: the lower bound of its
/// cell. Bits below the last bisection are ignored.
pub fn unpack(x: u32) -> (out: u32)
    ensures
        out == spec_quantize(x),
{
    let ghost code = x;
    let mut x = x;
    let mut out: u64 = 0;
    let mut min_x: u64 = 0;
    let mut max_x: u64 = 0x1_0000_0000;
    let mask: u32 = 1u32 << 31;
    let ghost mut cell: int = 0;
    let ghost mut rest: int = code as int;
    let mut n: u32 = 0;
    proof {
        lemma2_to64();
        assert(1u32 << 31 == 0x8000_0000) by (bit_vector);
    }
    while n < OPERATIONS
        invariant
            n <= OPERATIONS,
            mask == 0x8000_0000,
            max_x - min_x == pow2((32 - n) as nat),
            min_x == cell * pow2((32 - n) as nat),
            code == min_x + rest,
            0 <= rest < pow2((32 - n) as nat),
            x == rest * pow2(n as nat),
            out == min_x,
            max_x <= 0x1_0000_0000,
        decreases OPERATIONS - n,
    {
        let ghost size = pow2((32 - n) as nat) as int;
        let ghost half = pow2((31 - n) as nat) as int;
        let ghost scale = pow2(n as nat) as int;
        proof {
            lemma2_to64();
            lemma_pow2_unfold((32 - n) as nat);
            lemma_pow2_unfold((n + 1) as nat);
            lemma_pow2_adds((31 - n) as nat, n as nat);
            lemma_pow2_pos(n as nat);
            assert(cell * size == (2 * cell) * half && cell * size + half == (2 * cell + 1)
                * half) by (nonlinear_arith)
                requires
                    size == 2 * half,
            ;
            assert(half * scale == 0x8000_0000);
            assert((rest >= half <==> rest * scale >= 0x8000_0000) && (rest - half) * (2 * scale)
                == 2 * (rest * scale) - 0x1_0000_0000 && rest * (2 * scale) == 2 * (rest
                * scale)) by (nonlinear_arith)
                requires
                    half * scale == 0x8000_0000,
                    scale > 0,
            ;
            assert((x & 0x8000_0000 != 0 <==> x >= 0x8000_0000) && (x << 1) == (if x
                >= 0x8000_0000 {
                2 * (x - 0x8000_0000)
            } else {
                2 * x
            })) by (bit_vector);
        }
        let midpoint = min_x + (max_x - min_x) / 2;
        let is_bit_set = (x & mask) != 0;
        x = x << 1;
        if is_bit_set {
            out = midpoint;
            min_x = midpoint;
            proof {
                cell = 2 * cell + 1;
                rest = rest - half;
            }
        } else {
            out = min_x;
            max_x = midpoint;
            proof {
                cell = 2 * cell;
            }
        }
        n += 1;
    }
    proof {
        lemma2_to64();
        assert(cell * pow2(10) == cell * 1024) by (nonlinear_arith)
            requires
                pow2(10) == 1024,
        ;
    }
    out as u32
}

/// Quantizing loses less than one cell: what comes back lies at or below the
/// value, by less than `2^-22` of the axis.
pub proof fn lemma_quantize_within_cell(x: u32)
    ensures
        spec_quantize(spec_quantize(x)) == spec_quantize(x),
        0 <= x - spec_quantize(spec_quantize(x)) < CELL,
        CELL * pow2(OPERATIONS as nat) == pow2(32),
{
    lemma2_to64();
}

/// Bit `i` of `x`, counted from the lowest.
pub open spec fn spec_bit(x: int, i: nat) -> int {
    (x / (pow2(i) as int)) % 2
}

/// Bit `i` of the Z-order interleaving of `a` and `b`: the even places hold the
/// bits of `a`, the odd places those of `b`.
pub open spec fn spec_interleaved_bit(a: u32, b: u32, i: nat) -> int {
    if i % 2 == 0 {
        spec_bit(a as int, i / 2)
    } else {
        spec_bit(b as int, i / 2)
    }
}

/// The lowest `bits` bits of the Z-order interleaving of `a` and `b`.
pub open spec fn spec_interleave(a: u32, b: u32, bits: nat) -> int
    decreases bits,
{
    if bits == 0 {
        0
    } else {
        let i = (bits - 1) as nat;
        spec_interleave(a, b, i) + pow2(i) * spec_interleaved_bit(a, b, i)
    }
}

/// The number whose bits are the `count` lowest even bits of `packed`.
pub open spec fn spec_even_bits(packed: int, count: nat) -> int
    decreases count,
{
    if count == 0 {
        0
    } else {
        let i = (count - 1) as nat;
        spec_even_bits(packed, i) + pow2(i) * spec_bit(packed, 2 * i)
    }
}

/// Quantizes both axis values and interleaves the two codes bit by bit.
pub fn pack2d(x: u32, y: u32) -> (out: u64)
    ensures
        out == spec_interleave(spec_quantize(x), spec_quantize(y), 64),
{
    let a = pack(x);
    let b = pack(y);
    let mut x_packed = a;
    let mut y_packed = b;
    let mut out: u64 = 0;
    let mut n: u32 = 0;
    proof {
        lemma2_to64();
        assert(a as int / (pow2(0) as int) == a && b as int / (pow2(0) as int) == b);
    }
    while n < 64
        invariant
            n <= 64,
            x_packed == a as int / (pow2(((n + 1) / 2) as nat) as int),
            y_packed == b as int / (pow2((n / 2) as nat) as int),
            out == spec_interleave(a, b, n as nat),
            out < pow2(n as nat),
        decreases 64 - n,
    {
        let is_horizontal = n % 2 == 0;
        proof {
            lemma2_to64();
            lemma_pow2_unfold((n + 1) as nat);
            lemma_pow2_unfold((n / 2 + 1) as nat);
            lemma_pow2_pos((n / 2) as nat);
            if n < 63 {
                lemma_pow2_strictly_increases((n + 1) as nat, 64);
            }
            lemma_u64_shl_is_mul(1, n as u64);
            lemma_div_denominator(a as int, pow2((n / 2) as nat) as int, 2);
            lemma_div_denominator(b as int, pow2((n / 2) as nat) as int, 2);
            assert((x_packed & 1 != 0 <==> x_packed % 2 == 1) && x_packed >> 1 == x_packed / 2)
                by (bit_vector);
            assert((y_packed & 1 != 0 <==> y_packed % 2 == 1) && y_packed >> 1 == y_packed / 2)
                by (bit_vector);
        }
        let is_bit_set = if is_horizontal {
            let res = (x_packed & 1) != 0;
            x_packed = x_packed >> 1;
            res
        } else {
            let res = (y_packed & 1) != 0;
            y_packed = y_packed >> 1;
            res
        };
        proof {
            let bit = spec_interleaved_bit(a, b, n as nat);
            assert(is_bit_set <==> bit == 1);
            assert(pow2(n as nat) * bit == (if bit == 1 {
                pow2(n as nat) as int
            } else {
                0
            })) by (nonlinear_arith)
                requires
                    bit == 0 || bit == 1,
            ;
        }
        if is_bit_set {
            out += 1u64 << n;
        }
        n += 1;
    }
    out
}

/// Takes an interleaved code apart and gives back the axis values that its
/// two halves stand for.
pub fn unpack2d(packed: u64) -> (out: (u32, u32))
    ensures
        out.0 == spec_quantize(spec_even_bits(packed as int, 32) as u32),
        out.1 == spec_quantize(spec_even_bits(packed as int / 2, 32) as u32),
        0 <= spec_even_bits(packed as int, 32) < 0x1_0000_0000,
        0 <= spec_even_bits(packed as int / 2, 32) < 0x1_0000_0000,
{
    let ghost code = packed as int;
    let mut packed = packed;
    let mut x_packed: u32 = 0;
    let mut y_packed: u32 = 0;
    let mut n: u32 = 0;
    proof {
        lemma2_to64();
    }
    while n < 64
        invariant
            n <= 64,
            packed == code / (pow2(n as nat) as int),
            0 <= code,
            x_packed == spec_even_bits(code, ((n + 1) / 2) as nat),
            y_packed == spec_even_bits(code / 2, (n / 2) as nat),
            x_packed < pow2(((n + 1) / 2) as nat),
            y_packed < pow2((n / 2) as nat),
        decreases 64 - n,
    {
        let is_horizontal = n % 2 == 0;
        let bit = n / 2;
        proof {
            lemma2_to64();
            lemma_pow2_unfold((n + 1) as nat);
            lemma_pow2_unfold((bit + 1) as nat);
            lemma_pow2_pos(n as nat);
            lemma_pow2_pos((2 * bit) as nat);
            if bit < 31 {
                lemma_pow2_strictly_increases((bit + 1) as nat, 32);
            }
            lemma_u32_shl_is_mul(1, bit);
            lemma_div_denominator(code, pow2(n as nat) as int, 2);
            lemma_div_denominator(code, 2, pow2((2 * bit) as nat) as int);
            assert((packed & 1 != 0 <==> packed % 2 == 1) && packed >> 1 == packed / 2)
                by (bit_vector);
        }
        proof {
            let value = packed as int % 2;
            assert(pow2(bit as nat) * value == (if value == 1 {
                pow2(bit as nat) as int
            } else {
                0
            })) by (nonlinear_arith)
                requires
                    value == 0 || value == 1,
            ;
            if is_horizontal {
                assert(spec_bit(code, (2 * bit) as nat) == value);
                assert(spec_even_bits(code, (bit + 1) as nat) == spec_even_bits(code, bit as nat)
                    + pow2(bit as nat) * spec_bit(code, (2 * bit) as nat));
            } else {
                lemma_pow2_unfold(n as nat);
                assert(2 * pow2((2 * bit) as nat) == pow2(n as nat));
                assert((code / 2) / (pow2((2 * bit) as nat) as int) == code / (pow2(
                    n as nat,
                ) as int));
                assert(spec_bit(code / 2, (2 * bit) as nat) == value);
                assert(spec_even_bits(code / 2, (bit + 1) as nat) == spec_even_bits(
                    code / 2,
                    bit as nat,
                ) + pow2(bit as nat) * spec_bit(code / 2, (2 * bit) as nat));
            }
        }
        let is_bit_set = (packed & 1) != 0;
        packed = packed >> 1;
        if is_horizontal && is_bit_set {
            x_packed += 1u32 << bit;
        } else if !is_horizontal && is_bit_set {
            y_packed += 1u32 << bit;
        }
        n += 1;
    }
    proof {
        lemma2_to64();
    }
    (unpack(x_packed), unpack(y_packed))
}

/// The number of low bits of an interleaved code that a stored code drops.
pub const BIT_SHIFTS: u32 = (32 - OPERATIONS) * 2 + 1;

/// One more than the largest stored code: `2^43`.
pub const CODE_LIMIT: u64 = 0x800_0000_0000;

/// A position, each axis as a fraction of its range in units of `2^-32`:
/// `lat` counts from 90 degrees south to 90 degrees north, `lng` from 180
/// degrees west to 180 degrees east.
#[derive(Debug, Clone, Copy, PartialEq, Eq, Structural)]
pub struct LatLng {
    pub lat: u32,
    pub lng: u32,
}

/// The code that a position is stored as.
pub open spec fn spec_code(pos: LatLng) -> int {
    spec_interleave(spec_quantize(pos.lat), spec_quantize(pos.lng), 64) / 0x20_0000
}

/// The position that a stored code stands for.
pub open spec fn spec_position(code: u64) -> LatLng {
    let packed = (code % CODE_LIMIT) * 0x20_0000;
    LatLng {
        lat: spec_quantize(spec_even_bits(packed, 32) as u32),
        lng: spec_quantize(spec_even_bits(packed / 2, 32) as u32),
    }
}

/// The position that comes back when `pos` is stored and read again: the
/// lower corner of its cell. The dropped bits cost the latitude its last
/// bisection, so a cell is two units of [`CELL`] high and one wide.
pub open spec fn spec_stored(pos: LatLng) -> LatLng {
    LatLng {
        lat: (pos.lat - pos.lat as int % (2 * CELL)) as u32,
        lng: (pos.lng - pos.lng % CELL) as u32,
    }
}

/// Quantizes a position to the code that a series stores.
pub fn latlng_to_packed(pos: LatLng) -> (n: u64)
    ensures
        n == spec_code(pos),
        n < CODE_LIMIT,
{
    let packed = pack2d(pos.lat, pos.lng);
    assert(packed >> 21 == packed / 0x20_0000 && (packed >> 21) < 0x800_0000_0000)
        by (bit_vector);
    packed >> BIT_SHIFTS
}

/// Gives back the position that a stored code stands for.
pub fn packed_to_latlng(n: u64) -> (pos: LatLng)
    ensures
        pos == spec_position(n),
{
    assert(n << 21 == (n % 0x800_0000_0000) * 0x20_0000) by (bit_vector);
    let packed = n << BIT_SHIFTS;
    let (x, y) = unpack2d(packed);
    LatLng { lat: x, lng: y }
}

/// An interleaving of `bits` bits is below `2^bits`.
proof fn lemma_interleave_bound(a: u32, b: u32, bits: nat)
    ensures
        0 <= spec_interleave(a, b, bits) < pow2(bits),
    decreases bits,
{
    if bits == 0 {
        lemma2_to64();
    } else {
        let i = (bits - 1) as nat;
        lemma_interleave_bound(a, b, i);
        lemma_pow2_unfold(bits);
        let bit = spec_interleaved_bit(a, b, i);
        assert(0 <= pow2(i) * bit <= pow2(i)) by (nonlinear_arith)
            requires
                bit == 0 || bit == 1,
        ;
    }
}

/// Each bit of an interleaving is the bit of the axis code that belongs there.
proof fn lemma_bit_of_interleave(a: u32, b: u32, bits: nat, i: nat)
    requires
        i < bits,
    ensures
        spec_bit(spec_interleave(a, b, bits), i) == spec_interleaved_bit(a, b, i),
    decreases bits,
{
    let top = (bits - 1) as nat;
    let below = spec_interleave(a, b, top);
    let bit = spec_interleaved_bit(a, b, top);
    let unit = pow2(i) as int;
    lemma_pow2_pos(i);
    lemma_interleave_bound(a, b, top);
    if top == i {
        assert(below + unit * bit == bit * unit + below) by (nonlinear_arith);
        lemma_fundamental_div_mod_converse(below + unit * bit, unit, bit, below);
    } else {
        lemma_bit_of_interleave(a, b, top, i);
        let gap = (top - i) as nat;
        lemma_pow2_adds(i, gap);
        lemma_pow2_unfold(gap);
        let half = pow2((gap - 1) as nat) as int;
        assert(pow2(top) * bit == (2 * (half * bit)) * unit) by (nonlinear_arith)
            requires
                pow2(top) == unit * (2 * half),
        ;
        lemma_hoist_over_denominator(below, 2 * (half * bit), unit as nat);
    }
}

/// The bits of a code whose `BIT_SHIFTS` low bits were dropped and put back
/// as zeros.
proof fn lemma_bit_of_cleared(z: int, i: nat)
    requires
        0 <= z,
    ensures
        spec_bit((z / 0x20_0000) * 0x20_0000, i) == (if i >= 21 {
            spec_bit(z, i)
        } else {
            0
        }),
{
    let code = z / 0x20_0000;
    let cleared = code * 0x20_0000;
    let unit = pow2(i) as int;
    lemma2_to64();
    lemma_pow2_pos(i);
    if i >= 21 {
        let gap = (i - 21) as nat;
        lemma_pow2_adds(21, gap);
        lemma_pow2_pos(gap);
        lemma_div_denominator(cleared, 0x20_0000, pow2(gap) as int);
        lemma_div_denominator(z, 0x20_0000, pow2(gap) as int);
    } else {
        let gap = (21 - i) as nat;
        lemma_pow2_adds(i, gap);
        lemma_pow2_unfold(gap);
        let half = pow2((gap - 1) as nat) as int;
        assert(cleared == unit * (2 * (half * code))) by (nonlinear_arith)
            requires
                cleared == code * 0x20_0000,
                0x20_0000 == unit * (2 * half),
        ;
        lemma_div_multiples_vanish(2 * (half * code), unit);
    }
}

/// Halving a number moves each of its bits one place down.
proof fn lemma_bit_of_half(x: int, i: nat)
    requires
        0 <= x,
    ensures
        spec_bit(x / 2, i) == spec_bit(x, i + 1),
{
    lemma_pow2_pos(i);
    lemma_pow2_unfold(i + 1);
    lemma_div_denominator(x, 2, pow2(i) as int);
}

/// What is left of the two axis codes after the low bits of their interleaving
/// were dropped: `a` without its bits below 11, `b` without its bits below 10.
proof fn lemma_even_bits_of_cleared(a: u32, b: u32, count: nat)
    requires
        count <= 32,
    ensures
        ({
            let z = spec_interleave(a, b, 64);
            let cleared = (z / 0x20_0000) * 0x20_0000;
            &&& spec_even_bits(cleared, count) == (if count <= 11 {
                0
            } else {
                a as int % (pow2(count) as int) - a as int % 2048
            })
            &&& spec_even_bits(cleared / 2, count) == (if count <= 10 {
                0
            } else {
                b as int % (pow2(count) as int) - b as int % 1024
            })
        }),
    decreases count,
{
    let z = spec_interleave(a, b, 64);
    let cleared = (z / 0x20_0000) * 0x20_0000;
    lemma_interleave_bound(a, b, 64);
    lemma2_to64();
    if count > 0 {
        let i = (count - 1) as nat;
        lemma_even_bits_of_cleared(a, b, i);
        lemma_pow2_pos(i);
        lemma_pow2_unfold(count);
        lemma_bit_of_cleared(z, 2 * i);
        lemma_bit_of_cleared(z, 2 * i + 1);
        lemma_bit_of_half(cleared, 2 * i);
        lemma_bit_of_interleave(a, b, 64, 2 * i);
        lemma_bit_of_interleave(a, b, 64, 2 * i + 1);
        lemma_mod_breakdown(a as int, pow2(i) as int, 2);
        lemma_mod_breakdown(b as int, pow2(i) as int, 2);
        assert(pow2(i) * 2 == pow2(count));
        let even = spec_bit(cleared, 2 * i);
        let odd = spec_bit(cleared / 2, 2 * i);
        assert(pow2(i) * 0 == 0);
        if i < 11 {
            assert(even == 0);
            assert(pow2(i) * even == 0);
        } else {
            assert(even == spec_bit(a as int, i));
        }
        if i < 10 {
            assert(odd == 0);
            assert(pow2(i) * odd == 0);
        } else {
            assert(odd == spec_bit(b as int, i));
        }
    }
}

/// Storing a position and reading it again gives the lower corner of its
/// cell: the position moves down by less than one cell on each axis, and a
/// position that was read from a code is stored without loss.
pub proof fn lemma_stored_position(pos: LatLng)
    ensures
        0 <= spec_code(pos) < CODE_LIMIT,
        spec_position(spec_code(pos) as u64) == spec_stored(pos),
        0 <= pos.lat - spec_stored(pos).lat < 2 * CELL,
        0 <= pos.lng - spec_stored(pos).lng < CELL,
        spec_stored(spec_stored(pos)) == spec_stored(pos),
{
    let a = spec_quantize(pos.lat);
    let b = spec_quantize(pos.lng);
    lemma_stored_is_fixed(pos);
    assert(0 <= spec_code(pos) < CODE_LIMIT) by {
        lemma_interleave_bound(a, b, 64);
        lemma2_to64();
    }
    assert(spec_position(spec_code(pos) as u64) == spec_stored(pos)) by {
        lemma_interleave_bound(a, b, 64);
        lemma_even_bits_of_cleared(a, b, 32);
        lemma2_to64();
        let z = spec_interleave(a, b, 64);
        let cleared = (z / 0x20_0000) * 0x20_0000;
        assert(spec_even_bits(cleared, 32) == a - a % 2048);
        assert(spec_even_bits(cleared / 2, 32) == b - b % 1024);
        assert(a - a % 2048 == pos.lat - pos.lat % 2048);
        assert(b - b % 1024 == b);
    }
}

/// The lower corner of a cell is its own lower corner, and lies in the cell.
proof fn lemma_stored_is_fixed(pos: LatLng)
    ensures
        spec_stored(spec_stored(pos)) == spec_stored(pos),
        0 <= pos.lat - spec_stored(pos).lat < 2 * CELL,
        0 <= pos.lng - spec_stored(pos).lng < CELL,
{
    let lat = pos.lat - pos.lat as int % 2048;
    let lng = pos.lng - pos.lng as int % 1024;
    assert(lat % 2048 == 0);
    assert(lng % 1024 == 0);
}

} // verus!
