//! Packing of small non-negative integers into 64-bit words.
//!
//! The top four bits of a word select one of sixteen modes; the low sixty bits
//! are the payload. In modes 2 to 15 the payload is a row of equally wide
//! slots, the first value in the lowest slot. A slot holds its value plus one,
//! so that an empty slot reads as zero and ends the word. Mode 1 holds no
//! slots: its payload counts a run of zero values. Mode 0 is never written and
//! reads as an empty word.

use crate::error::Error;
use vstd::arithmetic::div_mod::lemma_fundamental_div_mod_converse;
use vstd::arithmetic::mul::lemma_mul_is_commutative;
use vstd::arithmetic::power2::{
    lemma2_to64, lemma2_to64_rest, lemma_pow2_adds, lemma_pow2_pos, lemma_pow2_strictly_increases,
    pow2,
};
use vstd::bits::{
    low_bits_mask, lemma_u64_low_bits_mask_is_mod, lemma_u64_shl_is_mul, lemma_u64_shr_is_div,
};
use vstd::prelude::*;

verus! {

/// One more than the largest number that a slot can hold: `2^60`.
pub const MAX_VALUE: u64 = 0x1000_0000_0000_0000;

/// The longest run of zeros that is still packed slot by slot.
pub const MAX_PLAIN_ZEROS: usize = 60;

/// How many slots a word of `mode` has.
pub open spec fn spec_capacity(mode: int) -> int {
    if mode == 0 {
        240
    } else if mode == 1 {
        120
    } else if mode == 2 {
        60
    } else if mode == 3 {
        30
    } else if mode == 4 {
        20
    } else if mode == 5 {
        15
    } else if mode == 6 {
        12
    } else if mode == 7 {
        10
    } else if mode == 8 {
        8
    } else if mode == 9 {
        7
    } else if mode == 10 {
        6
    } else if mode == 11 {
        5
    } else if mode == 12 {
        4
    } else if mode == 13 {
        3
    } else if mode == 14 {
        2
    } else {
        1
    }
}

/// How many bits a slot of `mode` has.
pub open spec fn spec_width(mode: int) -> nat {
    if mode <= 1 {
        0
    } else if mode <= 9 {
        (mode - 1) as nat
    } else if mode == 10 {
        10
    } else if mode == 11 {
        12
    } else if mode == 12 {
        15
    } else if mode == 13 {
        20
    } else if mode == 14 {
        30
    } else {
        60
    }
}

/// Whether a slot of `mode` can hold the number `stored`.
pub open spec fn fits(stored: int, mode: int) -> bool {
    0 <= stored < pow2(spec_width(mode))
}

/// The first mode from `mode` on whose slots can hold `stored`, and 15 if none can.
pub open spec fn first_fitting(stored: int, mode: int) -> int
    decreases 15 - mode,
{
    if mode >= 15 || fits(stored, mode) {
        mode
    } else {
        first_fitting(stored, mode + 1)
    }
}

/// The densest slotted mode that can hold `stored`.
pub open spec fn spec_min_selector(stored: int) -> int {
    first_fitting(stored, 2)
}

/// Whether `value` can be packed: a slot stores `value + 1`, in at most 60 bits.
pub open spec fn storable(value: u64) -> bool {
    value + 1 < MAX_VALUE
}

/// The length of the run of zeros that starts at `from`.
pub open spec fn zero_run(data: Seq<u64>, from: int) -> int
    decreases data.len() - from,
{
    if 0 <= from < data.len() && data[from] == 0 {
        1 + zero_run(data, from + 1)
    } else {
        0
    }
}

/// What a row of at most `slots` slots of `width` bits holds, read from the
/// lowest slot up to the first empty one.
pub open spec fn spec_read_slots(payload: int, width: nat, slots: nat) -> Seq<u64>
    decreases slots,
{
    if slots == 0 || payload % (pow2(width) as int) == 0 {
        Seq::empty()
    } else {
        seq![(payload % (pow2(width) as int) - 1) as u64] + spec_read_slots(
            payload / (pow2(width) as int),
            width,
            (slots - 1) as nat,
        )
    }
}

/// The values that `word` holds.
pub open spec fn spec_unpack(word: u64) -> Seq<u64> {
    let mode = word as int / MAX_VALUE as int;
    let payload = word as int % MAX_VALUE as int;
    if mode == 1 {
        Seq::new(payload as nat, |i: int| 0u64)
    } else {
        spec_read_slots(payload, spec_width(mode), spec_capacity(mode) as nat)
    }
}

/// The mode that the first `n` values of `data` need together: the largest of
/// the modes that each needs, and 0 for no value.
pub open spec fn needed_mode(data: Seq<u64>, n: int) -> int
    decreases n,
{
    if n <= 0 {
        0
    } else {
        let this = spec_min_selector(data[n - 1] + 1);
        let before = needed_mode(data, n - 1);
        if this > before {
            this
        } else {
            before
        }
    }
}

/// Whether the first `n` values of `data` go into one slotted word.
pub open spec fn packable(data: Seq<u64>, n: int) -> bool {
    &&& 0 <= n <= data.len()
    &&& forall|i: int| 0 <= i < n ==> storable(#[trigger] data[i])
    &&& n <= spec_capacity(needed_mode(data, n))
}

/// The payload that holds `values` in slots of `width` bits.
pub open spec fn spec_slots(values: Seq<u64>, width: nat) -> int
    decreases values.len(),
{
    if values.len() == 0 {
        0
    } else {
        values[0] + 1 + pow2(width) * spec_slots(values.skip(1), width)
    }
}

/// Whether `word` is the packed form of the first `count` values of `data`,
/// and `count` the most that one word takes.
///
/// A run of more than 60 zeros becomes a word of mode 1 that counts the run.
/// Otherwise the word takes the longest prefix that some slotted mode holds,
/// in the densest mode that holds it.
pub open spec fn packs_to(data: Seq<u64>, word: u64, count: int) -> bool {
    let zeros = zero_run(data, 0);
    if zeros > MAX_PLAIN_ZEROS {
        &&& count == if zeros < MAX_VALUE { zeros } else { MAX_VALUE - 1 }
        &&& word == MAX_VALUE + count
    } else {
        &&& packable(data, count)
        &&& forall|n: int| #[trigger] packable(data, n) ==> n <= count
        &&& word == needed_mode(data, count) * MAX_VALUE + spec_slots(
            data.take(count),
            spec_width(needed_mode(data, count)),
        )
    }
}

/// The word that `data` is packed into, and the number of values that it takes.
pub open spec fn spec_pack(data: Seq<u64>) -> (u64, int) {
    choose|packed: (u64, int)| packs_to(data, packed.0, packed.1)
}

/// Whether `pack` refuses `data`: no run of zeros stands for the first word, and
/// the value that follows the longest packable prefix can never be packed.
pub open spec fn spec_too_large(data: Seq<u64>) -> bool {
    &&& zero_run(data, 0) <= MAX_PLAIN_ZEROS
    &&& exists|n: int| #[trigger] packable(data, n) && n < data.len() && !storable(data[n])
}

/// The number of slots of `mode`.
fn mode_capacity(mode: usize) -> (capacity: u8)
    requires
        mode < 16,
    ensures
        capacity == spec_capacity(mode as int),
{
    match mode {
        0 => 240,
        1 => 120,
        2 => 60,
        3 => 30,
        4 => 20,
        5 => 15,
        6 => 12,
        7 => 10,
        8 => 8,
        9 => 7,
        10 => 6,
        11 => 5,
        12 => 4,
        13 => 3,
        14 => 2,
        _ => 1,
    }
}

/// The width in bits of a slot of `mode`.
fn mode_width(mode: usize) -> (width: u8)
    requires
        mode < 16,
    ensures
        width == spec_width(mode as int),
        width <= 60,
{
    match mode {
        0 => 0,
        1 => 0,
        2 => 1,
        3 => 2,
        4 => 3,
        5 => 4,
        6 => 5,
        7 => 6,
        8 => 7,
        9 => 8,
        10 => 10,
        11 => 12,
        12 => 15,
        13 => 20,
        14 => 30,
        _ => 60,
    }
}

/// A one followed by `width` zero bits.
fn slot_limit(width: u8) -> (limit: u64)
    requires
        width <= 60,
    ensures
        limit == pow2(width as nat),
        limit == 1u64 << width,
        0 < limit <= MAX_VALUE,
{
    proof {
        lemma2_to64();
        lemma2_to64_rest();
        if width < 60 {
            lemma_pow2_strictly_increases(width as nat, 60);
        }
        lemma_pow2_pos(width as nat);
        lemma_u64_shl_is_mul(1, width as u64);
    }
    1u64 << width
}

/// A run of zeros ends within `data` and holds nothing but zeros.
proof fn lemma_zero_run(data: Seq<u64>, from: int)
    requires
        0 <= from <= data.len(),
    ensures
        0 <= zero_run(data, from) <= data.len() - from,
        forall|i: int| from <= i < from + zero_run(data, from) ==> #[trigger] data[i] == 0,
    decreases data.len() - from,
{
    if from < data.len() && data[from] == 0 {
        lemma_zero_run(data, from + 1);
    }
}

/// The densest mode for a number is a slotted mode, and the number fits it and
/// every mode above it.
proof fn lemma_min_selector(stored: int)
    requires
        0 <= stored < MAX_VALUE,
    ensures
        2 <= spec_min_selector(stored) <= 15,
        forall|mode: int| spec_min_selector(stored) <= mode <= 15 ==> #[trigger] fits(stored, mode),
{
    lemma2_to64();
    lemma2_to64_rest();
    reveal_with_fuel(first_fitting, 15);
}

/// The mode that a prefix needs grows with the prefix, and every value of the
/// prefix fits it.
proof fn lemma_needed_mode(data: Seq<u64>, n: int)
    requires
        0 <= n <= data.len(),
        forall|i: int| 0 <= i < n ==> storable(#[trigger] data[i]),
    ensures
        n == 0 ==> needed_mode(data, n) == 0,
        n > 0 ==> 2 <= needed_mode(data, n) <= 15,
        forall|m: int| 0 <= m <= n ==> needed_mode(data, m) <= needed_mode(data, n),
        forall|i: int|
            0 <= i < n ==> fits(#[trigger] data[i] + 1, needed_mode(data, n)),
    decreases n,
{
    if n > 0 {
        lemma_needed_mode(data, n - 1);
        lemma_min_selector(data[n - 1] + 1);
        assert forall|i: int| 0 <= i < n implies fits(
            #[trigger] data[i] + 1,
            needed_mode(data, n),
        ) by {
            lemma_min_selector(data[i] + 1);
            if i < n - 1 {
                lemma2_to64();
                lemma2_to64_rest();
                lemma_fits_wider(data[i] + 1, needed_mode(data, n - 1), needed_mode(data, n));
            }
        }
    }
}

/// What fits a mode fits every mode above it.
proof fn lemma_fits_wider(stored: int, mode: int, wider: int)
    requires
        fits(stored, mode),
        0 <= mode <= wider <= 15,
    ensures
        fits(stored, wider),
{
    if spec_width(mode) < spec_width(wider) {
        lemma_pow2_strictly_increases(spec_width(mode), spec_width(wider));
    }
}

/// A shorter prefix of a packable prefix is packable.
proof fn lemma_packable_prefix(data: Seq<u64>, m: int, n: int)
    requires
        packable(data, n),
        0 <= m <= n,
    ensures
        packable(data, m),
{
    lemma_needed_mode(data, n);
    lemma_needed_mode(data, m);
}

/// A row of slots takes no more bits than its slots have together.
proof fn lemma_slots_bound(values: Seq<u64>, width: nat)
    requires
        forall|i: int| 0 <= i < values.len() ==> #[trigger] values[i] + 1 < pow2(width),
    ensures
        0 <= spec_slots(values, width) < pow2(width * values.len()),
    decreases values.len(),
{
    if values.len() == 0 {
        lemma2_to64();
        assert(width * values.len() == 0) by (nonlinear_arith)
            requires
                values.len() == 0,
        ;
    } else {
        let rest = values.skip(1);
        lemma_slots_bound(rest, width);
        let radix = pow2(width) as int;
        let inner = spec_slots(rest, width);
        let bound = pow2(width * rest.len()) as int;
        lemma_pow2_adds(width, width * rest.len());
        assert(width + width * rest.len() == width * values.len()) by (nonlinear_arith)
            requires
                rest.len() + 1 == values.len(),
        ;
        assert(values[0] + 1 + radix * inner < radix * bound) by (nonlinear_arith)
            requires
                0 <= values[0] + 1 < radix,
                0 <= inner < bound,
        ;
        assert(0 <= radix * inner) by (nonlinear_arith)
            requires
                0 <= radix,
                0 <= inner,
        ;
    }
}

/// Reading a row of slots gives back the values that were put into it.
proof fn lemma_read_slots_of_slots(values: Seq<u64>, width: nat, slots: nat)
    requires
        forall|i: int| 0 <= i < values.len() ==> #[trigger] values[i] + 1 < pow2(width),
        values.len() <= slots,
    ensures
        spec_read_slots(spec_slots(values, width), width, slots) == values,
    decreases values.len(),
{
    let radix = pow2(width) as int;
    lemma_pow2_pos(width);
    if values.len() == 0 {
        assert(0int % radix == 0) by (nonlinear_arith)
            requires
                radix > 0,
        ;
        assert(spec_read_slots(spec_slots(values, width), width, slots) =~= values);
    } else {
        let rest = values.skip(1);
        let inner = spec_slots(rest, width);
        let first = values[0] + 1;
        lemma_slots_bound(rest, width);
        lemma_mul_is_commutative(radix, inner);
        lemma_fundamental_div_mod_converse(first + radix * inner, radix, inner, first);
        lemma_read_slots_of_slots(rest, width, (slots - 1) as nat);
        assert(values =~= seq![values[0]] + rest);
    }
}

/// A word that `packs_to` describes holds the values that it was packed from,
/// and as many of them as were counted.
pub proof fn lemma_unpack_inverts_pack(data: Seq<u64>, word: u64, count: int)
    requires
        packs_to(data, word, count),
    ensures
        spec_unpack(word) == data.take(count),
        spec_unpack(word).len() == count,
        0 <= count <= data.len(),
        data.len() > 0 && !spec_too_large(data) ==> count > 0,
{
    lemma_zero_run(data, 0);
    if zero_run(data, 0) > MAX_PLAIN_ZEROS {
        assert(spec_unpack(word) =~= data.take(count));
    } else {
        let mode = needed_mode(data, count);
        let values = data.take(count);
        lemma_needed_mode(data, count);
        lemma2_to64();
        lemma2_to64_rest();
        assert forall|i: int| 0 <= i < values.len() implies #[trigger] values[i] + 1 < pow2(
            spec_width(mode),
        ) by {
            assert(fits(data[i] + 1, mode));
        }
        lemma_slots_bound(values, spec_width(mode));
        lemma_capacity_in_payload(mode, count);
        lemma_read_slots_of_slots(values, spec_width(mode), spec_capacity(mode) as nat);
        if data.len() > 0 && !spec_too_large(data) && count == 0 {
            assert(packable(data, 0));
            lemma_min_selector(data[0] + 1);
            assert(needed_mode(data, 1) == spec_min_selector(data[0] + 1)) by {
                reveal_with_fuel(needed_mode, 2);
            }
            assert(packable(data, 1));
        }
    }
}

/// There is one packed form of `data` at most.
pub proof fn lemma_packs_to_one(data: Seq<u64>, word: u64, count: int)
    requires
        packs_to(data, word, count),
    ensures
        spec_pack(data) == (word, count),
{
    let given = (word, count);
    assert(packs_to(data, given.0, given.1));
    let found = spec_pack(data);
    assert(packs_to(data, found.0, found.1));
    if zero_run(data, 0) <= MAX_PLAIN_ZEROS {
        assert(packable(data, count) && packable(data, found.1));
    }
}

/// Values that can all be stored are never refused.
pub proof fn lemma_storable_is_packed(data: Seq<u64>)
    requires
        forall|i: int| 0 <= i < data.len() ==> storable(#[trigger] data[i]),
    ensures
        !spec_too_large(data),
{
}

/// The slots of a mode fit the sixty bits of a payload.
proof fn lemma_capacity_in_payload(mode: int, count: int)
    requires
        0 <= mode <= 15,
        0 <= count <= spec_capacity(mode),
    ensures
        pow2(spec_width(mode) * (count as nat)) <= MAX_VALUE,
{
    lemma2_to64_rest();
    assert(spec_width(mode) * spec_capacity(mode) <= 60);
    assert(spec_width(mode) * count <= spec_width(mode) * spec_capacity(mode)) by (nonlinear_arith)
        requires
            0 <= count <= spec_capacity(mode),
    ;
    if spec_width(mode) * (count as nat) < 60 {
        lemma_pow2_strictly_increases(spec_width(mode) * (count as nat), 60);
    }
}

/// Finds the densest slotted mode that can hold `stored`.
pub fn get_min_selector(stored: u64) -> (result: Result<usize, Error>)
    ensures
        match result {
            Ok(mode) => stored < MAX_VALUE && mode == spec_min_selector(stored as int),
            Err(e) => stored >= MAX_VALUE && e == Error::ValueTooLarge,
        },
{
    if stored >= MAX_VALUE {
        return Err(Error::ValueTooLarge);
    }
    let mut mode: usize = 2;
    while mode < 15
        invariant
            2 <= mode <= 15,
            spec_min_selector(stored as int) == first_fitting(stored as int, mode as int),
        decreases 15 - mode,
    {
        if stored < slot_limit(mode_width(mode)) {
            return Ok(mode);
        }
        mode += 1;
    }
    Ok(mode)
}

/// Counts the zeros that `data` begins with.
pub fn count_leading_zeroes(data: &[u64]) -> (n: usize)
    ensures
        n == zero_run(data@, 0),
        n <= data@.len(),
{
    let mut n: usize = 0;
    while n < data.len() && data[n] == 0
        invariant
            n <= data@.len(),
            zero_run(data@, 0) == n + zero_run(data@, n as int),
        decreases data@.len() - n,
    {
        n += 1;
    }
    n
}

/// Packs as many values from the front of `data` as one word takes.
///
/// Returns the word and the number of values in it. Fails when the value that
/// the word would have to take next is too large for any slot.
pub fn pack(data: &[u64]) -> (result: Result<(u64, usize), Error>)
    ensures
        match result {
            Ok((word, count)) => {
                &&& count <= data@.len()
                &&& packs_to(data@, word, count as int)
                &&& spec_pack(data@) == (word, count as int)
                &&& spec_unpack(word) == data@.take(count as int)
                &&& spec_unpack(word).len() == count
                &&& data@.len() > 0 ==> count > 0
            },
            Err(e) => e == Error::ValueTooLarge,
        },
        result is Err <==> spec_too_large(data@),
{
    let leading_zeroes = count_leading_zeroes(data);
    if leading_zeroes > MAX_PLAIN_ZEROS {
        let run: u64 = if leading_zeroes as u64 >= MAX_VALUE {
            MAX_VALUE - 1
        } else {
            leading_zeroes as u64
        };
        assert(1u64 << 60 == 0x1000_0000_0000_0000) by (bit_vector);
        let word = run + (1u64 << 60);
        proof {
            lemma_unpack_inverts_pack(data@, word, run as int);
            lemma_packs_to_one(data@, word, run as int);
        }
        return Ok((word, run as usize));
    }
    let mut selector: usize = 0;
    let mut count: usize = 0;
    while count < data.len()
        invariant
            count <= data@.len(),
            selector == needed_mode(data@, count as int),
            selector < 16,
            packable(data@, count as int),
            zero_run(data@, 0) <= MAX_PLAIN_ZEROS,
        ensures
            count <= data@.len(),
            selector == needed_mode(data@, count as int),
            selector < 16,
            packable(data@, count as int),
            count < data@.len() ==> storable(data@[count as int]) && !packable(
                data@,
                count + 1,
            ),
        decreases data@.len() - count,
    {
        let v = data[count];
        let needed = match get_min_selector(v.saturating_add(1)) {
            Ok(mode) => mode,
            Err(e) => {
                return Err(e);
            },
        };
        proof {
            lemma_min_selector(v + 1);
        }
        let selector_next = if needed > selector {
            needed
        } else {
            selector
        };
        if count >= mode_capacity(selector_next) as usize {
            break ;
        }
        selector = selector_next;
        count += 1;
    }
    proof {
        assert forall|n: int| #[trigger] packable(data@, n) implies n <= count by {
            if n > count {
                lemma_packable_prefix(data@, count + 1, n);
            }
        }
        assert forall|n: int| #[trigger]
            packable(data@, n) && n < data@.len() implies storable(data@[n]) by {
            if n < count {
                assert(storable(data@[n]));
            }
        }
        lemma_needed_mode(data@, count as int);
        lemma_capacity_in_payload(selector as int, count as int);
    }
    let width = mode_width(selector);
    let limit = slot_limit(width);
    let mut packed: u64 = 0;
    let mut i: usize = count;
    while i > 0
        invariant
            i <= count <= data@.len(),
            width == spec_width(selector as int),
            limit == pow2(width as nat),
            limit == 1u64 << width,
            width <= 60,
            packed == spec_slots(data@.subrange(i as int, count as int), width as nat),
            forall|k: int| 0 <= k < count ==> #[trigger] data@[k] + 1 < limit,
            pow2((width as nat) * (count as nat)) <= MAX_VALUE,
        decreases i,
    {
        i -= 1;
        let stored = data[i] + 1;
        proof {
            let values = data@.subrange(i as int, count as int);
            assert(values.skip(1) =~= data@.subrange(i + 1, count as int));
            lemma_slots_bound(values, width as nat);
            lemma_slots_bound(values.skip(1), width as nat);
            assert((width as nat) * values.len() <= (width as nat) * (count as nat))
                by (nonlinear_arith)
                requires
                    values.len() <= count,
            ;
            if (width as nat) * values.len() < (width as nat) * (count as nat) {
                lemma_pow2_strictly_increases(
                    (width as nat) * values.len(),
                    (width as nat) * (count as nat),
                );
            }
            assert(0 <= limit * packed) by (nonlinear_arith)
                requires
                    0 <= limit,
                    0 <= packed,
            ;
            lemma_mul_is_commutative(limit as int, packed as int);
            lemma_u64_shl_is_mul(packed, width as u64);
            let shifted = packed << width;
            assert((shifted | stored) == shifted + stored) by (bit_vector)
                requires
                    shifted == packed << width,
                    limit == 1u64 << width,
                    stored < limit,
                    width <= 60,
            ;
        }
        packed = (packed << width) | stored;
    }
    proof {
        assert(data@.subrange(0, count as int) =~= data@.take(count as int));
        lemma_slots_bound(data@.take(count as int), width as nat);
    }
    assert((packed | ((selector as u64) << 60)) == packed + (selector as u64)
        * 0x1000_0000_0000_0000) by (bit_vector)
        requires
            packed < 0x1000_0000_0000_0000,
            (selector as u64) < 16,
    ;
    let word = packed | ((selector as u64) << 60);
    proof {
        lemma_unpack_inverts_pack(data@, word, count as int);
        lemma_packs_to_one(data@, word, count as int);
    }
    Ok((word, count))
}

/// The number of slots in the word `v`, by its mode.
pub fn count_packed(v: u64) -> (slots: u8)
    ensures
        slots == spec_capacity(v as int / MAX_VALUE as int),
{
    assert(v >> 60 == v / 0x1000_0000_0000_0000 && (v >> 60) < 16) by (bit_vector);
    mode_capacity((v >> 60) as usize)
}

/// Reads the values out of a packed word.
pub fn unpack(v: u64) -> (output: Vec<u64>)
    ensures
        output@ == spec_unpack(v),
{
    let mut output: Vec<u64> = Vec::new();
    assert(v >> 60 == v / 0x1000_0000_0000_0000 && (v >> 60) < 16 && v & 0x0fff_ffff_ffff_ffff == v
        % 0x1000_0000_0000_0000) by (bit_vector);
    let mode = (v >> 60) as usize;
    let payload = v & (MAX_VALUE - 1);
    if mode == 1 {
        let mut i: u64 = 0;
        while i < payload
            invariant
                i <= payload,
                output@ == Seq::new(i as nat, |k: int| 0u64),
            decreases payload - i,
        {
            output.push(0);
            i += 1;
        }
    } else {
        let slots = count_packed(v);
        let width = mode_width(mode);
        let mask = slot_limit(width) - 1;
        let mut rest = payload;
        let mut i: u8 = 0;
        while i < slots
            invariant
                i <= slots,
                width <= 60,
                mask == low_bits_mask(width as nat),
                pow2(width as nat) <= MAX_VALUE,
                spec_unpack(v) == output@ + spec_read_slots(
                    rest as int,
                    width as nat,
                    (slots - i) as nat,
                ),
            ensures
                output@ == spec_unpack(v),
            decreases slots - i,
        {
            proof {
                lemma_u64_low_bits_mask_is_mod(rest, width as nat);
                lemma_u64_shr_is_div(rest, width as u64);
            }
            let value = rest & mask;
            assert(value == rest as int % (pow2(width as nat) as int));
            if value == 0 {
                assert(spec_read_slots(rest as int, width as nat, (slots - i) as nat)
                    =~= Seq::<u64>::empty());
                break ;
            }
            let ghost before = output@;
            let ghost tail = spec_read_slots(
                rest as int / (pow2(width as nat) as int),
                width as nat,
                (slots - i - 1) as nat,
            );
            assert(spec_read_slots(rest as int, width as nat, (slots - i) as nat) == seq![
                (value - 1) as u64,
            ] + tail);
            output.push(value - 1);
            rest = rest >> width;
            i += 1;
            assert(output@ + tail =~= before + (seq![(value - 1) as u64] + tail));
        }
    }
    output
}

} // verus!
