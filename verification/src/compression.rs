//! Packing indexes into as few bits as the largest of them needs.

use vstd::arithmetic::div_mod::{
    lemma_div_denominator, lemma_fundamental_div_mod, lemma_fundamental_div_mod_converse,
    lemma_mod_breakdown, lemma_mod_mod, lemma_small_mod,
};
use vstd::arithmetic::power2::{
    lemma2_to64, lemma_pow2_adds, lemma_pow2_pos, lemma_pow2_strictly_increases,
    lemma_pow2_unfold, pow2,
};
use vstd::prelude::*;

use crate::bytes::{byte_range, le_value, lemma_le_value_push};

verus! {

/// The number whose digits to the base of two to the `bits` are the low `bits` bits of `indexes`,
/// least significant digit first.
pub open spec fn packed_value(indexes: Seq<u64>, bits: nat) -> nat
    decreases indexes.len(),
{
    if indexes.len() == 0 {
        0
    } else {
        indexes[0] as nat % pow2(bits) + pow2(bits) * packed_value(indexes.drop_first(), bits)
    }
}

/// Whether `bytes` hold `indexes`, packed one after the other from the lowest bit of the first byte
/// on, in as few bytes as there is room for them in.
pub open spec fn is_packed(indexes: Seq<u64>, bits: nat, bytes: Seq<u8>) -> bool {
    &&& bytes.len() == (indexes.len() * bits + 7) / 8
    &&& le_value(bytes) == packed_value(indexes, bits)
}

/// Whether `indexes` are the numbers of `bits` bits that `bytes` have room for, read one after the
/// other from the lowest bit of the first byte on.
pub open spec fn is_unpacked(bytes: Seq<u8>, bits: nat, indexes: Seq<u64>) -> bool {
    &&& indexes.len() == bytes.len() * 8 / bits
    &&& forall|k: int| 0 <= k < indexes.len() ==> #[trigger] indexes[k] < pow2(bits)
    &&& packed_value(indexes, bits) == le_value(bytes) % pow2(indexes.len() * bits)
}

/// The number of binary digits of `value`.
pub open spec fn bit_length(value: nat) -> nat
    decreases value,
{
    if value == 0 {
        0
    } else {
        1 + bit_length(value / 2)
    }
}

/// The number of binary digits is the least number of bits that a value fits into.
pub proof fn bit_length_is_least(value: nat)
    ensures
        value < pow2(bit_length(value)),
        value == 0 ==> bit_length(value) == 0,
        value > 0 ==> bit_length(value) > 0 && value >= pow2((bit_length(value) - 1) as nat),
    decreases value,
{
    lemma2_to64();
    if value > 0 {
        bit_length_is_least(value / 2);
        lemma_pow2_unfold(bit_length(value));
        if value > 1 {
            lemma_pow2_unfold((bit_length(value) - 1) as nat);
        }
    }
}

/// A value that fits into some bits has no more binary digits than those.
pub proof fn lemma_bit_length_bound(value: nat, bits: nat)
    requires
        value < pow2(bits),
    ensures
        bit_length(value) <= bits,
    decreases value,
{
    lemma2_to64();
    if value > 0 {
        assert(bits > 0);
        lemma_pow2_unfold(bits);
        lemma_bit_length_bound(value / 2, (bits - 1) as nat);
    }
}

/// A byte has eight bits.
pub proof fn lemma_byte_range_is_pow2(n: nat)
    ensures
        byte_range(n) == pow2(8 * n),
    decreases n,
{
    lemma2_to64();
    if n > 0 {
        let n1 = (n - 1) as nat;
        lemma_byte_range_is_pow2(n1);
        lemma_pow2_adds(8, 8 * n1);
    }
}

pub proof fn lemma_pow2_ordered(a: nat, b: nat)
    requires
        a <= b,
    ensures
        pow2(a) <= pow2(b),
{
    if a < b {
        lemma_pow2_strictly_increases(a, b);
    }
}

/// Appending an index adds a most significant digit.
pub proof fn lemma_packed_push(indexes: Seq<u64>, bits: nat, index: u64)
    ensures
        packed_value(indexes.push(index), bits) == packed_value(indexes, bits) + pow2(
            indexes.len() * bits,
        ) * (index as nat % pow2(bits)),
    decreases indexes.len(),
{
    let all = indexes.push(index);
    let digit = index as nat % pow2(bits);
    lemma2_to64();
    if indexes.len() == 0 {
        assert(all.drop_first() =~= Seq::empty());
        assert(0 * bits == 0) by (nonlinear_arith);
        assert(packed_value(all.drop_first(), bits) == 0);
        assert(packed_value(all, bits) == digit) by (nonlinear_arith)
            requires
                packed_value(all, bits) == digit + pow2(bits) * 0,
        ;
        assert(pow2(0) * digit == digit) by (nonlinear_arith)
            requires
                pow2(0) == 1,
        ;
    } else {
        let rest = indexes.drop_first();
        lemma_packed_push(rest, bits, index);
        assert(all.drop_first() =~= rest.push(index));
        lemma_pow2_adds(bits, rest.len() * bits);
        assert(bits + rest.len() * bits == indexes.len() * bits) by (nonlinear_arith)
            requires
                indexes.len() == rest.len() + 1,
        ;
        let value = packed_value(rest, bits);
        let low = pow2(rest.len() * bits);
        assert(pow2(bits) * (value + low * digit) == pow2(bits) * value + (pow2(bits) * low)
            * digit) by (nonlinear_arith);
    }
}

/// There is no more in a packed number than its digits have room for.
pub proof fn lemma_packed_bound(indexes: Seq<u64>, bits: nat)
    ensures
        packed_value(indexes, bits) < pow2(indexes.len() * bits),
    decreases indexes.len(),
{
    lemma2_to64();
    if indexes.len() == 0 {
        assert(0 * bits == 0) by (nonlinear_arith);
    } else {
        let rest = indexes.drop_first();
        let base = pow2(bits);
        let digit = indexes[0] as nat % base;
        lemma_pow2_pos(bits);
        lemma_packed_bound(rest, bits);
        lemma_pow2_adds(bits, rest.len() * bits);
        assert(bits + rest.len() * bits == indexes.len() * bits) by (nonlinear_arith)
            requires
                indexes.len() == rest.len() + 1,
        ;
        let value = packed_value(rest, bits);
        let high = pow2(rest.len() * bits);
        assert(digit + base * value < base * high) by (nonlinear_arith)
            requires
                digit < base,
                value + 1 <= high,
        ;
    }
}

/// Two lists of indexes that fit their bits and have one packed number agree as far as the shorter
/// one goes.
pub proof fn lemma_packed_injective(a: Seq<u64>, b: Seq<u64>, bits: nat)
    requires
        a.len() <= b.len(),
        forall|k: int| 0 <= k < a.len() ==> #[trigger] a[k] < pow2(bits),
        forall|k: int| 0 <= k < b.len() ==> #[trigger] b[k] < pow2(bits),
        packed_value(a, bits) == packed_value(b, bits),
    ensures
        b.take(a.len() as int) == a,
    decreases a.len(),
{
    if a.len() == 0 {
        assert(b.take(0) =~= a);
    } else {
        let base = pow2(bits) as int;
        lemma_pow2_pos(bits);
        let x = packed_value(a.drop_first(), bits) as int;
        let y = packed_value(b.drop_first(), bits) as int;
        vstd::arithmetic::div_mod::lemma_small_mod(a[0] as nat, base as nat);
        vstd::arithmetic::div_mod::lemma_small_mod(b[0] as nat, base as nat);
        let value = packed_value(a, bits) as int;
        assert(base * x == x * base && base * y == y * base) by (nonlinear_arith);
        vstd::arithmetic::div_mod::lemma_fundamental_div_mod_converse(value, base, x, a[0] as int);
        vstd::arithmetic::div_mod::lemma_fundamental_div_mod_converse(value, base, y, b[0] as int);
        assert forall|k: int| 0 <= k < a.drop_first().len() implies #[trigger] a.drop_first()[k]
            < pow2(bits) by {
            assert(a.drop_first()[k] == a[k + 1]);
        }
        assert forall|k: int| 0 <= k < b.drop_first().len() implies #[trigger] b.drop_first()[k]
            < pow2(bits) by {
            assert(b.drop_first()[k] == b[k + 1]);
        }
        lemma_packed_injective(a.drop_first(), b.drop_first(), bits);
        assert forall|k: int| 0 <= k < a.len() implies b.take(a.len() as int)[k] == a[k] by {
            if k > 0 {
                assert(b.drop_first().take(a.len() - 1)[k - 1] == a.drop_first()[k - 1]);
            }
        }
        assert(b.take(a.len() as int) =~= a);
    }
}

/// Indexes that fit their bits come back when they are unpacked. There can be more that come back:
/// the last byte may have room for them.
pub proof fn unpacking_undoes_packing(
    indexes: Seq<u64>,
    bits: nat,
    bytes: Seq<u8>,
    unpacked: Seq<u64>,
)
    requires
        bits > 0,
        forall|k: int| 0 <= k < indexes.len() ==> #[trigger] indexes[k] < pow2(bits),
        is_packed(indexes, bits, bytes),
        is_unpacked(bytes, bits, unpacked),
    ensures
        unpacked.len() >= indexes.len(),
        unpacked.take(indexes.len() as int) == indexes,
{
    let n = indexes.len() as int;
    let room = bytes.len() as int * 8;
    assert(room >= n * bits);
    assert(room / bits as int >= n) by (nonlinear_arith)
        requires
            room >= n * bits,
            bits > 0,
    ;
    lemma_packed_bound(indexes, bits);
    assert(indexes.len() * bits <= unpacked.len() * bits) by (nonlinear_arith)
        requires
            indexes.len() <= unpacked.len(),
    ;
    lemma_pow2_ordered(indexes.len() * bits, unpacked.len() * bits);
    vstd::arithmetic::div_mod::lemma_small_mod(
        packed_value(indexes, bits),
        pow2(unpacked.len() * bits),
    );
    lemma_packed_injective(indexes, unpacked, bits);
}

/// The digits of a packed number are the indexes.
proof fn lemma_packed_digit(indexes: Seq<u64>, bits: nat, k: nat)
    requires
        k < indexes.len(),
    ensures
        packed_value(indexes, bits) / pow2(k * bits) % pow2(bits) == indexes[k as int] as nat
            % pow2(bits),
    decreases k,
{
    let base = pow2(bits) as int;
    let digit = indexes[0] as int % base;
    let value = packed_value(indexes.drop_first(), bits) as int;
    let whole = packed_value(indexes, bits) as int;
    lemma2_to64();
    lemma_pow2_pos(bits);
    assert(base * value == value * base) by (nonlinear_arith);
    lemma_fundamental_div_mod_converse(whole, base, value, digit);
    if k == 0 {
        assert(0 * bits == 0);
        assert(whole / 1 == whole);
    } else {
        let before = (k - 1) as nat;
        lemma_packed_digit(indexes.drop_first(), bits, before);
        assert(bits + before * bits == k * bits) by (nonlinear_arith)
            requires
                k == before + 1,
        ;
        lemma_pow2_adds(bits, before * bits);
        lemma_pow2_pos(before * bits);
        lemma_div_denominator(whole, base, pow2(before * bits) as int);
    }
}

/// Index `k` of those that are packed takes the bits from `k * bits` on: there stand its low
/// `bits` bits. There are no other bits, and no more bytes than it takes.
pub proof fn packed_bits_are_the_indexes(
    indexes: Seq<u64>,
    bits: nat,
    bytes: Seq<u8>,
    k: nat,
)
    requires
        is_packed(indexes, bits, bytes),
    ensures
        8 * bytes.len() - 8 < indexes.len() * bits <= 8 * bytes.len(),
        le_value(bytes) < pow2(indexes.len() * bits),
        k < indexes.len() ==> le_value(bytes) / pow2(k * bits) % pow2(bits)
            == indexes[k as int] as nat % pow2(bits),
{
    assert(indexes.len() * bits >= 0) by (nonlinear_arith);
    lemma_packed_bound(indexes, bits);
    if k < indexes.len() {
        lemma_packed_digit(indexes, bits, k);
    }
}

/// Index `k` of those that are unpacked is read from the bits from `k * bits` on. As many are read
/// as there are whole indexes in the bytes.
pub proof fn unpacked_indexes_are_the_bits(
    bytes: Seq<u8>,
    bits: nat,
    indexes: Seq<u64>,
    k: nat,
)
    requires
        bits > 0,
        is_unpacked(bytes, bits, indexes),
    ensures
        indexes.len() * bits <= 8 * bytes.len() < (indexes.len() + 1) * bits,
        k < indexes.len() ==> indexes[k as int] == le_value(bytes) / pow2(k * bits) % pow2(bits),
{
    let room = bytes.len() as int * 8;
    let n = indexes.len() as int;
    lemma_fundamental_div_mod(room, bits as int);
    assert(bits * n == n * bits && (n + 1) * bits == n * bits + bits) by (nonlinear_arith);
    if k < indexes.len() {
        let whole = le_value(bytes) as int;
        let rest = (indexes.len() - k - 1) as nat;
        let low = pow2(k * bits) as int;
        let base = pow2(bits) as int;
        let high = pow2(rest * bits) as int;
        lemma_pow2_pos(k * bits);
        lemma_pow2_pos(bits);
        lemma_pow2_pos(rest * bits);
        lemma_pow2_adds(k * bits, bits);
        lemma_pow2_adds(k * bits + bits, rest * bits);
        assert(k * bits + bits + rest * bits == indexes.len() * bits) by (nonlinear_arith)
            requires
                indexes.len() == k + 1 + rest,
        ;
        lemma_packed_digit(indexes, bits, k);
        lemma_small_mod(indexes[k as int] as nat, base as nat);
        lemma_middle_digit(whole, low, base, high);
    }
}

/// Cutting a number off above a digit does not change the digit.
proof fn lemma_middle_digit(whole: int, low: int, base: int, high: int)
    requires
        0 <= whole,
        0 < low,
        0 < base,
        0 < high,
    ensures
        whole % (low * base * high) / low % base == whole / low % base,
{
    let size = low * base * high;
    assert(size > 0 && size == low * (base * high)) by (nonlinear_arith)
        requires
            0 < low,
            0 < base,
            0 < high,
            size == low * base * high,
    ;
    assert(base * high > 0) by (nonlinear_arith)
        requires
            0 < base,
            0 < high,
    ;
    lemma_mod_breakdown(whole, low, base * high);
    let upper = whole / low;
    let middle = upper % (base * high);
    assert(low * middle == middle * low) by (nonlinear_arith);
    assert(whole % size == low * middle + whole % low);
    lemma_fundamental_div_mod_converse(
        whole % size,
        low,
        middle,
        whole % low,
    );
    lemma_mod_mod(upper, base, high);
}

/// The number of bits that it takes to hold `value`.
pub fn required_bits(value: u64) -> (bits: usize)
    ensures
        bits == bit_length(value as nat),
        bits <= 64,
        value < pow2(bits as nat),
        value == 0 ==> bits == 0,
        value > 0 ==> bits > 0 && value >= pow2((bits - 1) as nat),
{
    let mut rest: u64 = value;
    let mut bits: usize = 0;
    proof {
        lemma2_to64();
        lemma_bit_length_bound(value as nat, 64);
        bit_length_is_least(value as nat);
    }
    while rest > 0
        invariant
            bits + bit_length(rest as nat) == bit_length(value as nat) <= 64,
        decreases rest,
    {
        rest = rest / 2;
        bits += 1;
    }
    bits
}

/// Two to the `bits`.
fn power_of_two(bits: usize) -> (power: u128)
    requires
        bits <= 64,
    ensures
        power == pow2(bits as nat),
        1 <= power <= 0x1_0000_0000_0000_0000,
        bits > 0 ==> power > 1,
{
    let mut power: u128 = 1;
    let mut done: usize = 0;
    proof {
        lemma2_to64();
    }
    while done < bits
        invariant
            done <= bits <= 64,
            power == pow2(done as nat),
            1 <= power <= 0x1_0000_0000_0000_0000,
            done > 0 ==> power > 1,
            pow2(64) == 0x1_0000_0000_0000_0000,
        decreases bits - done,
    {
        proof {
            lemma_pow2_unfold((done + 1) as nat);
            lemma_pow2_ordered((done + 1) as nat, 64);
        }
        power = power * 2;
        done += 1;
    }
    power
}

/// Compresses indexes into bytes. Each index takes `keep_bits` bits: what it has beyond them is
/// dropped.
pub fn compress_indices(indexes: &[u64], keep_bits: usize) -> (bytes: Vec<u8>)
    requires
        keep_bits <= 64,
    ensures
        is_packed(indexes@, keep_bits as nat, bytes@),
{
    let base: u128 = power_of_two(keep_bits);
    let mut out: Vec<u8> = Vec::new();
    // What is packed but not in `out` yet: its value, its number of bits, and two to that number.
    let mut pending: u128 = 0;
    let mut pending_bits: usize = 0;
    let mut unit: u128 = 1;
    let mut done: usize = 0;
    proof {
        lemma2_to64();
        assert(0 * keep_bits == 0);
        assert(indexes@.take(0) =~= Seq::empty());
    }
    while done < indexes.len()
        invariant
            keep_bits <= 64,
            base == pow2(keep_bits as nat),
            1 <= base <= 0x1_0000_0000_0000_0000,
            done <= indexes@.len(),
            pending_bits < 8,
            unit == pow2(pending_bits as nat),
            pending < unit,
            8 * out@.len() + pending_bits == done * keep_bits,
            le_value(out@) + byte_range(out@.len()) * pending == packed_value(
                indexes@.take(done as int),
                keep_bits as nat,
            ),
        decreases indexes@.len() - done,
    {
        let digit: u128 = indexes[done] as u128 % base;
        proof {
            lemma2_to64();
            lemma_pow2_ordered(pending_bits as nat, 7);
            assert(unit <= 128);
            assert(digit * unit <= 0x1_0000_0000_0000_0000 * 128 && pending + digit * unit
                < base * unit) by (nonlinear_arith)
                requires
                    0 <= digit < base,
                    base <= 0x1_0000_0000_0000_0000,
                    0 <= pending < unit <= 128,
            ;
            assert(base * unit <= 0x1_0000_0000_0000_0000 * 128) by (nonlinear_arith)
                requires
                    base <= 0x1_0000_0000_0000_0000,
                    0 <= unit <= 128,
            ;
            lemma_pow2_adds(keep_bits as nat, pending_bits as nat);
            lemma_packed_push(indexes@.take(done as int), keep_bits as nat, indexes[done as int]);
            assert(indexes@.take(done + 1) =~= indexes@.take(done as int).push(
                indexes[done as int],
            ));
            lemma_byte_range_is_pow2(out@.len());
            lemma_pow2_adds(8 * out@.len(), pending_bits as nat);
            let full = byte_range(out@.len()) as int;
            assert(full * (pending + digit * unit) == full * pending + full * unit * digit)
                by (nonlinear_arith);
            assert((done + 1) * keep_bits == done * keep_bits + keep_bits) by (nonlinear_arith);
        }
        pending = pending + digit * unit;
        pending_bits = pending_bits + keep_bits;
        unit = base * unit;
        done += 1;
        while pending_bits >= 8
            invariant
                keep_bits <= 64,
                done <= indexes@.len(),
                pending_bits < 72,
                unit == pow2(pending_bits as nat),
                pending < unit,
                8 * out@.len() + pending_bits == done * keep_bits,
                le_value(out@) + byte_range(out@.len()) * pending == packed_value(
                    indexes@.take(done as int),
                    keep_bits as nat,
                ),
            decreases pending_bits,
        {
            let low: u8 = (pending % 256) as u8;
            proof {
                lemma2_to64();
                lemma_pow2_adds(8, (pending_bits - 8) as nat);
                lemma_le_value_push(out@, low);
                let full = byte_range(out@.len()) as int;
                let rest = (pending / 256) as int;
                assert(full * pending == full * low + 256 * full * rest) by (nonlinear_arith)
                    requires
                        pending == 256 * rest + low,
                ;
            }
            out.push(low);
            pending = pending / 256;
            pending_bits = pending_bits - 8;
            unit = unit / 256;
        }
    }
    assert(indexes@.take(done as int) =~= indexes@);
    if pending_bits > 0 {
        proof {
            lemma2_to64();
            lemma_pow2_ordered(pending_bits as nat, 7);
            lemma_le_value_push(out@, pending as u8);
        }
        out.push(pending as u8);
    } else {
        proof {
            lemma2_to64();
            assert(byte_range(out@.len()) * 0 == 0) by (nonlinear_arith);
        }
    }
    out
}

/// Decompresses indexes of `bits` bits each. Returns as many as there is room for, which can be
/// more than were compressed.
pub fn decompress_indexes(bytes: &[u8], bits: usize) -> (indexes: Vec<u64>)
    requires
        0 < bits <= 64,
    ensures
        is_unpacked(bytes@, bits as nat, indexes@),
{
    let base: u128 = power_of_two(bits);
    let mut out: Vec<u64> = Vec::new();
    let mut pending: u128 = 0;
    let mut pending_bits: usize = 0;
    let mut unit: u128 = 1;
    let mut done: usize = 0;
    proof {
        lemma2_to64();
        assert(0 * bits == 0 && bits * 0 == 0);
        assert(pow2(0) * 0 == 0);
        assert(bytes@.take(0) =~= Seq::empty());
    }
    while done < bytes.len()
        invariant
            0 < bits <= 64,
            base == pow2(bits as nat),
            1 < base <= 0x1_0000_0000_0000_0000,
            done <= bytes@.len(),
            pending_bits < bits,
            unit == pow2(pending_bits as nat),
            pending < unit,
            bits * out@.len() + pending_bits == 8 * done,
            forall|k: int| 0 <= k < out@.len() ==> #[trigger] out@[k] < pow2(bits as nat),
            packed_value(out@, bits as nat) + pow2(out@.len() * bits as nat) * pending == le_value(
                bytes@.take(done as int),
            ),
        decreases bytes@.len() - done,
    {
        let byte: u8 = bytes[done];
        proof {
            lemma2_to64();
            lemma_pow2_ordered(pending_bits as nat, 64);
            assert(byte * unit <= 255 * 0x1_0000_0000_0000_0000 && pending + byte * unit < 256
                * unit) by (nonlinear_arith)
                requires
                    0 <= byte < 256,
                    0 <= pending < unit <= 0x1_0000_0000_0000_0000,
            ;
            lemma_pow2_adds(8, pending_bits as nat);
            lemma_le_value_push(bytes@.take(done as int), byte);
            assert(bytes@.take(done + 1) =~= bytes@.take(done as int).push(byte));
            lemma_byte_range_is_pow2(done as nat);
            lemma_pow2_adds(out@.len() * bits as nat, pending_bits as nat);
            assert(out@.len() * bits == bits * out@.len()) by (nonlinear_arith);
            let full = pow2(out@.len() * bits as nat) as int;
            assert(full * (pending + byte * unit) == full * pending + full * unit * byte)
                by (nonlinear_arith);
        }
        pending = pending + byte as u128 * unit;
        pending_bits = pending_bits + 8;
        unit = 256 * unit;
        done += 1;
        while pending_bits >= bits
            invariant
                0 < bits <= 64,
                base == pow2(bits as nat),
                1 < base <= 0x1_0000_0000_0000_0000,
                done <= bytes@.len(),
                pending_bits < bits + 8,
                unit == pow2(pending_bits as nat),
                pending < unit,
                bits * out@.len() + pending_bits == 8 * done,
                forall|k: int| 0 <= k < out@.len() ==> #[trigger] out@[k] < pow2(bits as nat),
                packed_value(out@, bits as nat) + pow2(out@.len() * bits as nat) * pending
                    == le_value(bytes@.take(done as int)),
            decreases pending_bits,
        {
            let low: u64 = (pending % base) as u64;
            proof {
                let left = (pending_bits - bits) as nat;
                let rest = (pending / base) as int;
                lemma_pow2_adds(bits as nat, left);
                lemma_pow2_pos(left);
                vstd::arithmetic::div_mod::lemma_fundamental_div_mod(pending as int, base as int);
                vstd::arithmetic::div_mod::lemma_div_multiples_vanish(
                    pow2(left) as int,
                    base as int,
                );
                assert(rest < pow2(left)) by (nonlinear_arith)
                    requires
                        base * rest <= pending < base * pow2(left),
                        base > 0,
                ;
                lemma_packed_push(out@, bits as nat, low);
                vstd::arithmetic::div_mod::lemma_small_mod(low as nat, base as nat);
                lemma_pow2_adds(out@.len() * bits as nat, bits as nat);
                assert((out@.len() + 1) * bits == out@.len() * bits + bits) by (nonlinear_arith);
                assert(bits * (out@.len() + 1) == bits * out@.len() + bits) by (nonlinear_arith);
                let full = pow2(out@.len() * bits as nat) as int;
                assert(full * pending == full * low + (full * base) * rest) by (nonlinear_arith)
                    requires
                        pending == base * rest + low,
                ;
            }
            out.push(low);
            pending = pending / base;
            pending_bits = pending_bits - bits;
            unit = unit / base;
        }
    }
    proof {
        assert(bytes@.take(done as int) =~= bytes@);
        let n = out@.len() as int;
        assert(n * bits == bits * n) by (nonlinear_arith);
        vstd::arithmetic::div_mod::lemma_fundamental_div_mod_converse(
            bytes@.len() as int * 8,
            bits as int,
            n,
            pending_bits as int,
        );
        lemma_packed_bound(out@, bits as nat);
        let full = pow2(out@.len() * bits as nat) as int;
        assert(full * pending == pending * full) by (nonlinear_arith);
        vstd::arithmetic::div_mod::lemma_fundamental_div_mod_converse(
            le_value(bytes@) as int,
            full,
            pending as int,
            packed_value(out@, bits as nat) as int,
        );
    }
    out
}

} // verus!
