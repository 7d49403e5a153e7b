//! Byte strings read as numbers.

use vstd::arithmetic::power2::pow2;
use vstd::prelude::*;

use crate::compression::lemma_byte_range_is_pow2;

verus! {

/// The number that `bytes` spells with its least significant byte first.
pub open spec fn le_value(bytes: Seq<u8>) -> nat
    decreases bytes.len(),
{
    if bytes.len() == 0 {
        0
    } else {
        bytes[0] as nat + 256 * le_value(bytes.drop_first())
    }
}

/// The number that `bytes` spells with its most significant byte first.
pub open spec fn be_value(bytes: Seq<u8>) -> nat
    decreases bytes.len(),
{
    if bytes.len() == 0 {
        0
    } else {
        256 * be_value(bytes.drop_last()) + bytes.last() as nat
    }
}

/// The lowest `n` bytes of `x`, least significant byte first.
pub open spec fn le_bytes(x: nat, n: nat) -> Seq<u8>
    decreases n,
{
    if n == 0 {
        Seq::empty()
    } else {
        seq![(x % 256) as u8] + le_bytes(x / 256, (n - 1) as nat)
    }
}

pub proof fn lemma_le_bytes_len(x: nat, n: nat)
    ensures
        le_bytes(x, n).len() == n,
    decreases n,
{
    if n > 0 {
        lemma_le_bytes_len(x / 256, (n - 1) as nat);
    }
}

/// How many numbers `n` bytes can spell.
pub open spec fn byte_range(n: nat) -> nat
    decreases n,
{
    if n == 0 {
        1
    } else {
        256 * byte_range((n - 1) as nat)
    }
}

pub proof fn lemma_byte_range_positive(n: nat)
    ensures
        byte_range(n) > 0,
    decreases n,
{
    if n > 0 {
        lemma_byte_range_positive((n - 1) as nat);
    }
}

/// Writing a number down and reading it back keeps as much of it as there are bytes for.
pub proof fn lemma_le_value_of_bytes(x: nat, n: nat)
    ensures
        le_value(le_bytes(x, n)) == x % byte_range(n),
    decreases n,
{
    lemma_byte_range_positive(n);
    if n == 0 {
        assert(x % 1 == 0) by (nonlinear_arith);
    } else {
        let n1 = (n - 1) as nat;
        lemma_byte_range_positive(n1);
        lemma_le_value_of_bytes(x / 256, n1);
        assert(le_bytes(x, n).drop_first() =~= le_bytes(x / 256, n1));
        vstd::arithmetic::div_mod::lemma_mod_breakdown(x as int, 256, byte_range(n1) as int);
    }
}

/// The bytes of a second string count for more than all bytes of the first.
pub proof fn lemma_le_value_concat(a: Seq<u8>, b: Seq<u8>)
    ensures
        le_value(a + b) == le_value(a) + byte_range(a.len()) * le_value(b),
    decreases a.len(),
{
    if a.len() == 0 {
        assert(a + b =~= b);
        assert(byte_range(0) * le_value(b) == le_value(b)) by (nonlinear_arith)
            requires
                byte_range(0) == 1,
        ;
    } else {
        let front = le_value(a.drop_first());
        let rest = byte_range((a.len() - 1) as nat) * le_value(b);
        lemma_le_value_concat(a.drop_first(), b);
        assert((a + b).drop_first() =~= a.drop_first() + b);
        assert(256 * (byte_range((a.len() - 1) as nat) * le_value(b)) == byte_range(a.len())
            * le_value(b)) by (nonlinear_arith)
            requires
                byte_range(a.len()) == 256 * byte_range((a.len() - 1) as nat),
        ;
        assert((a + b)[0] == a[0]);
        assert(le_value(a + b) == a[0] + 256 * (front + rest));
    }
}

/// Appending a byte adds a most significant digit.
pub proof fn lemma_le_value_push(bytes: Seq<u8>, byte: u8)
    ensures
        le_value(bytes.push(byte)) == le_value(bytes) + byte_range(bytes.len()) * byte,
{
    let last = seq![byte];
    assert(bytes.push(byte) =~= bytes + last);
    lemma_le_value_concat(bytes, last);
    assert(last.drop_first() =~= Seq::empty());
    assert(le_value(last.drop_first()) == 0);
    assert(le_value(last) == byte);
}

/// The low 56 bits of two words that follow each other are those of the first.
pub proof fn lemma_le_value_two_words(first: u64, second: u64)
    ensures
        le_value(le_bytes(first as nat, 8) + le_bytes(second as nat, 8)) % 0x100_0000_0000_0000
            == first % 0x100_0000_0000_0000,
{
    let high = le_value(le_bytes(second as nat, 8));
    lemma_le_bytes_len(first as nat, 8);
    lemma_le_value_concat(le_bytes(first as nat, 8), le_bytes(second as nat, 8));
    lemma_le_value_of_bytes(first as nat, 8);
    assert(byte_range(8) == 0x1_0000_0000_0000_0000) by {
        reveal_with_fuel(byte_range, 9);
    }
    assert((first + 0x1_0000_0000_0000_0000 * high) % 0x100_0000_0000_0000 == first
        % 0x100_0000_0000_0000);
}

/// Strings of one length that spell the same number are the same.
pub proof fn lemma_be_value_injective(a: Seq<u8>, b: Seq<u8>)
    requires
        a.len() == b.len(),
        be_value(a) == be_value(b),
    ensures
        a == b,
    decreases a.len(),
{
    if a.len() > 0 {
        lemma_be_value_injective(a.drop_last(), b.drop_last());
        assert(a =~= a.drop_last().push(a.last()));
        assert(b =~= b.drop_last().push(b.last()));
    } else {
        assert(a =~= b);
    }
}

/// Each byte of a little-endian number weighs 256 times as much as the one before it, and no bytes
/// spell zero.
pub proof fn le_value_weighs_its_bytes(bytes: Seq<u8>, byte: u8)
    ensures
        le_value(Seq::empty()) == 0,
        le_value(seq![byte]) == byte,
        le_value(bytes.push(byte)) == le_value(bytes) + byte * pow2(8 * bytes.len()),
{
    lemma_le_value_push(bytes, byte);
    lemma_byte_range_is_pow2(bytes.len());
    assert(byte_range(bytes.len()) * byte == byte * byte_range(bytes.len())) by (nonlinear_arith);
    assert(seq![byte].drop_first() =~= Seq::empty());
    assert(le_value(seq![byte].drop_first()) == 0);
}

/// Reading a big-endian number is reading a little-endian one from the back.
pub proof fn be_value_reads_backwards(bytes: Seq<u8>)
    ensures
        be_value(bytes) == le_value(bytes.reverse()),
    decreases bytes.len(),
{
    if bytes.len() > 0 {
        be_value_reads_backwards(bytes.drop_last());
        assert(bytes.reverse().drop_first() =~= bytes.drop_last().reverse());
    }
}

/// A number that is written down has as many bytes as were asked for, and they spell as much of it
/// as they have room for.
pub proof fn written_bytes_read_back(x: nat, n: nat)
    ensures
        le_bytes(x, n).len() == n,
        le_value(le_bytes(x, n)) == x % pow2(8 * n),
        x < pow2(8 * n) ==> le_value(le_bytes(x, n)) == x,
{
    lemma_le_bytes_len(x, n);
    lemma_le_value_of_bytes(x, n);
    lemma_byte_range_is_pow2(n);
    if x < pow2(8 * n) {
        vstd::arithmetic::div_mod::lemma_small_mod(x, pow2(8 * n));
    }
}

/// Strings of one length that spell the same little-endian number are the same.
pub proof fn lemma_le_value_injective(a: Seq<u8>, b: Seq<u8>)
    requires
        a.len() == b.len(),
        le_value(a) == le_value(b),
    ensures
        a == b,
    decreases a.len(),
{
    if a.len() > 0 {
        lemma_le_value_injective(a.drop_first(), b.drop_first());
        assert(a =~= seq![a[0]] + a.drop_first());
        assert(b =~= seq![b[0]] + b.drop_first());
    } else {
        assert(a =~= b);
    }
}

/// Appends the lowest `n` bytes of `x` to `out`, least significant byte first.
pub fn push_le_bytes(out: &mut Vec<u8>, x: u64, n: usize)
    requires
        n <= 8,
    ensures
        final(out)@ == old(out)@ + le_bytes(x as nat, n as nat),
        final(out)@.len() == old(out)@.len() + n,
        final(out)@.take(old(out)@.len() as int) == old(out)@,
        le_value(final(out)@.skip(old(out)@.len() as int)) == x as nat % pow2(8 * n as nat),
{
    let ghost before = out@;
    let mut rest: u64 = x;
    let mut done: usize = 0;
    while done < n
        invariant
            done <= n <= 8,
            before + le_bytes(x as nat, n as nat) == out@ + le_bytes(
                rest as nat,
                (n - done) as nat,
            ),
        decreases n - done,
    {
        let ghost left = (n - done) as nat;
        out.push((rest % 256) as u8);
        rest = rest / 256;
        done += 1;
        assert(out@ + le_bytes(rest as nat, (left - 1) as nat) =~= before + le_bytes(
            x as nat,
            n as nat,
        ));
    }
    assert(out@ + le_bytes(rest as nat, 0) =~= out@);
    proof {
        written_bytes_read_back(x as nat, n as nat);
        assert(out@.take(before.len() as int) =~= before);
        assert(out@.skip(before.len() as int) =~= le_bytes(x as nat, n as nat));
    }
}

} // verus!
