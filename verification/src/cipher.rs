//! The AES-128 ciphers that labels are tried with, and the keys they run under.

use vstd::arithmetic::power2::lemma2_to64;
use vstd::prelude::*;

use aes::cipher::block_padding::NoPadding;
use aes::cipher::{BlockEncrypt, KeyInit};
use aes::Aes128;

use crate::bytes::{
    le_bytes, le_value, lemma_le_value_injective, push_le_bytes, written_bytes_read_back,
};

verus! {

/// Bytes in a label.
pub const LABEL_SIZE: usize = 16;

/// Bytes in an AES block. A label is one block.
pub const BLOCK_SIZE: usize = 16;

/// Blocks that are encrypted in one go.
pub const AES_BATCH: usize = 8;

/// Bytes that are encrypted in one go.
pub const CHUNK_SIZE: usize = BLOCK_SIZE * AES_BATCH;

/// The 32-byte BLAKE3 digest of `input`.
pub uninterp spec fn blake3_digest(input: Seq<u8>) -> Seq<u8>;

/// What AES-128 turns `block` into under `key`. Both are 16 bytes long.
pub uninterp spec fn aes128_block(key: Seq<u8>, block: Seq<u8>) -> Seq<u8>;

/// Calls `blake3::hash`. Trusted: the digest is a function of the input bytes alone.
#[verifier::external_body]
fn blake3_hash(input: &[u8]) -> (digest: [u8; 32])
    ensures
        digest@ == blake3_digest(input@),
{
    *blake3::hash(input).as_bytes()
}

/// Calls `BlockEncrypt::encrypt_padded_b2b` of a freshly keyed `aes::Aes128`, without padding.
/// Trusted: a whole number of blocks is encrypted block by block, each block on its own.
#[verifier::external_body]
pub(crate) fn encrypt_chunk(key: &[u8; 16], chunk: &[u8]) -> (out: [u8; 128])
    requires
        chunk@.len() == 128,
    ensures
        forall|b: int|
            0 <= b < 8 ==> #[trigger] out@.subrange(16 * b, 16 * b + 16) == aes128_block(
                key@,
                chunk@.subrange(16 * b, 16 * b + 16),
            ),
{
    let mut out = [0u8; 128];
    _ = Aes128::new(key.into()).encrypt_padded_b2b::<NoPadding>(chunk, &mut out);
    out
}

/// Calls `BlockEncrypt::encrypt_block_b2b` of a freshly keyed `aes::Aes128`, with a pair of words
/// cast by `bytemuck::cast_slice_mut` as the output block. Trusted: the two words, read as
/// little-endian, hold the encrypted block.
#[verifier::external_body]
pub(crate) fn encrypt_label(key: &[u8; 16], label: &[u8]) -> (words: [u64; 2])
    requires
        label@.len() == 16,
    ensures
        aes128_block(key@, label@) == le_bytes(words[0] as nat, 8) + le_bytes(words[1] as nat, 8),
{
    let mut out = [0u64; 2];
    Aes128::new(key.into()).encrypt_block_b2b(
        label.into(),
        bytemuck::cast_slice_mut(&mut out).into(),
    );
    out.map(u64::to_le)
}

/// What the key of a nonce group's cipher is hashed from.
pub open spec fn group_seed(challenge: Seq<u8>, nonce_group: u32, pow: u64) -> Seq<u8> {
    challenge + le_bytes(nonce_group as nat, 4) + le_bytes(pow as nat, 8)
}

/// What the key of a single nonce's cipher is hashed from.
pub open spec fn nonce_seed(challenge: Seq<u8>, nonce: u32, nonce_group: u32, pow: u64) -> Seq<u8> {
    group_seed(challenge, nonce_group, pow) + le_bytes(nonce as nat, 4)
}

/// The key that a seed gives: the front half of its digest.
pub open spec fn seed_key(seed: Seq<u8>) -> Seq<u8> {
    blake3_digest(seed).take(16)
}

/// A key together with the nonce group and the proof of work that it was made for.
#[derive(Debug, Clone, Copy, PartialEq, Eq)]
pub struct AesCipher {
    pub key: [u8; 16],
    pub nonce_group: u32,
    pub pow: u64,
}

/// The first half of a digest.
pub fn truncate_digest(digest: &[u8; 32]) -> (key: [u8; 16])
    ensures
        key@ == digest@.take(16),
{
    let key = [
        digest[0],
        digest[1],
        digest[2],
        digest[3],
        digest[4],
        digest[5],
        digest[6],
        digest[7],
        digest[8],
        digest[9],
        digest[10],
        digest[11],
        digest[12],
        digest[13],
        digest[14],
        digest[15],
    ];
    assert(key@ =~= digest@.take(16));
    key
}

impl AesCipher {
    /// Whether this is the cipher that checks the most significant byte for a nonce group.
    pub open spec fn is_for_group(
        self,
        challenge: Seq<u8>,
        nonce_group: u32,
        pow: u64,
    ) -> bool {
        &&& self.key@ == seed_key(group_seed(challenge, nonce_group, pow))
        &&& self.nonce_group == nonce_group
        &&& self.pow == pow
    }

    /// Whether this is the cipher that checks the remaining bytes for a nonce.
    pub open spec fn is_for_nonce(
        self,
        challenge: Seq<u8>,
        nonce: u32,
        nonce_group: u32,
        pow: u64,
    ) -> bool {
        &&& self.key@ == seed_key(nonce_seed(challenge, nonce, nonce_group, pow))
        &&& self.nonce_group == nonce_group
        &&& self.pow == pow
    }

    /// The cipher of a nonce group.
    pub fn new(challenge: &[u8; 32], nonce_group: u32, pow: u64) -> (cipher: Self)
        ensures
            cipher.is_for_group(challenge@, nonce_group, pow),
            cipher.nonce_group == nonce_group,
            cipher.pow == pow,
    {
        let mut seed: Vec<u8> = Vec::new();
        seed.extend_from_slice(challenge.as_slice());
        push_le_bytes(&mut seed, nonce_group as u64, 4);
        push_le_bytes(&mut seed, pow, 8);
        assert(seed@ =~= group_seed(challenge@, nonce_group, pow));
        AesCipher { key: truncate_digest(&blake3_hash(seed.as_slice())), nonce_group, pow }
    }

    /// The cipher of a single nonce.
    pub fn new_lazy(challenge: &[u8; 32], nonce: u32, nonce_group: u32, pow: u64) -> (cipher: Self)
        ensures
            cipher.is_for_nonce(challenge@, nonce, nonce_group, pow),
            cipher.nonce_group == nonce_group,
            cipher.pow == pow,
    {
        let mut seed: Vec<u8> = Vec::new();
        seed.extend_from_slice(challenge.as_slice());
        push_le_bytes(&mut seed, nonce_group as u64, 4);
        push_le_bytes(&mut seed, pow, 8);
        push_le_bytes(&mut seed, nonce as u64, 4);
        assert(seed@ =~= nonce_seed(challenge@, nonce, nonce_group, pow));
        AesCipher { key: truncate_digest(&blake3_hash(seed.as_slice())), nonce_group, pow }
    }
}

/// A group's key is the front half of the digest of 44 bytes: the challenge, then the group in 4
/// and the proof of work in 8 bytes, least significant byte first. The cipher carries the group and
/// the proof of work that it was made for.
pub proof fn group_key_is_bound_to_its_inputs(
    cipher: AesCipher,
    challenge: Seq<u8>,
    nonce_group: u32,
    pow: u64,
    seed: Seq<u8>,
)
    requires
        challenge.len() == 32,
        cipher.is_for_group(challenge, nonce_group, pow),
        seed.len() == 44,
        seed.take(32) == challenge,
        le_value(seed.subrange(32, 36)) == nonce_group,
        le_value(seed.subrange(36, 44)) == pow,
    ensures
        cipher.key@ == blake3_digest(seed).take(16),
        cipher.nonce_group == nonce_group,
        cipher.pow == pow,
{
    lemma_seed_layout(challenge, nonce_group, pow, seed);
}

/// A nonce's key is the front half of the digest of 48 bytes: those of its group's key, and the
/// nonce in 4 bytes, least significant byte first. The cipher carries the group and the proof of
/// work that it was made for.
pub proof fn nonce_key_is_bound_to_its_inputs(
    cipher: AesCipher,
    challenge: Seq<u8>,
    nonce: u32,
    nonce_group: u32,
    pow: u64,
    seed: Seq<u8>,
)
    requires
        challenge.len() == 32,
        cipher.is_for_nonce(challenge, nonce, nonce_group, pow),
        seed.len() == 48,
        seed.take(32) == challenge,
        le_value(seed.subrange(32, 36)) == nonce_group,
        le_value(seed.subrange(36, 44)) == pow,
        le_value(seed.subrange(44, 48)) == nonce,
    ensures
        cipher.key@ == blake3_digest(seed).take(16),
        cipher.nonce_group == nonce_group,
        cipher.pow == pow,
{
    let front = seed.take(44);
    assert(front.take(32) =~= seed.take(32));
    assert(front.subrange(32, 36) =~= seed.subrange(32, 36));
    assert(front.subrange(36, 44) =~= seed.subrange(36, 44));
    lemma_seed_layout(challenge, nonce_group, pow, front);
    lemma_four_bytes(nonce, seed.subrange(44, 48));
    assert(seed =~= front + seed.subrange(44, 48));
}

/// What a group's key is hashed from tells the challenge, the group and the proof of work.
pub proof fn group_seeds_tell_their_inputs(
    challenge: Seq<u8>,
    nonce_group: u32,
    pow: u64,
    other_challenge: Seq<u8>,
    other_group: u32,
    other_pow: u64,
)
    requires
        challenge.len() == 32,
        other_challenge.len() == 32,
        group_seed(challenge, nonce_group, pow) == group_seed(
            other_challenge,
            other_group,
            other_pow,
        ),
    ensures
        challenge == other_challenge,
        nonce_group == other_group,
        pow == other_pow,
{
    lemma_group_seed_parts(challenge, nonce_group, pow);
    lemma_group_seed_parts(other_challenge, other_group, other_pow);
}

/// What a nonce's key is hashed from tells the challenge, the nonce, its group and the proof of
/// work.
pub proof fn nonce_seeds_tell_their_inputs(
    challenge: Seq<u8>,
    nonce: u32,
    nonce_group: u32,
    pow: u64,
    other_challenge: Seq<u8>,
    other_nonce: u32,
    other_group: u32,
    other_pow: u64,
)
    requires
        challenge.len() == 32,
        other_challenge.len() == 32,
        nonce_seed(challenge, nonce, nonce_group, pow) == nonce_seed(
            other_challenge,
            other_nonce,
            other_group,
            other_pow,
        ),
    ensures
        challenge == other_challenge,
        nonce == other_nonce,
        nonce_group == other_group,
        pow == other_pow,
{
    let seed = nonce_seed(challenge, nonce, nonce_group, pow);
    lemma_group_seed_parts(challenge, nonce_group, pow);
    lemma_group_seed_parts(other_challenge, other_group, other_pow);
    lemma2_to64();
    written_bytes_read_back(nonce as nat, 4);
    written_bytes_read_back(other_nonce as nat, 4);
    assert(seed.take(44) =~= group_seed(challenge, nonce_group, pow));
    assert(seed.take(44) =~= group_seed(other_challenge, other_group, other_pow));
    assert(seed.skip(44) =~= le_bytes(nonce as nat, 4));
    assert(seed.skip(44) =~= le_bytes(other_nonce as nat, 4));
}

/// The parts of what a group's key is hashed from.
proof fn lemma_group_seed_parts(challenge: Seq<u8>, nonce_group: u32, pow: u64)
    requires
        challenge.len() == 32,
    ensures
        ({
            let seed = group_seed(challenge, nonce_group, pow);
            &&& seed.len() == 44
            &&& seed.take(32) == challenge
            &&& le_value(seed.subrange(32, 36)) == nonce_group
            &&& le_value(seed.subrange(36, 44)) == pow
        }),
{
    let seed = group_seed(challenge, nonce_group, pow);
    lemma2_to64();
    written_bytes_read_back(nonce_group as nat, 4);
    written_bytes_read_back(pow as nat, 8);
    assert(seed.take(32) =~= challenge);
    assert(seed.subrange(32, 36) =~= le_bytes(nonce_group as nat, 4));
    assert(seed.subrange(36, 44) =~= le_bytes(pow as nat, 8));
}

/// Four bytes that spell a number are what it is written down as.
proof fn lemma_four_bytes(x: u32, bytes: Seq<u8>)
    requires
        bytes.len() == 4,
        le_value(bytes) == x,
    ensures
        bytes == le_bytes(x as nat, 4),
{
    lemma2_to64();
    written_bytes_read_back(x as nat, 4);
    lemma_le_value_injective(bytes, le_bytes(x as nat, 4));
}

/// The parts of a seed make the seed.
proof fn lemma_seed_layout(challenge: Seq<u8>, nonce_group: u32, pow: u64, seed: Seq<u8>)
    requires
        challenge.len() == 32,
        seed.len() == 44,
        seed.take(32) == challenge,
        le_value(seed.subrange(32, 36)) == nonce_group,
        le_value(seed.subrange(36, 44)) == pow,
    ensures
        seed == group_seed(challenge, nonce_group, pow),
{
    lemma2_to64();
    lemma_four_bytes(nonce_group, seed.subrange(32, 36));
    written_bytes_read_back(pow as nat, 8);
    lemma_le_value_injective(seed.subrange(36, 44), le_bytes(pow as nat, 8));
    assert(seed =~= seed.take(32) + seed.subrange(32, 36) + seed.subrange(36, 44));
}

} // verus!
