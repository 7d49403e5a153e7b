//! What provers and scans come down to: bytes that are hashed, blocks that are encrypted, and
//! numbers that are compared.

use std::ops::Range;
use vstd::arithmetic::div_mod::{lemma_fundamental_div_mod, lemma_fundamental_div_mod_converse};
use vstd::prelude::*;

use crate::bytes::le_value;
use crate::cipher::{
    aes128_block, blake3_digest, group_key_is_bound_to_its_inputs,
    nonce_key_is_bound_to_its_inputs,
};
use crate::params::ProvingParams;
use crate::pow;
use crate::pow::outcomes_come_from_the_prover;
use crate::prover::{
    is_refused_after, label_at, pays_for, was_granted, was_granted_up_to, was_refused,
    whole_groups, Prover, Prover8_56,
};
use crate::scan::{
    aligned_nonces_are_served_by_their_own, good_means_below_difficulty, hits_are_the_good_labels,
    is_scanned, lemma_report_has_step, lemma_step_parts,
};
use crate::sink::{ignores, Sink};

verus! {

/// A prover has a cipher for each group of its nonces and one for each of them, in ascending order,
/// and its two thresholds put together are the difficulty. Every cipher carries its group and the
/// proof of work that it is keyed with, and is keyed with the front half of a digest of the
/// challenge, the group, that proof of work and, if it is a single nonce's, the nonce.
pub proof fn provers_are_made_of_their_inputs(
    prover: Prover8_56,
    challenge: Seq<u8>,
    nonces: Range<u32>,
    difficulty: u64,
    pows: Seq<u64>,
    group: u32,
    group_seed: Seq<u8>,
    nonce: u32,
    nonce_seed: Seq<u8>,
)
    requires
        prover.is_built_from(challenge, nonces, difficulty, pows),
        challenge.len() == 32,
        nonces.start % 16 == 0,
        nonces.start < nonces.end,
        (nonces.end - nonces.start) % 16 == 0,
        pows.len() == (nonces.end - nonces.start) / 16,
        nonces.start as int / 16 <= group < nonces.end as int / 16,
        group_seed.len() == 44,
        group_seed.take(32) == challenge,
        le_value(group_seed.subrange(32, 36)) == group,
        le_value(group_seed.subrange(36, 44)) == pows[group - nonces.start as int / 16],
        nonces.start <= nonce < nonces.end,
        nonce_seed.len() == 48,
        nonce_seed.take(32) == challenge,
        le_value(nonce_seed.subrange(32, 36)) == nonce / 16,
        le_value(nonce_seed.subrange(36, 44)) == pows[nonce as int / 16 % pows.len() as int],
        le_value(nonce_seed.subrange(44, 48)) == nonce,
    ensures
        prover.group_ciphers().len() == (nonces.end - nonces.start) / 16,
        prover.nonce_ciphers().len() == nonces.end - nonces.start,
        prover.threshold_msb() * 0x100_0000_0000_0000 + prover.threshold_lsb() == difficulty,
        prover.threshold_lsb() < 0x100_0000_0000_0000,
        ({
            let cipher = prover.group_ciphers()[group - nonces.start as int / 16];
            &&& cipher.nonce_group == group
            &&& cipher.pow == pows[group - nonces.start as int / 16]
            &&& cipher.key@ == blake3_digest(group_seed).take(16)
        }),
        ({
            let cipher = prover.nonce_ciphers()[nonce - nonces.start];
            &&& cipher.nonce_group == nonce / 16
            &&& cipher.pow == pows[nonce as int / 16 % pows.len() as int]
            &&& cipher.key@ == blake3_digest(nonce_seed).take(16)
        }),
{
    let i = group - nonces.start as int / 16;
    let k = nonce - nonces.start;
    group_key_is_bound_to_its_inputs(
        prover.group_ciphers()[i],
        challenge,
        group,
        pows[i],
        group_seed,
    );
    nonce_key_is_bound_to_its_inputs(
        prover.nonce_ciphers()[k],
        challenge,
        nonce,
        (nonce / 16) as u32,
        pows[nonce as int / 16 % pows.len() as int],
        nonce_seed,
    );
}

/// A batch can be scanned where there are numbers for all of its labels.
pub proof fn numbered_batches_are_accepted(prover: Prover8_56, batch: Seq<u8>, index: u64)
    requires
        index + batch.len() / 16 <= u64::MAX,
    ensures
        prover.accepts(batch, index),
{
}

/// The proof of work that is handed out for a nonce is that at its group's number, counted round
/// the groups there are.
pub proof fn proofs_of_work_go_round(
    prover: Prover8_56,
    challenge: Seq<u8>,
    nonces: Range<u32>,
    difficulty: u64,
    pows: Seq<u64>,
    nonce: u32,
)
    requires
        prover.is_built_from(challenge, nonces, difficulty, pows),
        pows.len() > 0,
    ensures
        prover.pow_for(nonce) == Some(pows[nonce as int / 16 % pows.len() as int]),
{
    let i = nonce as int / 16 % pows.len() as int;
    assert(prover.group_ciphers()[i].is_for_group(
        challenge,
        (nonces.start as int / 16 + i) as u32,
        pows[i],
    ));
}

/// A scan finds a label for a nonce exactly when it is one of the labels that go together by eight,
/// and the number that is put together from two encryptions of it is below the difficulty: on top
/// the byte that belongs to the nonce in the block that the group's cipher gives, and below it the
/// low 56 bits of the block that a single nonce's cipher gives. That nonce is looked up by counting
/// round the nonces there are. Nothing is found for a nonce that is not the prover's.
#[verifier::rlimit(40)]
pub proof fn hits_are_the_labels_below_the_difficulty(
    prover: Prover8_56,
    challenge: Seq<u8>,
    nonces: Range<u32>,
    difficulty: u64,
    pows: Seq<u64>,
    batch: Seq<u8>,
    index: u64,
    nonce: u32,
    label_index: u64,
    group_seed: Seq<u8>,
    own: u32,
    own_seed: Seq<u8>,
)
    requires
        prover.is_built_from(challenge, nonces, difficulty, pows),
        challenge.len() == 32,
        nonces.start % 16 == 0,
        nonces.start < nonces.end <= 4096,
        (nonces.end - nonces.start) % 16 == 0,
        pows.len() == (nonces.end - nonces.start) / 16,
        index + batch.len() / 16 <= u64::MAX,
        group_seed.len() == 44,
        group_seed.take(32) == challenge,
        le_value(group_seed.subrange(32, 36)) == nonce / 16,
        le_value(group_seed.subrange(36, 44)) == pows[(nonce - nonces.start) / 16],
        own == nonces.start + nonce as int % (nonces.end - nonces.start),
        own_seed.len() == 48,
        own_seed.take(32) == challenge,
        le_value(own_seed.subrange(32, 36)) == own / 16,
        le_value(own_seed.subrange(36, 44)) == pows[own as int / 16 % pows.len() as int],
        le_value(own_seed.subrange(44, 48)) == own,
    ensures
        prover.hits(batch, index).contains((nonce, label_index)) <==> {
            let label = batch.subrange(16 * (label_index - index), 16 * (label_index - index) + 16);
            &&& nonces.start <= nonce < nonces.end
            &&& index <= label_index < index + batch.len() / 128 * 8
            &&& aes128_block(blake3_digest(group_seed).take(16), label)[nonce as int % 16]
                * 0x100_0000_0000_0000 + le_value(
                aes128_block(blake3_digest(own_seed).take(16), label),
            ) % 0x100_0000_0000_0000 < difficulty
        },
{
    let first = nonces.start as int / 16;
    let n = nonces.end - nonces.start;
    lemma_built_is_wf(prover, challenge, nonces, difficulty, pows);
    hits_are_the_good_labels(prover, batch, index, nonce, label_index);
    let label = batch.subrange(16 * (label_index - index), 16 * (label_index - index) + 16);
    if nonces.start <= nonce < nonces.end {
        let group = (nonce / 16) as u32;
        let cipher = group - first;
        let slot = nonce as int % 16;
        lemma_fundamental_div_mod(nonce as int, n);
        provers_are_made_of_their_inputs(
            prover,
            challenge,
            nonces,
            difficulty,
            pows,
            group,
            group_seed,
            own,
            own_seed,
        );
        good_means_below_difficulty(
            prover,
            challenge,
            nonces,
            difficulty,
            pows,
            cipher,
            slot,
            label,
        );
        assert(prover.nonce_at(cipher, slot) == nonce);
        assert(prover.lazy_place(nonce as int) == own - nonces.start);
        assert forall|c: int, s: int|
            0 <= c < prover.group_ciphers().len() && 0 <= s < 16 && nonce == prover.nonce_at(
                c,
                s,
            ) implies c == cipher && s == slot by {
            assert(prover.group_ciphers()[c].nonce_group == first + c);
        }
        if prover.hits(batch, index).contains((nonce, label_index)) {
            let (c, s) = choose|c: int, s: int|
                {
                    &&& 0 <= c < prover.group_ciphers().len()
                    &&& 0 <= s < 16
                    &&& nonce == prover.nonce_at(c, s)
                    &&& #[trigger] prover.is_good(c, s, label)
                };
            assert(c == cipher && s == slot);
        } else if index <= label_index < index + batch.len() / 128 * 8 {
            assert(is_scanned(batch, label_index - index));
            assert(!prover.is_good(cipher, slot, label_at(batch, label_index - index)));
        }
    } else if prover.hits(batch, index).contains((nonce, label_index)) {
        let (c, s) = choose|c: int, s: int|
            {
                &&& 0 <= c < prover.group_ciphers().len()
                &&& 0 <= s < 16
                &&& nonce == prover.nonce_at(c, s)
                &&& #[trigger] prover.is_good(c, s, label)
            };
        assert(prover.group_ciphers()[c].nonce_group == first + c);
    }
}

/// A prover that was built is in order.
proof fn lemma_built_is_wf(
    prover: Prover8_56,
    challenge: Seq<u8>,
    nonces: Range<u32>,
    difficulty: u64,
    pows: Seq<u64>,
)
    requires
        prover.is_built_from(challenge, nonces, difficulty, pows),
        whole_groups(nonces),
        nonces.end <= 4096,
        pows.len() == (nonces.end - nonces.start) / 16,
    ensures
        prover.wf(),
        forall|i: int|
            0 <= i < pows.len() ==> (#[trigger] prover.group_ciphers()[i]).nonce_group
                == nonces.start as int / 16 + i,
{
    assert forall|i: int| 0 <= i < pows.len() implies (
    #[trigger] prover.group_ciphers()[i]).nonce_group == nonces.start as int / 16 + i by {
        assert(prover.group_ciphers()[i].is_for_group(
            challenge,
            (nonces.start as int / 16 + i) as u32,
            pows[i],
        ));
    }
    assert(prover.group_ciphers()[0].nonce_group == nonces.start as int / 16);
}

/// Where a range of nonces starts at a multiple of its own length, both encryptions are under keys
/// that are hashed from the challenge, the nonce's own group and the proof of work that is handed
/// out for the nonce, the second one's from the nonce as well.
pub proof fn paid_provers_find_the_labels_below_the_difficulty<P: pow::Prover>(
    prover: Prover8_56,
    pow_prover: &P,
    challenge: Seq<u8>,
    nonces: Range<u32>,
    params: ProvingParams,
    miner_id: [u8; 32],
    batch: Seq<u8>,
    index: u64,
    nonce: u32,
    label_index: u64,
    group_seed: Seq<u8>,
    nonce_seed: Seq<u8>,
)
    requires
        prover.is_paid_for(pow_prover, challenge, nonces, params, miner_id),
        challenge.len() == 32,
        nonces.start < nonces.end <= 4096,
        (nonces.end - nonces.start) % 16 == 0,
        nonces.start as int % (nonces.end - nonces.start) == 0,
        nonces.start <= nonce < nonces.end,
        index + batch.len() / 16 <= u64::MAX,
        group_seed.len() == 44,
        group_seed.take(32) == challenge,
        le_value(group_seed.subrange(32, 36)) == nonce / 16,
        Some(le_value(group_seed.subrange(36, 44)) as u64) == prover.pow_for(nonce),
        le_value(group_seed.subrange(36, 44)) <= u64::MAX,
        nonce_seed.len() == 48,
        nonce_seed.take(44) == group_seed,
        le_value(nonce_seed.subrange(44, 48)) == nonce,
    ensures
        prover.hits(batch, index).contains((nonce, label_index)) <==> {
            let label = batch.subrange(16 * (label_index - index), 16 * (label_index - index) + 16);
            &&& index <= label_index < index + batch.len() / 128 * 8
            &&& aes128_block(blake3_digest(group_seed).take(16), label)[nonce as int % 16]
                * 0x100_0000_0000_0000 + le_value(
                aes128_block(blake3_digest(nonce_seed).take(16), label),
            ) % 0x100_0000_0000_0000 < params.difficulty
        },
{
    let n = nonces.end - nonces.start;
    let start = nonces.start as int;
    let pows = paid_provers_are_built_from_their_parameters(
        prover,
        pow_prover,
        challenge,
        nonces,
        params,
        miner_id,
    );
    let m = pows.len() as int;
    lemma_fundamental_div_mod(start, n);
    let q = start / n;
    assert(n * q == 16 * (q * m)) by (nonlinear_arith)
        requires
            n == 16 * m,
    ;
    assert(start % 16 == 0);
    aligned_nonces_are_served_by_their_own(
        prover,
        challenge,
        nonces,
        params.difficulty,
        pows,
        nonce,
    );
    assert(n * q == q * n) by (nonlinear_arith);
    lemma_fundamental_div_mod_converse(nonce as int, n, q, nonce - start);
    proofs_of_work_go_round(prover, challenge, nonces, params.difficulty, pows, nonce);
    assert(nonce_seed.take(32) =~= group_seed.take(32));
    assert(nonce_seed.subrange(32, 36) =~= group_seed.subrange(32, 36));
    assert(nonce_seed.subrange(36, 44) =~= group_seed.subrange(36, 44));
    hits_are_the_labels_below_the_difficulty(
        prover,
        challenge,
        nonces,
        params.difficulty,
        pows,
        batch,
        index,
        nonce,
        label_index,
        group_seed,
        nonce,
        nonce_seed,
    );
}

/// A scan goes through a batch eight labels at a time, through those group by group, through a
/// group label by label, and through a label nonce by nonce.
pub proof fn hits_come_in_scan_order(
    prover: Prover8_56,
    batch: Seq<u8>,
    index: u64,
    earlier: int,
    later: int,
)
    requires
        prover.wf(),
        prover.accepts(batch, index),
        0 <= earlier < later < prover.hits(batch, index).len(),
    ensures
        ({
            let (nonce_a, a) = prover.hits(batch, index)[earlier];
            let (nonce_b, b) = prover.hits(batch, index)[later];
            let chunk_a = (a - index) / 8;
            let chunk_b = (b - index) / 8;
            ||| chunk_a < chunk_b
            ||| chunk_a == chunk_b && nonce_a / 16 < nonce_b / 16
            ||| chunk_a == chunk_b && nonce_a / 16 == nonce_b / 16 && a < b
            ||| a == b && nonce_a / 16 == nonce_b / 16 && nonce_a < nonce_b
        }),
{
    let m = prover.group_ciphers().len() as int;
    let total = prover.scan_len(batch);
    let s = lemma_report_has_step(prover, batch, index, total, earlier);
    let t = lemma_report_has_step(prover, batch, index, total, later);
    if t <= s {
        prover.lemma_reports_prefix(batch, index, t, s);
    }
    lemma_step_parts(prover, batch, s);
    lemma_step_parts(prover, batch, t);
    let g = prover.group_ciphers()[0].nonce_group as int;
    assert(prover.group_ciphers()[prover.step_cipher(s)].nonce_group == g + prover.step_cipher(s));
    assert(prover.group_ciphers()[prover.step_cipher(t)].nonce_group == g + prover.step_cipher(t));
    let a = prover.step_label(s);
    let b = prover.step_label(t);
    let (nonce_a, index_a) = prover.hits(batch, index)[earlier];
    let (nonce_b, index_b) = prover.hits(batch, index)[later];
    assert(index_a - index == a && index_b - index == b);
    assert(nonce_a == (g + prover.step_cipher(s)) * 16 + prover.step_slot(s));
    assert(nonce_b == (g + prover.step_cipher(t)) * 16 + prover.step_slot(t));
    assert(nonce_a / 16 == g + prover.step_cipher(s));
    assert(nonce_b / 16 == g + prover.step_cipher(t));
    lemma_steps_are_lexicographic(
        m,
        a / 8,
        prover.step_cipher(s),
        a % 8,
        prover.step_slot(s),
        b / 8,
        prover.step_cipher(t),
        b % 8,
        prover.step_slot(t),
    );
}

/// Steps are counted by chunk, then by group, then by label, then by nonce.
proof fn lemma_steps_are_lexicographic(
    m: int,
    chunk_a: int,
    cipher_a: int,
    label_a: int,
    slot_a: int,
    chunk_b: int,
    cipher_b: int,
    label_b: int,
    slot_b: int,
)
    requires
        0 <= cipher_a < m,
        0 <= cipher_b < m,
        0 <= label_a < 8,
        0 <= label_b < 8,
        0 <= slot_a < 16,
        0 <= slot_b < 16,
        (chunk_a * m + cipher_a) * 128 + label_a * 16 + slot_a < (chunk_b * m + cipher_b) * 128
            + label_b * 16 + slot_b,
    ensures
        ({
            ||| chunk_a < chunk_b
            ||| chunk_a == chunk_b && cipher_a < cipher_b
            ||| chunk_a == chunk_b && cipher_a == cipher_b && label_a < label_b
            ||| chunk_a == chunk_b && cipher_a == cipher_b && label_a == label_b && slot_a < slot_b
        }),
{
    if chunk_b < chunk_a {
        assert(chunk_b * m + m <= chunk_a * m) by (nonlinear_arith)
            requires
                chunk_b < chunk_a,
                m > 0,
        ;
    }
}

/// Where outcomes of a prover meet a condition on what it was called with, the proofs of work that
/// were collected from it meet it for the nonce groups they are for, with the first 8 bytes of the
/// challenge, the difficulty and the miner as they were given.
pub proof fn collected_proofs_of_work_are_valid<P: pow::Prover>(
    pow_prover: &P,
    first: int,
    challenge: Seq<u8>,
    difficulty: [u8; 32],
    miner_id: [u8; 32],
    pows: Seq<u64>,
    valid: spec_fn(int, Seq<u8>, Seq<u8>, Seq<u8>, u64) -> bool,
)
    requires
        pays_for(pow_prover, first, challenge, difficulty, miner_id, pows),
        forall|group: u8, front: [u8; 8], threshold: [u8; 32], miner: [u8; 32], pow: u64|
            #[trigger] call_ensures(
                P::prove,
                (pow_prover, group, &front, &threshold, &miner),
                Ok::<u64, pow::Error>(pow),
            ) ==> valid(group as int, front@, threshold@, miner@, pow),
    ensures
        forall|i: int|
            0 <= i < pows.len() ==> valid(
                first + i,
                challenge.take(8),
                difficulty@,
                miner_id@,
                #[trigger] pows[i],
            ),
{
    assert forall|i: int| 0 <= i < pows.len() implies valid(
        first + i,
        challenge.take(8),
        difficulty@,
        miner_id@,
        #[trigger] pows[i],
    ) by {
        let group = (first + i) as u8;
        assert(pow::can_give(
            pow_prover,
            first + i,
            challenge,
            difficulty,
            miner_id,
            Ok(pows[i]),
        ));
        let front = choose|front: [u8; 8]|
            front@ == challenge.take(8) && #[trigger] call_ensures(
                P::prove,
                (pow_prover, group, &front, &difficulty, &miner_id),
                Ok::<u64, pow::Error>(pows[i]),
            );
        outcomes_come_from_the_prover(
            pow_prover,
            group,
            challenge,
            front,
            difficulty,
            miner_id,
            Ok(pows[i]),
        );
    }
}

/// The proofs of work that a prover holds for its nonce groups, and hands out for their nonces,
/// meet every condition that the outcomes of the search for them meet, with the threshold of the
/// parameters, the first 8 bytes of the challenge and the miner as they were given.
pub proof fn paid_provers_hold_valid_proofs_of_work<P: pow::Prover>(
    prover: Prover8_56,
    pow_prover: &P,
    challenge: Seq<u8>,
    nonces: Range<u32>,
    params: ProvingParams,
    miner_id: [u8; 32],
    nonce: u32,
    valid: spec_fn(int, Seq<u8>, Seq<u8>, Seq<u8>, u64) -> bool,
)
    requires
        prover.is_paid_for(pow_prover, challenge, nonces, params, miner_id),
        nonces.start < nonces.end <= 4096,
        (nonces.end - nonces.start) % 16 == 0,
        nonces.start as int % (nonces.end - nonces.start) == 0,
        nonces.start <= nonce < nonces.end,
        forall|group: u8, front: [u8; 8], threshold: [u8; 32], miner: [u8; 32], pow: u64|
            #[trigger] call_ensures(
                P::prove,
                (pow_prover, group, &front, &threshold, &miner),
                Ok::<u64, pow::Error>(pow),
            ) ==> valid(group as int, front@, threshold@, miner@, pow),
    ensures
        prover.pow_for(nonce) is Some,
        valid(
            nonce as int / 16,
            challenge.take(8),
            params.pow_difficulty@,
            miner_id@,
            prover.pow_for(nonce)->0,
        ),
{
    let n = nonces.end - nonces.start;
    let start = nonces.start as int;
    let pows = paid_provers_are_built_from_their_parameters(
        prover,
        pow_prover,
        challenge,
        nonces,
        params,
        miner_id,
    );
    let m = pows.len() as int;
    lemma_fundamental_div_mod(start, n);
    let q = start / n;
    assert(n * q == 16 * (q * m)) by (nonlinear_arith)
        requires
            n == 16 * m,
    ;
    aligned_nonces_are_served_by_their_own(
        prover,
        challenge,
        nonces,
        params.difficulty,
        pows,
        nonce,
    );
    collected_proofs_of_work_are_valid(
        pow_prover,
        start / 16,
        challenge,
        params.pow_difficulty,
        miner_id,
        pows,
        valid,
    );
    assert(start / 16 + (nonce - start) / 16 == nonce as int / 16);
    let i = (nonce - start) / 16;
    assert(valid(start / 16 + i, challenge.take(8), params.pow_difficulty@, miner_id@, pows[i]));
}

/// A prover that was paid for is built from the challenge, the nonces and the difficulty of the
/// parameters, and from a proof of work for each nonce group that the search can have given for the
/// threshold of the parameters.
pub proof fn paid_provers_are_built_from_their_parameters<P: pow::Prover>(
    prover: Prover8_56,
    pow_prover: &P,
    challenge: Seq<u8>,
    nonces: Range<u32>,
    params: ProvingParams,
    miner_id: [u8; 32],
) -> (pows: Seq<u64>)
    requires
        prover.is_paid_for(pow_prover, challenge, nonces, params, miner_id),
    ensures
        pows.len() == (nonces.end - nonces.start) / 16,
        prover.is_built_from(challenge, nonces, params.difficulty, pows),
        forall|i: int|
            0 <= i < pows.len() ==> pow::can_give(
                pow_prover,
                nonces.start as int / 16 + i,
                challenge,
                params.pow_difficulty,
                miner_id,
                Ok(#[trigger] pows[i]),
            ),
{
    choose|pows: Seq<u64>|
        {
            &&& pows.len() == (nonces.end - nonces.start) / 16
            &&& pays_for(
                pow_prover,
                nonces.start as int / 16,
                challenge,
                params.pow_difficulty,
                miner_id,
                pows,
            )
            &&& #[trigger] prover.is_built_from(challenge, nonces, params.difficulty, pows)
        }
}

/// A source that granted proofs of work was asked for each nonce group once, in ascending order,
/// with the challenge, the difficulty and the miner as they are, and for nothing else. Each proof
/// of work answers the request for its group.
pub proof fn granted_requests_were_asked_in_order<S: pow::Source>(
    source: S,
    earlier: Seq<pow::Request>,
    first: int,
    challenge: [u8; 8],
    difficulty: [u8; 32],
    miner_id: [u8; 32],
    pows: Seq<u64>,
    i: int,
)
    requires
        was_granted(source, earlier, first, challenge, difficulty, miner_id, pows),
        0 <= first,
        first + pows.len() <= 256,
    ensures
        source.asked().len() == earlier.len() + pows.len(),
        source.asked().take(earlier.len() as int) == earlier,
        0 <= i < pows.len() ==> {
            let request = source.asked()[earlier.len() + i];
            &&& request.nonce_group == first + i
            &&& request.challenge == challenge
            &&& request.difficulty == difficulty
            &&& request.miner_id == miner_id
            &&& S::gives(
                source.kind(),
                source.asked().take(earlier.len() + i),
                request,
                Ok(pows[i]),
            )
        },
{
    assert(source.asked().take(earlier.len() as int) =~= earlier);
    if 0 <= i < pows.len() {
        assert(source.asked().take(earlier.len() + i) =~= earlier + pow::requests(
            first,
            i as nat,
            challenge,
            difficulty,
            miner_id,
        ));
        let pow = pows[i];
        assert(S::gives(
            source.kind(),
            earlier + pow::requests(first, i as nat, challenge, difficulty, miner_id),
            pow::Request { nonce_group: (first + i) as u8, challenge, difficulty, miner_id },
            Ok(pow),
        ));
    }
}

/// A source that granted proofs of work up to a nonce group was asked for the groups before it and
/// for nothing else.
pub proof fn groups_are_asked_for_up_to_the_first_too_large<S: pow::Source>(
    source: S,
    earlier: Seq<pow::Request>,
    first: int,
    challenge: [u8; 8],
    difficulty: [u8; 32],
    miner_id: [u8; 32],
    group: int,
)
    requires
        was_granted_up_to(source, earlier, first, challenge, difficulty, miner_id, group),
    ensures
        exists|pows: Seq<u64>|
            pows.len() == group - first && #[trigger] was_granted(
                source,
                earlier,
                first,
                challenge,
                difficulty,
                miner_id,
                pows,
            ),
        source.asked().len() == earlier.len() + group - first,
{
}

/// Whether a source of this kind, after it was asked for `before`, can grant `request`.
pub open spec fn can_grant<S: pow::Source>(
    kind: S::Kind,
    before: Seq<pow::Request>,
    request: pow::Request,
) -> bool {
    exists|pow: u64| S::gives(kind, before, request, Ok(pow))
}

/// A source that refused was asked for the nonce groups from the first on, each once and in
/// ascending order, and the last request is the one that failed. All others were granted.
pub proof fn refusal_answers_the_last_request<S: pow::Source>(
    source: S,
    earlier: Seq<pow::Request>,
    first: int,
    end: int,
    challenge: [u8; 8],
    difficulty: [u8; 32],
    miner_id: [u8; 32],
    error: pow::Error,
)
    requires
        was_refused(source, earlier, first, end, challenge, difficulty, miner_id, error),
        0 <= first,
    ensures
        earlier.len() < source.asked().len() <= earlier.len() + end - first,
        source.asked().take(earlier.len() as int) == earlier,
        forall|k: int|
            earlier.len() <= k < source.asked().len() ==> {
                let request = #[trigger] source.asked()[k];
                &&& request.nonce_group == first + k - earlier.len()
                &&& request.challenge == challenge
                &&& request.difficulty == difficulty
                &&& request.miner_id == miner_id
            },
        S::gives(source.kind(), source.asked().drop_last(), source.asked().last(), Err(error)),
        forall|k: int|
            earlier.len() <= k < source.asked().len() - 1 ==> can_grant::<S>(
                source.kind(),
                source.asked().take(k),
                #[trigger] source.asked()[k],
            ),
{
    let pows = choose|pows: Seq<u64>|
        is_refused_after(
            source,
            earlier,
            first,
            end,
            challenge,
            difficulty,
            miner_id,
            error,
            pows,
        );
    assert(source.asked().take(earlier.len() as int) =~= earlier);
    assert(source.asked().drop_last() =~= earlier + pow::requests(
        first,
        pows.len(),
        challenge,
        difficulty,
        miner_id,
    ));
    assert forall|k: int| earlier.len() <= k < source.asked().len() - 1 implies can_grant::<S>(
        source.kind(),
        source.asked().take(k),
        #[trigger] source.asked()[k],
    ) by {
        let i = k - earlier.len();
        let pow = pows[i];
        assert(source.asked().take(k) =~= earlier + pow::requests(
            first,
            i as nat,
            challenge,
            difficulty,
            miner_id,
        ));
        assert(S::gives(source.kind(), source.asked().take(k), source.asked()[k], Ok(pow)));
    }
}

/// A scan that a sink ended handed it the hits up to one that it answered, each once and in order.
/// It answered those before with nothing.
pub proof fn answer_ends_a_scan<S: Sink>(
    prover: Prover8_56,
    batch: Seq<u8>,
    index: u64,
    sink: S,
    earlier: Seq<(u32, u64)>,
    indexes: Vec<u64>,
    last: int,
    k: int,
)
    requires
        prover.ends_at(batch, index, sink, earlier, indexes, last),
    ensures
        0 <= last < prover.hits(batch, index).len(),
        sink.handed() == earlier + prover.hits(batch, index).take(last + 1),
        S::answers(
            sink.kind(),
            earlier + prover.hits(batch, index).take(last),
            prover.hits(batch, index)[last],
            Some(indexes),
        ),
        0 <= k < last ==> S::answers(
            sink.kind(),
            earlier + prover.hits(batch, index).take(k),
            prover.hits(batch, index)[k],
            None,
        ),
{
    let hits = prover.hits(batch, index);
    if 0 <= k < last {
        assert(hits.take(last)[k] == hits[k]);
        assert(hits.take(last).take(k) =~= hits.take(k));
    }
}

/// Hits that a sink ignores are each answered with nothing, after those before them.
pub proof fn ignored_hits_are_answered_with_nothing<S: Sink>(
    kind: S::Kind,
    earlier: Seq<(u32, u64)>,
    hits: Seq<(u32, u64)>,
    k: int,
)
    requires
        ignores::<S>(kind, earlier, hits),
        0 <= k < hits.len(),
    ensures
        S::answers(kind, earlier + hits.take(k), hits[k], None),
{
}

} // verus!
