//! Scanning labels: a label is good for a nonce when its encryption falls below the difficulty.

use std::ops::Range;
use vstd::prelude::*;
use vstd::slice::slice_subrange;

use crate::bytes::{le_value, lemma_le_value_two_words};
use crate::cipher::{
    aes128_block, encrypt_chunk, encrypt_label, AesCipher, AES_BATCH, BLOCK_SIZE, CHUNK_SIZE,
    LABEL_SIZE,
};
use crate::nonce::{calc_nonce, calc_nonce_group, nonce_group_range};
use crate::params::ProvingParams;
use crate::pow;
use crate::sink::{ignores, FnSink, Sink};

verus! {

/// The label at `position` of a batch.
pub open spec fn label_at(batch: Seq<u8>, position: int) -> Seq<u8> {
    batch.subrange(16 * position, 16 * position + 16)
}

/// What a most significant byte says about a label.
#[derive(Debug, Clone, Copy, PartialEq, Eq)]
pub enum MsbVerdict {
    /// Below the difficulty: the label is good.
    Good,
    /// Equal to the difficulty's: the remaining bytes decide.
    Tie,
    /// Above the difficulty: the label is not good.
    Bad,
}

/// Why a prover could not be made.
#[derive(Debug, Clone, PartialEq, Eq)]
pub enum ProverError {
    /// The nonces do not start at a multiple of 16.
    NoncesStart,
    /// There are no nonces, or their number is not a multiple of 16.
    NoncesCount,
    /// The nonce group has no proof of work: its number does not fit a byte.
    NonceGroup(u32),
    /// The proof of work failed.
    Pow(pow::Error),
}

impl ProverError {
    /// What went wrong, in words. A proof-of-work prover that failed speaks for itself.
    pub fn message(&self) -> (text: String)
        ensures
            text@ == match self {
                ProverError::NoncesStart => "nonces must start at a multiple of 16"@,
                ProverError::NoncesCount => "nonces must be a multiple of 16"@,
                ProverError::NonceGroup(_) => "out of range integral type conversion attempted"@,
                ProverError::Pow(pow::Error::PoWNotFound) => "proof of work not found"@,
                ProverError::Pow(pow::Error::Internal(reason)) => reason@,
            },
    {
        match self {
            ProverError::NoncesStart => "nonces must start at a multiple of 16".to_owned(),
            ProverError::NoncesCount => "nonces must be a multiple of 16".to_owned(),
            ProverError::NonceGroup(_) => {
                "out of range integral type conversion attempted".to_owned()
            },
            ProverError::Pow(pow::Error::PoWNotFound) => "proof of work not found".to_owned(),
            ProverError::Pow(pow::Error::Internal(reason)) => reason.clone(),
        }
    }
}

/// Whether a range of nonces is made of whole groups, and of at least one.
pub open spec fn whole_groups(nonces: Range<u32>) -> bool {
    &&& nonces.start % 16 == 0
    &&& nonces.start < nonces.end
    &&& (nonces.end - nonces.start) % 16 == 0
}

/// Whether `prover` can have given `pows` for the nonce groups from `first_group` on.
pub open spec fn pays_for<P: pow::Prover>(
    prover: &P,
    first_group: int,
    challenge: Seq<u8>,
    difficulty: [u8; 32],
    miner_id: [u8; 32],
    pows: Seq<u64>,
) -> bool {
    forall|i: int|
        0 <= i < pows.len() ==> pow::can_give(
            prover,
            first_group + i,
            challenge,
            difficulty,
            miner_id,
            Ok(#[trigger] pows[i]),
        )
}

/// Whether `source`, after it was asked for `earlier`, can have been asked for the nonce groups
/// from `first` on, each once, and can have given `pows` for them.
pub open spec fn was_granted<S: pow::Source>(
    source: S,
    earlier: Seq<pow::Request>,
    first: int,
    challenge: [u8; 8],
    difficulty: [u8; 32],
    miner_id: [u8; 32],
    pows: Seq<u64>,
) -> bool {
    &&& source.asked() == earlier + pow::requests(
        first,
        pows.len(),
        challenge,
        difficulty,
        miner_id,
    )
    &&& pow::grants::<S>(source.kind(), earlier, first, challenge, difficulty, miner_id, pows)
}

/// Whether `source` can have been asked for the nonce groups from `first` to before `group`, each
/// once, and can have given a proof of work for each.
pub open spec fn was_granted_up_to<S: pow::Source>(
    source: S,
    earlier: Seq<pow::Request>,
    first: int,
    challenge: [u8; 8],
    difficulty: [u8; 32],
    miner_id: [u8; 32],
    group: int,
) -> bool {
    exists|pows: Seq<u64>|
        pows.len() == group - first && #[trigger] was_granted(
            source,
            earlier,
            first,
            challenge,
            difficulty,
            miner_id,
            pows,
        )
}

/// Whether `source` can have been asked for nonce groups from `first` on, each once, and can have
/// given `pows` for all but the last, which is before `end` and failed with `error`.
pub open spec fn is_refused_after<S: pow::Source>(
    source: S,
    earlier: Seq<pow::Request>,
    first: int,
    end: int,
    challenge: [u8; 8],
    difficulty: [u8; 32],
    miner_id: [u8; 32],
    error: pow::Error,
    pows: Seq<u64>,
) -> bool {
    &&& first + pows.len() < end
    &&& first + pows.len() <= u8::MAX
    &&& source.asked() == earlier + pow::requests(
        first,
        pows.len() + 1,
        challenge,
        difficulty,
        miner_id,
    )
    &&& pow::grants::<S>(source.kind(), earlier, first, challenge, difficulty, miner_id, pows)
    &&& S::gives(
        source.kind(),
        earlier + pow::requests(first, pows.len(), challenge, difficulty, miner_id),
        pow::Request {
            nonce_group: (first + pows.len()) as u8,
            challenge,
            difficulty,
            miner_id,
        },
        Err(error),
    )
}

/// Whether `source` can have been asked for nonce groups from `first` on, each once, up to and with
/// one before `end` that failed with `error`.
pub open spec fn was_refused<S: pow::Source>(
    source: S,
    earlier: Seq<pow::Request>,
    first: int,
    end: int,
    challenge: [u8; 8],
    difficulty: [u8; 32],
    miner_id: [u8; 32],
    error: pow::Error,
) -> bool {
    exists|pows: Seq<u64>|
        is_refused_after(
            source,
            earlier,
            first,
            end,
            challenge,
            difficulty,
            miner_id,
            error,
            pows,
        )
}

/// What a prover gives as a source pays for the nonce groups.
proof fn lemma_grants_pay<'a, P: pow::Prover>(
    prover: &'a P,
    first: int,
    challenge: Seq<u8>,
    front: [u8; 8],
    difficulty: [u8; 32],
    miner_id: [u8; 32],
    pows: Seq<u64>,
)
    requires
        0 <= first,
        pows.len() == 0 || first + pows.len() <= 256,
        front@ == challenge.take(8),
        pow::grants::<pow::Recorder<'a, P>>(
            *prover,
            Seq::empty(),
            first,
            front,
            difficulty,
            miner_id,
            pows,
        ),
    ensures
        pays_for(prover, first, challenge, difficulty, miner_id, pows),
{
}

/// Asks `source` for a proof of work for each of `groups`, once and one after the other, until it
/// fails. A group whose number does not fit a byte is not asked for.
pub fn collect_pows<S: pow::Source>(
    source: &mut S,
    groups: Range<u32>,
    challenge: &[u8; 8],
    difficulty: &[u8; 32],
    miner_id: &[u8; 32],
) -> (collected: Result<Vec<u64>, ProverError>)
    requires
        groups.start <= groups.end,
    ensures
        final(source).kind() == old(source).kind(),
        match collected {
            Ok(pows) => {
                &&& groups.start == groups.end || groups.end <= 256
                &&& pows@.len() == groups.end - groups.start
                &&& was_granted(
                    *final(source),
                    old(source).asked(),
                    groups.start as int,
                    *challenge,
                    *difficulty,
                    *miner_id,
                    pows@,
                )
            },
            Err(ProverError::NonceGroup(group)) => {
                &&& groups.start <= group < groups.end
                &&& group == if groups.start < 256 {
                    256
                } else {
                    groups.start
                }
                &&& was_granted_up_to(
                    *final(source),
                    old(source).asked(),
                    groups.start as int,
                    *challenge,
                    *difficulty,
                    *miner_id,
                    group as int,
                )
            },
            Err(ProverError::Pow(error)) => was_refused(
                *final(source),
                old(source).asked(),
                groups.start as int,
                groups.end as int,
                *challenge,
                *difficulty,
                *miner_id,
                error,
            ),
            Err(_) => false,
        },
{
    let ghost earlier = source.asked();
    let mut pows: Vec<u64> = Vec::new();
    let mut nonce_group: u32 = groups.start;
    assert(source.asked() =~= earlier + pow::requests(
        groups.start as int,
        0,
        *challenge,
        *difficulty,
        *miner_id,
    ));
    while nonce_group < groups.end
        invariant
            earlier == old(source).asked(),
            source.kind() == old(source).kind(),
            groups.start <= nonce_group <= groups.end,
            groups.start < nonce_group ==> nonce_group <= 256,
            pows.len() == nonce_group - groups.start,
            was_granted(
                *source,
                earlier,
                groups.start as int,
                *challenge,
                *difficulty,
                *miner_id,
                pows@,
            ),
        decreases groups.end - nonce_group,
    {
        if nonce_group > 255 {
            return Err(ProverError::NonceGroup(nonce_group));
        }
        let ghost given = pows@;
        let outcome = source.ask(nonce_group as u8, challenge, difficulty, miner_id);
        assert(source.asked() =~= earlier + pow::requests(
            groups.start as int,
            given.len() + 1,
            *challenge,
            *difficulty,
            *miner_id,
        ));
        match outcome {
            Ok(pow) => {
                pows.push(pow);
            },
            Err(error) => {
                assert(is_refused_after(
                    *source,
                    earlier,
                    groups.start as int,
                    groups.end as int,
                    *challenge,
                    *difficulty,
                    *miner_id,
                    error,
                    given,
                ));
                return Err(ProverError::Pow(error));
            },
        }
        nonce_group += 1;
    }
    Ok(pows)
}

/// Something that finds good labels.
pub trait Prover {
    /// Whether the labels of `batch` can be numbered from `index` on.
    spec fn accepts(&self, batch: Seq<u8>, index: u64) -> bool;

    /// The good labels of `batch` in the order in which they are found: each as the nonce that it
    /// is good for and its index, where the first label of the batch has the index `index`.
    spec fn hits(&self, batch: Seq<u8>, index: u64) -> Seq<(u32, u64)>;

    /// The proof of work that is handed out for a nonce.
    spec fn pow_for(&self, nonce: u32) -> Option<u64>;

    /// Hands the good labels of `batch` to `consume`, one after the other, until `consume`
    /// returns indexes. Those are returned together with the nonce that they were found for.
    fn prove<F>(&self, batch: &[u8], index: u64, consume: F) -> (found: Option<(u32, Vec<u64>)>)
    where
        F: FnMut(u32, u64) -> Option<Vec<u64>>,
        requires
            self.accepts(batch@, index),
            forall|k: int|
                0 <= k < self.hits(batch@, index).len() ==> call_requires(
                    consume,
                    #[trigger] self.hits(batch@, index)[k],
                ),
        ensures
            match found {
                None => forall|k: int|
                    0 <= k < self.hits(batch@, index).len() ==> call_ensures(
                        consume,
                        #[trigger] self.hits(batch@, index)[k],
                        None,
                    ),
                Some((nonce, indexes)) => exists|last: int|
                    {
                        &&& 0 <= last < self.hits(batch@, index).len()
                        &&& nonce == #[trigger] self.hits(batch@, index)[last].0
                        &&& call_ensures(consume, self.hits(batch@, index)[last], Some(indexes))
                        &&& forall|k: int|
                            0 <= k < last ==> call_ensures(
                                consume,
                                #[trigger] self.hits(batch@, index)[k],
                                None,
                            )
                    },
            },
    ;

    /// The proof of work for a nonce.
    fn get_pow(&self, nonce: u32) -> (pow: Option<u64>)
        ensures
            pow == self.pow_for(nonce),
    ;
}

/// A prover that checks the most significant byte of 16 nonces at once with a shared cipher, and
/// the remaining 56 bits, where they matter, with a cipher of the nonce's own.
#[derive(Debug)]
pub struct Prover8_56 {
    ciphers: Vec<AesCipher>,
    lazy_ciphers: Vec<AesCipher>,
    difficulty_msb: u8,
    difficulty_lsb: u64,
}

impl Prover8_56 {
    /// Nonces that share a cipher: each has one byte of its output block.
    pub const NONCES_PER_AES: u32 = 16;

    /// The ciphers of the nonce groups.
    pub closed spec fn group_ciphers(self) -> Seq<AesCipher> {
        self.ciphers@
    }

    /// The ciphers of the single nonces.
    pub closed spec fn nonce_ciphers(self) -> Seq<AesCipher> {
        self.lazy_ciphers@
    }

    /// The difficulty's most significant byte.
    pub closed spec fn threshold_msb(self) -> u8 {
        self.difficulty_msb
    }

    /// The difficulty's remaining 56 bits.
    pub closed spec fn threshold_lsb(self) -> u64 {
        self.difficulty_lsb
    }

    /// There is a cipher for each of a run of nonce groups, and one for each of their nonces.
    #[verifier::type_invariant]
    pub open spec fn wf(self) -> bool {
        &&& self.group_ciphers().len() > 0
        &&& self.nonce_ciphers().len() == 16 * self.group_ciphers().len()
        &&& self.group_ciphers()[0].nonce_group + self.group_ciphers().len() <= 256
        &&& forall|i: int|
            0 <= i < self.group_ciphers().len() ==> (
            #[trigger] self.group_ciphers()[i]).nonce_group == self.group_ciphers()[0].nonce_group
                + i
    }

    /// The cipher that a nonce's group is looked up as: groups are counted round the ciphers there
    /// are.
    pub open spec fn cipher_for(self, nonce: u32) -> AesCipher {
        self.group_ciphers()[nonce as int / 16 % self.group_ciphers().len() as int]
    }

    /// Where a nonce's own cipher is looked up: nonces are counted round the ciphers there are.
    pub open spec fn lazy_place(self, nonce: int) -> int {
        nonce % self.nonce_ciphers().len() as int
    }

    /// The cipher that a nonce's own is looked up as.
    pub open spec fn lazy_cipher_for(self, nonce: int) -> AesCipher {
        self.nonce_ciphers()[self.lazy_place(nonce)]
    }

    /// The nonce that has the byte `slot` of the output of the group cipher number `cipher`.
    pub open spec fn nonce_at(self, cipher: int, slot: int) -> int {
        self.group_ciphers()[cipher].nonce_group * 16 + slot
    }

    /// The most significant byte of a label for a nonce.
    pub open spec fn msb_of(self, cipher: int, slot: int, label: Seq<u8>) -> u8 {
        aes128_block(self.group_ciphers()[cipher].key@, label)[slot]
    }

    /// The remaining 56 bits of a label for a nonce: the low ones of its encryption under the
    /// nonce's own cipher, read as a little-endian number.
    pub open spec fn lsb_of(self, nonce: int, label: Seq<u8>) -> nat {
        le_value(
            aes128_block(
                self.lazy_cipher_for(nonce).key@,
                label,
            ),
        ) % 0x100_0000_0000_0000
    }

    /// Whether a most significant byte, together with the remaining bits of a label for a nonce,
    /// is below the difficulty.
    pub open spec fn is_below(self, msb: u8, nonce: int, label: Seq<u8>) -> bool {
        ||| msb < self.threshold_msb()
        ||| msb == self.threshold_msb() && self.lsb_of(nonce, label) < self.threshold_lsb()
    }

    /// Whether a label is good for the nonce at `slot` of a group.
    pub open spec fn is_good(self, cipher: int, slot: int, label: Seq<u8>) -> bool {
        self.is_below(self.msb_of(cipher, slot, label), self.nonce_at(cipher, slot), label)
    }

    /// The number of label and nonce pairs that a scan of `batch` looks at. Labels are taken eight
    /// at a time; those left over are not looked at.
    pub open spec fn scan_len(self, batch: Seq<u8>) -> int {
        (batch.len() as int / 128) * self.group_ciphers().len() as int * 128
    }

    /// The group cipher that step `step` of a scan tries.
    pub open spec fn step_cipher(self, step: int) -> int {
        step / 128 % self.group_ciphers().len() as int
    }

    /// The slot whose nonce step `step` of a scan tries.
    pub open spec fn step_slot(self, step: int) -> int {
        step % 16
    }

    /// The label that step `step` of a scan looks at.
    pub open spec fn step_label(self, step: int) -> int {
        step / 128 / self.group_ciphers().len() as int * 8 + step % 128 / 16
    }

    /// Whether step `step` of a scan finds a good label.
    pub open spec fn step_hits(self, batch: Seq<u8>, step: int) -> bool {
        self.is_good(
            self.step_cipher(step),
            self.step_slot(step),
            label_at(batch, self.step_label(step)),
        )
    }

    /// What step `step` of a scan reports where it finds a good label.
    pub open spec fn step_report(self, index: u64, step: int) -> (u32, u64) {
        (
            self.nonce_at(self.step_cipher(step), self.step_slot(step)) as u32,
            (index + self.step_label(step)) as u64,
        )
    }

    /// What the first `steps` steps of a scan report.
    pub open spec fn reports(self, batch: Seq<u8>, index: u64, steps: int) -> Seq<(u32, u64)>
        decreases steps,
    {
        if steps <= 0 {
            Seq::empty()
        } else if self.step_hits(batch, steps - 1) {
            self.reports(batch, index, steps - 1).push(self.step_report(index, steps - 1))
        } else {
            self.reports(batch, index, steps - 1)
        }
    }

    /// What fewer steps report is the front of what more steps report.
    pub proof fn lemma_reports_prefix(self, batch: Seq<u8>, index: u64, fewer: int, more: int)
        requires
            fewer <= more,
        ensures
            self.reports(batch, index, fewer).is_prefix_of(self.reports(batch, index, more)),
        decreases more,
    {
        if more > 0 && fewer < more {
            self.lemma_reports_prefix(batch, index, fewer, more - 1);
        }
    }

    /// What a step reports follows what the steps before it report.
    proof fn lemma_step_report(self, batch: Seq<u8>, index: u64, step: int)
        requires
            0 <= step < self.scan_len(batch),
        ensures
            ({
                let before = self.reports(batch, index, step);
                let hits = self.hits(batch, index);
                &&& before.len() <= hits.len()
                &&& forall|k: int|
                    0 <= k < before.len() ==> #[trigger] hits[k] == #[trigger] before[k]
                &&& self.step_hits(batch, step) ==> before.len() < hits.len()
                    && hits[before.len() as int] == self.step_report(index, step)
            }),
    {
        let before = self.reports(batch, index, step);
        let after = self.reports(batch, index, step + 1);
        let hits = self.hits(batch, index);
        self.lemma_reports_prefix(batch, index, step + 1, self.scan_len(batch));
        assert forall|k: int| 0 <= k < after.len() implies #[trigger] hits[k] == after[k] by {
            assert(hits.subrange(0, after.len() as int)[k] == hits[k]);
        }
        if self.step_hits(batch, step) {
            assert(after[before.len() as int] == self.step_report(index, step));
        }
    }

    /// Where in a scan a byte of an encrypted chunk is looked at.
    pub proof fn lemma_step(self, chunk: int, cipher: int, offset: int)
        requires
            0 <= chunk,
            0 <= cipher < self.group_ciphers().len(),
            0 <= offset < 128,
        ensures
            ({
                let step = (chunk * self.group_ciphers().len() + cipher) * 128 + offset;
                &&& self.step_cipher(step) == cipher
                &&& self.step_slot(step) == offset % 16
                &&& self.step_label(step) == chunk * 8 + offset / 16
            }),
    {
        let m = self.group_ciphers().len() as int;
        let step = (chunk * m + cipher) * 128 + offset;
        assert(step / 128 == chunk * m + cipher);
        vstd::arithmetic::div_mod::lemma_fundamental_div_mod_converse(
            chunk * m + cipher,
            m,
            chunk,
            cipher,
        );
    }

    /// The bytes that a group cipher turns a chunk of a batch into are the most significant bytes
    /// of its labels.
    proof fn lemma_msb(
        self,
        batch: Seq<u8>,
        chunk_no: int,
        cipher: int,
        offset: int,
        chunk: Seq<u8>,
        u8s: Seq<u8>,
    )
        requires
            0 <= chunk_no < batch.len() / 128,
            0 <= offset < 128,
            chunk == batch.subrange(chunk_no * 128, chunk_no * 128 + 128),
            u8s.len() == 128,
            forall|b: int|
                0 <= b < 8 ==> #[trigger] u8s.subrange(16 * b, 16 * b + 16) == aes128_block(
                    self.group_ciphers()[cipher].key@,
                    chunk.subrange(16 * b, 16 * b + 16),
                ),
        ensures
            self.msb_of(cipher, offset % 16, label_at(batch, chunk_no * 8 + offset / 16))
                == u8s[offset],
    {
        let b = offset / 16;
        assert(chunk.subrange(16 * b, 16 * b + 16) =~= label_at(batch, chunk_no * 8 + b));
        assert(u8s.subrange(16 * b, 16 * b + 16)[offset % 16] == u8s[offset]);
    }

    /// No byte of a chunk of a batch lies outside the scan.
    pub proof fn lemma_step_in_scan(self, batch: Seq<u8>, chunk_no: int, cipher: int, offset: int)
        requires
            0 <= chunk_no < batch.len() / 128,
            0 <= cipher < self.group_ciphers().len(),
            0 <= offset < 128,
        ensures
            0 <= (chunk_no * self.group_ciphers().len() + cipher) * 128 + offset < self.scan_len(
                batch,
            ),
    {
        let m = self.group_ciphers().len() as int;
        let chunks = batch.len() as int / 128;
        assert(0 <= chunk_no * m && chunk_no * m + m <= chunks * m) by (nonlinear_arith)
            requires
                0 <= chunk_no < chunks,
                0 < m,
        ;
    }

    /// Whether a sink of this kind, after it was handed `earlier`, can have answered what the first
    /// `steps` steps of a scan report with nothing.
    #[verifier::opaque]
    spec fn all_none<S: Sink>(
        self,
        batch: Seq<u8>,
        index: u64,
        steps: int,
        kind: S::Kind,
        earlier: Seq<(u32, u64)>,
    ) -> bool {
        ignores::<S>(kind, earlier, self.reports(batch, index, steps))
    }

    /// One step further, after which everything has still been answered with nothing.
    proof fn lemma_none_extends<S: Sink>(
        self,
        batch: Seq<u8>,
        index: u64,
        step: int,
        kind: S::Kind,
        earlier: Seq<(u32, u64)>,
    )
        requires
            0 <= step,
            self.all_none::<S>(batch, index, step, kind, earlier),
            self.step_hits(batch, step) ==> S::answers(
                kind,
                earlier + self.reports(batch, index, step),
                self.step_report(index, step),
                None,
            ),
        ensures
            self.all_none::<S>(batch, index, step + 1, kind, earlier),
    {
        reveal(Prover8_56::all_none);
        let before = self.reports(batch, index, step);
        let after = self.reports(batch, index, step + 1);
        assert forall|k: int| 0 <= k < after.len() implies S::answers(
            kind,
            earlier + after.take(k),
            #[trigger] after[k],
            None,
        ) by {
            assert(after.take(k) =~= before.take(k));
            if k < before.len() {
                assert(after[k] == before[k]);
            } else {
                assert(before.take(k) =~= before);
            }
        }
    }

    /// Whether `sink`, after what it was handed in `earlier`, can have been handed the hits of a
    /// batch up to the one at `last`, and can have answered that one with `indexes` and those
    /// before it with nothing.
    pub open spec fn ends_at<S: Sink>(
        self,
        batch: Seq<u8>,
        index: u64,
        sink: S,
        earlier: Seq<(u32, u64)>,
        indexes: Vec<u64>,
        last: int,
    ) -> bool {
        let hits = self.hits(batch, index);
        &&& 0 <= last < hits.len()
        &&& sink.handed() == earlier + hits.take(last + 1)
        &&& ignores::<S>(sink.kind(), earlier, hits.take(last))
        &&& S::answers(sink.kind(), earlier + hits.take(last), hits[last], Some(indexes))
    }

    /// A step whose report is answered with indexes ends the scan.
    proof fn lemma_some_ends<S: Sink>(
        self,
        batch: Seq<u8>,
        index: u64,
        step: int,
        sink: S,
        earlier: Seq<(u32, u64)>,
        indexes: Vec<u64>,
    ) -> (last: int)
        requires
            0 <= step < self.scan_len(batch),
            self.all_none::<S>(batch, index, step, sink.kind(), earlier),
            self.step_hits(batch, step),
            S::answers(
                sink.kind(),
                earlier + self.reports(batch, index, step),
                self.step_report(index, step),
                Some(indexes),
            ),
            sink.handed() == (earlier + self.reports(batch, index, step)).push(
                self.step_report(index, step),
            ),
        ensures
            self.ends_at(batch, index, sink, earlier, indexes, last),
            self.hits(batch, index)[last] == self.step_report(index, step),
    {
        reveal(Prover8_56::all_none);
        self.lemma_step_report(batch, index, step);
        let before = self.reports(batch, index, step);
        let hits = self.hits(batch, index);
        let last = before.len() as int;
        assert(hits.take(last) =~= before);
        assert(earlier + hits.take(last + 1) =~= (earlier + before).push(
            self.step_report(index, step),
        ));
        last
    }

    /// Whether `sink` can be handed every hit of a batch.
    pub open spec fn takes_all<S: Sink>(self, batch: Seq<u8>, index: u64, sink: S) -> bool {
        forall|k: int|
            0 <= k < self.hits(batch, index).len() ==> S::takes(
                sink.kind(),
                #[trigger] self.hits(batch, index)[k],
            )
    }

    /// Whether `sink` can be what `before` has become by the first `steps` steps of a scan.
    spec fn scan_goes_on<S: Sink>(
        self,
        batch: Seq<u8>,
        index: u64,
        steps: int,
        before: S,
        sink: S,
    ) -> bool {
        &&& sink.ready()
        &&& sink.kind() == before.kind()
        &&& sink.handed() == before.handed() + self.reports(batch, index, steps)
        &&& self.all_none::<S>(batch, index, steps, sink.kind(), before.handed())
    }

    /// Whether this is the prover for `nonces` under `challenge`, with one proof of work per nonce
    /// group. A nonce's own cipher is keyed with the proof of work at its group's number, counted
    /// round the groups there are.
    pub open spec fn is_built_from(
        self,
        challenge: Seq<u8>,
        nonces: Range<u32>,
        difficulty: u64,
        pows: Seq<u64>,
    ) -> bool {
        &&& self.group_ciphers().len() == pows.len()
        &&& forall|i: int|
            0 <= i < pows.len() ==> (#[trigger] self.group_ciphers()[i]).is_for_group(
                challenge,
                (nonces.start as int / 16 + i) as u32,
                pows[i],
            )
        &&& self.nonce_ciphers().len() == nonces.end - nonces.start
        &&& forall|k: int|
            0 <= k < nonces.end - nonces.start ==> (
            #[trigger] self.nonce_ciphers()[k]).is_for_nonce(
                challenge,
                (nonces.start + k) as u32,
                ((nonces.start + k) / 16) as u32,
                pows[(nonces.start + k) / 16 % pows.len() as int],
            )
        &&& self.threshold_msb() == difficulty / 0x100_0000_0000_0000
        &&& self.threshold_lsb() == difficulty % 0x100_0000_0000_0000
    }

    /// Whether this is a prover whose proofs of work `pow_prover` can have given.
    pub open spec fn is_paid_for<P: pow::Prover>(
        self,
        pow_prover: &P,
        challenge: Seq<u8>,
        nonces: Range<u32>,
        params: ProvingParams,
        miner_id: [u8; 32],
    ) -> bool {
        exists|pows: Seq<u64>|
            {
                &&& pows.len() == (nonces.end - nonces.start) / 16
                &&& pays_for(
                    pow_prover,
                    nonces.start as int / 16,
                    challenge,
                    params.pow_difficulty,
                    miner_id,
                    pows,
                )
                &&& #[trigger] self.is_built_from(challenge, nonces, params.difficulty, pows)
            }
    }

    /// Makes the prover for `nonces` out of a proof of work for each of their groups.
    pub fn from_pows(
        challenge: &[u8; 32],
        nonces: Range<u32>,
        difficulty: u64,
        pows: &[u64],
    ) -> (prover: Self)
        requires
            whole_groups(nonces),
            nonces.end <= 4096,
            pows@.len() == (nonces.end - nonces.start) / 16,
        ensures
            prover.is_built_from(challenge@, nonces, difficulty, pows@),
    {
        let start_group: u32 = nonces.start / Self::NONCES_PER_AES;
        let mut ciphers: Vec<AesCipher> = Vec::new();
        while ciphers.len() < pows.len()
            invariant
                start_group == nonces.start / 16,
                nonces.end <= 4096,
                pows@.len() == (nonces.end - nonces.start) / 16,
                ciphers.len() <= pows@.len(),
                forall|i: int|
                    0 <= i < ciphers.len() ==> (#[trigger] ciphers[i]).is_for_group(
                        challenge@,
                        (nonces.start as int / 16 + i) as u32,
                        pows@[i],
                    ),
            decreases pows@.len() - ciphers.len(),
        {
            let i: usize = ciphers.len();
            ciphers.push(AesCipher::new(challenge, start_group + i as u32, pows[i]));
        }
        let mut lazy_ciphers: Vec<AesCipher> = Vec::new();
        let mut nonce: u32 = nonces.start;
        while nonce < nonces.end
            invariant
                nonces.start <= nonce <= nonces.end <= 4096,
                pows@.len() > 0,
                ciphers.len() == pows@.len(),
                forall|i: int|
                    0 <= i < ciphers.len() ==> (#[trigger] ciphers[i]).is_for_group(
                        challenge@,
                        (nonces.start as int / 16 + i) as u32,
                        pows@[i],
                    ),
                lazy_ciphers.len() == nonce - nonces.start,
                forall|k: int|
                    0 <= k < lazy_ciphers.len() ==> (#[trigger] lazy_ciphers[k]).is_for_nonce(
                        challenge@,
                        (nonces.start + k) as u32,
                        ((nonces.start + k) / 16) as u32,
                        pows@[(nonces.start + k) / 16 % pows@.len() as int],
                    ),
            decreases nonces.end - nonce,
        {
            let nonce_group: usize = calc_nonce_group(nonce, Self::NONCES_PER_AES);
            let pow: u64 = ciphers[nonce_group % ciphers.len()].pow;
            lazy_ciphers.push(AesCipher::new_lazy(challenge, nonce, nonce_group as u32, pow));
            nonce += 1;
        }
        let (difficulty_msb, difficulty_lsb): (u8, u64) = Self::split_difficulty(difficulty);
        Prover8_56 { ciphers, lazy_ciphers, difficulty_msb, difficulty_lsb }
    }

    /// Pays for the nonce groups of `nonces`, one after the other, and makes the prover for them.
    pub fn new<P: pow::Prover>(
        challenge: &[u8; 32],
        nonces: Range<u32>,
        params: ProvingParams,
        pow_prover: &P,
        miner_id: &[u8; 32],
    ) -> (made: Result<Self, ProverError>)
        requires
            whole_groups(nonces) ==> nonces.end + 16 <= u32::MAX,
        ensures
            made == Err::<Self, ProverError>(ProverError::NoncesStart) <==> nonces.start % 16 != 0,
            made == Err::<Self, ProverError>(ProverError::NoncesCount) <==> nonces.start % 16 == 0
                && !whole_groups(nonces),
            made == Err::<Self, ProverError>(ProverError::NoncesCount) <==> {
                &&& nonces.start % 16 == 0
                &&& nonces.start >= nonces.end || (nonces.end - nonces.start) % 16 != 0
            },
            made is Ok ==> nonces.end <= 4096,
            made matches Ok(prover) ==> prover.is_paid_for(
                pow_prover,
                challenge@,
                nonces,
                params,
                *miner_id,
            ),
            made matches Ok(prover) ==> prover.group_ciphers().len() == (nonces.end - nonces.start)
                / 16,
            made is Ok ==> forall|i: int|
                0 <= i < (nonces.end - nonces.start) / 16 ==> {
                    &&& (#[trigger] made->Ok_0.group_ciphers()[i]).nonce_group
                        == nonces.start as int / 16 + i
                    &&& exists|front: [u8; 8]|
                        front@ == challenge@.take(8) && #[trigger] call_ensures(
                            P::prove,
                            (
                                pow_prover,
                                made->Ok_0.group_ciphers()[i].nonce_group as u8,
                                &front,
                                &params.pow_difficulty,
                                miner_id,
                            ),
                            Ok::<u64, pow::Error>(made->Ok_0.group_ciphers()[i].pow),
                        )
                },
            made matches Err(ProverError::NonceGroup(group)) ==> {
                &&& nonces.start as int / 16 <= group < nonces.end as int / 16
                &&& group == if nonces.start < 4096 {
                    256
                } else {
                    nonces.start as int / 16
                }
                &&& exists|pows: Seq<u64>|
                    pows.len() == group - nonces.start as int / 16 && #[trigger] pays_for(
                        pow_prover,
                        nonces.start as int / 16,
                        challenge@,
                        params.pow_difficulty,
                        *miner_id,
                        pows,
                    )
            },
            made matches Err(ProverError::Pow(error)) ==> exists|pows: Seq<u64>|
                {
                    &&& nonces.start as int / 16 + pows.len() < nonces.end as int / 16
                    &&& #[trigger] pays_for(
                        pow_prover,
                        nonces.start as int / 16,
                        challenge@,
                        params.pow_difficulty,
                        *miner_id,
                        pows,
                    )
                    &&& pow::can_give(
                        pow_prover,
                        nonces.start as int / 16 + pows.len(),
                        challenge@,
                        params.pow_difficulty,
                        *miner_id,
                        Err(error),
                    )
                },
    {
        if nonces.start % Self::NONCES_PER_AES != 0 {
            return Err(ProverError::NoncesStart);
        }
        if nonces.start >= nonces.end || (nonces.end - nonces.start) % Self::NONCES_PER_AES != 0 {
            return Err(ProverError::NoncesCount);
        }
        let groups = nonce_group_range(nonces.start..nonces.end, Self::NONCES_PER_AES);
        let front = [
            challenge[0],
            challenge[1],
            challenge[2],
            challenge[3],
            challenge[4],
            challenge[5],
            challenge[6],
            challenge[7],
        ];
        assert(front@ =~= challenge@.take(8));
        let mut source = pow::Recorder::new(pow_prover);
        let pows = match collect_pows(
            &mut source,
            groups,
            &front,
            &params.pow_difficulty,
            miner_id,
        ) {
            Ok(pows) => pows,
            Err(error) => {
                proof {
                    let first = nonces.start as int / 16;
                    let end = nonces.end as int / 16;
                    if let ProverError::NonceGroup(group) = error {
                        let pows = choose|pows: Seq<u64>|
                            pows.len() == group - first && #[trigger] was_granted(
                                source,
                                Seq::empty(),
                                first,
                                front,
                                params.pow_difficulty,
                                *miner_id,
                                pows,
                            );
                        lemma_grants_pay(
                            pow_prover,
                            first,
                            challenge@,
                            front,
                            params.pow_difficulty,
                            *miner_id,
                            pows,
                        );
                    }
                    if error is Pow {
                        let pows = choose|pows: Seq<u64>|
                            is_refused_after(
                                source,
                                Seq::empty(),
                                first,
                                end,
                                front,
                                params.pow_difficulty,
                                *miner_id,
                                error->Pow_0,
                                pows,
                            );
                        lemma_grants_pay(
                            pow_prover,
                            first,
                            challenge@,
                            front,
                            params.pow_difficulty,
                            *miner_id,
                            pows,
                        );
                        assert(pow::can_give(
                            pow_prover,
                            first + pows.len(),
                            challenge@,
                            params.pow_difficulty,
                            *miner_id,
                            Err(error->Pow_0),
                        ));
                    }
                }
                return Err(error);
            },
        };
        let prover = Self::from_pows(
            challenge,
            nonces.start..nonces.end,
            params.difficulty,
            pows.as_slice(),
        );
        assert(prover.is_built_from(challenge@, nonces, params.difficulty, pows@));
        Ok(prover)
    }

    /// Splits a difficulty into its most significant byte and the rest.
    pub fn split_difficulty(difficulty: u64) -> (parts: (u8, u64))
        ensures
            parts.0 == difficulty / 0x100_0000_0000_0000,
            parts.1 == difficulty % 0x100_0000_0000_0000,
            parts.0 * 0x100_0000_0000_0000 + parts.1 == difficulty,
            parts.1 < 0x100_0000_0000_0000,
    {
        assert((difficulty >> 56) == difficulty / 0x100_0000_0000_0000) by (bit_vector);
        assert(difficulty & 0x00ff_ffff_ffff_ffff == difficulty % 0x100_0000_0000_0000)
            by (bit_vector);
        ((difficulty >> 56) as u8, difficulty & 0x00ff_ffff_ffff_ffff)
    }

    /// The cipher of the group that a nonce falls into.
    pub fn cipher(&self, nonce: u32) -> (cipher: Option<&AesCipher>)
        ensures
            cipher == Some(&self.cipher_for(nonce)),
    {
        proof {
            use_type_invariant(self);
        }
        self.ciphers.get(calc_nonce_group(nonce, Self::NONCES_PER_AES) % self.ciphers.len())
    }

    /// The cipher of a nonce.
    pub fn lazy_cipher(&self, nonce: u32) -> (cipher: Option<&AesCipher>)
        ensures
            cipher == Some(&self.lazy_cipher_for(nonce as int)),
    {
        proof {
            use_type_invariant(self);
        }
        self.lazy_ciphers.get(nonce as usize % self.lazy_ciphers.len())
    }

    /// The keys of the nonce groups' ciphers.
    pub fn msb_keys(&self) -> (keys: Vec<[u8; 16]>)
        ensures
            keys@ == self.group_ciphers().map_values(|cipher: AesCipher| cipher.key),
    {
        collect_keys(&self.ciphers)
    }

    /// The keys of the single nonces' ciphers.
    pub fn lsb_keys(&self) -> (keys: Vec<[u8; 16]>)
        ensures
            keys@ == self.nonce_ciphers().map_values(|cipher: AesCipher| cipher.key),
    {
        collect_keys(&self.lazy_ciphers)
    }

    /// The difficulty's most significant byte.
    pub fn difficulty_msb(&self) -> (msb: u8)
        ensures
            msb == self.threshold_msb(),
    {
        self.difficulty_msb
    }

    /// The difficulty's remaining 56 bits.
    pub fn difficulty_lsb(&self) -> (lsb: u64)
        ensures
            lsb == self.threshold_lsb(),
    {
        self.difficulty_lsb
    }

    /// Judges a label by its most significant byte.
    pub fn check_msb(&self, msb: u8) -> (verdict: MsbVerdict)
        ensures
            verdict == (if msb < self.threshold_msb() {
                MsbVerdict::Good
            } else if msb == self.threshold_msb() {
                MsbVerdict::Tie
            } else {
                MsbVerdict::Bad
            }),
    {
        if msb <= self.difficulty_msb {
            if msb == self.difficulty_msb {
                MsbVerdict::Tie
            } else {
                MsbVerdict::Good
            }
        } else {
            MsbVerdict::Bad
        }
    }

    /// Judges a label by the low 56 bits of a word of its encryption.
    pub fn check_lsb_word(&self, word: u64) -> (good: bool)
        ensures
            good == (word % 0x100_0000_0000_0000 < self.threshold_lsb()),
    {
        assert(word & 0x00ff_ffff_ffff_ffff == word % 0x100_0000_0000_0000) by (bit_vector);
        let lsb: u64 = word & 0x00ff_ffff_ffff_ffff;
        lsb < self.difficulty_lsb
    }

    /// LSB part of the difficulty is checked with second sequence of AES ciphers.
    fn check_lsb<S: Sink>(
        &self,
        label: &[u8],
        nonce: u32,
        nonce_offset: usize,
        base_index: u64,
        sink: &mut S,
    ) -> (found: Option<(u32, Vec<u64>)>)
        requires
            label@.len() == 16,
            base_index + nonce_offset / 16 <= u64::MAX,
            old(sink).ready(),
            self.lsb_of(nonce as int, label@) < self.threshold_lsb() ==> S::takes(
                old(sink).kind(),
                (nonce, (base_index + nonce_offset / 16) as u64),
            ),
        ensures
            handed_if(
                self.lsb_of(nonce as int, label@) < self.threshold_lsb(),
                (nonce, (base_index + nonce_offset / 16) as u64),
                *old(sink),
                *final(sink),
                found,
            ),
    {
        let key = self.lazy_cipher(nonce).unwrap().key;
        let out = encrypt_label(&key, label);
        proof {
            lemma_le_value_two_words(out[0], out[1]);
        }
        if self.check_lsb_word(out[0]) {
            let index: u64 = base_index + (nonce_offset / Self::NONCES_PER_AES as usize) as u64;
            if let Some(indexes) = sink.consume(nonce, index) {
                return Some((nonce, indexes));
            }
        }
        None
    }

    /// Judges a label for a nonce by its most significant byte and, on a tie, by the rest, and
    /// hands it over where it is good.
    fn check_label<S: Sink>(
        &self,
        label: &[u8],
        msb: u8,
        nonce: u32,
        offset: usize,
        base_index: u64,
        sink: &mut S,
    ) -> (found: Option<(u32, Vec<u64>)>)
        requires
            label@.len() == 16,
            offset < 128,
            base_index + offset / 16 <= u64::MAX,
            old(sink).ready(),
            self.is_below(msb, nonce as int, label@) ==> S::takes(
                old(sink).kind(),
                (nonce, (base_index + offset / 16) as u64),
            ),
        ensures
            handed_if(
                self.is_below(msb, nonce as int, label@),
                (nonce, (base_index + offset / 16) as u64),
                *old(sink),
                *final(sink),
                found,
            ),
    {
        match self.check_msb(msb) {
            MsbVerdict::Tie => self.check_lsb(label, nonce, offset, base_index, sink),
            MsbVerdict::Good => {
                let index: u64 = base_index + (offset as u32 / Self::NONCES_PER_AES) as u64;
                match sink.consume(nonce, index) {
                    Some(indexes) => Some((nonce, indexes)),
                    None => None,
                }
            },
            MsbVerdict::Bad => None,
        }
    }

    /// Hands the good labels of `batch` to `sink`, each once and one after the other, until it
    /// answers with indexes. Those are returned together with the nonce that they were found for.
    pub fn scan<S: Sink>(&self, batch: &[u8], index: u64, sink: &mut S) -> (found: Option<
        (u32, Vec<u64>),
    >)
        requires
            self.accepts(batch@, index),
            old(sink).ready(),
            self.takes_all(batch@, index, *old(sink)),
        ensures
            final(sink).ready(),
            final(sink).kind() == old(sink).kind(),
            match found {
                None => {
                    &&& final(sink).handed() == old(sink).handed() + self.hits(batch@, index)
                    &&& ignores::<S>(
                        old(sink).kind(),
                        old(sink).handed(),
                        self.hits(batch@, index),
                    )
                },
                Some((nonce, indexes)) => exists|last: int|
                    {
                        &&& self.ends_at(
                            batch@,
                            index,
                            *final(sink),
                            old(sink).handed(),
                            indexes,
                            last,
                        )
                        &&& nonce == #[trigger] self.hits(batch@, index)[last].0
                    },
            },
    {
        proof {
            use_type_invariant(self);
        }
        let ghost m = self.group_ciphers().len() as int;
        let ghost earlier = sink.handed();
        let ghost before = *sink;
        let chunks: usize = batch.len() / CHUNK_SIZE;
        proof {
            reveal(Prover8_56::all_none);
            assert(0 * m * 128 == 0);
            assert(earlier + self.reports(batch@, index, 0) =~= earlier);
        }
        let mut chunk_no: usize = 0;
        let mut base: u64 = index;
        while chunk_no < chunks
            invariant
                m == self.group_ciphers().len(),
                self.scan_goes_on(batch@, index, chunk_no * m * 128, before, *sink),
                earlier == before.handed(),
                before == *old(sink),
                self.takes_all(batch@, index, before),
                self.wf(),
                self.accepts(batch@, index),
                chunks == batch@.len() / 128,
                chunk_no <= chunks,
                base == index + chunk_no * 8,
            decreases chunks - chunk_no,
        {
            assert(chunk_no * CHUNK_SIZE + CHUNK_SIZE <= batch.len());
            let chunk_start: usize = chunk_no * CHUNK_SIZE;
            let chunk = slice_subrange(batch, chunk_start, chunk_start + CHUNK_SIZE);
            let mut cipher_no: usize = 0;
            while cipher_no < self.ciphers.len()
                invariant
                    m == self.group_ciphers().len(),
                    self.scan_goes_on(
                        batch@,
                        index,
                        (chunk_no * m + cipher_no) * 128,
                        before,
                        *sink,
                    ),
                    earlier == before.handed(),
                    before == *old(sink),
                    self.takes_all(batch@, index, before),
                    self.wf(),
                    self.accepts(batch@, index),
                    chunks == batch@.len() / 128,
                    chunk_no < chunks,
                    base == index + chunk_no * 8,
                    chunk@ == batch@.subrange(chunk_no * 128, chunk_no * 128 + 128),
                    cipher_no <= m,
                decreases m - cipher_no,
            {
                let cipher = self.ciphers[cipher_no];
                let u8s = encrypt_chunk(&cipher.key, chunk);
                let mut offset: usize = 0;
                while offset < CHUNK_SIZE
                    invariant
                        m == self.group_ciphers().len(),
                        self.scan_goes_on(
                            batch@,
                            index,
                            (chunk_no * m + cipher_no) * 128 + offset,
                            before,
                            *sink,
                        ),
                        earlier == before.handed(),
                        before == *old(sink),
                        self.takes_all(batch@, index, before),
                        self.wf(),
                        self.accepts(batch@, index),
                        chunks == batch@.len() / 128,
                        chunk_no < chunks,
                        base == index + chunk_no * 8,
                        chunk@ == batch@.subrange(chunk_no * 128, chunk_no * 128 + 128),
                        0 <= cipher_no < m,
                        cipher == self.group_ciphers()[cipher_no as int],
                        forall|b: int|
                            0 <= b < 8 ==> #[trigger] u8s@.subrange(16 * b, 16 * b + 16)
                                == aes128_block(
                                cipher.key@,
                                chunk@.subrange(16 * b, 16 * b + 16),
                            ),
                        offset <= 128,
                    decreases 128 - offset,
                {
                    let ghost step = (chunk_no * m + cipher_no) * 128 + offset;
                    proof {
                        self.lemma_step(chunk_no as int, cipher_no as int, offset as int);
                        self.lemma_msb(
                            batch@,
                            chunk_no as int,
                            cipher_no as int,
                            offset as int,
                            chunk@,
                            u8s@,
                        );
                        self.lemma_step_in_scan(
                            batch@,
                            chunk_no as int,
                            cipher_no as int,
                            offset as int,
                        );
                        self.lemma_step_report(batch@, index, step);
                        assert((offset as u32) == offset);
                    }
                    let nonce = calc_nonce(cipher.nonce_group, Self::NONCES_PER_AES, offset);
                    let label_offset: usize = offset / Self::NONCES_PER_AES as usize * LABEL_SIZE;
                    let label = slice_subrange(chunk, label_offset, label_offset + LABEL_SIZE);
                    assert(label@ =~= label_at(batch@, chunk_no * 8 + offset as int / 16));
                    if let Some(p) = self.check_label(
                        label,
                        u8s[offset],
                        nonce,
                        offset,
                        base,
                        sink,
                    ) {
                        proof {
                            let last = self.lemma_some_ends(
                                batch@,
                                index,
                                step,
                                *sink,
                                earlier,
                                p.1,
                            );
                        }
                        return Some(p);
                    }
                    proof {
                        self.lemma_none_extends::<S>(batch@, index, step, sink.kind(), earlier);
                        assert(sink.handed() =~= earlier + self.reports(batch@, index, step + 1));
                    }
                    offset += 1;
                }
                cipher_no += 1;
                assert((chunk_no * m + cipher_no) * 128 == (chunk_no * m + (cipher_no - 1)) * 128
                    + 128);
            }
            chunk_no += 1;
            base += AES_BATCH as u64;
            assert(((chunk_no - 1) * m + m) * 128 == chunk_no * m * 128) by (nonlinear_arith);
        }
        reveal(Prover8_56::all_none);
        None
    }

    /// Lists the good labels of the batch that starts at byte `pos` of the stored labels.
    pub fn good_labels(&self, batch: &[u8], pos: u64) -> (found: Vec<(u32, u64)>)
        ensures
            found@ == self.hits(batch@, pos / 16),
    {
        assert(batch@.len() == batch.len());
        let mut found: Vec<(u32, u64)> = Vec::new();
        let _ = self.scan(batch, pos / BLOCK_SIZE as u64, &mut found);
        assert(found@ =~= self.hits(batch@, pos / 16));
        found
    }
}

/// What became of a label for a nonce: where it is good, the sink was handed it as `hit`, and
/// `found` passes on what the sink answered. Where it is not, nothing happened.
pub open spec fn handed_if<S: Sink>(
    good: bool,
    hit: (u32, u64),
    before: S,
    after: S,
    found: Option<(u32, Vec<u64>)>,
) -> bool {
    &&& after.ready()
    &&& after.handed() == if good {
        before.handed().push(hit)
    } else {
        before.handed()
    }
    &&& after.kind() == before.kind()
    &&& match found {
        None => good ==> S::answers(before.kind(), before.handed(), hit, None),
        Some((nonce, indexes)) => {
            &&& good
            &&& nonce == hit.0
            &&& S::answers(before.kind(), before.handed(), hit, Some(indexes))
        },
    }
}

/// The keys of `ciphers`.
fn collect_keys(ciphers: &Vec<AesCipher>) -> (keys: Vec<[u8; 16]>)
    ensures
        keys@ == ciphers@.map_values(|cipher: AesCipher| cipher.key),
{
    let mut keys: Vec<[u8; 16]> = Vec::new();
    while keys.len() < ciphers.len()
        invariant
            keys.len() <= ciphers.len(),
            forall|i: int| 0 <= i < keys.len() ==> #[trigger] keys[i] == ciphers[i].key,
        decreases ciphers.len() - keys.len(),
    {
        let i: usize = keys.len();
        keys.push(ciphers[i].key);
    }
    assert(keys@ =~= ciphers@.map_values(|cipher: AesCipher| cipher.key));
    keys
}

impl Prover for Prover8_56 {
    open spec fn accepts(&self, batch: Seq<u8>, index: u64) -> bool {
        index + batch.len() / 128 * 8 <= u64::MAX
    }

    open spec fn hits(&self, batch: Seq<u8>, index: u64) -> Seq<(u32, u64)> {
        self.reports(batch, index, self.scan_len(batch))
    }

    open spec fn pow_for(&self, nonce: u32) -> Option<u64> {
        Some(self.cipher_for(nonce).pow)
    }

    fn get_pow(&self, nonce: u32) -> (pow: Option<u64>) {
        match self.cipher(nonce) {
            Some(aes) => Some(aes.pow),
            None => None,
        }
    }

    fn prove<F>(&self, batch: &[u8], index: u64, consume: F) -> (found: Option<(u32, Vec<u64>)>)
    where
        F: FnMut(u32, u64) -> Option<Vec<u64>>,
    {
        let mut sink = FnSink::new(consume);
        let found = self.scan(batch, index, &mut sink);
        proof {
            if found is Some {
                let (nonce, indexes) = found->0;
                let hits = self.hits(batch@, index);
                let last = choose|last: int|
                    {
                        &&& self.ends_at(batch@, index, sink, Seq::empty(), indexes, last)
                        &&& nonce == #[trigger] hits[last].0
                    };
                assert forall|k: int| 0 <= k < last implies call_ensures(
                    consume,
                    #[trigger] hits[k],
                    None,
                ) by {
                    assert(hits.take(last)[k] == hits[k]);
                }
            }
        }
        found
    }
}

} // verus!
