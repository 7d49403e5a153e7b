//! Generating a proof that stored labels are still held, given a challenge.
//!
//! The nonces are tried in windows of equal size. A pass over the stored labels finds those that
//! are good for the nonces of a window. The passes go on until some nonce has enough good labels.

use std::borrow::Cow;
use std::ops::Range;
use vstd::arithmetic::div_mod::{
    lemma_fundamental_div_mod, lemma_mod_add_multiples_vanish, lemma_small_mod,
};
use vstd::arithmetic::power2::pow2;
use vstd::prelude::*;

use crate::batches::{are_pieces_of, gathered, pieces_give_good_labels_once};
use crate::bytes::le_value;
use crate::cipher::AesCipher;
use crate::compression::{
    bit_length, bit_length_is_least, compress_indices, is_packed, is_unpacked,
    lemma_bit_length_bound, lemma_pow2_ordered, packed_bits_are_the_indexes, required_bits,
    unpacking_undoes_packing,
};
use crate::hit_log::{
    first_full, first_full_is_just_full, indexes_for, is_difference, log_keeps_every_hit, HitLog,
    Mismatch,
};
use crate::metadata::PostMetadata;
use crate::scan::{
    aligned_nonces_are_served_by_their_own, hits_are_the_good_labels, hits_have_no_duplicates,
    is_good_label,
};

pub use crate::params::ProvingParams;
pub use crate::prover::{Prover, Prover8_56};

verus! {

/// A proof that labels are held: the indexes of labels that are good for a nonce.
#[derive(Debug, PartialEq, Eq)]
pub struct Proof<'a> {
    pub nonce: u32,
    /// The indexes, packed.
    pub indices: Cow<'a, [u8]>,
    pub pow: u64,
}

impl<'a> Proof<'a> {
    /// The bytes of the packed indexes.
    pub open spec fn packed(self) -> Seq<u8> {
        match self.indices {
            Cow::Borrowed(bytes) => bytes@,
            Cow::Owned(bytes) => bytes@,
        }
    }

    /// Whether this is the proof by `indices` out of `num_labels` labels.
    pub open spec fn is_for(
        self,
        nonce: u32,
        indices: Seq<u64>,
        num_labels: u64,
        pow: u64,
    ) -> bool {
        &&& self.nonce == nonce
        &&& self.pow == pow
        &&& is_packed(indices, bit_length(num_labels as nat), self.packed())
    }
}

impl<'a> Clone for Proof<'a> {
    fn clone(&self) -> (copy: Self)
        ensures
            copy.nonce == self.nonce,
            copy.pow == self.pow,
            copy.packed() == self.packed(),
            self.indices matches Cow::Borrowed(bytes) ==> copy.indices == Cow::<'a, [u8]>::Borrowed(
                bytes,
            ),
            self.indices matches Cow::Owned(bytes) ==> (copy.indices matches Cow::Owned(bytes_copy)
                && bytes_copy@ == bytes@),
    {
        let indices = match &self.indices {
            Cow::Borrowed(bytes) => Cow::Borrowed(*bytes),
            Cow::Owned(bytes) => {
                let bytes_copy = bytes.clone();
                assert(bytes_copy@ =~= bytes@);
                Cow::Owned(bytes_copy)
            },
        };
        Proof { nonce: self.nonce, indices, pow: self.pow }
    }
}

impl Proof<'static> {
    /// A proof by `indices` out of `num_labels` labels.
    pub fn new(nonce: u32, indices: &[u64], num_labels: u64, pow: u64) -> (proof: Self)
        ensures
            proof.is_for(nonce, indices@, num_labels, pow),
            proof.nonce == nonce,
            proof.pow == pow,
            proof.indices is Owned,
    {
        let bytes = compress_indices(indices, required_bits(num_labels));
        Proof { nonce, indices: Cow::Owned(bytes), pow }
    }
}

/// A proof gives back the indexes that it was made with, where those are indexes of labels.
pub proof fn proof_keeps_its_indices(
    proof_made: Proof<'static>,
    nonce: u32,
    indices: Seq<u64>,
    num_labels: u64,
    pow: u64,
    unpacked: Seq<u64>,
)
    requires
        num_labels > 0,
        forall|k: int| 0 <= k < indices.len() ==> #[trigger] indices[k] < num_labels,
        proof_made.is_for(nonce, indices, num_labels, pow),
        is_unpacked(proof_made.packed(), bit_length(num_labels as nat), unpacked),
    ensures
        unpacked.len() >= indices.len(),
        unpacked.take(indices.len() as int) == indices,
{
    let bits = bit_length(num_labels as nat);
    bit_length_is_least(num_labels as nat);
    assert forall|k: int| 0 <= k < indices.len() implies #[trigger] indices[k] < pow2(bits) by {}
    unpacking_undoes_packing(indices, bits, proof_made.packed(), unpacked);
}

/// A proof carries its nonce and its proof of work as they were given. With as many bits as the
/// number of labels has, and no more, index `k` takes the bits from `k * bits` on.
pub proof fn proof_holds_what_it_was_made_with(
    proof_made: Proof<'static>,
    nonce: u32,
    indices: Seq<u64>,
    num_labels: u64,
    pow: u64,
    bytes: Vec<u8>,
    bits: nat,
    k: nat,
)
    requires
        proof_made.is_for(nonce, indices, num_labels, pow),
        proof_made.indices == Cow::<'static, [u8]>::Owned(bytes),
        num_labels < pow2(bits),
        num_labels == 0 ==> bits == 0,
        num_labels > 0 ==> bits > 0 && num_labels >= pow2((bits - 1) as nat),
    ensures
        proof_made.nonce == nonce,
        proof_made.pow == pow,
        8 * bytes@.len() - 8 < indices.len() * bits <= 8 * bytes@.len(),
        le_value(bytes@) < pow2(indices.len() * bits),
        k < indices.len() ==> le_value(bytes@) / pow2(k * bits) % pow2(bits)
            == indices[k as int] as nat % pow2(bits),
{
    let length = bit_length(num_labels as nat);
    lemma_bit_length_bound(num_labels as nat, bits);
    bit_length_is_least(num_labels as nat);
    if length < bits {
        lemma_pow2_ordered(length, (bits - 1) as nat);
    }
    packed_bits_are_the_indexes(indices, bits, bytes@, k);
}

/// The size of all labels together, in bytes. There is none where it is too large for the machine.
pub fn label_bytes(metadata: &PostMetadata) -> (size: Option<usize>)
    ensures
        match size {
            Some(bytes) => bytes == metadata.label_count() * 16,
            None => metadata.label_count() * 16 > usize::MAX,
        },
        size is Some <==> metadata.num_units * metadata.labels_per_unit * 16 <= usize::MAX,
        size matches Some(bytes) ==> bytes == metadata.num_units * metadata.labels_per_unit * 16,
{
    assert(metadata.num_units * metadata.labels_per_unit <= u32::MAX * u64::MAX)
        by (nonlinear_arith)
        requires
            0 <= metadata.num_units <= u32::MAX,
            0 <= metadata.labels_per_unit <= u64::MAX,
    ;
    let wide: u128 = metadata.num_units as u128 * metadata.labels_per_unit as u128;
    if wide <= usize::MAX as u128 / 16 {
        Some(wide as usize * 16)
    } else {
        None
    }
}

/// Room for all labels, filled with zeros. There is none where they are too many for the machine.
pub fn blank_labels(metadata: &PostMetadata) -> (labels: Option<Vec<u8>>)
    ensures
        match labels {
            Some(bytes) => bytes@ == Seq::new(metadata.label_count() * 16, |i: int| 0u8),
            None => metadata.label_count() * 16 > usize::MAX,
        },
        labels is Some <==> metadata.num_units * metadata.labels_per_unit * 16 <= usize::MAX,
        labels matches Some(bytes) ==> bytes@.len() == metadata.num_units
            * metadata.labels_per_unit * 16 && forall|i: int|
            0 <= i < bytes@.len() ==> #[trigger] bytes@[i] == 0,
{
    match label_bytes(metadata) {
        Some(size) => {
            let labels = vec![0u8; size];
            assert(labels@ =~= Seq::new(metadata.label_count() * 16, |i: int| 0u8));
            Some(labels)
        },
        None => None,
    }
}

/// A pass over all labels, as another device is asked for it.
pub struct GpuTask {
    pub msb_keys: Vec<[u8; 16]>,
    pub lsb_keys: Vec<[u8; 16]>,
    pub labels: Vec<u8>,
    /// The index of the first label.
    pub first_index: u64,
    pub start_nonce: u32,
    pub difficulty_msb: u8,
    pub difficulty_lsb: u64,
    pub max_results: u32,
}

impl GpuTask {
    /// The pass that `prover` makes over `labels`. Room is asked for four times as many good labels
    /// as a proof takes, for each nonce.
    pub fn new(
        prover: &Prover8_56,
        labels: Vec<u8>,
        start_nonce: u32,
        nonces: u32,
        k2: u32,
    ) -> (task: Self)
        requires
            k2 * 4 <= u32::MAX,
            k2 * 4 * nonces <= u32::MAX,
        ensures
            task.msb_keys@ == prover.group_ciphers().map_values(
                |cipher: AesCipher| cipher.key,
            ),
            task.lsb_keys@ == prover.nonce_ciphers().map_values(
                |cipher: AesCipher| cipher.key,
            ),
            task.labels@ == labels@,
            task.first_index == 0,
            task.start_nonce == start_nonce,
            task.difficulty_msb == prover.threshold_msb(),
            task.difficulty_lsb == prover.threshold_lsb(),
            task.max_results == k2 * 4 * nonces,
    {
        let max_results: u32 = k2 * 4 * nonces;
        GpuTask {
            msb_keys: prover.msb_keys(),
            lsb_keys: prover.lsb_keys(),
            labels,
            first_index: 0,
            start_nonce,
            difficulty_msb: prover.difficulty_msb(),
            difficulty_lsb: prover.difficulty_lsb(),
            max_results,
        }
    }
}

/// Which nonces the next pass tries.
pub struct Generation {
    nonces: u32,
    start_nonce: u32,
    end_nonce: u32,
}

/// Proof generation was stopped.
#[derive(Debug, Clone, Copy, PartialEq, Eq)]
pub struct Stopped;

/// What comes after a pass.
pub enum PassEnd {
    /// Some nonce had enough good labels.
    Done(Proof<'static>),
    /// None had. There is another pass to make.
    Again(Generation),
}

impl Generation {
    /// How many nonces a pass tries.
    pub closed spec fn window_size(self) -> u32 {
        self.nonces
    }

    /// The nonces that the next pass tries.
    pub closed spec fn window(self) -> Range<u32> {
        Range { start: self.start_nonce, end: self.end_nonce }
    }

    /// A whole number of windows has gone before the next one.
    #[verifier::type_invariant]
    pub open spec fn wf(self) -> bool {
        &&& self.window().end == self.window().start + self.window_size()
        &&& self.window_size() > 0 ==> self.window().start as int % self.window_size() as int == 0
    }

    /// Starts with the first `nonces` nonces.
    pub fn new(nonces: usize) -> (generation: Self)
        ensures
            generation.window_size() == nonces as u32,
            generation.window() == (Range { start: 0u32, end: nonces as u32 }),
    {
        let nonces: u32 = #[verifier::truncate] (nonces as u32);
        proof {
            if nonces > 0 {
                lemma_small_mod(0, nonces as nat);
            }
        }
        Generation { nonces, start_nonce: 0, end_nonce: nonces }
    }

    /// What the next pass tries, unless the generation is to stop.
    pub fn next_pass(&self, stop: bool) -> (nonces: Result<Range<u32>, Stopped>)
        ensures
            nonces == (if stop {
                Err::<Range<u32>, Stopped>(Stopped)
            } else {
                Ok(self.window())
            }),
    {
        if stop {
            Err(Stopped)
        } else {
            Ok(self.start_nonce..self.end_nonce)
        }
    }

    /// Judges a pass by what it logged and by what the other device reported of it. The two have to
    /// agree. The first nonce with enough good labels makes the proof.
    pub fn finish_pass(
        self,
        prover: &Prover8_56,
        log: HitLog,
        reported: &[(u32, u64)],
        num_labels: u64,
    ) -> (end: Result<PassEnd, Mismatch>)
        requires
            log.wf(),
            first_full(log.history(), log.quota()) is Some || self.window().end + self.window_size()
                <= u32::MAX,
        ensures
            end is Ok <==> log.history().to_multiset() == reported@.to_multiset(),
            end matches Ok(PassEnd::Done(made)) ==> {
                &&& first_full(log.history(), log.quota()) matches Some((nonce, indexes))
                &&& made.is_for(nonce, indexes, num_labels, prover.pow_for(nonce)->0)
            },
            end matches Ok(PassEnd::Again(next)) ==> {
                &&& first_full(log.history(), log.quota()) is None
                &&& next.window_size() == self.window_size()
                &&& next.window().start == self.window().end
                &&& next.window().end == self.window().end + self.window_size()
            },
            end matches Err(mismatch) ==> is_difference(log.history(), reported@, mismatch),
            end matches Ok(PassEnd::Done(made)) ==> {
                &&& Some(made.pow) == prover.pow_for(made.nonce)
                &&& made.nonce == (first_full(log.history(), log.quota())->0).0
            },
    {
        proof {
            use_type_invariant(&self);
        }
        let found = log.found();
        match log.compare(reported) {
            Ok(()) => {},
            Err(mismatch) => {
                return Err(mismatch);
            },
        }
        match found {
            Some((nonce, indexes)) => {
                let pow: u64 = prover.get_pow(nonce).unwrap();
                Ok(PassEnd::Done(Proof::new(nonce, indexes.as_slice(), num_labels, pow)))
            },
            None => {
                proof {
                    if self.nonces > 0 {
                        lemma_mod_add_multiples_vanish(
                            self.start_nonce as int,
                            self.nonces as int,
                        );
                    }
                }
                Ok(
                    PassEnd::Again(
                        Generation {
                            nonces: self.nonces,
                            start_nonce: self.end_nonce,
                            end_nonce: self.end_nonce + self.nonces,
                        },
                    ),
                )
            },
        }
    }
}

/// Every pass tries a window that starts at a multiple of its own length, so that the prover for it
/// serves each nonce with the proof of work of the nonce's own group and with the nonce's own
/// cipher.
pub proof fn passes_serve_nonces_by_their_own(
    generation: Generation,
    prover: Prover8_56,
    challenge: Seq<u8>,
    difficulty: u64,
    pows: Seq<u64>,
    nonce: u32,
)
    requires
        generation.wf(),
        generation.window_size() > 0,
        generation.window_size() % 16 == 0,
        prover.is_built_from(challenge, generation.window(), difficulty, pows),
        pows.len() == generation.window_size() / 16,
        generation.window().start <= nonce < generation.window().end,
    ensures
        prover.pow_for(nonce) == Some(pows[(nonce - generation.window().start) / 16]),
        prover.cipher_for(nonce).is_for_group(
            challenge,
            (nonce / 16) as u32,
            pows[(nonce - generation.window().start) / 16],
        ),
        prover.lazy_cipher_for(nonce as int).is_for_nonce(
            challenge,
            nonce,
            (nonce / 16) as u32,
            pows[(nonce - generation.window().start) / 16],
        ),
{
    let size = generation.window_size() as int;
    let start = generation.window().start as int;
    let passes = start / size;
    let groups = size / 16;
    lemma_fundamental_div_mod(start, size);
    assert(size * passes == 16 * (passes * groups)) by (nonlinear_arith)
        requires
            size == 16 * groups,
    ;
    aligned_nonces_are_served_by_their_own(
        prover,
        challenge,
        generation.window(),
        difficulty,
        pows,
        nonce,
    );
}

/// Whether `unpacked` starts with the indexes of as many labels as were asked for, all of them
/// different, and all of them good for `nonce`. At least one is asked for.
pub open spec fn names_good_labels(
    prover: Prover8_56,
    labels: Seq<u8>,
    k2: nat,
    nonce: u32,
    unpacked: Seq<u64>,
) -> bool {
    let count: int = if k2 == 0 {
        1
    } else {
        k2 as int
    };
    &&& unpacked.len() >= count
    &&& unpacked.take(count).no_duplicates()
    &&& forall|i: int|
        0 <= i < count ==> is_good_label(prover, labels, nonce, #[trigger] unpacked[i])
}

/// A log that holds good labels, and each once, makes a proof that names good labels.
proof fn lemma_proof_of_log(
    prover: Prover8_56,
    labels: Seq<u8>,
    num_labels: u64,
    log: Seq<(u32, u64)>,
    k2: nat,
    proof_made: Proof<'static>,
    pow: u64,
    unpacked: Seq<u64>,
)
    requires
        num_labels > 0,
        labels.len() == 16 * num_labels,
        log.no_duplicates(),
        forall|k: int|
            0 <= k < log.len() ==> is_good_label(
                prover,
                labels,
                (#[trigger] log[k]).0,
                log[k].1,
            ),
        first_full(log, k2) matches Some((nonce, indexes)) && proof_made.is_for(
            nonce,
            indexes,
            num_labels,
            pow,
        ),
        is_unpacked(proof_made.packed(), bit_length(num_labels as nat), unpacked),
    ensures
        names_good_labels(prover, labels, k2, proof_made.nonce, unpacked),
{
    broadcast use vstd::multiset::group_multiset_axioms;

    let (nonce, indexes) = first_full(log, k2)->0;
    let all = indexes_for(log, nonce);
    first_full_is_just_full(log, k2);
    log.lemma_multiset_has_no_duplicates();
    log.to_multiset_ensures();
    all.to_multiset_ensures();
    assert forall|index: u64| #[trigger]
        all.to_multiset().contains(index) implies all.to_multiset().count(index) == 1 by {
        log_keeps_every_hit(log, nonce, index);
        assert(log.to_multiset().contains((nonce, index)));
    }
    all.lemma_multiset_has_no_duplicates_conv();
    assert forall|i: int| 0 <= i < indexes.len() implies is_good_label(
        prover,
        labels,
        nonce,
        #[trigger] indexes[i],
    ) by {
        assert(all.subrange(0, indexes.len() as int)[i] == all[i]);
        assert(all.contains(indexes[i]));
        log_keeps_every_hit(log, nonce, indexes[i]);
        assert(log.to_multiset().count((nonce, indexes[i])) > 0);
        assert(log.contains((nonce, indexes[i])));
    }
    assert forall|i: int| 0 <= i < indexes.len() implies #[trigger] indexes[i] < num_labels by {}
    proof_keeps_its_indices(proof_made, nonce, indexes, num_labels, pow, unpacked);
    let count = indexes.len() as int;
    assert forall|i: int| 0 <= i < count implies is_good_label(
        prover,
        labels,
        proof_made.nonce,
        #[trigger] unpacked[i],
    ) by {
        assert(unpacked.take(count)[i] == unpacked[i]);
        assert(unpacked[i] == indexes[i]);
    }
    assert forall|i: int, j: int|
        0 <= i < count && 0 <= j < count && i != j implies unpacked.take(count)[i]
        != unpacked.take(count)[j] by {
        assert(all.subrange(0, count)[i] == all[i]);
        assert(all.subrange(0, count)[j] == all[j]);
    }
}

/// A proof that comes out of a pass over all labels gives back, when it is unpacked, the indexes of
/// as many labels as were asked for. They are different from each other, and all of them are good
/// for the proof's nonce. The order in which the pass logged its findings does not matter.
pub proof fn finished_proof_names_good_labels(
    prover: Prover8_56,
    labels: Seq<u8>,
    num_labels: u64,
    log: Seq<(u32, u64)>,
    k2: nat,
    proof_made: Proof<'static>,
    pow: u64,
    unpacked: Seq<u64>,
)
    requires
        prover.wf(),
        num_labels > 0,
        labels.len() == 16 * num_labels,
        log.to_multiset() == prover.hits(labels, 0).to_multiset(),
        first_full(log, k2) matches Some((nonce, indexes)) && proof_made.is_for(
            nonce,
            indexes,
            num_labels,
            pow,
        ),
        is_unpacked(proof_made.packed(), bit_length(num_labels as nat), unpacked),
    ensures
        names_good_labels(prover, labels, k2, proof_made.nonce, unpacked),
{
    broadcast use vstd::multiset::group_multiset_axioms;

    let hits = prover.hits(labels, 0);
    hits_have_no_duplicates(prover, labels, 0);
    hits.lemma_multiset_has_no_duplicates();
    hits.to_multiset_ensures();
    log.to_multiset_ensures();
    log.lemma_multiset_has_no_duplicates_conv();
    assert forall|k: int| 0 <= k < log.len() implies is_good_label(
        prover,
        labels,
        (#[trigger] log[k]).0,
        log[k].1,
    ) by {
        assert(log.contains((log[k].0, log[k].1)));
        assert(hits.to_multiset().count((log[k].0, log[k].1)) > 0);
        hits_are_the_good_labels(prover, labels, 0, log[k].0, log[k].1);
        assert(log[k].1 - 0 == log[k].1 as int);
    }
    lemma_proof_of_log(prover, labels, num_labels, log, k2, proof_made, pow, unpacked);
}

/// The same of a pass that reads the labels in any number of pieces and logs the good labels of
/// each as soon as it has been scanned, whatever the order. The pieces need not fill the space.
pub proof fn proof_of_batches_names_good_labels(
    prover: Prover8_56,
    labels: Seq<u8>,
    read: Seq<(u64, Seq<u8>)>,
    num_labels: u64,
    k2: nat,
    proof_made: Proof<'static>,
    pow: u64,
    unpacked: Seq<u64>,
)
    requires
        prover.wf(),
        num_labels > 0,
        labels.len() == 16 * num_labels,
        are_pieces_of(read, labels),
        first_full(gathered(prover, read), k2) matches Some((nonce, indexes)) && proof_made.is_for(
            nonce,
            indexes,
            num_labels,
            pow,
        ),
        is_unpacked(proof_made.packed(), bit_length(num_labels as nat), unpacked),
    ensures
        names_good_labels(prover, labels, k2, proof_made.nonce, unpacked),
{
    pieces_give_good_labels_once(prover, labels, read);
    lemma_proof_of_log(
        prover,
        labels,
        num_labels,
        gathered(prover, read),
        k2,
        proof_made,
        pow,
        unpacked,
    );
}

} // verus!
