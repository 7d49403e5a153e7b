//! What a scan of a batch finds, as a whole.

use std::ops::Range;
use vstd::arithmetic::div_mod::{lemma_fundamental_div_mod, lemma_fundamental_div_mod_converse};
use vstd::prelude::*;
use vstd::seq_lib::lemma_multiset_commutative;

use crate::prover::{label_at, whole_groups, Prover, Prover8_56};

verus! {

/// Whether the label at `position` of a batch is looked at: those beyond the last eight that go
/// together are not.
pub open spec fn is_scanned(batch: Seq<u8>, position: int) -> bool {
    0 <= position < batch.len() as int / 128 * 8
}

/// Whether the label at `index` of `labels` is good for `nonce`, one of the prover's nonces.
pub open spec fn is_good_label(
    prover: Prover8_56,
    labels: Seq<u8>,
    nonce: u32,
    index: u64,
) -> bool {
    &&& 16 * index + 16 <= labels.len()
    &&& exists|cipher: int, slot: int|
        {
            &&& 0 <= cipher < prover.group_ciphers().len()
            &&& 0 <= slot < 16
            &&& nonce == prover.nonce_at(cipher, slot)
            &&& #[trigger] prover.is_good(cipher, slot, label_at(labels, index as int))
        }
}

/// A label is good for a nonce exactly when its most significant byte and its remaining 56 bits,
/// put together, are a number below the difficulty.
pub proof fn good_means_below_difficulty(
    prover: Prover8_56,
    challenge: Seq<u8>,
    nonces: Range<u32>,
    difficulty: u64,
    pows: Seq<u64>,
    cipher: int,
    slot: int,
    label: Seq<u8>,
)
    requires
        prover.is_built_from(challenge, nonces, difficulty, pows),
    ensures
        prover.is_good(cipher, slot, label) <==> prover.msb_of(cipher, slot, label)
            * 0x100_0000_0000_0000 + prover.lsb_of(prover.nonce_at(cipher, slot), label)
            < difficulty,
{
}

/// The steps of a scan whose reports are given are found again, in order.
pub proof fn lemma_report_has_step(
    prover: Prover8_56,
    batch: Seq<u8>,
    index: u64,
    steps: int,
    k: int,
) -> (step: int)
    requires
        0 <= k < prover.reports(batch, index, steps).len(),
    ensures
        0 <= step < steps,
        prover.step_hits(batch, step),
        prover.reports(batch, index, steps)[k] == prover.step_report(index, step),
        prover.reports(batch, index, step).len() == k,
    decreases steps,
{
    if k < prover.reports(batch, index, steps - 1).len() {
        lemma_report_has_step(prover, batch, index, steps - 1, k)
    } else {
        steps - 1
    }
}

/// A step that hits is reported.
proof fn lemma_step_is_reported(
    prover: Prover8_56,
    batch: Seq<u8>,
    index: u64,
    steps: int,
    step: int,
)
    requires
        0 <= step < steps,
        prover.step_hits(batch, step),
    ensures
        prover.reports(batch, index, steps).contains(prover.step_report(index, step)),
    decreases steps,
{
    if step == steps - 1 {
        let before = prover.reports(batch, index, step);
        assert(prover.reports(batch, index, steps)[before.len() as int] == prover.step_report(
            index,
            step,
        ));
    } else {
        lemma_step_is_reported(prover, batch, index, steps - 1, step);
        let before = prover.reports(batch, index, steps - 1);
        let k = choose|k: int|
            0 <= k < before.len() && before[k] == prover.step_report(index, step);
        assert(prover.reports(batch, index, steps)[k] == before[k]);
    }
}

/// Where a step of a scan stands.
pub proof fn lemma_step_parts(prover: Prover8_56, batch: Seq<u8>, step: int)
    requires
        prover.wf(),
        0 <= step < prover.scan_len(batch),
    ensures
        0 <= prover.step_cipher(step) < prover.group_ciphers().len(),
        0 <= prover.step_slot(step) < 16,
        is_scanned(batch, prover.step_label(step)),
        step == (prover.step_label(step) / 8 * prover.group_ciphers().len() as int
            + prover.step_cipher(step)) * 128 + prover.step_label(step) % 8 * 16
            + prover.step_slot(step),
{
    let m = prover.group_ciphers().len() as int;
    let block = step / 128;
    let chunks = batch.len() as int / 128;
    lemma_fundamental_div_mod(block, m);
    let chunk = block / m;
    assert(block < chunks * m);
    assert(0 <= chunk < chunks) by (nonlinear_arith)
        requires
            0 <= block < chunks * m,
            m > 0,
            chunk == block / m,
    ;
    assert(chunk * m == m * chunk) by (nonlinear_arith);
    let inner = step % 128 / 16;
    assert(prover.step_label(step) == chunk * 8 + inner);
    assert((chunk * 8 + inner) / 8 == chunk);
    assert((chunk * 8 + inner) % 8 == inner);
}

/// Within a window every nonce belongs to one group and one slot of it.
proof fn lemma_nonce_at_injective(
    prover: Prover8_56,
    cipher_a: int,
    slot_a: int,
    cipher_b: int,
    slot_b: int,
)
    requires
        prover.wf(),
        0 <= cipher_a < prover.group_ciphers().len(),
        0 <= cipher_b < prover.group_ciphers().len(),
        0 <= slot_a < 16,
        0 <= slot_b < 16,
        prover.nonce_at(cipher_a, slot_a) == prover.nonce_at(cipher_b, slot_b),
    ensures
        cipher_a == cipher_b,
        slot_a == slot_b,
{
    assert(prover.group_ciphers()[cipher_a].nonce_group == prover.group_ciphers()[0].nonce_group
        + cipher_a);
    assert(prover.group_ciphers()[cipher_b].nonce_group == prover.group_ciphers()[0].nonce_group
        + cipher_b);
}

/// A scan finds a label for a nonce exactly when the label is looked at, the nonce is one of the
/// prover's, and the label is good for it.
pub proof fn hits_are_the_good_labels(
    prover: Prover8_56,
    batch: Seq<u8>,
    index: u64,
    nonce: u32,
    label_index: u64,
)
    requires
        prover.wf(),
        prover.accepts(batch, index),
    ensures
        prover.hits(batch, index).contains((nonce, label_index)) <==> exists|
            cipher: int,
            slot: int,
        |
            {
                &&& 0 <= cipher < prover.group_ciphers().len()
                &&& 0 <= slot < 16
                &&& nonce == prover.nonce_at(cipher, slot)
                &&& is_scanned(batch, label_index - index)
                &&& #[trigger] prover.is_good(cipher, slot, label_at(batch, label_index - index))
            },
{
    let m = prover.group_ciphers().len() as int;
    let hits = prover.hits(batch, index);
    let total = prover.scan_len(batch);
    if hits.contains((nonce, label_index)) {
        let k = choose|k: int| 0 <= k < hits.len() && hits[k] == (nonce, label_index);
        let step = lemma_report_has_step(prover, batch, index, total, k);
        lemma_step_parts(prover, batch, step);
        let cipher = prover.step_cipher(step);
        let slot = prover.step_slot(step);
        assert(prover.group_ciphers()[cipher].nonce_group <= 255);
        assert(prover.is_good(cipher, slot, label_at(batch, label_index - index)));
    }
    if exists|cipher: int, slot: int|
        {
            &&& 0 <= cipher < prover.group_ciphers().len()
            &&& 0 <= slot < 16
            &&& nonce == prover.nonce_at(cipher, slot)
            &&& is_scanned(batch, label_index - index)
            &&& #[trigger] prover.is_good(cipher, slot, label_at(batch, label_index - index))
        } {
        let (cipher, slot) = choose|cipher: int, slot: int|
            {
                &&& 0 <= cipher < prover.group_ciphers().len()
                &&& 0 <= slot < 16
                &&& nonce == prover.nonce_at(cipher, slot)
                &&& is_scanned(batch, label_index - index)
                &&& #[trigger] prover.is_good(cipher, slot, label_at(batch, label_index - index))
            };
        let position = label_index - index;
        let chunk = position / 8;
        let offset = position % 8 * 16 + slot;
        let step = (chunk * m + cipher) * 128 + offset;
        prover.lemma_step(chunk, cipher, offset);
        prover.lemma_step_in_scan(batch, chunk, cipher, offset);
        lemma_step_is_reported(prover, batch, index, total, step);
    }
}

/// For each nonce the labels come in the order in which they are stored, and each at most once.
pub proof fn hits_ascend_for_each_nonce(
    prover: Prover8_56,
    batch: Seq<u8>,
    index: u64,
    earlier: int,
    later: int,
)
    requires
        prover.wf(),
        prover.accepts(batch, index),
        0 <= earlier < later < prover.hits(batch, index).len(),
        prover.hits(batch, index)[earlier].0 == prover.hits(batch, index)[later].0,
    ensures
        prover.hits(batch, index)[earlier].1 < prover.hits(batch, index)[later].1,
{
    let m = prover.group_ciphers().len() as int;
    let total = prover.scan_len(batch);
    let s = lemma_report_has_step(prover, batch, index, total, earlier);
    let t = lemma_report_has_step(prover, batch, index, total, later);
    if t <= s {
        prover.lemma_reports_prefix(batch, index, t, s);
    }
    lemma_step_parts(prover, batch, s);
    lemma_step_parts(prover, batch, t);
    assert(prover.group_ciphers()[prover.step_cipher(s)].nonce_group <= 255);
    assert(prover.group_ciphers()[prover.step_cipher(t)].nonce_group <= 255);
    lemma_nonce_at_injective(
        prover,
        prover.step_cipher(s),
        prover.step_slot(s),
        prover.step_cipher(t),
        prover.step_slot(t),
    );
    let a = prover.step_label(s);
    let b = prover.step_label(t);
    if b <= a {
        assert(b / 8 * m <= a / 8 * m) by (nonlinear_arith)
            requires
                b / 8 <= a / 8,
                m > 0,
        ;
        if b / 8 < a / 8 {
            assert(b / 8 * m + m <= a / 8 * m) by (nonlinear_arith)
                requires
                    b / 8 < a / 8,
                    m > 0,
            ;
        }
        assert(false);
    }
}

/// No label is found twice for one nonce.
pub proof fn hits_have_no_duplicates(prover: Prover8_56, batch: Seq<u8>, index: u64)
    requires
        prover.wf(),
        prover.accepts(batch, index),
    ensures
        prover.hits(batch, index).no_duplicates(),
{
    let hits = prover.hits(batch, index);
    assert forall|i: int, j: int|
        0 <= i < hits.len() && 0 <= j < hits.len() && i != j implies hits[i] != hits[j] by {
        if hits[i].0 == hits[j].0 {
            if i < j {
                hits_ascend_for_each_nonce(prover, batch, index, i, j);
            } else {
                hits_ascend_for_each_nonce(prover, batch, index, j, i);
            }
        }
    }
}

/// Steps on the second of two batches, told as steps on the two put together.
proof fn lemma_reports_of_second(
    prover: Prover8_56,
    first: Seq<u8>,
    second: Seq<u8>,
    index: u64,
    steps: int,
)
    requires
        prover.wf(),
        first.len() % 128 == 0,
        0 <= steps <= prover.scan_len(second),
        prover.accepts(first + second, index),
    ensures
        prover.reports(first + second, index, prover.scan_len(first) + steps) == prover.reports(
            first + second,
            index,
            prover.scan_len(first),
        ) + prover.reports(second, (index + first.len() / 16) as u64, steps),
    decreases steps,
{
    let both = first + second;
    let m = prover.group_ciphers().len() as int;
    let base = prover.scan_len(first);
    let second_index = (index + first.len() / 16) as u64;
    if steps == 0 {
        assert(prover.reports(second, second_index, 0) =~= Seq::empty());
        assert(prover.reports(both, index, base) =~= prover.reports(both, index, base)
            + prover.reports(second, second_index, 0));
    } else {
        let step = steps - 1;
        lemma_reports_of_second(prover, first, second, index, step);
        lemma_step_parts(prover, second, step);
        let chunks = first.len() as int / 128;
        let label = prover.step_label(step);
        let chunk = label / 8;
        let offset = label % 8 * 16 + prover.step_slot(step);
        prover.lemma_step(chunks + chunk, prover.step_cipher(step), offset);
        assert((chunks + chunk) * m == chunks * m + chunk * m) by (nonlinear_arith);
        assert(base >= 0) by (nonlinear_arith)
            requires
                base == chunks * m * 128,
                chunks >= 0,
                m > 0,
        ;
        assert(prover.step_label(base + step) == chunks * 8 + label);
        assert(label_at(both, chunks * 8 + label) =~= label_at(second, label));
        assert(prover.step_report(index, base + step) == prover.step_report(second_index, step));
        assert(prover.reports(both, index, base + steps) =~= prover.reports(both, index, base)
            + prover.reports(second, second_index, steps));
    }
}

/// Steps that stay within the front of a batch do not depend on the rest.
proof fn lemma_reports_of_front(
    prover: Prover8_56,
    first: Seq<u8>,
    second: Seq<u8>,
    index: u64,
    steps: int,
)
    requires
        prover.wf(),
        0 <= steps <= prover.scan_len(first),
    ensures
        prover.reports(first + second, index, steps) == prover.reports(first, index, steps),
    decreases steps,
{
    if steps > 0 {
        let step = steps - 1;
        lemma_reports_of_front(prover, first, second, index, step);
        lemma_step_parts(prover, first, step);
        let label = prover.step_label(step);
        assert(label_at(first + second, label) =~= label_at(first, label));
    }
}

/// Scanning two batches one after the other finds what scanning them as one batch finds, provided
/// that the first is made of whole chunks.
pub proof fn batches_can_be_joined(
    prover: Prover8_56,
    first: Seq<u8>,
    second: Seq<u8>,
    index: u64,
)
    requires
        prover.wf(),
        first.len() % 128 == 0,
        prover.accepts(first + second, index),
    ensures
        prover.hits(first + second, index) == prover.hits(first, index) + prover.hits(
            second,
            (index + first.len() / 16) as u64,
        ),
{
    let m = prover.group_ciphers().len() as int;
    let a = first.len() as int / 128;
    let b = second.len() as int / 128;
    assert((first + second).len() as int / 128 == a + b);
    assert((a + b) * m * 128 == a * m * 128 + b * m * 128) by (nonlinear_arith);
    assert(a * m * 128 >= 0 && b * m * 128 >= 0) by (nonlinear_arith)
        requires
            a >= 0,
            b >= 0,
            m > 0,
    ;
    lemma_reports_of_second(prover, first, second, index, prover.scan_len(second));
    lemma_reports_of_front(prover, first, second, index, prover.scan_len(first));
}

/// Two batches can be scanned in any order: either way the findings are those of the two as one
/// batch.
pub proof fn batches_can_be_swapped(
    prover: Prover8_56,
    first: Seq<u8>,
    second: Seq<u8>,
    index: u64,
)
    requires
        prover.wf(),
        first.len() % 128 == 0,
        prover.accepts(first + second, index),
    ensures
        (prover.hits(second, (index + first.len() / 16) as u64) + prover.hits(
            first,
            index,
        )).to_multiset() == prover.hits(first + second, index).to_multiset(),
{
    let front = prover.hits(first, index);
    let back = prover.hits(second, (index + first.len() / 16) as u64);
    batches_can_be_joined(prover, first, second, index);
    lemma_multiset_commutative(front, back);
    lemma_multiset_commutative(back, front);
    assert(front.to_multiset().add(back.to_multiset()) =~= back.to_multiset().add(
        front.to_multiset(),
    ));
}

/// Labels that are left over after the last whole chunk change nothing.
pub proof fn leftover_labels_are_ignored(
    prover: Prover8_56,
    batch: Seq<u8>,
    leftover: Seq<u8>,
    index: u64,
)
    requires
        prover.wf(),
        batch.len() % 128 == 0,
        leftover.len() < 128,
        prover.accepts(batch, index),
    ensures
        prover.hits(batch + leftover, index) == prover.hits(batch, index),
{
    let m = prover.group_ciphers().len() as int;
    assert((batch + leftover).len() as int / 128 == batch.len() as int / 128);
    assert(batch.len() as int / 128 * m * 128 >= 0) by (nonlinear_arith)
        requires
            m > 0,
            batch.len() >= 0,
    ;
    lemma_reports_of_front(prover, batch, leftover, index, prover.scan_len(batch));
}

/// Where a range of nonces starts at a multiple of its own length, each of its nonces is served by
/// its own group's proof of work and by its own cipher.
pub proof fn aligned_nonces_are_served_by_their_own(
    prover: Prover8_56,
    challenge: Seq<u8>,
    nonces: Range<u32>,
    difficulty: u64,
    pows: Seq<u64>,
    nonce: u32,
)
    requires
        prover.is_built_from(challenge, nonces, difficulty, pows),
        whole_groups(nonces),
        pows.len() == (nonces.end - nonces.start) / 16,
        nonces.start as int % (nonces.end - nonces.start) == 0,
        nonces.start <= nonce < nonces.end,
    ensures
        prover.pow_for(nonce) == Some(pows[(nonce - nonces.start) / 16]),
        prover.cipher_for(nonce).is_for_group(
            challenge,
            (nonce / 16) as u32,
            pows[(nonce - nonces.start) / 16],
        ),
        prover.lazy_cipher_for(nonce as int).is_for_nonce(
            challenge,
            nonce,
            (nonce / 16) as u32,
            pows[(nonce - nonces.start) / 16],
        ),
{
    let n = nonces.end - nonces.start;
    let m = pows.len() as int;
    let q = nonces.start as int / n;
    let k = nonce - nonces.start;
    lemma_fundamental_div_mod(nonces.start as int, n);
    assert(n * q == q * n) by (nonlinear_arith);
    lemma_fundamental_div_mod_converse(nonce as int, n, q, k);
    assert(n == 16 * m);
    assert(q * n == 16 * (q * m)) by (nonlinear_arith)
        requires
            n == 16 * m,
    ;
    assert(nonce as int / 16 == q * m + k / 16);
    lemma_fundamental_div_mod_converse(nonce as int / 16, m, q, k / 16);
    assert(prover.group_ciphers()[k / 16].pow == pows[k / 16]);
    assert((nonces.start + k) / 16 % m == k / 16);
}

/// Where a range of nonces starts at a multiple of its own length, two of its nonces are looked up
/// as the same group cipher exactly when they belong to the same group, and never at the same place
/// among the ciphers of single nonces.
pub proof fn aligned_nonces_share_only_their_group(
    prover: Prover8_56,
    challenge: Seq<u8>,
    nonces: Range<u32>,
    difficulty: u64,
    pows: Seq<u64>,
    nonce: u32,
    other: u32,
)
    requires
        prover.is_built_from(challenge, nonces, difficulty, pows),
        whole_groups(nonces),
        pows.len() == (nonces.end - nonces.start) / 16,
        nonces.start as int % (nonces.end - nonces.start) == 0,
        nonces.start <= nonce < nonces.end,
        nonces.start <= other < nonces.end,
    ensures
        prover.cipher_for(nonce) == prover.cipher_for(other) <==> nonce / 16 == other / 16,
        prover.lazy_place(nonce as int) == prover.lazy_place(other as int) <==> nonce == other,
{
    aligned_nonces_are_served_by_their_own(prover, challenge, nonces, difficulty, pows, nonce);
    aligned_nonces_are_served_by_their_own(prover, challenge, nonces, difficulty, pows, other);
    let n = nonces.end - nonces.start;
    let q = nonces.start as int / n;
    lemma_fundamental_div_mod(nonces.start as int, n);
    assert(n * q == q * n) by (nonlinear_arith);
    lemma_fundamental_div_mod_converse(nonce as int, n, q, nonce - nonces.start);
    lemma_fundamental_div_mod_converse(other as int, n, q, other - nonces.start);
}

} // verus!
