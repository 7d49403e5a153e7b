//! The pieces that stored labels are read in. A piece is given by the byte that it starts at and by
//! its bytes.

use vstd::prelude::*;
use vstd::seq_lib::{lemma_multiset_commutative, to_multiset_remove};

use crate::prover::{label_at, Prover, Prover8_56};
use crate::scan::{
    batches_can_be_joined, hits_are_the_good_labels, hits_have_no_duplicates, is_good_label,
};

verus! {

/// The labels `labels` after `data` has been put at `pos`.
pub open spec fn placed(labels: Seq<u8>, pos: int, data: Seq<u8>) -> Seq<u8> {
    labels.take(pos) + data + labels.skip(pos + data.len())
}

/// Puts a batch of labels at its place.
pub fn place_batch(labels: &mut Vec<u8>, pos: usize, data: &[u8])
    requires
        pos + data@.len() <= old(labels)@.len(),
    ensures
        final(labels)@ == placed(old(labels)@, pos as int, data@),
        final(labels)@.len() == old(labels)@.len(),
        forall|at: int|
            0 <= at < old(labels)@.len() ==> #[trigger] final(labels)@[at] == if pos <= at < pos
                + data@.len() {
                data@[at - pos]
            } else {
                old(labels)@[at]
            },
{
    let ghost before = labels@;
    let mut done: usize = 0;
    while done < data.len()
        invariant
            done <= data@.len(),
            pos + data@.len() <= before.len() == labels.len(),
            labels@ =~= placed(before, pos as int, data@.take(done as int)),
        decreases data@.len() - done,
    {
        labels[pos + done] = data[done];
        done += 1;
    }
    assert(data@.take(done as int) =~= data@);
}

/// The labels `labels` after the pieces in `read` have been put at their places, one after the
/// other.
pub open spec fn all_placed(labels: Seq<u8>, read: Seq<(u64, Seq<u8>)>) -> Seq<u8>
    decreases read.len(),
{
    if read.len() == 0 {
        labels
    } else {
        placed(all_placed(labels, read.drop_last()), read.last().0 as int, read.last().1)
    }
}

/// Whether the byte `at` lies in a piece.
pub open spec fn covers(piece: (u64, Seq<u8>), at: int) -> bool {
    piece.0 <= at < piece.0 + piece.1.len()
}

/// Whether two pieces have no byte in common.
pub open spec fn are_apart(a: (u64, Seq<u8>), b: (u64, Seq<u8>)) -> bool {
    a.0 + a.1.len() <= b.0 || b.0 + b.1.len() <= a.0
}

/// Whether the pieces in `read` lie within `size` bytes and do not overlap.
pub open spec fn fit_together(read: Seq<(u64, Seq<u8>)>, size: nat) -> bool {
    &&& forall|i: int|
        0 <= i < read.len() ==> (#[trigger] read[i]).0 + read[i].1.len() <= size
    &&& forall|i: int, j: int|
        0 <= i < j < read.len() ==> are_apart(#[trigger] read[i], #[trigger] read[j])
}

/// Any number of pieces that do not overlap are all found again at their places, in whatever order
/// they were put there, and the size stays. A byte that lies in none of them is left as it was: in
/// a buffer of zeros it stays zero.
pub proof fn batches_are_found_at_their_places(labels: Seq<u8>, read: Seq<(u64, Seq<u8>)>)
    requires
        fit_together(read, labels.len()),
    ensures
        all_placed(labels, read).len() == labels.len(),
        forall|i: int|
            0 <= i < read.len() ==> all_placed(labels, read).subrange(
                (#[trigger] read[i]).0 as int,
                read[i].0 + read[i].1.len(),
            ) == read[i].1,
        forall|at: int|
            0 <= at < labels.len() && (forall|i: int|
                0 <= i < read.len() ==> !covers(#[trigger] read[i], at)) ==> #[trigger] all_placed(
                labels,
                read,
            )[at] == labels[at],
    decreases read.len(),
{
    if read.len() > 0 {
        let front = read.drop_last();
        let before = all_placed(labels, front);
        let after = all_placed(labels, read);
        let last = read.last();
        assert forall|i: int| 0 <= i < front.len() implies (#[trigger] front[i]).0
            + front[i].1.len() <= labels.len() by {
            assert(front[i] == read[i]);
        }
        assert forall|i: int, j: int| 0 <= i < j < front.len() implies are_apart(
            #[trigger] front[i],
            #[trigger] front[j],
        ) by {
            assert(front[i] == read[i] && front[j] == read[j]);
        }
        batches_are_found_at_their_places(labels, front);
        assert(read[read.len() - 1] == last);
        assert forall|i: int| 0 <= i < read.len() implies after.subrange(
            (#[trigger] read[i]).0 as int,
            read[i].0 + read[i].1.len(),
        ) == read[i].1 by {
            let piece = read[i];
            if i < front.len() {
                assert(front[i] == piece);
                assert(are_apart(piece, last));
                let there = before.subrange(piece.0 as int, piece.0 + piece.1.len());
                assert(there == piece.1);
                assert forall|k: int| 0 <= k < piece.1.len() implies after[piece.0 + k]
                    == piece.1[k] by {
                    assert(there[k] == before[piece.0 + k]);
                }
            }
            assert(after.subrange(piece.0 as int, piece.0 + piece.1.len()) =~= piece.1);
        }
        assert forall|at: int|
            0 <= at < labels.len() && (forall|i: int|
                0 <= i < read.len() ==> !covers(#[trigger] read[i], at)) implies #[trigger]
            after[at] == labels[at] by {
            assert(!covers(read[read.len() - 1], at));
            assert forall|i: int| 0 <= i < front.len() implies !covers(#[trigger] front[i], at) by {
                assert(front[i] == read[i]);
            }
            assert(before[at] == labels[at]);
        }
    }
}

/// What was stored, piece by piece from the start on, as the pieces that are read.
pub open spec fn tiles(batches: Seq<Seq<u8>>) -> Seq<(u64, Seq<u8>)>
    decreases batches.len(),
{
    if batches.len() == 0 {
        Seq::empty()
    } else {
        tiles(batches.drop_last()).push(
            (batches.drop_last().flatten_alt().len() as u64, batches.last()),
        )
    }
}

/// Pieces that follow each other fill a buffer from its start on.
proof fn lemma_tiles_fill(labels: Seq<u8>, batches: Seq<Seq<u8>>)
    requires
        batches.flatten_alt().len() <= labels.len() <= u64::MAX,
    ensures
        all_placed(labels, tiles(batches)) == batches.flatten_alt() + labels.skip(
            batches.flatten_alt().len() as int,
        ),
    decreases batches.len(),
{
    if batches.len() > 0 {
        lemma_tiles_fill(labels, batches.drop_last());
        assert(tiles(batches).drop_last() =~= tiles(batches.drop_last()));
    }
    assert(all_placed(labels, tiles(batches)) =~= batches.flatten_alt() + labels.skip(
        batches.flatten_alt().len() as int,
    ));
}

/// Any number of batches that follow each other and fill the space put the stored data together
/// again.
pub proof fn batches_rebuild_the_data(labels: Seq<u8>, batches: Seq<Seq<u8>>)
    requires
        batches.flatten_alt().len() == labels.len() <= u64::MAX,
    ensures
        all_placed(labels, tiles(batches)) == batches.flatten_alt(),
{
    lemma_tiles_fill(labels, batches);
    assert(all_placed(labels, tiles(batches)) =~= batches.flatten_alt());
}

/// Whether the labels of `batches` can be scanned batch by batch: they can be numbered, and each
/// batch but the last is made of whole chunks.
pub open spec fn chunk_aligned(batches: Seq<Seq<u8>>) -> bool {
    &&& batches.flatten_alt().len() <= u64::MAX
    &&& forall|k: int| 0 <= k < batches.len() - 1 ==> (#[trigger] batches[k]).len() % 128 == 0
}

/// The good labels of the pieces in `read`, one piece after the other.
pub open spec fn gathered(prover: Prover8_56, read: Seq<(u64, Seq<u8>)>) -> Seq<(u32, u64)>
    decreases read.len(),
{
    if read.len() == 0 {
        Seq::empty()
    } else {
        gathered(prover, read.drop_last()) + prover.hits(read.last().1, read.last().0 / 16)
    }
}

/// Batches of whole chunks make up whole chunks.
proof fn lemma_whole_chunks(batches: Seq<Seq<u8>>)
    requires
        forall|k: int| 0 <= k < batches.len() ==> (#[trigger] batches[k]).len() % 128 == 0,
    ensures
        batches.flatten_alt().len() % 128 == 0,
    decreases batches.len(),
{
    if batches.len() > 0 {
        let front = batches.drop_last();
        assert forall|k: int| 0 <= k < front.len() implies (#[trigger] front[k]).len() % 128
            == 0 by {
            assert(front[k] == batches[k]);
        }
        lemma_whole_chunks(front);
        assert(batches[batches.len() - 1].len() % 128 == 0);
    }
}

/// Scanning any number of batches one after the other finds what scanning all labels as one batch
/// finds.
pub proof fn many_batches_can_be_joined(prover: Prover8_56, batches: Seq<Seq<u8>>)
    requires
        prover.wf(),
        chunk_aligned(batches),
    ensures
        gathered(prover, tiles(batches)) == prover.hits(batches.flatten_alt(), 0),
    decreases batches.len(),
{
    if batches.len() == 0 {
        assert(prover.scan_len(batches.flatten_alt()) == 0) by (nonlinear_arith)
            requires
                prover.scan_len(batches.flatten_alt()) == 0 * prover.group_ciphers().len() as int
                    * 128,
        ;
        assert(prover.hits(batches.flatten_alt(), 0) =~= Seq::empty());
    } else {
        let front = batches.drop_last();
        let start = front.flatten_alt().len();
        assert forall|k: int| 0 <= k < front.len() implies (#[trigger] front[k]).len() % 128
            == 0 by {
            assert(front[k] == batches[k]);
        }
        lemma_whole_chunks(front);
        many_batches_can_be_joined(prover, front);
        batches_can_be_joined(prover, front.flatten_alt(), batches.last(), 0);
        assert(tiles(batches).drop_last() =~= tiles(front));
        assert((start as u64) / 16 == (0 + start / 16) as u64);
    }
}

/// Taking a piece out takes its good labels out.
proof fn lemma_gathered_without(prover: Prover8_56, read: Seq<(u64, Seq<u8>)>, i: int)
    requires
        0 <= i < read.len(),
    ensures
        gathered(prover, read).to_multiset() == gathered(prover, read.remove(i)).to_multiset().add(
            prover.hits(read[i].1, read[i].0 / 16).to_multiset(),
        ),
    decreases read.len(),
{
    broadcast use vstd::multiset::group_multiset_axioms;

    let last = prover.hits(read.last().1, read.last().0 / 16);
    lemma_multiset_commutative(gathered(prover, read.drop_last()), last);
    if i == read.len() - 1 {
        assert(read.remove(i) =~= read.drop_last());
    } else {
        let taken = prover.hits(read[i].1, read[i].0 / 16);
        lemma_gathered_without(prover, read.drop_last(), i);
        assert(read.remove(i).drop_last() =~= read.drop_last().remove(i));
        assert(read.remove(i).last() == read.last());
        let rest = gathered(prover, read.drop_last().remove(i));
        lemma_multiset_commutative(rest, last);
        assert(rest.to_multiset().add(taken.to_multiset()).add(last.to_multiset())
            =~= rest.to_multiset().add(last.to_multiset()).add(taken.to_multiset()));
    }
}

/// Pieces give the same good labels in whatever order they are read.
proof fn lemma_gathered_in_any_order(
    prover: Prover8_56,
    read: Seq<(u64, Seq<u8>)>,
    other: Seq<(u64, Seq<u8>)>,
)
    requires
        read.to_multiset() == other.to_multiset(),
    ensures
        gathered(prover, read).to_multiset() == gathered(prover, other).to_multiset(),
    decreases other.len(),
{
    broadcast use vstd::multiset::group_multiset_axioms;

    read.to_multiset_ensures();
    other.to_multiset_ensures();
    assert(read.len() == other.len());
    if other.len() > 0 {
        let at = other.len() - 1;
        assert(other.contains(other[at]));
        assert(read.to_multiset().count(other[at]) > 0);
        let i = choose|i: int| 0 <= i < read.len() && read[i] == other[at];
        to_multiset_remove(read, i);
        to_multiset_remove(other, at);
        lemma_gathered_in_any_order(prover, read.remove(i), other.remove(at));
        lemma_gathered_without(prover, read, i);
        lemma_gathered_without(prover, other, at);
    }
}

/// Any number of batches can be scanned in any order: the findings are those of a scan of all
/// labels as one batch.
pub proof fn batches_can_be_scanned_in_any_order(
    prover: Prover8_56,
    batches: Seq<Seq<u8>>,
    read: Seq<(u64, Seq<u8>)>,
)
    requires
        prover.wf(),
        chunk_aligned(batches),
        read.to_multiset() == tiles(batches).to_multiset(),
    ensures
        gathered(prover, read).to_multiset() == prover.hits(
            batches.flatten_alt(),
            0,
        ).to_multiset(),
{
    lemma_gathered_in_any_order(prover, read, tiles(batches));
    many_batches_can_be_joined(prover, batches);
}

/// Whether the pieces in `read` are pieces of `labels`: they lie within them, do not overlap, start
/// where a label starts, and hold what is stored there.
pub open spec fn are_pieces_of(read: Seq<(u64, Seq<u8>)>, labels: Seq<u8>) -> bool {
    &&& fit_together(read, labels.len())
    &&& forall|r: int|
        0 <= r < read.len() ==> (#[trigger] read[r]).0 % 16 == 0 && labels.subrange(
            read[r].0 as int,
            read[r].0 + read[r].1.len(),
        ) == read[r].1
}

/// Whether a label lies in one of the pieces in `read`.
spec fn lies_in(read: Seq<(u64, Seq<u8>)>, index: u64) -> bool {
    exists|r: int|
        0 <= r < read.len() && (#[trigger] read[r]).0 <= 16 * index && 16 * index + 16 <= read[r].0
            + read[r].1.len()
}

/// The good labels of a piece are good labels of the whole, and lie in the piece.
proof fn lemma_hits_of_piece(
    prover: Prover8_56,
    labels: Seq<u8>,
    piece: (u64, Seq<u8>),
    nonce: u32,
    index: u64,
)
    requires
        prover.wf(),
        piece.0 + piece.1.len() <= labels.len() <= 16 * u64::MAX,
        piece.0 % 16 == 0,
        labels.subrange(piece.0 as int, piece.0 + piece.1.len()) == piece.1,
        prover.hits(piece.1, piece.0 / 16).contains((nonce, index)),
    ensures
        piece.0 <= 16 * index,
        16 * index + 16 <= piece.0 + piece.1.len(),
        is_good_label(prover, labels, nonce, index),
{
    let first = piece.0 / 16;
    hits_are_the_good_labels(prover, piece.1, first, nonce, index);
    assert(label_at(piece.1, index - first) =~= label_at(labels, index as int)) by {
        assert forall|k: int| 0 <= k < 16 implies label_at(piece.1, index - first)[k] == label_at(
            labels,
            index as int,
        )[k] by {
            assert(piece.1[16 * (index - first) + k] == labels[piece.0 + 16 * (index - first) + k]);
        }
    }
}

/// Pieces of labels, however many and in whatever order they are scanned, give labels that are
/// good, and none of them twice for one nonce.
pub proof fn pieces_give_good_labels_once(
    prover: Prover8_56,
    labels: Seq<u8>,
    read: Seq<(u64, Seq<u8>)>,
)
    requires
        prover.wf(),
        labels.len() <= 16 * u64::MAX,
        are_pieces_of(read, labels),
    ensures
        gathered(prover, read).no_duplicates(),
        forall|k: int|
            0 <= k < gathered(prover, read).len() ==> is_good_label(
                prover,
                labels,
                (#[trigger] gathered(prover, read)[k]).0,
                gathered(prover, read)[k].1,
            ),
{
    lemma_gathered_from_pieces(prover, labels, read);
}

/// The same, with the piece that each label lies in.
proof fn lemma_gathered_from_pieces(
    prover: Prover8_56,
    labels: Seq<u8>,
    read: Seq<(u64, Seq<u8>)>,
)
    requires
        prover.wf(),
        labels.len() <= 16 * u64::MAX,
        are_pieces_of(read, labels),
    ensures
        gathered(prover, read).no_duplicates(),
        forall|k: int|
            0 <= k < gathered(prover, read).len() ==> is_good_label(
                prover,
                labels,
                (#[trigger] gathered(prover, read)[k]).0,
                gathered(prover, read)[k].1,
            ) && lies_in(read, gathered(prover, read)[k].1),
    decreases read.len(),
{
    if read.len() > 0 {
        let front = read.drop_last();
        let last = read.last();
        let before = gathered(prover, front);
        let found = prover.hits(last.1, last.0 / 16);
        let all = gathered(prover, read);
        assert(read[read.len() - 1] == last);
        assert forall|r: int| 0 <= r < front.len() implies #[trigger] front[r] == read[r] by {}
        lemma_gathered_from_pieces(prover, labels, front);
        hits_have_no_duplicates(prover, last.1, last.0 / 16);
        assert forall|k: int| 0 <= k < found.len() implies is_good_label(
            prover,
            labels,
            (#[trigger] found[k]).0,
            found[k].1,
        ) && last.0 <= 16 * found[k].1 && 16 * found[k].1 + 16 <= last.0 + last.1.len() by {
            assert(found.contains((found[k].0, found[k].1)));
            lemma_hits_of_piece(prover, labels, last, found[k].0, found[k].1);
        }
        assert forall|k: int| 0 <= k < all.len() implies is_good_label(
            prover,
            labels,
            (#[trigger] all[k]).0,
            all[k].1,
        ) && lies_in(read, all[k].1) by {
            if k < before.len() {
                assert(all[k] == before[k]);
                let r = choose|r: int|
                    0 <= r < front.len() && (#[trigger] front[r]).0 <= 16 * all[k].1 && 16
                        * all[k].1 + 16 <= front[r].0 + front[r].1.len();
                assert(read[r] == front[r]);
            } else {
                assert(all[k] == found[k - before.len()]);
            }
        }
        assert forall|i: int, j: int| 0 <= i < before.len() && 0 <= j < found.len() implies
            #[trigger] before[i] != #[trigger] found[j] by {
            let index = before[i].1;
            let r = choose|r: int|
                0 <= r < front.len() && (#[trigger] front[r]).0 <= 16 * index && 16 * index + 16
                    <= front[r].0 + front[r].1.len();
            assert(are_apart(read[r], read[read.len() - 1]));
        }
        assert forall|i: int, j: int| 0 <= i < j < all.len() implies all[i] != all[j] by {
            if j < before.len() {
                assert(all[i] == before[i] && all[j] == before[j]);
            } else if i < before.len() {
                assert(all[i] == before[i] && all[j] == found[j - before.len()]);
            } else {
                assert(all[i] == found[i - before.len()] && all[j] == found[j - before.len()]);
            }
        }
    }
}

} // verus!
