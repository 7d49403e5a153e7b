//! The good labels of a pass, sorted by nonce, and how they compare with another list of them.

use std::collections::HashMap;
use vstd::multiset::Multiset;
use vstd::prelude::*;
use vstd::seq_lib::{to_multiset_build, to_multiset_remove};

verus! {

/// The indexes that `hits` hold for `nonce`, in order.
pub open spec fn indexes_for(hits: Seq<(u32, u64)>, nonce: u32) -> Seq<u64>
    decreases hits.len(),
{
    if hits.len() == 0 {
        Seq::empty()
    } else if hits.last().0 == nonce {
        indexes_for(hits.drop_last(), nonce).push(hits.last().1)
    } else {
        indexes_for(hits.drop_last(), nonce)
    }
}

/// The first nonce for which `hits` hold `k2` indexes, with those indexes.
pub open spec fn first_full(hits: Seq<(u32, u64)>, k2: nat) -> Option<(u32, Seq<u64>)>
    decreases hits.len(),
{
    if hits.len() == 0 {
        None
    } else if first_full(hits.drop_last(), k2) is Some {
        first_full(hits.drop_last(), k2)
    } else if indexes_for(hits, hits.last().0).len() >= k2 {
        Some((hits.last().0, indexes_for(hits, hits.last().0)))
    } else {
        None
    }
}

/// What a list of nonces and indexes looks like once the vectors are gone.
pub open spec fn view_found(found: Option<(u32, Vec<u64>)>) -> Option<(u32, Seq<u64>)> {
    match found {
        Some((nonce, indexes)) => Some((nonce, indexes@)),
        None => None,
    }
}

/// How two lists of good labels differ.
#[derive(Debug, Clone, Copy, PartialEq, Eq)]
pub enum Mismatch {
    /// The other list has this label once more than the log has it.
    NotLogged { nonce: u32, index: u64 },
    /// The log has a label that the other list has not.
    OnlyLogged,
}

/// Whether `hit` is the entry of `other` at `k`, all entries before that are logged,
/// and it itself has been logged no more often than it stood before `k` already.
pub open spec fn is_first_unlogged(
    logged: Seq<(u32, u64)>,
    other: Seq<(u32, u64)>,
    hit: (u32, u64),
    k: int,
) -> bool {
    &&& 0 <= k < other.len()
    &&& other[k] == hit
    &&& other.take(k).to_multiset().subset_of(logged.to_multiset())
    &&& other.take(k).to_multiset().count(other[k]) == logged.to_multiset().count(other[k])
}

/// Whether `mismatch` says how `logged` and `other` differ: either it is the first entry of `other`
/// that `logged` does not have often enough, or `other` has fewer entries, and all of them occur
/// in `logged`.
pub open spec fn is_difference(
    logged: Seq<(u32, u64)>,
    other: Seq<(u32, u64)>,
    mismatch: Mismatch,
) -> bool {
    if mismatch is NotLogged {
        exists|k: int|
            #![trigger other[k]]
            is_first_unlogged(logged, other, (mismatch->nonce, mismatch->index), k)
    } else {
        &&& other.to_multiset().subset_of(logged.to_multiset())
        &&& other.len() < logged.len()
    }
}

/// The good labels that were found, by nonce.
pub struct HitLog {
    by_nonce: HashMap<u32, Vec<u64>>,
    k2: u32,
    found: Option<(u32, Vec<u64>)>,
    history: Ghost<Seq<(u32, u64)>>,
}

/// Whether `by_nonce` holds the indexes of `hits`, and nothing for a nonce without any.
spec fn sorts(by_nonce: Map<u32, Vec<u64>>, hits: Seq<(u32, u64)>) -> bool {
    forall|nonce: u32|
        #![trigger by_nonce.contains_key(nonce)]
        #![trigger indexes_for(hits, nonce)]
        {
            &&& by_nonce.contains_key(nonce) <==> indexes_for(hits, nonce).len() > 0
            &&& by_nonce.contains_key(nonce) ==> by_nonce[nonce]@ == indexes_for(hits, nonce)
        }
}

/// How often `by_nonce` holds an index for a nonce.
spec fn times_held(by_nonce: Map<u32, Vec<u64>>, hit: (u32, u64)) -> nat {
    if by_nonce.contains_key(hit.0) {
        by_nonce[hit.0]@.to_multiset().count(hit.1)
    } else {
        0
    }
}

/// Whether `by_nonce` holds what `left` holds, and nothing for a nonce without any.
spec fn holds(by_nonce: Map<u32, Vec<u64>>, left: Multiset<(u32, u64)>) -> bool {
    &&& forall|hit: (u32, u64)| #[trigger] left.count(hit) == times_held(by_nonce, hit)
    &&& forall|nonce: u32| #[trigger]
        by_nonce.contains_key(nonce) ==> by_nonce[nonce]@.len() > 0
}

/// Sorting by nonce keeps how often each hit occurs.
proof fn lemma_indexes_count(hits: Seq<(u32, u64)>, nonce: u32, index: u64)
    ensures
        hits.to_multiset().count((nonce, index)) == indexes_for(hits, nonce).to_multiset().count(
            index,
        ),
    decreases hits.len(),
{
    broadcast use vstd::multiset::group_multiset_axioms;

    hits.to_multiset_ensures();
    indexes_for(hits, nonce).to_multiset_ensures();
    if hits.len() > 0 {
        let front = hits.drop_last();
        lemma_indexes_count(front, nonce, index);
        assert(hits =~= front.push(hits.last()));
        to_multiset_build(front, hits.last());
        if hits.last().0 == nonce {
            to_multiset_build(indexes_for(front, nonce), hits.last().1);
        }
    }
}

/// What holds nothing is empty.
proof fn lemma_empty_holds(by_nonce: Map<u32, Vec<u64>>, left: Multiset<(u32, u64)>)
    requires
        holds(by_nonce, left),
    ensures
        by_nonce.dom() =~= Set::empty() <==> left =~= Multiset::empty(),
{
    broadcast use vstd::multiset::group_multiset_axioms;

    if by_nonce.dom() =~= Set::empty() {
        assert forall|hit: (u32, u64)| left.count(hit) == 0 by {
            assert(!by_nonce.dom().contains(hit.0));
        }
    } else {
        let nonce = choose|nonce: u32| by_nonce.dom().contains(nonce);
        assert(by_nonce.contains_key(nonce));
        let index = by_nonce[nonce]@[0];
        by_nonce[nonce]@.to_multiset_ensures();
        assert(by_nonce[nonce]@.contains(index));
        assert(left.count((nonce, index)) > 0);
    }
}

impl HitLog {
    /// What was recorded, in order.
    pub closed spec fn history(self) -> Seq<(u32, u64)> {
        self.history@
    }

    /// How many indexes a proof takes.
    pub closed spec fn quota(self) -> nat {
        self.k2 as nat
    }

    /// The log is sorted, and knows the first nonce that had enough indexes.
    pub closed spec fn wf(self) -> bool {
        &&& sorts(self.by_nonce@, self.history@)
        &&& view_found(self.found) == first_full(self.history@, self.k2 as nat)
    }

    /// An empty log for proofs of `k2` indexes.
    pub fn new(k2: u32) -> (log: Self)
        ensures
            log.wf(),
            log.history() == Seq::<(u32, u64)>::empty(),
            log.quota() == k2,
    {
        broadcast use vstd::std_specs::hash::group_hash_axioms;

        HitLog { by_nonce: HashMap::new(), k2, found: None, history: Ghost(Seq::empty()) }
    }

    /// Notes a good label.
    pub fn record(&mut self, nonce: u32, index: u64)
        requires
            old(self).wf(),
        ensures
            final(self).wf(),
            final(self).history() == old(self).history().push((nonce, index)),
            final(self).quota() == old(self).quota(),
    {
        broadcast use vstd::std_specs::hash::group_hash_axioms;

        let ghost before = self.history@;
        let ghost after = before.push((nonce, index));
        let ghost sorted = self.by_nonce@;
        let mut indexes = match self.by_nonce.remove(&nonce) {
            Some(indexes) => indexes,
            None => Vec::new(),
        };
        indexes.push(index);
        proof {
            assert(after.drop_last() =~= before);
            assert(sorted.contains_key(nonce) <==> indexes_for(before, nonce).len() > 0);
            assert(indexes@ =~= indexes_for(after, nonce));
        }
        if self.found.is_none() && indexes.len() >= self.k2 as usize {
            let copy = indexes.clone();
            assert(copy@ =~= indexes@);
            self.found = Some((nonce, copy));
        }
        let ghost list = indexes;
        self.by_nonce.insert(nonce, indexes);
        self.history = Ghost(after);
        proof {
            assert(self.by_nonce@ =~= sorted.insert(nonce, list));
            assert forall|other: u32|
                #![trigger self.by_nonce@.contains_key(other)]
                #![trigger indexes_for(after, other)]
                {
                    &&& self.by_nonce@.contains_key(other) <==> indexes_for(after, other).len() > 0
                    &&& self.by_nonce@.contains_key(other) ==> self.by_nonce@[other]@
                        == indexes_for(after, other)
                } by {
                if other != nonce {
                    assert(indexes_for(after, other) == indexes_for(before, other));
                    assert(sorted.contains_key(other) <==> indexes_for(before, other).len() > 0);
                }
            }
        }
    }

    /// Notes good labels, one after the other.
    pub fn record_all(&mut self, hits: &[(u32, u64)])
        requires
            old(self).wf(),
        ensures
            final(self).wf(),
            final(self).history() == old(self).history() + hits@,
            final(self).quota() == old(self).quota(),
    {
        let mut done: usize = 0;
        while done < hits.len()
            invariant
                done <= hits@.len(),
                self.wf(),
                self.history() =~= old(self).history() + hits@.take(done as int),
                self.quota() == old(self).quota(),
            decreases hits@.len() - done,
        {
            let (nonce, index) = hits[done];
            self.record(nonce, index);
            done += 1;
        }
        assert(hits@.take(done as int) =~= hits@);
    }

    /// The first nonce that had enough indexes, with those indexes.
    pub fn found(&self) -> (found: Option<(u32, Vec<u64>)>)
        requires
            self.wf(),
        ensures
            view_found(found) == first_full(self.history(), self.quota()),
            found is Some <==> first_full(self.history(), self.quota()) is Some,
            found matches Some((nonce, indexes)) ==> first_full(self.history(), self.quota())
                == Some((nonce, indexes@)),
    {
        match &self.found {
            Some((nonce, indexes)) => {
                let copy = indexes.clone();
                assert(copy@ =~= indexes@);
                Some((*nonce, copy))
            },
            None => None,
        }
    }

    /// Compares the log with another list of good labels: each label has to occur as often here as
    /// there.
    pub fn compare(self, other: &[(u32, u64)]) -> (result: Result<(), Mismatch>)
        requires
            self.wf(),
        ensures
            result is Ok <==> self.history().to_multiset() == other@.to_multiset(),
            result matches Err(mismatch) ==> is_difference(self.history(), other@, mismatch),
    {
        broadcast use vstd::std_specs::hash::group_hash_axioms;
        broadcast use vstd::multiset::group_multiset_axioms;

        let ghost logged = self.history().to_multiset();
        let mut left = self.by_nonce;
        let mut done: usize = 0;
        proof {
            assert forall|hit: (u32, u64)| #[trigger]
                logged.count(hit) == times_held(left@, hit) by {
                lemma_indexes_count(self.history(), hit.0, hit.1);
                self.history().to_multiset_ensures();
                indexes_for(self.history(), hit.0).to_multiset_ensures();
                assert(left@.contains_key(hit.0) <==> indexes_for(self.history(), hit.0).len() > 0);
            }
            other@.take(0).to_multiset_ensures();
            assert(other@.take(0).to_multiset() =~= Multiset::empty());
            assert(logged.sub(other@.take(0).to_multiset()) =~= logged);
        }
        while done < other.len()
            invariant
                done <= other@.len(),
                logged == self.history().to_multiset(),
                other@.take(done as int).to_multiset().subset_of(logged),
                holds(left@, logged.sub(other@.take(done as int).to_multiset())),
            decreases other@.len() - done,
        {
            let (nonce, index) = other[done];
            let ghost seen = other@.take(done as int);
            let ghost before = left@;
            proof {
                assert(other@.take(done + 1) =~= seen.push((nonce, index)));
                to_multiset_build(seen, (nonce, index));
            }
            let mut indexes = match left.remove(&nonce) {
                Some(indexes) => indexes,
                None => Vec::new(),
            };
            let ghost held = indexes@;
            let mut at: usize = 0;
            while at < indexes.len() && indexes[at] != index
                invariant
                    at <= indexes@.len(),
                    forall|k: int| 0 <= k < at ==> indexes@[k] != index,
                decreases indexes@.len() - at,
            {
                at += 1;
            }
            proof {
                held.to_multiset_ensures();
                assert(held.to_multiset().count(index) == times_held(before, (nonce, index)));
            }
            if at == indexes.len() {
                proof {
                    assert(!held.contains(index));
                    assert(logged.sub(seen.to_multiset()).count((nonce, index)) == 0);
                    lemma_excess(self.history(), other@, done as int);
                    assert(other@[done as int] == (nonce, index));
                }
                return Err(Mismatch::NotLogged { nonce, index });
            }
            indexes.remove(at);
            let ghost rest = indexes@;
            proof {
                to_multiset_remove(held, at as int);
                assert(rest =~= held.remove(at as int));
                rest.to_multiset_ensures();
            }
            if indexes.len() > 0 {
                left.insert(nonce, indexes);
            }
            proof {
                let taken = other@.take(done + 1).to_multiset();
                let remaining = logged.sub(taken);
                assert(times_held(before, (nonce, index)) > 0);
                assert forall|hit: (u32, u64)| taken.count(hit) <= logged.count(hit) by {
                    assert(seen.to_multiset().count(hit) <= logged.count(hit));
                    assert(logged.sub(seen.to_multiset()).count((nonce, index)) > 0);
                }
                assert forall|hit: (u32, u64)| #[trigger] remaining.count(hit) == times_held(
                    left@,
                    hit,
                ) by {
                    assert(logged.sub(seen.to_multiset()).count(hit) == times_held(before, hit));
                    if hit.0 == nonce {
                        assert(times_held(left@, hit) == rest.to_multiset().count(hit.1));
                    }
                }
            }
            done += 1;
        }
        proof {
            assert(other@.take(done as int) =~= other@);
            lemma_empty_holds(left@, logged.sub(other@.to_multiset()));
            self.history().to_multiset_ensures();
            other@.to_multiset_ensures();
        }
        if left.is_empty() {
            assert(logged =~= other@.to_multiset());
            Ok(())
        } else {
            proof {
                let more = logged.sub(other@.to_multiset());
                let hit = choose|hit: (u32, u64)| more.count(hit) != 0;
                assert(more.count(hit) != 0) by {
                    if forall|hit: (u32, u64)| more.count(hit) == 0 {
                        assert(more =~= Multiset::empty());
                    }
                }
                assert(more.count(hit) <= more.len());
            }
            Err(Mismatch::OnlyLogged)
        }
    }
}

/// A hit that occurs too often in a list sets the list apart.
proof fn lemma_excess(logged: Seq<(u32, u64)>, other: Seq<(u32, u64)>, k: int)
    requires
        0 <= k < other.len(),
        other.take(k).to_multiset().count(other[k]) >= logged.to_multiset().count(other[k]),
    ensures
        logged.to_multiset() != other.to_multiset(),
        !other.to_multiset().subset_of(logged.to_multiset()),
{
    broadcast use vstd::multiset::group_multiset_axioms;

    lemma_count_of_front(other, k + 1, other[k]);
    assert(other.take(k + 1) =~= other.take(k).push(other[k]));
    to_multiset_build(other.take(k), other[k]);
}

/// The front of a list holds nothing more often than the list does.
proof fn lemma_count_of_front(list: Seq<(u32, u64)>, n: int, hit: (u32, u64))
    requires
        0 <= n <= list.len(),
    ensures
        list.take(n).to_multiset().count(hit) <= list.to_multiset().count(hit),
    decreases list.len() - n,
{
    broadcast use vstd::multiset::group_multiset_axioms;

    if n == list.len() {
        assert(list.take(n) =~= list);
    } else {
        lemma_count_of_front(list, n + 1, hit);
        assert(list.take(n + 1) =~= list.take(n).push(list[n]));
        to_multiset_build(list.take(n), list[n]);
    }
}

/// Two lists differ in one way only.
pub proof fn difference_is_unique(
    logged: Seq<(u32, u64)>,
    other: Seq<(u32, u64)>,
    a: Mismatch,
    b: Mismatch,
)
    requires
        is_difference(logged, other, a),
        is_difference(logged, other, b),
    ensures
        a == b,
{
    match (a, b) {
        (
            Mismatch::NotLogged { nonce: nonce_a, index: index_a },
            Mismatch::NotLogged { nonce: nonce_b, index: index_b },
        ) => {
            let i = choose|k: int|
                #![trigger other[k]]
                is_first_unlogged(logged, other, (nonce_a, index_a), k);
            let j = choose|k: int|
                #![trigger other[k]]
                is_first_unlogged(logged, other, (nonce_b, index_b), k);
            lemma_unlogged_is_first(logged, other, i, j);
            lemma_unlogged_is_first(logged, other, j, i);
        },
        (Mismatch::NotLogged { nonce, index }, Mismatch::OnlyLogged) => {
            let i = choose|k: int|
                #![trigger other[k]]
                is_first_unlogged(logged, other, (nonce, index), k);
            lemma_excess(logged, other, i);
        },
        (Mismatch::OnlyLogged, Mismatch::NotLogged { nonce, index }) => {
            let i = choose|k: int|
                #![trigger other[k]]
                is_first_unlogged(logged, other, (nonce, index), k);
            lemma_excess(logged, other, i);
        },
        _ => {},
    }
}

/// What stands before a first entry that is not logged often enough, is.
proof fn lemma_unlogged_is_first(
    logged: Seq<(u32, u64)>,
    other: Seq<(u32, u64)>,
    i: int,
    j: int,
)
    requires
        0 <= i < other.len(),
        0 <= j < other.len(),
        other.take(i).to_multiset().count(other[i]) == logged.to_multiset().count(other[i]),
        other.take(j).to_multiset().subset_of(logged.to_multiset()),
    ensures
        j <= i,
{
    broadcast use vstd::multiset::group_multiset_axioms;

    if i < j {
        let front = other.take(j);
        lemma_count_of_front(front, i + 1, other[i]);
        assert(front.take(i + 1) =~= other.take(i).push(other[i]));
        to_multiset_build(other.take(i), other[i]);
        assert(front.to_multiset().count(other[i]) <= logged.to_multiset().count(other[i]));
    }
}

/// The nonce that is full first has exactly as many indexes as a proof takes, and at least one.
/// They are the first that were logged for it.
pub proof fn first_full_is_just_full(hits: Seq<(u32, u64)>, k2: nat)
    requires
        first_full(hits, k2) is Some,
    ensures
        ({
            let (nonce, indexes) = first_full(hits, k2)->0;
            &&& indexes.len() == if k2 == 0 {
                1
            } else {
                k2
            }
            &&& indexes.is_prefix_of(indexes_for(hits, nonce))
        }),
    decreases hits.len(),
{
    let front = hits.drop_last();
    let (nonce, indexes) = first_full(hits, k2)->0;
    if first_full(front, k2) is Some {
        first_full_is_just_full(front, k2);
        if hits.last().0 == nonce {
            assert(indexes_for(hits, nonce).subrange(0, indexes.len() as int) =~= indexes_for(
                front,
                nonce,
            ).subrange(0, indexes.len() as int));
        }
    } else {
        lemma_none_full(front, k2, nonce);
        assert(indexes_for(hits, nonce).subrange(0, indexes.len() as int) =~= indexes);
    }
}

/// As long as no nonce is full, none has enough indexes.
proof fn lemma_none_full(hits: Seq<(u32, u64)>, k2: nat, nonce: u32)
    requires
        first_full(hits, k2) is None,
    ensures
        indexes_for(hits, nonce).len() < k2 || indexes_for(hits, nonce).len() == 0,
    decreases hits.len(),
{
    if hits.len() > 0 {
        lemma_none_full(hits.drop_last(), k2, nonce);
    }
}

/// There is a proof in a log exactly when some nonce has enough indexes.
pub proof fn full_nonce_is_found(hits: Seq<(u32, u64)>, k2: nat)
    ensures
        first_full(hits, k2) is Some <==> exists|nonce: u32| #[trigger]
            indexes_for(hits, nonce).len() >= k2 && indexes_for(hits, nonce).len() > 0,
{
    if first_full(hits, k2) is Some {
        first_full_is_just_full(hits, k2);
        let (nonce, indexes) = first_full(hits, k2)->0;
        assert(indexes_for(hits, nonce).len() >= k2);
    } else {
        assert forall|nonce: u32|
            !(#[trigger] indexes_for(hits, nonce).len() >= k2 && indexes_for(hits, nonce).len()
                > 0) by {
            lemma_none_full(hits, k2, nonce);
        }
    }
}

/// Whatever the order of a log, what it holds for a nonce are the indexes of its entries, each as
/// often as the entry.
pub proof fn log_keeps_every_hit(hits: Seq<(u32, u64)>, nonce: u32, index: u64)
    ensures
        indexes_for(hits, nonce).to_multiset().count(index) == hits.to_multiset().count(
            (nonce, index),
        ),
        indexes_for(hits, nonce).contains(index) <==> hits.contains((nonce, index)),
{
    lemma_indexes_count(hits, nonce, index);
    hits.to_multiset_ensures();
    indexes_for(hits, nonce).to_multiset_ensures();
}

/// The indexes for a nonce are those of its entries, in the order of the log.
pub proof fn indexes_are_those_of_the_entries(hits: Seq<(u32, u64)>, nonce: u32)
    ensures
        indexes_for(hits, nonce) == hits.filter(|hit: (u32, u64)| hit.0 == nonce).map_values(
            |hit: (u32, u64)| hit.1,
        ),
    decreases hits.len(),
{
    reveal(Seq::filter);
    let of_nonce = |hit: (u32, u64)| hit.0 == nonce;
    let index_of = |hit: (u32, u64)| hit.1;
    if hits.len() > 0 {
        indexes_are_those_of_the_entries(hits.drop_last(), nonce);
        let front = hits.drop_last().filter(of_nonce);
        assert(front.push(hits.last()).map_values(index_of) =~= front.map_values(index_of).push(
            hits.last().1,
        ));
    }
    assert(indexes_for(hits, nonce) =~= hits.filter(of_nonce).map_values(index_of));
}

/// The first full nonce is that of the first entry with which a nonce has enough indexes, and it
/// comes with the indexes that it has then. Where there is none, no entry ever made a nonce full.
pub proof fn first_full_nonce_comes_first(hits: Seq<(u32, u64)>, k2: nat) -> (at: int)
    ensures
        0 <= at <= hits.len(),
        forall|k: int|
            0 <= k < at ==> indexes_for(hits.take(k + 1), (#[trigger] hits[k]).0).len() < k2,
        match first_full(hits, k2) {
            Some((nonce, indexes)) => {
                &&& at < hits.len()
                &&& hits[at].0 == nonce
                &&& indexes == indexes_for(hits.take(at + 1), nonce)
                &&& indexes.len() >= k2
            },
            None => at == hits.len(),
        },
    decreases hits.len(),
{
    if hits.len() == 0 {
        0
    } else {
        let front = hits.drop_last();
        let at = first_full_nonce_comes_first(front, k2);
        assert forall|k: int| 0 <= k < at implies indexes_for(
            hits.take(k + 1),
            (#[trigger] hits[k]).0,
        ).len() < k2 by {
            assert(front[k] == hits[k]);
            assert(front.take(k + 1) =~= hits.take(k + 1));
        }
        if at < front.len() {
            assert(front.take(at + 1) =~= hits.take(at + 1));
            at
        } else {
            assert(hits.take(hits.len() as int) =~= hits);
            if first_full(hits, k2) is Some {
                at
            } else {
                at + 1
            }
        }
    }
}

/// What is reported as a difference is one: either an entry that the other list has more often than
/// the log, or the log has all of the other list and more.
pub proof fn difference_sets_the_lists_apart(
    logged: Seq<(u32, u64)>,
    other: Seq<(u32, u64)>,
    mismatch: Mismatch,
)
    requires
        is_difference(logged, other, mismatch),
    ensures
        logged.to_multiset() != other.to_multiset(),
        mismatch matches Mismatch::NotLogged { nonce, index } ==> {
            &&& other.contains((nonce, index))
            &&& other.to_multiset().count((nonce, index)) > logged.to_multiset().count(
                (nonce, index),
            )
        },
        mismatch is OnlyLogged ==> {
            &&& other.to_multiset().subset_of(logged.to_multiset())
            &&& other.len() < logged.len()
        },
{
    broadcast use vstd::multiset::group_multiset_axioms;

    logged.to_multiset_ensures();
    other.to_multiset_ensures();
    if mismatch is NotLogged {
        let hit = (mismatch->nonce, mismatch->index);
        let k = choose|k: int|
            #![trigger other[k]]
            is_first_unlogged(logged, other, hit, k);
        lemma_excess(logged, other, k);
        lemma_count_of_front(other, k + 1, hit);
        assert(other.take(k + 1) =~= other.take(k).push(other[k]));
        to_multiset_build(other.take(k), other[k]);
        assert(other.contains(other[k]));
    }
}

/// The entry that is reported is the first of the other list whose count there goes beyond its
/// count in the log.
pub proof fn reported_entry_comes_first(
    logged: Seq<(u32, u64)>,
    other: Seq<(u32, u64)>,
    nonce: u32,
    index: u64,
) -> (k: int)
    requires
        is_difference(logged, other, Mismatch::NotLogged { nonce, index }),
    ensures
        0 <= k < other.len(),
        other[k] == (nonce, index),
        other.take(k).to_multiset().subset_of(logged.to_multiset()),
        !other.take(k + 1).to_multiset().subset_of(logged.to_multiset()),
{
    broadcast use vstd::multiset::group_multiset_axioms;

    let k = choose|k: int|
        #![trigger other[k]]
        is_first_unlogged(logged, other, (nonce, index), k);
    assert(other.take(k + 1) =~= other.take(k).push(other[k]));
    to_multiset_build(other.take(k), other[k]);
    assert(other.take(k + 1).to_multiset().count(other[k]) > logged.to_multiset().count(other[k]));
    k
}

} // verus!
