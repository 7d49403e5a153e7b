//! The proof of work that a nonce group has to be paid for with.

use vstd::prelude::*;

verus! {

/// Why no proof of work came back.
#[derive(Debug, Clone, PartialEq, Eq)]
pub enum Error {
    /// The search space holds no nonce that meets the difficulty.
    PoWNotFound,
    /// The prover itself failed, for this reason.
    Internal(String),
}

/// A search for proofs of work.
pub trait Prover {
    /// Looks for a number that, hashed with the nonce group, the challenge and the miner, falls
    /// below `difficulty`.
    fn prove(
        &self,
        nonce_group: u8,
        challenge: &[u8; 8],
        difficulty: &[u8; 32],
        miner_id: &[u8; 32],
    ) -> Result<u64, Error>;
}

/// Whether asking `prover` for a proof of work for `nonce_group` can give `outcome`. The prover
/// is handed the nonce group as a byte and the front of the challenge.
pub open spec fn can_give<P: Prover>(
    prover: &P,
    nonce_group: int,
    challenge: Seq<u8>,
    difficulty: [u8; 32],
    miner_id: [u8; 32],
    outcome: Result<u64, Error>,
) -> bool {
    exists|front: [u8; 8]|
        front@ == challenge.take(8) && 0 <= nonce_group <= u8::MAX && #[trigger] call_ensures(
            P::prove,
            (prover, nonce_group as u8, &front, &difficulty, &miner_id),
            outcome,
        )
}

/// What a proof of work is asked for with.
pub struct Request {
    pub nonce_group: u8,
    pub challenge: [u8; 8],
    pub difficulty: [u8; 32],
    pub miner_id: [u8; 32],
}

/// The requests for `count` nonce groups from `first` on, in order.
pub open spec fn requests(
    first: int,
    count: nat,
    challenge: [u8; 8],
    difficulty: [u8; 32],
    miner_id: [u8; 32],
) -> Seq<Request> {
    Seq::new(
        count,
        |i: int| Request { nonce_group: (first + i) as u8, challenge, difficulty, miner_id },
    )
}

/// Where proofs of work come from, one after the other.
pub trait Source: Sized {
    /// What of a source decides which outcomes it gives. No request changes it.
    type Kind;

    /// The kind of this source.
    spec fn kind(&self) -> Self::Kind;

    /// Whether a source of this kind, after it was asked for `before`, can give `outcome` for
    /// `request`.
    spec fn gives(
        kind: Self::Kind,
        before: Seq<Request>,
        request: Request,
        outcome: Result<u64, Error>,
    ) -> bool;

    /// What was asked for so far, in order.
    spec fn asked(&self) -> Seq<Request>;

    /// Asks for a proof of work.
    fn ask(
        &mut self,
        nonce_group: u8,
        challenge: &[u8; 8],
        difficulty: &[u8; 32],
        miner_id: &[u8; 32],
    ) -> (outcome: Result<u64, Error>)
        ensures
            final(self).kind() == old(self).kind(),
            final(self).asked() == old(self).asked().push(
                (Request {
                    nonce_group,
                    challenge: *challenge,
                    difficulty: *difficulty,
                    miner_id: *miner_id,
                }),
            ),
            Self::gives(
                old(self).kind(),
                old(self).asked(),
                (Request {
                    nonce_group,
                    challenge: *challenge,
                    difficulty: *difficulty,
                    miner_id: *miner_id,
                }),
                outcome,
            ),
    ;
}

/// Whether a source of this kind, after it was asked for `earlier`, can give `pows` for the nonce
/// groups from `first` on, each asked for once.
pub open spec fn grants<S: Source>(
    kind: S::Kind,
    earlier: Seq<Request>,
    first: int,
    challenge: [u8; 8],
    difficulty: [u8; 32],
    miner_id: [u8; 32],
    pows: Seq<u64>,
) -> bool {
    forall|i: int|
        0 <= i < pows.len() ==> S::gives(
            kind,
            earlier + requests(first, i as nat, challenge, difficulty, miner_id),
            Request { nonce_group: (first + i) as u8, challenge, difficulty, miner_id },
            Ok(#[trigger] pows[i]),
        )
}

/// A prover as a source.
pub struct Recorder<'a, P: Prover> {
    prover: &'a P,
    asked: Ghost<Seq<Request>>,
}

impl<'a, P: Prover> Recorder<'a, P> {
    /// A source that asks `prover`.
    pub fn new(prover: &'a P) -> (source: Self)
        ensures
            source.kind() == *prover,
            source.asked() == Seq::<Request>::empty(),
    {
        Recorder { prover, asked: Ghost(Seq::empty()) }
    }
}

impl<'a, P: Prover> Source for Recorder<'a, P> {
    type Kind = P;

    closed spec fn kind(&self) -> P {
        *self.prover
    }

    open spec fn gives(
        prover: P,
        before: Seq<Request>,
        request: Request,
        outcome: Result<u64, Error>,
    ) -> bool {
        call_ensures(
            P::prove,
            (
                &prover,
                request.nonce_group,
                &request.challenge,
                &request.difficulty,
                &request.miner_id,
            ),
            outcome,
        )
    }

    closed spec fn asked(&self) -> Seq<Request> {
        self.asked@
    }

    fn ask(
        &mut self,
        nonce_group: u8,
        challenge: &[u8; 8],
        difficulty: &[u8; 32],
        miner_id: &[u8; 32],
    ) -> (outcome: Result<u64, Error>) {
        let ghost request = Request {
            nonce_group,
            challenge: *challenge,
            difficulty: *difficulty,
            miner_id: *miner_id,
        };
        let outcome = self.prover.prove(nonce_group, challenge, difficulty, miner_id);
        self.asked = Ghost(self.asked@.push(request));
        outcome
    }
}

/// What can come back for a nonce group is what the prover can return when it is called with that
/// group, the first 8 bytes of the challenge, the difficulty and the miner as they are.
pub proof fn outcomes_come_from_the_prover<P: Prover>(
    prover: &P,
    nonce_group: u8,
    challenge: Seq<u8>,
    front: [u8; 8],
    difficulty: [u8; 32],
    miner_id: [u8; 32],
    outcome: Result<u64, Error>,
)
    requires
        front@ == challenge.take(8),
    ensures
        can_give(prover, nonce_group as int, challenge, difficulty, miner_id, outcome)
            <==> call_ensures(
            P::prove,
            (prover, nonce_group, &front, &difficulty, &miner_id),
            outcome,
        ),
{
    if can_give(prover, nonce_group as int, challenge, difficulty, miner_id, outcome) {
        let other = choose|other: [u8; 8]|
            other@ == challenge.take(8) && #[trigger] call_ensures(
                P::prove,
                (prover, nonce_group, &other, &difficulty, &miner_id),
                outcome,
            );
        assert(other@ =~= front@);
        lemma_arrays_of_eight(other, front);
    }
}

/// Arrays that hold the same are the same.
proof fn lemma_arrays_of_eight(a: [u8; 8], b: [u8; 8])
    requires
        a@ == b@,
    ensures
        a == b,
{
    assert forall|i: int| 0 <= i < 8 implies a[i] == b[i] by {
        assert(a@[i] == b@[i]);
    }
    assert(a =~= b);
}

/// There is one request for each nonce group, in ascending order, and each carries the challenge,
/// the difficulty and the miner as they are.
pub proof fn requests_ascend(
    first: int,
    count: nat,
    challenge: [u8; 8],
    difficulty: [u8; 32],
    miner_id: [u8; 32],
    i: int,
)
    requires
        0 <= first,
        first + count <= 256,
    ensures
        requests(first, count, challenge, difficulty, miner_id).len() == count,
        0 <= i < count ==> {
            let request = requests(first, count, challenge, difficulty, miner_id)[i];
            &&& request.nonce_group == first + i
            &&& request.challenge == challenge
            &&& request.difficulty == difficulty
            &&& request.miner_id == miner_id
        },
{
}

/// What a recorder gives for a request is what its prover returns when it is called with the parts
/// of the request, each as it is.
pub proof fn recorder_passes_requests_on<'a, P: Prover>(
    prover: P,
    before: Seq<Request>,
    request: Request,
    outcome: Result<u64, Error>,
)
    ensures
        <Recorder<'a, P> as Source>::gives(prover, before, request, outcome) <==> call_ensures(
            P::prove,
            (
                &prover,
                request.nonce_group,
                &request.challenge,
                &request.difficulty,
                &request.miner_id,
            ),
            outcome,
        ),
{
}

} // verus!
