//! Where good labels go.

use vstd::prelude::*;

verus! {

/// Something that good labels are handed to, one after the other.
pub trait Sink: Sized {
    /// What of a sink decides which labels it takes and how it answers. No label changes it.
    type Kind;

    /// The kind of this sink.
    spec fn kind(&self) -> Self::Kind;

    /// Whether a sink of this kind can be handed `hit`.
    spec fn takes(kind: Self::Kind, hit: (u32, u64)) -> bool;

    /// Whether a sink of this kind, after it was handed `before`, can answer `hit` with `answer`.
    spec fn answers(
        kind: Self::Kind,
        before: Seq<(u32, u64)>,
        hit: (u32, u64),
        answer: Option<Vec<u64>>,
    ) -> bool;

    /// What was handed over so far, in order: nonces with label indexes.
    spec fn handed(&self) -> Seq<(u32, u64)>;

    /// Whether the sink is in order.
    spec fn ready(&self) -> bool;

    /// Hands over a label that is good for `nonce`. Indexes that come back end the search.
    fn consume(&mut self, nonce: u32, index: u64) -> (answer: Option<Vec<u64>>)
        requires
            old(self).ready(),
            Self::takes(old(self).kind(), (nonce, index)),
        ensures
            final(self).ready(),
            final(self).kind() == old(self).kind(),
            final(self).handed() == old(self).handed().push((nonce, index)),
            Self::answers(old(self).kind(), old(self).handed(), (nonce, index), answer),
    ;
}

/// Whether a sink of this kind, after it was handed `earlier`, can answer each of `hits`, one after
/// the other, with nothing.
pub open spec fn ignores<S: Sink>(
    kind: S::Kind,
    earlier: Seq<(u32, u64)>,
    hits: Seq<(u32, u64)>,
) -> bool {
    forall|k: int|
        0 <= k < hits.len() ==> S::answers(kind, earlier + hits.take(k), #[trigger] hits[k], None)
}

/// A list takes every label and answers none.
impl Sink for Vec<(u32, u64)> {
    type Kind = ();

    open spec fn kind(&self) -> () {
        ()
    }

    open spec fn takes(kind: (), hit: (u32, u64)) -> bool {
        true
    }

    open spec fn answers(
        kind: (),
        before: Seq<(u32, u64)>,
        hit: (u32, u64),
        answer: Option<Vec<u64>>,
    ) -> bool {
        answer is None
    }

    open spec fn handed(&self) -> Seq<(u32, u64)> {
        self@
    }

    open spec fn ready(&self) -> bool {
        true
    }

    fn consume(&mut self, nonce: u32, index: u64) -> (answer: Option<Vec<u64>>) {
        self.push((nonce, index));
        None
    }
}

/// A function as a sink.
pub(crate) struct FnSink<F: FnMut(u32, u64) -> Option<Vec<u64>>> {
    function: F,
    handed: Ghost<Seq<(u32, u64)>>,
}

impl<F: FnMut(u32, u64) -> Option<Vec<u64>>> FnSink<F> {
    /// A sink that calls `function`.
    pub(crate) fn new(function: F) -> (sink: Self)
        ensures
            sink.ready(),
            sink.kind() == function,
            sink.handed() == Seq::<(u32, u64)>::empty(),
    {
        FnSink { function, handed: Ghost(Seq::empty()) }
    }
}

impl<F: FnMut(u32, u64) -> Option<Vec<u64>>> Sink for FnSink<F> {
    type Kind = F;

    closed spec fn kind(&self) -> F {
        self.function
    }

    open spec fn takes(function: F, hit: (u32, u64)) -> bool {
        call_requires(function, hit)
    }

    open spec fn answers(
        function: F,
        before: Seq<(u32, u64)>,
        hit: (u32, u64),
        answer: Option<Vec<u64>>,
    ) -> bool {
        call_ensures(function, hit, answer)
    }

    closed spec fn handed(&self) -> Seq<(u32, u64)> {
        self.handed@
    }

    closed spec fn ready(&self) -> bool {
        true
    }

    fn consume(&mut self, nonce: u32, index: u64) -> (answer: Option<Vec<u64>>) {
        let ghost before = self.handed@;
        let function = &mut self.function;
        let answer = function(nonce, index);
        self.handed = Ghost(before.push((nonce, index)));
        answer
    }
}

} // verus!
