//! The state that one clip carries from chunk to chunk: the context buffer
//! and the detector's recurrent state.

use crate::silero::{DetectError, CHUNK_SIZE, PADDING_SIZE};
use vstd::prelude::*;

verus! {

/// Length of the context buffer: the carried samples, then one chunk.
pub open spec fn context_len() -> int {
    PADDING_SIZE + CHUNK_SIZE
}

/// A buffer of `context_len()` samples, all equal to `silence`.
pub open spec fn silent_context<S>(silence: S) -> Seq<S> {
    Seq::new(context_len() as nat, |i: int| silence)
}

/// The buffer after `chunk` was written behind the carried samples.
pub open spec fn with_chunk<S>(context: Seq<S>, chunk: Seq<S>) -> Seq<S> {
    context.take(PADDING_SIZE as int) + chunk
}

/// The buffer after its last `PADDING_SIZE` samples were copied to its head.
/// The samples behind the head stay as they were.
pub open spec fn carried<S>(context: Seq<S>) -> Seq<S> {
    context.skip(CHUNK_SIZE as int) + context.skip(PADDING_SIZE as int)
}

/// The last `PADDING_SIZE` samples of a chunk.
pub open spec fn tail_of<S>(chunk: Seq<S>) -> Seq<S> {
    chunk.skip(CHUNK_SIZE - PADDING_SIZE)
}

/// After a step, the head of the buffer and its last `PADDING_SIZE` samples
/// both hold the last `PADDING_SIZE` samples of the chunk that was fed.
pub proof fn lemma_step_carries_tail<S>(context: Seq<S>, chunk: Seq<S>)
    requires
        context.len() == context_len(),
        chunk.len() == CHUNK_SIZE,
    ensures
        carried(with_chunk(context, chunk)).len() == context_len(),
        carried(with_chunk(context, chunk)).take(PADDING_SIZE as int) == tail_of(chunk),
        carried(with_chunk(context, chunk)).skip(CHUNK_SIZE as int) == tail_of(chunk),
{
    let after = carried(with_chunk(context, chunk));
    assert(after.take(PADDING_SIZE as int) =~= tail_of(chunk));
    assert(after.skip(CHUNK_SIZE as int) =~= tail_of(chunk));
}

/// For every later chunk the detector sees the last `PADDING_SIZE` samples of
/// the chunk before it, then the chunk itself.
pub proof fn lemma_next_window<S>(context: Seq<S>, previous: Seq<S>, chunk: Seq<S>)
    requires
        context.len() == context_len(),
        previous.len() == CHUNK_SIZE,
        chunk.len() == CHUNK_SIZE,
    ensures
        with_chunk(carried(with_chunk(context, previous)), chunk) == tail_of(previous) + chunk,
{
    lemma_step_carries_tail(context, previous);
}

/// Context buffer and recurrent state of one clip. `S` is the sample type,
/// `R` the detector's recurrent state, which the session only stores.
pub struct SileroVadOrtSession<S, R> {
    context: Vec<S>,
    state: R,
}

impl<S, R> SileroVadOrtSession<S, R> {
    #[verifier::type_invariant]
    spec fn well_formed(self) -> bool {
        self.context@.len() == context_len()
    }

    /// The samples of the context buffer.
    pub closed spec fn context_spec(&self) -> Seq<S> {
        self.context@
    }

    /// The recurrent state.
    pub closed spec fn state_spec(&self) -> R {
        self.state
    }
}

impl<S: Copy, R> SileroVadOrtSession<S, R> {
    /// A fresh session: a buffer of `silence` and the given initial state.
    pub fn new(silence: S, state: R) -> (session: Self)
        ensures
            session.context_spec() == silent_context(silence),
            session.state_spec() == state,
    {
        let mut context: Vec<S> = Vec::new();
        let mut filled: usize = 0;
        while filled < PADDING_SIZE + CHUNK_SIZE
            invariant
                filled <= PADDING_SIZE + CHUNK_SIZE,
                context@ == Seq::new(filled as nat, |i: int| silence),
            decreases PADDING_SIZE + CHUNK_SIZE - filled,
        {
            context.push(silence);
            filled += 1;
        }
        SileroVadOrtSession { context, state }
    }

    /// The buffer to hand to the detector: carried samples, then the chunk fed last.
    pub fn context(&self) -> (context: &Vec<S>)
        ensures
            context@ == self.context_spec(),
            context@.len() == context_len(),
    {
        proof {
            use_type_invariant(self);
        }
        &self.context
    }

    /// The recurrent state to hand to the detector.
    pub fn state(&self) -> (state: &R)
        ensures
            *state == self.state_spec(),
    {
        &self.state
    }

    /// Writes `chunk` into the buffer behind the carried samples.
    ///
    /// A chunk that does not hold `CHUNK_SIZE` samples is refused and the
    /// session stays as it was.
    pub fn feed(&mut self, chunk: &[S]) -> (result: Result<(), DetectError>)
        ensures
            final(self).state_spec() == old(self).state_spec(),
            chunk@.len() == CHUNK_SIZE ==> {
                &&& result is Ok
                &&& final(self).context_spec() == with_chunk(old(self).context_spec(), chunk@)
            },
            chunk@.len() != CHUNK_SIZE ==> {
                &&& result == Err::<(), DetectError>(DetectError::ChunkLength)
                &&& final(self).context_spec() == old(self).context_spec()
            },
    {
        proof {
            use_type_invariant(&*self);
        }
        if chunk.len() != CHUNK_SIZE {
            return Err(DetectError::ChunkLength);
        }
        let mut i: usize = 0;
        while i < CHUNK_SIZE
            invariant
                i <= CHUNK_SIZE,
                chunk@.len() == CHUNK_SIZE,
                self.context@.len() == context_len(),
                self.state == old(self).state,
                forall|j: int|
                    0 <= j < PADDING_SIZE || PADDING_SIZE + i <= j < context_len()
                        ==> self.context@[j] == old(self).context@[j],
                forall|j: int| 0 <= j < i ==> self.context@[PADDING_SIZE + j] == chunk@[j],
            decreases CHUNK_SIZE - i,
        {
            self.context[PADDING_SIZE + i] = chunk[i];
            i += 1;
        }
        assert(self.context@ =~= with_chunk(old(self).context@, chunk@));
        Ok(())
    }

    /// Takes the detector's answer to the buffer fed last: stores the new
    /// recurrent state and carries the last `PADDING_SIZE` samples to the head.
    ///
    /// Without a new state the step has failed and the session stays as it was.
    pub fn commit(&mut self, state: Option<R>) -> (result: Result<(), DetectError>)
        ensures
            state matches Some(next) ==> {
                &&& result is Ok
                &&& final(self).state_spec() == next
                &&& final(self).context_spec() == carried(old(self).context_spec())
            },
            state is None ==> {
                &&& result == Err::<(), DetectError>(DetectError::MissingState)
                &&& final(self).state_spec() == old(self).state_spec()
                &&& final(self).context_spec() == old(self).context_spec()
            },
    {
        proof {
            use_type_invariant(&*self);
        }
        match state {
            None => Err(DetectError::MissingState),
            Some(next) => {
                self.state = next;
                let mut i: usize = 0;
                while i < PADDING_SIZE
                    invariant
                        i <= PADDING_SIZE,
                        self.context@.len() == context_len(),
                        self.state == next,
                        forall|j: int|
                            0 <= j < i ==> self.context@[j] == old(self).context@[CHUNK_SIZE + j],
                        forall|j: int|
                            i <= j < context_len() ==> self.context@[j] == old(self).context@[j],
                    decreases PADDING_SIZE - i,
                {
                    let sample = self.context[CHUNK_SIZE + i];
                    self.context[i] = sample;
                    i += 1;
                }
                assert(self.context@ =~= carried(old(self).context@));
                Ok(())
            },
        }
    }
}

} // verus!
