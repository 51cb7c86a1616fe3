//! One pass over a clip: the windows that the detector is shown, its verdicts,
//! and the segments they amount to.

use crate::session::{carried, silent_context, with_chunk, SileroVadOrtSession};
use crate::silero::{
    chunk_at, chunk_count, chunk_count_spec, detect_long, each_nonempty, each_within,
    ordered_disjoint, segments_of, sorted_by_start, spans, DetectError, Segment, CHUNK_SIZE,
    PADDING_SIZE,
};
use vstd::prelude::*;

verus! {

/// What the detector is shown for the chunk with index `index` of `audio`: the
/// `PADDING_SIZE` samples in front of the chunk, which are `silence` in front
/// of the first chunk, then the chunk itself.
pub open spec fn window_of<S>(audio: Seq<S>, silence: S, index: int) -> Seq<S> {
    if index == 0 {
        Seq::new(PADDING_SIZE as nat, |i: int| silence) + audio.subrange(0, CHUNK_SIZE as int)
    } else {
        audio.subrange(index * CHUNK_SIZE - PADDING_SIZE, (index + 1) * CHUNK_SIZE)
    }
}

/// Feeding the first chunk to a fresh session gives the first window.
pub proof fn lemma_first_window_of<S>(audio: Seq<S>, silence: S)
    requires
        audio.len() >= CHUNK_SIZE,
    ensures
        with_chunk(silent_context(silence), audio.subrange(0, CHUNK_SIZE as int)) == window_of(
            audio,
            silence,
            0,
        ),
{
    assert(with_chunk(silent_context(silence), audio.subrange(0, CHUNK_SIZE as int)) =~= window_of(
        audio,
        silence,
        0,
    ));
}

/// Completing the step of one chunk and feeding the next gives the next window.
pub proof fn lemma_next_window_of<S>(audio: Seq<S>, silence: S, index: int)
    requires
        0 <= index,
        (index + 2) * CHUNK_SIZE <= audio.len(),
    ensures
        with_chunk(
            carried(window_of(audio, silence, index)),
            audio.subrange((index + 1) * CHUNK_SIZE, (index + 2) * CHUNK_SIZE),
        ) == window_of(audio, silence, index + 1),
{
    assert(with_chunk(
        carried(window_of(audio, silence, index)),
        audio.subrange((index + 1) * CHUNK_SIZE, (index + 2) * CHUNK_SIZE),
    ) =~= window_of(audio, silence, index + 1));
}

/// One pass over a clip. The engine hands out, chunk by chunk, the window to
/// score and the recurrent state to score it with, takes the verdict and the
/// new state, and at the end yields the segments.
pub struct SegmentationEngine<'a, S, R> {
    audio: &'a [S],
    silence: S,
    session: SileroVadOrtSession<S, R>,
    speech: Vec<bool>,
}

impl<'a, S, R> SegmentationEngine<'a, S, R> {
    #[verifier::type_invariant]
    spec fn well_formed(self) -> bool {
        &&& self.speech@.len() <= chunk_count_spec(self.audio@.len() as int)
        &&& self.speech@.len() < chunk_count_spec(self.audio@.len() as int)
            ==> self.session.context_spec() == window_of(
            self.audio@,
            self.silence,
            self.speech@.len() as int,
        )
    }

    /// The clip.
    pub closed spec fn audio_spec(&self) -> Seq<S> {
        self.audio@
    }

    /// The sample that stands in front of the first chunk.
    pub closed spec fn silence_spec(&self) -> S {
        self.silence
    }

    /// The verdicts taken so far, one per chunk, in order.
    pub closed spec fn verdicts(&self) -> Seq<bool> {
        self.speech@
    }

    /// The recurrent state that the next chunk is to be scored with.
    pub closed spec fn state_spec(&self) -> R {
        self.session.state_spec()
    }

    /// The number of chunks that the detector is to score.
    pub open spec fn chunks(&self) -> int {
        chunk_count_spec(self.audio_spec().len() as int)
    }
}

impl<'a, S: Copy, R> SegmentationEngine<'a, S, R> {
    /// Begins a pass over `audio` with a fresh session.
    pub fn start(audio: &'a [S], silence: S, state: R) -> (engine: Self)
        ensures
            engine.audio_spec() == audio@,
            engine.silence_spec() == silence,
            engine.state_spec() == state,
            engine.verdicts() == Seq::<bool>::empty(),
    {
        let mut session = SileroVadOrtSession::new(silence, state);
        match chunk_at(audio, 0) {
            Some(chunk) => {
                proof {
                    lemma_first_window_of(audio@, silence);
                }
                // A chunk cut by `chunk_at` has the right length, so this cannot fail.
                let _ = session.feed(chunk);
            },
            None => {},
        }
        SegmentationEngine { audio, silence, session, speech: Vec::new() }
    }

    /// The window to score next and the recurrent state to score it with, or
    /// `None` when every chunk has its verdict.
    pub fn pending(&self) -> (next: Option<(&Vec<S>, &R)>)
        ensures
            next is Some <==> self.verdicts().len() < self.chunks(),
            next matches Some((window, state)) ==> {
                &&& window@ == window_of(
                    self.audio_spec(),
                    self.silence_spec(),
                    self.verdicts().len() as int,
                )
                &&& *state == self.state_spec()
            },
    {
        proof {
            use_type_invariant(self);
        }
        if self.speech.len() < chunk_count(self.audio.len()) {
            Some((self.session.context(), self.session.state()))
        } else {
            None
        }
    }

    /// Takes the detector's answer to the pending window: whether it is
    /// speech, and the new recurrent state.
    ///
    /// Fails with `ChunkCount` when no window is pending, and with
    /// `MissingState` when the detector gave no state.
    pub fn answer(self, speech: bool, state: Option<R>) -> (result: Result<Self, DetectError>)
        ensures
            self.verdicts().len() >= self.chunks() ==> (result matches Err(e) && e
                == DetectError::ChunkCount),
            self.verdicts().len() < self.chunks() && state is None ==> (result matches Err(e) && e
                == DetectError::MissingState),
            self.verdicts().len() < self.chunks() && state is Some ==> (result matches Ok(next) && {
                &&& next.audio_spec() == self.audio_spec()
                &&& next.silence_spec() == self.silence_spec()
                &&& next.verdicts() == self.verdicts().push(speech)
                &&& next.state_spec() == state->0
            }),
    {
        proof {
            use_type_invariant(&self);
        }
        let SegmentationEngine { audio, silence, mut session, speech: mut verdicts } = self;
        let index = verdicts.len();
        if index >= chunk_count(audio.len()) {
            return Err(DetectError::ChunkCount);
        }
        if let Err(e) = session.commit(state) {
            return Err(e);
        }
        verdicts.push(speech);
        match chunk_at(audio, index + 1) {
            Some(chunk) => {
                proof {
                    lemma_next_window_of(audio@, silence, index as int);
                }
                // A chunk cut by `chunk_at` has the right length, so this cannot fail.
                let _ = session.feed(chunk);
            },
            None => {},
        }
        Ok(SegmentationEngine { audio, silence, session, speech: verdicts })
    }

    /// The segments of the clip, once every chunk has its verdict.
    pub fn finish(self) -> (result: Result<Vec<Segment>, DetectError>)
        ensures
            result is Err <==> self.verdicts().len() != self.chunks(),
            result matches Err(e) ==> e == DetectError::ChunkCount,
            result matches Ok(segments) ==> {
                &&& spans(segments@) == segments_of(
                    self.verdicts(),
                    self.audio_spec().len() as int,
                )
                &&& each_nonempty(spans(segments@))
                &&& each_within(spans(segments@), self.audio_spec().len() as int)
                &&& sorted_by_start(spans(segments@))
                &&& ordered_disjoint(spans(segments@))
            },
    {
        detect_long(self.speech.as_slice(), self.audio.len())
    }
}

} // verus!
