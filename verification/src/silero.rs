//! Chunking and the hysteresis policy that turns per-chunk decisions into
//! segments.

use vstd::prelude::*;

verus! {

/// Number of samples in one chunk handed to the detector.
pub const CHUNK_SIZE: usize = 512;

/// Number of samples carried over from one chunk to the next as context.
pub const PADDING_SIZE: usize = 64;

/// A detected speech region, in samples of the clip it was found in.
#[derive(Clone, Copy, Debug, PartialEq, Eq, Structural)]
pub struct Segment {
    pub start: usize,
    pub end: usize,
}

/// Mathematical model of a [`Segment`].
pub struct Span {
    pub start: int,
    pub end: int,
}

impl View for Segment {
    type V = Span;

    open spec fn view(&self) -> Span {
        Span { start: self.start as int, end: self.end as int }
    }
}

/// The models of a list of segments, in order.
pub open spec fn spans(segments: Seq<Segment>) -> Seq<Span> {
    segments.map_values(|s: Segment| s@)
}

/// Number of full chunks in a clip of `len` samples.
pub open spec fn chunk_count_spec(len: int) -> int {
    len / (CHUNK_SIZE as int)
}

/// Number of full chunks in a clip of `len` samples; a shorter remainder is not counted.
pub fn chunk_count(len: usize) -> (n: usize)
    ensures
        n == chunk_count_spec(len as int),
{
    len / CHUNK_SIZE
}

/// The chunk with the given index of `audio`, or `None` past the last full chunk.
pub fn chunk_at<S>(audio: &[S], index: usize) -> (chunk: Option<&[S]>)
    ensures
        chunk is Some <==> index < chunk_count_spec(audio@.len() as int),
        chunk matches Some(c) ==> c@ == audio@.subrange(
            index * CHUNK_SIZE,
            (index + 1) * CHUNK_SIZE,
        ),
{
    if index < audio.len() / CHUNK_SIZE {
        Some(vstd::slice::slice_subrange(audio, index * CHUNK_SIZE, (index + 1) * CHUNK_SIZE))
    } else {
        None
    }
}

/// The two states of the hysteresis policy.
pub enum EngineState {
    /// No speech region is open.
    Silence,
    /// A speech region is open; it began at sample `start`.
    InSpeech { start: int },
}

/// What the policy holds after some chunks: the regions closed so far and its state.
pub struct Trace {
    pub closed: Seq<Span>,
    pub state: EngineState,
}

/// The trace before the first chunk.
pub open spec fn initial_trace() -> Trace {
    Trace { closed: Seq::empty(), state: EngineState::Silence }
}

/// The trace after the chunk with index `index` was judged `speech`.
///
/// A speech chunk opens a region at its first sample unless one is open; a
/// silent chunk closes the open region at its own last sample.
pub open spec fn observe(trace: Trace, index: int, speech: bool) -> Trace {
    match trace.state {
        EngineState::Silence => if speech {
            Trace { closed: trace.closed, state: EngineState::InSpeech { start: index * CHUNK_SIZE } }
        } else {
            trace
        },
        EngineState::InSpeech { start } => if speech {
            trace
        } else {
            Trace {
                closed: trace.closed.push(Span { start, end: (index + 1) * CHUNK_SIZE }),
                state: EngineState::Silence,
            }
        },
    }
}

/// The trace after all of `speech`, one decision per full chunk, in order.
pub open spec fn trace_of(speech: Seq<bool>) -> Trace
    decreases speech.len(),
{
    if speech.len() == 0 {
        initial_trace()
    } else {
        observe(trace_of(speech.drop_last()), speech.len() - 1, speech.last())
    }
}

/// The segments of a clip of `audio_len` samples whose full chunks were judged
/// as in `speech`: the closed regions, and the open one, if any, ended at the
/// clip's last sample.
pub open spec fn segments_of(speech: Seq<bool>, audio_len: int) -> Seq<Span> {
    let trace = trace_of(speech);
    match trace.state {
        EngineState::Silence => trace.closed,
        EngineState::InSpeech { start } => trace.closed.push(Span { start, end: audio_len }),
    }
}

/// Every region has at least one sample: `start < end`.
pub open spec fn each_nonempty(regions: Seq<Span>) -> bool {
    forall|i: int| 0 <= i < regions.len() ==> (#[trigger] regions[i]).start < regions[i].end
}

/// Every region lies inside a clip of `audio_len` samples.
pub open spec fn each_within(regions: Seq<Span>, audio_len: int) -> bool {
    forall|i: int|
        0 <= i < regions.len() ==> 0 <= (#[trigger] regions[i]).start && regions[i].end
            <= audio_len
}

/// The regions come in order and do not overlap: each ends no later than any
/// later one starts.
pub open spec fn ordered_disjoint(regions: Seq<Span>) -> bool {
    forall|i: int, j: int|
        0 <= i < j < regions.len() ==> (#[trigger] regions[i]).end <= (#[trigger] regions[j]).start
}

/// The regions are sorted by `start`, each starting before any later one.
pub open spec fn sorted_by_start(regions: Seq<Span>) -> bool {
    forall|i: int, j: int|
        0 <= i < j < regions.len() ==> (#[trigger] regions[i]).start < (#[trigger] regions[j]).start
}

/// What holds of the trace after `chunks` chunks, whatever the decisions were.
pub open spec fn trace_wf(trace: Trace, chunks: int) -> bool {
    &&& each_nonempty(trace.closed)
    &&& each_within(trace.closed, chunks * CHUNK_SIZE)
    &&& ordered_disjoint(trace.closed)
    &&& trace.state matches EngineState::InSpeech { start } ==> {
        &&& 0 <= start < chunks * CHUNK_SIZE
        &&& forall|i: int| 0 <= i < trace.closed.len() ==> (#[trigger] trace.closed[i]).end <= start
    }
}

/// After any decisions, the closed regions are non-empty, ordered, disjoint and
/// within the chunks seen, and an open region began inside them, after every
/// closed one.
pub proof fn lemma_trace_wf(speech: Seq<bool>)
    ensures
        trace_wf(trace_of(speech), speech.len() as int),
    decreases speech.len(),
{
    if speech.len() > 0 {
        lemma_trace_wf(speech.drop_last());
    }
}

/// The segments of a clip are sorted by `start`, each starting before the
/// next, and none overlaps a later one: `segments[i].end <= segments[j].start`
/// for `i < j`, so for `j == i + 1` too.
pub proof fn lemma_segments_sorted(speech: Seq<bool>, audio_len: int)
    requires
        speech.len() == chunk_count_spec(audio_len),
        0 <= audio_len,
    ensures
        sorted_by_start(segments_of(speech, audio_len)),
        ordered_disjoint(segments_of(speech, audio_len)),
{
    lemma_trace_wf(speech);
    lemma_segments_bounded(speech, audio_len);
}

/// Every segment of a clip has `0 <= start < end <= audio_len`.
pub proof fn lemma_segments_bounded(speech: Seq<bool>, audio_len: int)
    requires
        speech.len() == chunk_count_spec(audio_len),
        0 <= audio_len,
    ensures
        each_nonempty(segments_of(speech, audio_len)),
        each_within(segments_of(speech, audio_len), audio_len),
{
    lemma_trace_wf(speech);
}

/// A clip shorter than one chunk has no segments.
pub proof fn lemma_short_clip_has_no_segments(speech: Seq<bool>, audio_len: int)
    requires
        speech.len() == chunk_count_spec(audio_len),
        0 <= audio_len < CHUNK_SIZE,
    ensures
        segments_of(speech, audio_len) == Seq::<Span>::empty(),
{
}

/// A clip none of whose chunks was judged speech has no segments.
pub proof fn lemma_all_silence_has_no_segments(speech: Seq<bool>, audio_len: int)
    requires
        forall|i: int| 0 <= i < speech.len() ==> !speech[i],
    ensures
        trace_of(speech) == initial_trace(),
        segments_of(speech, audio_len) == Seq::<Span>::empty(),
    decreases speech.len(),
{
    if speech.len() > 0 {
        lemma_all_silence_has_no_segments(speech.drop_last(), audio_len);
    }
}

/// Why a clip could not be segmented.
#[derive(Clone, Copy, Debug, PartialEq, Eq, Structural)]
pub enum DetectError {
    /// A chunk handed to a session did not hold `CHUNK_SIZE` samples.
    ChunkLength,
    /// The detector returned no recurrent state.
    MissingState,
    /// The number of decisions is not the number of full chunks of the clip.
    ChunkCount,
    /// The detector itself failed.
    Inference,
}

/// Turns the per-chunk decisions of one clip into its speech segments.
///
/// `speech[i]` says whether the detector scored chunk `i` above the threshold;
/// `audio_len` is the length of the clip in samples.
pub fn detect_long(speech: &[bool], audio_len: usize) -> (result: Result<Vec<Segment>, DetectError>)
    ensures
        result is Err <==> speech@.len() != chunk_count_spec(audio_len as int),
        result matches Err(e) ==> e == DetectError::ChunkCount,
        result matches Ok(segments) ==> {
            &&& spans(segments@) == segments_of(speech@, audio_len as int)
            &&& each_nonempty(spans(segments@))
            &&& each_within(spans(segments@), audio_len as int)
            &&& sorted_by_start(spans(segments@))
            &&& ordered_disjoint(spans(segments@))
        },
{
    if speech.len() != audio_len / CHUNK_SIZE {
        return Err(DetectError::ChunkCount);
    }
    let mut segments: Vec<Segment> = Vec::new();
    let mut start: Option<usize> = None;
    let mut index: usize = 0;
    while index < speech.len()
        invariant
            index <= speech@.len(),
            speech@.len() * CHUNK_SIZE <= audio_len,
            spans(segments@) == trace_of(speech@.take(index as int)).closed,
            match start {
                Some(s) => trace_of(speech@.take(index as int)).state == (EngineState::InSpeech {
                    start: s as int,
                }),
                None => trace_of(speech@.take(index as int)).state == EngineState::Silence,
            },
        decreases speech@.len() - index,
    {
        assert(speech@.take(index + 1).drop_last() == speech@.take(index as int));
        if speech[index] {
            if start.is_none() {
                start = Some(index * CHUNK_SIZE);
            }
        } else {
            if let Some(s) = start {
                let ghost before = segments@;
                segments.push(Segment { start: s, end: (index + 1) * CHUNK_SIZE });
                start = None;
                assert(spans(segments@) == spans(before).push(segments@.last()@));
            }
        }
        index += 1;
    }
    assert(speech@.take(index as int) == speech@);
    proof {
        lemma_segments_sorted(speech@, audio_len as int);
        lemma_segments_bounded(speech@, audio_len as int);
    }
    if let Some(s) = start {
        let ghost before = segments@;
        segments.push(Segment { start: s, end: audio_len });
        assert(spans(segments@) == spans(before).push(segments@.last()@));
    }
    Ok(segments)
}

} // verus!
