//! What the segments of a clip are, said without the state machine: the
//! maximal runs of speech chunks.

use crate::silero::{segments_of, trace_of, EngineState, Span, Trace, CHUNK_SIZE};
use vstd::prelude::*;

verus! {

/// Chunks `a` up to `b`, without `b`, are speech, the chunk before `a` is not,
/// and chunk `b` is silent: a run of speech that a silent chunk closed.
pub open spec fn is_closed_run(speech: Seq<bool>, a: int, b: int) -> bool {
    &&& 0 <= a < b < speech.len()
    &&& forall|i: int| a <= i < b ==> speech[i]
    &&& a > 0 ==> !speech[a - 1]
    &&& !speech[b]
}

/// Chunks `a` up to the last are speech and the chunk before `a` is not: a
/// run of speech that nothing closed.
pub open spec fn is_open_run(speech: Seq<bool>, a: int) -> bool {
    &&& 0 <= a < speech.len()
    &&& forall|i: int| a <= i < speech.len() ==> speech[i]
    &&& a > 0 ==> !speech[a - 1]
}

/// The region of a closed run: from the first sample of its first chunk to
/// the last sample of the silent chunk behind it.
pub open spec fn closed_region(a: int, b: int) -> Span {
    Span { start: a * CHUNK_SIZE, end: (b + 1) * CHUNK_SIZE }
}

/// The region of an open run: from the first sample of its first chunk to the
/// end of the clip.
pub open spec fn open_region(a: int, audio_len: int) -> Span {
    Span { start: a * CHUNK_SIZE, end: audio_len }
}

/// `region` is the region of some closed run in `speech`.
pub open spec fn is_region_of_closed_run(speech: Seq<bool>, region: Span) -> bool {
    exists|a: int, b: int| #[trigger] is_closed_run(speech, a, b) && region == closed_region(a, b)
}

/// `region` is the region of the open run in `speech`.
pub open spec fn is_region_of_open_run(speech: Seq<bool>, audio_len: int, region: Span) -> bool {
    exists|a: int| #[trigger] is_open_run(speech, a) && region == open_region(a, audio_len)
}

/// `region` is the region of some run of speech in `speech`.
pub open spec fn is_region_of_run(speech: Seq<bool>, audio_len: int, region: Span) -> bool {
    is_region_of_closed_run(speech, region) || is_region_of_open_run(speech, audio_len, region)
}

/// `regions` holds `region`.
pub open spec fn holds(regions: Seq<Span>, region: Span) -> bool {
    exists|k: int| 0 <= k < regions.len() && #[trigger] regions[k] == region
}

/// The trace holds the closed runs, all of them and nothing else, and is in
/// speech exactly when there is an open run, at whose start the region began.
spec fn trace_matches_runs(speech: Seq<bool>, trace: Trace) -> bool {
    &&& forall|k: int|
        0 <= k < trace.closed.len() ==> is_region_of_closed_run(speech, #[trigger] trace.closed[k])
    &&& forall|a: int, b: int| #[trigger]
        is_closed_run(speech, a, b) ==> holds(trace.closed, closed_region(a, b))
    &&& match trace.state {
        EngineState::Silence => forall|a: int| !is_open_run(speech, a),
        EngineState::InSpeech { start } => exists|a: int| #[trigger]
            is_open_run(speech, a) && start == a * CHUNK_SIZE,
    }
}

/// A speech sequence has at most one open run.
proof fn lemma_open_run_unique(speech: Seq<bool>, a: int, other: int)
    requires
        is_open_run(speech, a),
        is_open_run(speech, other),
    ensures
        a == other,
{
    if a < other {
        assert(speech[other - 1]);
    } else if other < a {
        assert(speech[a - 1]);
    }
}

/// The state machine's trace holds exactly the closed runs.
proof fn lemma_trace_matches_runs(speech: Seq<bool>)
    ensures
        trace_matches_runs(speech, trace_of(speech)),
    decreases speech.len(),
{
    if speech.len() == 0 {
        return ;
    }
    let before = speech.drop_last();
    let n = before.len() as int;
    let said = speech.last();
    let old_trace = trace_of(before);
    let new_trace = trace_of(speech);
    lemma_trace_matches_runs(before);
    // A closed run of the shorter sequence is one of the longer.
    assert forall|a: int, b: int| is_closed_run(before, a, b) implies is_closed_run(
        speech,
        a,
        b,
    ) by {
        assert forall|i: int| a <= i < b implies speech[i] by {
            assert(before[i]);
        }
        assert(before[b] == speech[b]);
        if a > 0 {
            assert(before[a - 1] == speech[a - 1]);
        }
    }
    // A closed run of the longer sequence that ends before the new chunk is one of the shorter.
    assert forall|a: int, b: int| is_closed_run(speech, a, b) && b < n implies is_closed_run(
        before,
        a,
        b,
    ) by {
        assert forall|i: int| a <= i < b implies before[i] by {
            assert(speech[i]);
        }
        assert(before[b] == speech[b]);
        if a > 0 {
            assert(before[a - 1] == speech[a - 1]);
        }
    }
    // A run that the new chunk closes was the open run of the shorter sequence.
    assert forall|a: int| is_closed_run(speech, a, n) implies is_open_run(before, a) by {
        assert forall|i: int| a <= i < before.len() implies before[i] by {
            assert(speech[i]);
        }
        if a > 0 {
            assert(before[a - 1] == speech[a - 1]);
        }
    }
    // An open run of the longer sequence that began earlier was open in the shorter.
    assert forall|a: int| is_open_run(speech, a) && a < n implies is_open_run(before, a) by {
        assert forall|i: int| a <= i < before.len() implies before[i] by {
            assert(speech[i]);
        }
        if a > 0 {
            assert(before[a - 1] == speech[a - 1]);
        }
    }
    match old_trace.state {
        EngineState::Silence => {
            if said {
                assert(is_open_run(speech, n)) by {
                    if n > 0 {
                        // The shorter sequence has no open run, so it ends in silence.
                        if before[n - 1] {
                            lemma_tail_run_exists(before);
                        }
                        assert(speech[n - 1] == before[n - 1]);
                    }
                }
                assert forall|a: int, b: int| #[trigger]
                    is_closed_run(speech, a, b) implies holds(
                    new_trace.closed,
                    closed_region(a, b),
                ) by {
                    assert(b < n);
                    assert(is_closed_run(before, a, b));
                }
            } else {
                assert forall|a: int| !is_open_run(speech, a) by {
                    if is_open_run(speech, a) {
                        assert(speech[n]);
                    }
                }
                assert forall|a: int, b: int| #[trigger]
                    is_closed_run(speech, a, b) implies holds(
                    new_trace.closed,
                    closed_region(a, b),
                ) by {
                    if b == n {
                        assert(is_open_run(before, a));
                    } else {
                        assert(is_closed_run(before, a, b));
                    }
                }
            }
            assert forall|k: int| 0 <= k < new_trace.closed.len() implies is_region_of_closed_run(
                speech,
                #[trigger] new_trace.closed[k],
            ) by {
                let (a, b) = choose|a: int, b: int| #[trigger]
                    is_closed_run(before, a, b) && old_trace.closed[k] == closed_region(a, b);
                assert(is_closed_run(speech, a, b));
            }
        },
        EngineState::InSpeech { start } => {
            let run = choose|a: int| #[trigger] is_open_run(before, a) && start == a * CHUNK_SIZE;
            if said {
                assert(is_open_run(speech, run)) by {
                    assert forall|i: int| run <= i < speech.len() implies speech[i] by {
                        if i < n {
                            assert(before[i]);
                        }
                    }
                    if run > 0 {
                        assert(before[run - 1] == speech[run - 1]);
                    }
                }
                assert forall|a: int, b: int| #[trigger]
                    is_closed_run(speech, a, b) implies holds(
                    new_trace.closed,
                    closed_region(a, b),
                ) by {
                    assert(b < n);
                    assert(is_closed_run(before, a, b));
                }
                assert forall|k: int|
                    0 <= k < new_trace.closed.len() implies is_region_of_closed_run(
                    speech,
                    #[trigger] new_trace.closed[k],
                ) by {
                    let (a, b) = choose|a: int, b: int| #[trigger]
                        is_closed_run(before, a, b) && old_trace.closed[k] == closed_region(a, b);
                    assert(is_closed_run(speech, a, b));
                }
            } else {
                assert(is_closed_run(speech, run, n)) by {
                    assert forall|i: int| run <= i < n implies speech[i] by {
                        assert(before[i]);
                    }
                    if run > 0 {
                        assert(before[run - 1] == speech[run - 1]);
                    }
                }
                assert(new_trace.closed == old_trace.closed.push(closed_region(run, n)));
                assert forall|a: int| !is_open_run(speech, a) by {
                    if is_open_run(speech, a) {
                        assert(speech[n]);
                    }
                }
                assert forall|a: int, b: int| #[trigger]
                    is_closed_run(speech, a, b) implies holds(
                    new_trace.closed,
                    closed_region(a, b),
                ) by {
                    if b == n {
                        assert(is_open_run(before, a));
                        lemma_open_run_unique(before, a, run);
                        assert(new_trace.closed[old_trace.closed.len() as int] == closed_region(
                            a,
                            b,
                        ));
                    } else {
                        assert(is_closed_run(before, a, b));
                        let k = choose|k: int|
                            0 <= k < old_trace.closed.len() && #[trigger] old_trace.closed[k]
                                == closed_region(a, b);
                        assert(new_trace.closed[k] == closed_region(a, b));
                    }
                }
                assert forall|k: int|
                    0 <= k < new_trace.closed.len() implies is_region_of_closed_run(
                    speech,
                    #[trigger] new_trace.closed[k],
                ) by {
                    if k < old_trace.closed.len() {
                        let (a, b) = choose|a: int, b: int| #[trigger]
                            is_closed_run(before, a, b) && old_trace.closed[k] == closed_region(
                                a,
                                b,
                            );
                        assert(is_closed_run(speech, a, b));
                    } else {
                        assert(is_closed_run(speech, run, n));
                    }
                }
            }
        },
    }
}

/// A sequence that ends in speech has an open run.
proof fn lemma_tail_run_exists(speech: Seq<bool>)
    requires
        speech.len() > 0,
        speech.last(),
    ensures
        exists|a: int| is_open_run(speech, a),
    decreases speech.len(),
{
    let n = speech.len() as int;
    if n == 1 || !speech[n - 2] {
        assert(is_open_run(speech, n - 1));
    } else {
        let before = speech.drop_last();
        lemma_tail_run_exists(before);
        let a = choose|a: int| is_open_run(before, a);
        assert(is_open_run(speech, a)) by {
            assert forall|i: int| a <= i < n implies speech[i] by {
                if i < n - 1 {
                    assert(before[i]);
                }
            }
            if a > 0 {
                assert(before[a - 1] == speech[a - 1]);
            }
        }
    }
}

/// Every segment of a clip is the region of a run of speech: it starts with
/// the first chunk of the run and ends with the silent chunk that closed it,
/// or with the clip when none did.
pub proof fn lemma_segment_is_run(speech: Seq<bool>, audio_len: int, k: int)
    requires
        0 <= k < segments_of(speech, audio_len).len(),
    ensures
        is_region_of_run(speech, audio_len, segments_of(speech, audio_len)[k]),
{
    lemma_trace_matches_runs(speech);
    let trace = trace_of(speech);
    if k < trace.closed.len() {
        let (a, b) = choose|a: int, b: int| #[trigger]
            is_closed_run(speech, a, b) && trace.closed[k] == closed_region(a, b);
        assert(is_closed_run(speech, a, b));
    } else {
        match trace.state {
            EngineState::Silence => {},
            EngineState::InSpeech { start } => {
                let a = choose|a: int| #[trigger] is_open_run(speech, a) && start == a * CHUNK_SIZE;
                assert(is_open_run(speech, a));
            },
        }
    }
}

/// Every run of speech has its segment.
pub proof fn lemma_run_is_segment(speech: Seq<bool>, audio_len: int, region: Span)
    requires
        is_region_of_run(speech, audio_len, region),
    ensures
        holds(segments_of(speech, audio_len), region),
{
    lemma_trace_matches_runs(speech);
    let trace = trace_of(speech);
    let segments = segments_of(speech, audio_len);
    if is_region_of_closed_run(speech, region) {
        let (a, b) = choose|a: int, b: int| #[trigger]
            is_closed_run(speech, a, b) && region == closed_region(a, b);
        assert(holds(trace.closed, closed_region(a, b)));
        let k = choose|k: int| 0 <= k < trace.closed.len() && #[trigger] trace.closed[k] == region;
        assert(segments[k] == region);
    } else {
        let a = choose|a: int| #[trigger] is_open_run(speech, a) && region == open_region(a, audio_len);
        match trace.state {
            EngineState::Silence => {
                assert(!is_open_run(speech, a));
            },
            EngineState::InSpeech { start } => {
                let run = choose|r: int| #[trigger] is_open_run(speech, r) && start == r * CHUNK_SIZE;
                lemma_open_run_unique(speech, a, run);
                assert(segments[trace.closed.len() as int] == region);
            },
        }
    }
}

} // verus!
