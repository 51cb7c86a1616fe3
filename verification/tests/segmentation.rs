use silero_rs::engine::SegmentationEngine;
use silero_rs::session::SileroVadOrtSession;
use silero_rs::silero::{chunk_at, chunk_count, detect_long, DetectError, Segment, CHUNK_SIZE, PADDING_SIZE};

/// Scores a window as a detector would: the recurrent state counts the chunks.
fn stub_detector(scores: &[f32], window: &[f32], state: &usize) -> (f32, Option<usize>) {
    assert_eq!(window.len(), PADDING_SIZE + CHUNK_SIZE);
    (scores[*state], Some(*state + 1))
}

/// Runs a clip through the engine and the stub detector, chunk by chunk.
fn segment_clip(audio: &[f32], scores: &[f32], threshold: f32) -> Result<Vec<Segment>, DetectError> {
    let mut engine = SegmentationEngine::start(audio, 0.0f32, 0usize);
    while let Some((window, state)) = engine.pending() {
        let (probability, next) = stub_detector(scores, window, state);
        engine = engine.answer(probability > threshold, next)?;
    }
    engine.finish()
}

#[test]
fn three_silent_chunks_give_no_segments() {
    let audio = vec![0.0f32; 3 * CHUNK_SIZE];
    let segments = segment_clip(&audio, &[0.0, 0.0, 0.0], 0.5).unwrap();
    assert_eq!(segments, vec![]);
}

#[test]
fn four_loud_chunks_in_eight_give_one_segment() {
    let audio = vec![0.25f32; 8 * CHUNK_SIZE];
    let scores = [0.1, 0.1, 0.9, 0.9, 0.9, 0.9, 0.1, 0.1];
    let segments = segment_clip(&audio, &scores, 0.5).unwrap();
    // Chunks 2 to 5 are speech; chunk 6 is the silent one that closes the region.
    assert_eq!(segments, vec![Segment { start: 2 * 512, end: 7 * 512 }]);
}

#[test]
fn clip_one_sample_short_of_a_chunk_gives_no_segments() {
    let audio = vec![1.0f32; CHUNK_SIZE - 1];
    assert_eq!(chunk_count(audio.len()), 0);
    assert!(chunk_at(&audio, 0).is_none());
    let segments = segment_clip(&audio, &[], 0.5).unwrap();
    assert_eq!(segments, vec![]);
}

#[test]
fn probability_equal_to_threshold_is_silence() {
    let audio = vec![0.5f32; 2 * CHUNK_SIZE];
    let segments = segment_clip(&audio, &[0.5, 0.5], 0.5).unwrap();
    assert_eq!(segments, vec![]);
}

#[test]
fn open_region_ends_at_the_clip_length() {
    let segments = detect_long(&[false, true, true], 3 * CHUNK_SIZE + 100).unwrap();
    assert_eq!(segments, vec![Segment { start: 512, end: 1636 }]);
}

#[test]
fn closed_region_ends_with_the_silent_chunk() {
    let segments = detect_long(&[true, false, false], 3 * CHUNK_SIZE).unwrap();
    assert_eq!(segments, vec![Segment { start: 0, end: 1024 }]);
}

#[test]
fn regions_are_sorted_and_do_not_overlap() {
    let speech = [true, false, true, true, false, false, true, false, true];
    let audio_len = 9 * CHUNK_SIZE + 17;
    let segments = detect_long(&speech, audio_len).unwrap();
    assert_eq!(
        segments,
        vec![
            Segment { start: 0, end: 1024 },
            Segment { start: 1024, end: 2560 },
            Segment { start: 3072, end: 4096 },
            Segment { start: 4096, end: audio_len },
        ]
    );
    for segment in &segments {
        assert!(segment.start < segment.end);
        assert!(segment.end <= audio_len);
    }
    for pair in segments.windows(2) {
        assert!(pair[0].start < pair[1].start);
        assert!(pair[0].end <= pair[1].start);
    }
}

#[test]
fn all_silent_decisions_give_no_segments() {
    let speech = vec![false; 40];
    assert_eq!(detect_long(&speech, 40 * CHUNK_SIZE + 511).unwrap(), vec![]);
}

#[test]
fn empty_clip_gives_no_segments() {
    assert_eq!(detect_long(&[], 0).unwrap(), vec![]);
}

#[test]
fn decisions_must_match_the_chunks_of_the_clip() {
    assert_eq!(detect_long(&[true], 2 * CHUNK_SIZE), Err(DetectError::ChunkCount));
    assert_eq!(detect_long(&[true, false], CHUNK_SIZE), Err(DetectError::ChunkCount));
    assert_eq!(detect_long(&[], CHUNK_SIZE), Err(DetectError::ChunkCount));
}

#[test]
fn chunk_count_drops_the_remainder() {
    assert_eq!(chunk_count(0), 0);
    assert_eq!(chunk_count(511), 0);
    assert_eq!(chunk_count(512), 1);
    assert_eq!(chunk_count(1023), 1);
    assert_eq!(chunk_count(1024), 2);
}

#[test]
fn chunks_are_cut_in_order_without_overlap() {
    let audio: Vec<u32> = (0..1300).collect();
    assert_eq!(chunk_at(&audio, 0).unwrap(), &audio[0..512]);
    assert_eq!(chunk_at(&audio, 1).unwrap(), &audio[512..1024]);
    assert!(chunk_at(&audio, 2).is_none());
    assert!(chunk_at(&audio, usize::MAX).is_none());
}

#[test]
fn fresh_session_is_silent() {
    let session = SileroVadOrtSession::new(0.0f32, [0u8; 4]);
    assert_eq!(session.context(), &vec![0.0f32; PADDING_SIZE + CHUNK_SIZE]);
    assert_eq!(session.state(), &[0u8; 4]);
}

#[test]
fn feed_writes_the_chunk_behind_the_carried_samples() {
    let mut session = SileroVadOrtSession::new(0i32, ());
    let chunk: Vec<i32> = (1..=512).collect();
    assert_eq!(session.feed(&chunk), Ok(()));
    let context = session.context();
    assert_eq!(&context[..PADDING_SIZE], &[0i32; 64][..]);
    assert_eq!(&context[PADDING_SIZE..], &chunk[..]);
}

#[test]
fn commit_carries_the_tail_to_the_head() {
    let mut session = SileroVadOrtSession::new(0i32, 7u8);
    let first: Vec<i32> = (1..=512).collect();
    session.feed(&first).unwrap();
    assert_eq!(session.commit(Some(8u8)), Ok(()));
    assert_eq!(session.state(), &8u8);
    let tail: Vec<i32> = (449..=512).collect();
    assert_eq!(&session.context()[..PADDING_SIZE], &tail[..]);
    assert_eq!(&session.context()[CHUNK_SIZE..], &tail[..]);
    assert_eq!(&session.context()[PADDING_SIZE..], &first[..]);

    let second: Vec<i32> = (1001..=1512).collect();
    session.feed(&second).unwrap();
    assert_eq!(&session.context()[..PADDING_SIZE], &tail[..]);
    assert_eq!(&session.context()[PADDING_SIZE..], &second[..]);
}

#[test]
fn chunk_of_wrong_length_is_refused() {
    let mut session = SileroVadOrtSession::new(0i32, ());
    assert_eq!(session.feed(&[1i32; 511]), Err(DetectError::ChunkLength));
    assert_eq!(session.feed(&[1i32; 513]), Err(DetectError::ChunkLength));
    assert_eq!(session.feed(&[]), Err(DetectError::ChunkLength));
    assert_eq!(session.context(), &vec![0i32; PADDING_SIZE + CHUNK_SIZE]);
}

#[test]
fn step_without_new_state_fails_and_changes_nothing() {
    let mut session = SileroVadOrtSession::new(0i32, 3u8);
    let chunk = vec![5i32; CHUNK_SIZE];
    session.feed(&chunk).unwrap();
    let before = session.context().clone();
    assert_eq!(session.commit(None), Err(DetectError::MissingState));
    assert_eq!(session.state(), &3u8);
    assert_eq!(session.context(), &before);
}

#[test]
fn engine_shows_each_chunk_behind_the_samples_before_it() {
    let audio: Vec<i32> = (1..=1600).collect();
    let mut engine = SegmentationEngine::start(&audio, 0i32, 'a');
    let mut windows = Vec::new();
    let mut states = Vec::new();
    while let Some((window, state)) = engine.pending() {
        windows.push(window.clone());
        states.push(*state);
        let next = ((*state as u8) + 1) as char;
        engine = engine.answer(true, Some(next)).unwrap();
    }
    assert_eq!(states, vec!['a', 'b', 'c']);
    assert_eq!(windows.len(), 3);
    let mut first = vec![0i32; PADDING_SIZE];
    first.extend(1..=512);
    assert_eq!(windows[0], first);
    assert_eq!(windows[1], (449..=1024).collect::<Vec<i32>>());
    assert_eq!(windows[2], (961..=1536).collect::<Vec<i32>>());
    assert_eq!(engine.finish(), Ok(vec![Segment { start: 0, end: 1600 }]));
}

#[test]
fn engine_refuses_an_answer_without_a_pending_window() {
    let audio = vec![0u8; CHUNK_SIZE];
    let engine = SegmentationEngine::start(&audio, 0u8, ());
    let engine = engine.answer(false, Some(())).unwrap();
    assert!(engine.pending().is_none());
    assert!(matches!(engine.answer(false, Some(())), Err(DetectError::ChunkCount)));

    let short = vec![0u8; CHUNK_SIZE - 1];
    let engine = SegmentationEngine::start(&short, 0u8, ());
    assert!(engine.pending().is_none());
    assert!(matches!(engine.answer(true, Some(())), Err(DetectError::ChunkCount)));
}

#[test]
fn engine_fails_when_the_detector_gives_no_state() {
    let audio = vec![0u8; 2 * CHUNK_SIZE];
    let engine = SegmentationEngine::start(&audio, 0u8, 1u32);
    assert!(matches!(engine.answer(true, None), Err(DetectError::MissingState)));
}

#[test]
fn engine_does_not_finish_before_the_last_verdict() {
    let audio = vec![0u8; 2 * CHUNK_SIZE];
    let engine = SegmentationEngine::start(&audio, 0u8, ());
    let engine = engine.answer(true, Some(())).unwrap();
    assert_eq!(engine.finish(), Err(DetectError::ChunkCount));
}
