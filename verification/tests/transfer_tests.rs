use audio_forensics::error::AudioError;
use audio_forensics::transfer::chunk_range;
use audio_forensics::transfer::playback_len;
use audio_forensics::transfer::sample_count;
use audio_forensics::transfer::selection_range;
use audio_forensics::transfer::MAX_PLAYBACK_SAMPLES;

#[test]
fn sample_count_of_nothing_is_refused() {
    assert_eq!(sample_count(0), Err(AudioError::InputUnavailable));
    assert_eq!(sample_count(1), Ok(1));
    assert_eq!(sample_count(88_200), Ok(88_200));
}

#[test]
fn playback_is_limited() {
    assert_eq!(playback_len(0), Err(AudioError::InputUnavailable));
    assert_eq!(playback_len(1), Ok(1));
    assert_eq!(playback_len(5_000_000), Ok(5_000_000));
    assert_eq!(playback_len(5_000_001), Ok(5_000_000));
    assert_eq!(playback_len(usize::MAX), Ok(MAX_PLAYBACK_SAMPLES));
}

#[test]
fn chunks_follow_each_other() {
    assert_eq!(chunk_range(0, 1_000, 2_500), Ok((0, 1_000)));
    assert_eq!(chunk_range(1, 1_000, 2_500), Ok((1_000, 2_000)));
    assert_eq!(chunk_range(2, 1_000, 2_500), Ok((2_000, 2_500)));
    assert_eq!(chunk_range(0, 2_500, 2_500), Ok((0, 2_500)));
    assert_eq!(chunk_range(0, 9_000, 2_500), Ok((0, 2_500)));
}

#[test]
fn chunk_behind_the_end_is_refused() {
    assert_eq!(chunk_range(3, 1_000, 2_500), Err(AudioError::ChunkOutOfRange));
    assert_eq!(chunk_range(1, 2_500, 2_500), Err(AudioError::ChunkOutOfRange));
    assert_eq!(chunk_range(usize::MAX, usize::MAX, 2_500), Err(AudioError::ChunkOutOfRange));
    assert_eq!(chunk_range(usize::MAX, 2, 2_500), Err(AudioError::ChunkOutOfRange));
}

#[test]
fn chunk_of_nothing_is_refused_first() {
    assert_eq!(chunk_range(0, 1_000, 0), Err(AudioError::InputUnavailable));
    assert_eq!(chunk_range(7, 1_000, 0), Err(AudioError::InputUnavailable));
}

#[test]
fn chunk_of_no_size_is_empty() {
    assert_eq!(chunk_range(5, 0, 10), Ok((0, 0)));
}

#[test]
fn last_chunk_may_reach_the_largest_length() {
    assert_eq!(chunk_range(1, usize::MAX - 1, usize::MAX), Ok((usize::MAX - 1, usize::MAX)));
}

#[test]
fn selection_covers_whole_frames() {
    assert_eq!(selection_range(10, 20, 2, 1_000), Ok((20, 40)));
    assert_eq!(selection_range(0, 500, 2, 1_000), Ok((0, 1_000)));
    assert_eq!(selection_range(0, 1, 1, 1_000), Ok((0, 1)));
}

#[test]
fn selection_ends_with_the_samples() {
    assert_eq!(selection_range(400, 600, 2, 1_000), Ok((800, 1_000)));
    assert_eq!(selection_range(0, usize::MAX, 2, 1_000), Ok((0, 1_000)));
    assert_eq!(selection_range(499, usize::MAX, usize::MAX, 1_000), Err(AudioError::InvalidSelection));
}

#[test]
fn empty_selection_is_refused() {
    assert_eq!(selection_range(20, 20, 2, 1_000), Err(AudioError::InvalidSelection));
    assert_eq!(selection_range(30, 20, 2, 1_000), Err(AudioError::InvalidSelection));
    assert_eq!(selection_range(500, 600, 2, 1_000), Err(AudioError::InvalidSelection));
    assert_eq!(selection_range(10, 20, 0, 1_000), Err(AudioError::InvalidSelection));
}

#[test]
fn selection_of_nothing_is_refused_first() {
    assert_eq!(selection_range(0, 10, 2, 0), Err(AudioError::InputUnavailable));
    assert_eq!(selection_range(10, 0, 2, 0), Err(AudioError::InputUnavailable));
}
