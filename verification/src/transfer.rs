use vstd::prelude::*;
use crate::error::AudioError;

verus! {

/// Most samples handed out for playback in one piece.
pub const MAX_PLAYBACK_SAMPLES: usize = 5_000_000;

/// Number of samples there are, or the error where there are none.
pub fn sample_count(len: usize) -> (result: Result<usize, AudioError>)
    ensures
        result == if len == 0 {
            Err::<usize, AudioError>(AudioError::InputUnavailable)
        } else {
            Ok::<usize, AudioError>(len)
        },
{
    if len == 0 {
        Err(AudioError::InputUnavailable)
    } else {
        Ok(len)
    }
}

/// Number of leading samples handed out for playback: all of them, up to
/// the limit.
pub fn playback_len(len: usize) -> (result: Result<usize, AudioError>)
    ensures
        len == 0 ==> result == Err::<usize, AudioError>(AudioError::InputUnavailable),
        len > 0 ==> result == Ok::<usize, AudioError>(
            if len > MAX_PLAYBACK_SAMPLES {
                MAX_PLAYBACK_SAMPLES
            } else {
                len
            },
        ),
{
    if len == 0 {
        Err(AudioError::InputUnavailable)
    } else if len > MAX_PLAYBACK_SAMPLES {
        Ok(MAX_PLAYBACK_SAMPLES)
    } else {
        Ok(len)
    }
}

/// What `chunk_range` returns for chunk `chunk_index` of `len` samples cut
/// into chunks of `chunk_size`.
pub open spec fn chunk_range_spec(chunk_index: nat, chunk_size: nat, len: nat) -> Result<
    (nat, nat),
    AudioError,
> {
    let start = chunk_index * chunk_size;
    if len == 0 {
        Err(AudioError::InputUnavailable)
    } else if start >= len {
        Err(AudioError::ChunkOutOfRange)
    } else if start + chunk_size < len {
        Ok((start, start + chunk_size))
    } else {
        Ok((start, len))
    }
}

/// Start and end of chunk `chunk_index` among `len` samples. The last chunk
/// ends with the samples.
pub fn chunk_range(chunk_index: usize, chunk_size: usize, len: usize) -> (result: Result<
    (usize, usize),
    AudioError,
>)
    ensures
        result.is_ok() == chunk_range_spec(chunk_index as nat, chunk_size as nat, len as nat).is_ok(),
        result matches Err(e) ==> chunk_range_spec(
            chunk_index as nat,
            chunk_size as nat,
            len as nat,
        ) == Err::<(nat, nat), AudioError>(e),
        result matches Ok(range) ==> chunk_range_spec(
            chunk_index as nat,
            chunk_size as nat,
            len as nat,
        ) == Ok::<(nat, nat), AudioError>((range.0 as nat, range.1 as nat)),
{
    if len == 0 {
        return Err(AudioError::InputUnavailable);
    }
    assert(chunk_index * chunk_size <= 0xffff_ffff_ffff_ffff * 0xffff_ffff_ffff_ffff)
        by (nonlinear_arith)
        requires
            0 <= chunk_index <= 0xffff_ffff_ffff_ffff,
            0 <= chunk_size <= 0xffff_ffff_ffff_ffff,
    ;
    let start: u128 = (chunk_index as u128) * (chunk_size as u128);
    if start >= len as u128 {
        return Err(AudioError::ChunkOutOfRange);
    }
    let start: usize = start as usize;
    let end: usize = if len - start > chunk_size {
        start + chunk_size
    } else {
        len
    };
    Ok((start, end))
}

/// What `selection_range` returns for the frames `start_frame..end_frame` of
/// `len` interleaved samples with `channels` samples to a frame.
pub open spec fn selection_range_spec(
    start_frame: nat,
    end_frame: nat,
    channels: nat,
    len: nat,
) -> Result<(nat, nat), AudioError> {
    let start = start_frame * channels;
    let end = if end_frame * channels < len {
        end_frame * channels
    } else {
        len
    };
    if len == 0 {
        Err(AudioError::InputUnavailable)
    } else if start >= end {
        Err(AudioError::InvalidSelection)
    } else {
        Ok((start, end))
    }
}

/// Start and end, among `len` interleaved samples, of the frames
/// `start_frame..end_frame`. A selection that reaches behind the samples
/// ends with them; one that holds no sample is refused.
pub fn selection_range(start_frame: usize, end_frame: usize, channels: usize, len: usize) -> (result:
    Result<(usize, usize), AudioError>)
    ensures
        result.is_ok() == selection_range_spec(
            start_frame as nat,
            end_frame as nat,
            channels as nat,
            len as nat,
        ).is_ok(),
        result matches Err(e) ==> selection_range_spec(
            start_frame as nat,
            end_frame as nat,
            channels as nat,
            len as nat,
        ) == Err::<(nat, nat), AudioError>(e),
        result matches Ok(range) ==> selection_range_spec(
            start_frame as nat,
            end_frame as nat,
            channels as nat,
            len as nat,
        ) == Ok::<(nat, nat), AudioError>((range.0 as nat, range.1 as nat)),
{
    if len == 0 {
        return Err(AudioError::InputUnavailable);
    }
    assert(start_frame * channels <= 0xffff_ffff_ffff_ffff * 0xffff_ffff_ffff_ffff)
        by (nonlinear_arith)
        requires
            0 <= start_frame <= 0xffff_ffff_ffff_ffff,
            0 <= channels <= 0xffff_ffff_ffff_ffff,
    ;
    assert(end_frame * channels <= 0xffff_ffff_ffff_ffff * 0xffff_ffff_ffff_ffff)
        by (nonlinear_arith)
        requires
            0 <= end_frame <= 0xffff_ffff_ffff_ffff,
            0 <= channels <= 0xffff_ffff_ffff_ffff,
    ;
    let start: u128 = (start_frame as u128) * (channels as u128);
    let reach: u128 = (end_frame as u128) * (channels as u128);
    let end: u128 = if reach < len as u128 {
        reach
    } else {
        len as u128
    };
    if start >= end {
        return Err(AudioError::InvalidSelection);
    }
    Ok((start as usize, end as usize))
}

} // verus!
