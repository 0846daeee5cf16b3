use vstd::prelude::*;

mod arg;
mod probe;

pub use arg::{bitrate_arg, bitrate_arg_string, decimal_string, digit_char};

pub use probe::{
    decimal_micros, digits_value, is_ascii_whitespace, is_well_formed_duration, parse_duration,
    trim_end, trim_start,
};

use vstd::arithmetic::div_mod::lemma_div_is_ordered;

verus! {

/// Why a reduction could not be carried out.
#[derive(Clone, Copy, Debug, PartialEq, Eq, Structural)]
pub enum ReduceError {
    /// The target size is not one of the sizes on offer.
    InvalidSizeArgument,
    /// The probe failed, or printed no positive duration.
    ProbeFailure,
    /// The encoder failed.
    EncodeFailure,
}

/// Audio bitrate, in bits per second, that the encoder is told to use.
pub const AUDIO_BITRATE: u64 = 128_000;

/// Bytes in a megabyte.
pub const BYTES_PER_MB: u64 = 1_048_576;

/// The target sizes, in megabytes, that a reduction may aim at.
pub open spec fn is_offered_size(size_mb: u64) -> bool {
    size_mb == 50 || size_mb == 100
}

/// The target size in bytes, for one of the sizes on offer.
pub fn target_size_bytes(size_mb: u64) -> (r: Result<u64, ReduceError>)
    ensures
        is_offered_size(size_mb) <==> r is Ok,
        r is Ok ==> r->Ok_0 == size_mb * BYTES_PER_MB,
        r is Err ==> r->Err_0 == ReduceError::InvalidSizeArgument,
{
    if size_mb == 50 || size_mb == 100 {
        Ok(size_mb * BYTES_PER_MB)
    } else {
        Err(ReduceError::InvalidSizeArgument)
    }
}

/// Lowest video bitrate, in bits per second, that is ever requested.
pub const MIN_VIDEO_BITRATE: u64 = 100_000;

/// Bitrate before the floor: total bits over the duration, less the audio share.
/// The duration is in microseconds.
pub open spec fn raw_video_bitrate(duration_us: int, target_bytes: int, audio_bitrate: int) -> int {
    (target_bytes * 8 * 1_000_000) / duration_us - audio_bitrate
}

/// The bitrate handed to the encoder: the raw bitrate raised to the floor,
/// and held to what a `u64` can carry.
pub open spec fn video_bitrate(duration_us: int, target_bytes: int, audio_bitrate: int) -> int {
    let raw = raw_video_bitrate(duration_us, target_bytes, audio_bitrate);
    if raw < MIN_VIDEO_BITRATE {
        MIN_VIDEO_BITRATE as int
    } else if raw > u64::MAX {
        u64::MAX as int
    } else {
        raw
    }
}

/// Video bitrate (bits per second) that makes a file of `duration_us`
/// microseconds, with audio at `audio_bitrate`, come out at about `target_bytes`.
pub fn compute_video_bitrate(duration_us: u64, target_bytes: u64, audio_bitrate: u64) -> (r: u64)
    requires
        duration_us > 0,
    ensures
        r == video_bitrate(duration_us as int, target_bytes as int, audio_bitrate as int),
        r >= MIN_VIDEO_BITRATE,
{
    let total_bits: u128 = (target_bytes as u128) * 8 * 1_000_000;
    let total_bitrate: u128 = total_bits / (duration_us as u128);
    let audio: u128 = audio_bitrate as u128;
    if total_bitrate < audio || total_bitrate - audio < MIN_VIDEO_BITRATE as u128 {
        MIN_VIDEO_BITRATE
    } else if total_bitrate - audio > u64::MAX as u128 {
        u64::MAX
    } else {
        (total_bitrate - audio) as u64
    }
}

/// A larger target never gives a lower bitrate, the duration and the audio
/// bitrate held fixed; above the floor the bitrate follows the target.
pub proof fn lemma_video_bitrate_monotone(
    duration_us: int,
    target_a: int,
    target_b: int,
    audio_bitrate: int,
)
    requires
        duration_us > 0,
        0 <= target_a <= target_b,
    ensures
        video_bitrate(duration_us, target_a, audio_bitrate) <= video_bitrate(
            duration_us,
            target_b,
            audio_bitrate,
        ),
        raw_video_bitrate(duration_us, target_a, audio_bitrate) <= raw_video_bitrate(
            duration_us,
            target_b,
            audio_bitrate,
        ),
{
    lemma_div_is_ordered(target_a * 8 * 1_000_000, target_b * 8 * 1_000_000, duration_us);
}

/// What the encoder is to be given for one input.
#[derive(Clone, Debug, PartialEq, Eq)]
pub struct EncodePlan {
    /// Duration of the input, in microseconds.
    pub duration_us: u64,
    /// Video bitrate, in bits per second.
    pub video_bitrate: u64,
    /// The video bitrate as the encoder takes it.
    pub video_bitrate_arg: String,
}

/// Plans the reduction of an input whose probe printed `probe_output`, so
/// that it comes out at about `target_bytes`, with audio at `AUDIO_BITRATE`.
pub fn plan_reduction(probe_output: &[u8], target_bytes: u64) -> (r: Result<EncodePlan, ReduceError>)
    ensures
        is_well_formed_duration(probe_output@) <==> r is Ok,
        r is Ok ==> ({
            let d = decimal_micros(trim_end(trim_start(probe_output@)));
            let plan = r->Ok_0;
            &&& plan.duration_us == d
            &&& plan.video_bitrate == video_bitrate(d as int, target_bytes as int, AUDIO_BITRATE as int)
            &&& plan.video_bitrate_arg@ == bitrate_arg_string(plan.video_bitrate as nat)
        }),
        r is Err ==> r->Err_0 == ReduceError::ProbeFailure,
{
    let duration_us = match parse_duration(probe_output) {
        Ok(d) => d,
        Err(e) => return Err(e),
    };
    let video_bitrate = compute_video_bitrate(duration_us, target_bytes, AUDIO_BITRATE);
    let video_bitrate_arg = bitrate_arg(video_bitrate);
    Ok(EncodePlan { duration_us, video_bitrate, video_bitrate_arg })
}

} // verus!
