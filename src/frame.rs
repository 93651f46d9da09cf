//! Whole frames: dimension checks, the choice of colorimetry, and the word
//! streams of a frame in each direction. A frame is `width * height` RGBA
//! pixels; its width is a multiple of eight, so that it splits into batches
//! of four sample pairs.
use vstd::prelude::*;
use crate::word::{MARKER, SampleFields, sample_word, pack_sample, read_word};
use crate::rle::{
    RLEDecoder, RLEEncoder, rle_encode, rle_decode, marker_free, lemma_decode_encode, lemma_encode_len,
};

verus! {

/// Why a frame could not be converted.
#[derive(Clone, Copy, Debug, PartialEq, Eq, Structural)]
pub enum CodecError {
    /// The width is not a multiple of the pixel group size.
    InvalidDimensions,
    /// A buffer's length does not match the frame's dimensions.
    BufferLengthMismatch,
    /// The compressed stream ends before the frame is filled.
    InsufficientCompressedData,
}

/// The coefficient set of a frame.
#[derive(Clone, Copy, Debug, PartialEq, Eq, Structural)]
pub enum Colorimetry {
    /// Standard definition: Kr = 0.299, Kb = 0.114.
    Bt601,
    /// High definition: Kr = 0.2126, Kb = 0.0722.
    Bt709,
}

/// The smallest frame height that uses the high-definition coefficients.
pub const HD_MIN_HEIGHT: u32 = 720;

/// Pixels converted per batch: four sample pairs.
pub const PIXELS_PER_BATCH: u32 = 8;

/// Sample pairs converted per batch.
pub const PAIRS_PER_BATCH: usize = 4;

/// Bytes of one RGBA pixel.
pub const BYTES_PER_PIXEL: usize = 4;

/// The coefficient set for frames of height `height`.
pub open spec fn colorimetry_of(height: u32) -> Colorimetry {
    if height >= HD_MIN_HEIGHT {
        Colorimetry::Bt709
    } else {
        Colorimetry::Bt601
    }
}

/// Chooses the coefficient set from the frame height.
pub fn colorimetry_for_height(height: u32) -> (r: Colorimetry)
    ensures
        r == colorimetry_of(height),
{
    if height >= HD_MIN_HEIGHT {
        Colorimetry::Bt709
    } else {
        Colorimetry::Bt601
    }
}

/// Bytes of the RGBA buffer of a frame.
pub open spec fn frame_bytes(width: u32, height: u32) -> int {
    width * height * BYTES_PER_PIXEL
}

/// Sample pairs of a frame.
pub open spec fn frame_pairs(width: u32, height: u32) -> int {
    width * height / 2
}

/// What checking a frame of the given dimensions against an RGBA buffer of
/// `rgba_len` bytes gives: the number of sample pairs, or the error.
pub open spec fn frame_check(width: u32, height: u32, rgba_len: int) -> Result<int, CodecError> {
    if width % PIXELS_PER_BATCH != 0 {
        Err(CodecError::InvalidDimensions)
    } else if rgba_len != frame_bytes(width, height) {
        Err(CodecError::BufferLengthMismatch)
    } else {
        Ok(frame_pairs(width, height))
    }
}

proof fn lemma_pairs_fill_batches(width: u32, height: u32)
    requires
        width % 8 == 0,
    ensures
        frame_pairs(width, height) % 4 == 0,
        frame_pairs(width, height) * 8 == frame_bytes(width, height),
        0 <= frame_pairs(width, height) <= frame_bytes(width, height),
{
    let q = width / 8;
    let n = width * height;
    let m = q * height;
    assert(n == m * 8 && m >= 0) by (nonlinear_arith)
        requires
            width == q * 8,
            q >= 0,
            height >= 0,
            n == width * height,
            m == q * height,
    ;
    assert(frame_pairs(width, height) == m * 4);
    assert(frame_bytes(width, height) == m * 32);
    vstd::arithmetic::div_mod::lemma_mod_multiples_basic(m, 4);
}

/// Checks a frame's width and the length of its RGBA buffer, and gives its
/// number of sample pairs.
pub fn check_frame(width: u32, height: u32, rgba_len: usize) -> (r: Result<usize, CodecError>)
    ensures
        match frame_check(width, height, rgba_len as int) {
            Ok(n) => r == Ok::<usize, CodecError>(n as usize),
            Err(e) => r == Err::<usize, CodecError>(e),
        },
        r is Ok ==> r.unwrap() % PAIRS_PER_BATCH == 0,
{
    if width % PIXELS_PER_BATCH != 0 {
        return Err(CodecError::InvalidDimensions);
    }
    assert((width as int) * (height as int) <= u64::MAX) by (nonlinear_arith)
        requires
            width <= u32::MAX,
            height <= u32::MAX,
    ;
    let n: u64 = (width as u64) * (height as u64);
    let len = rgba_len as u64;
    if len % 4 != 0 || len / 4 != n {
        return Err(CodecError::BufferLengthMismatch);
    }
    proof {
        lemma_pairs_fill_batches(width, height);
    }
    Ok((n / 2) as usize)
}

/// Packs the samples of a frame and compresses their words. `samples`
/// holds one entry per sample pair, in pixel order.
pub fn encode_frame(width: u32, height: u32, rgba_len: usize, samples: &[SampleFields]) -> (r: Result<
    Vec<u8>,
    CodecError,
>)
    requires
        forall|i: int| 0 <= i < samples@.len() ==> (#[trigger] samples@[i]).wf(),
    ensures
        match frame_check(width, height, rgba_len as int) {
            Ok(n) => if samples@.len() == n {
                r matches Ok(b) && b@ == rle_encode(samples@.map_values(|f: SampleFields| sample_word(f) as u64))
                    && b@.len() <= rgba_len
            } else {
                r == Err::<Vec<u8>, CodecError>(CodecError::BufferLengthMismatch)
            },
            Err(e) => r == Err::<Vec<u8>, CodecError>(e),
        },
{
    let pairs = match check_frame(width, height, rgba_len) {
        Ok(n) => n,
        Err(e) => {
            return Err(e);
        },
    };
    if samples.len() != pairs {
        return Err(CodecError::BufferLengthMismatch);
    }
    let ghost words = samples@.map_values(|f: SampleFields| sample_word(f) as u64);
    let mut e = RLEEncoder::new();
    let mut i: usize = 0;
    while i < samples.len()
        invariant
            i <= samples@.len(),
            words.len() == samples@.len(),
            words == samples@.map_values(|f: SampleFields| sample_word(f) as u64),
            forall|j: int| 0 <= j < samples@.len() ==> (#[trigger] samples@[j]).wf(),
            e.wf(),
            e.words() == words.subrange(0, i as int),
        decreases samples.len() - i,
    {
        let w = pack_sample(samples[i]);
        e.push(w);
        i = i + 1;
        assert(e.words() =~= words.subrange(0, i as int));
    }
    assert(words.subrange(0, i as int) =~= words);
    proof {
        lemma_encode_len(words);
        lemma_pairs_fill_batches(width, height);
    }
    Ok(e.finish())
}

/// Reads the sample words of a frame from its compressed stream, one batch
/// of four pairs at a time. `rgba_len` is the length of the RGBA buffer
/// that the frame is to fill.
pub fn decode_frame(width: u32, height: u32, compressed: &[u8], rgba_len: usize) -> (r: Result<
    Vec<u64>,
    CodecError,
>)
    ensures
        match frame_check(width, height, rgba_len as int) {
            Ok(n) => if rle_decode(compressed@).len() >= n {
                r matches Ok(ws) && ws@ == rle_decode(compressed@).take(n)
            } else {
                r == Err::<Vec<u64>, CodecError>(CodecError::InsufficientCompressedData)
            },
            Err(e) => r == Err::<Vec<u64>, CodecError>(e),
        },
{
    let pairs = match check_frame(width, height, rgba_len) {
        Ok(n) => n,
        Err(e) => {
            return Err(e);
        },
    };
    let ghost all = rle_decode(compressed@);
    let mut d = RLEDecoder::new(compressed);
    let mut words: Vec<u64> = Vec::new();
    while words.len() < pairs
        invariant
            pairs % PAIRS_PER_BATCH == 0,
            frame_check(width, height, rgba_len as int) == Ok::<int, CodecError>(pairs as int),
            words@.len() <= pairs,
            words.len() % PAIRS_PER_BATCH == 0,
            d.input() == compressed@,
            all == rle_decode(compressed@),
            all == words@ + d.samples(),
        decreases pairs - words.len(),
    {
        let ghost start = words@.len();
        assert(start + 4 <= pairs) by {
            vstd::arithmetic::div_mod::lemma_fundamental_div_mod(start as int, 4);
            vstd::arithmetic::div_mod::lemma_fundamental_div_mod(pairs as int, 4);
        }
        let mut j: usize = 0;
        while j < PAIRS_PER_BATCH
            invariant
                pairs % PAIRS_PER_BATCH == 0,
                frame_check(width, height, rgba_len as int) == Ok::<int, CodecError>(pairs as int),
                start % 4 == 0,
                start < pairs,
                j <= PAIRS_PER_BATCH,
                words@.len() == start + j,
                d.input() == compressed@,
                all == rle_decode(compressed@),
                all == words@ + d.samples(),
            decreases PAIRS_PER_BATCH - j,
        {
            match d.read_sample() {
                Some(s) => {
                    assert(s@.subrange(0, 8) =~= s@);
                    words.push(read_word(s, 0));
                    assert(all =~= words@ + d.samples());
                },
                None => {
                    assert(all =~= words@);
                    assert(all.len() < pairs);
                    return Err(CodecError::InsufficientCompressedData);
                },
            }
            j = j + 1;
        }
    }
    assert(all.take(pairs as int) =~= words@);
    assert(all.len() >= pairs);
    Ok(words)
}


/// The sample word of a pair is never the marker word: its halves use 30
/// bits each.
pub proof fn lemma_sample_word_not_marker(f: SampleFields)
    requires
        f.wf(),
    ensures
        0 <= sample_word(f) < MARKER,
{
    crate::word::lemma_components_packed(f.a1, f.cb, f.y1);
    crate::word::lemma_components_packed(f.a2, f.cr, f.y2);
}

/// Decoding the compressed stream of a frame's samples gives back the
/// words of all its samples, whatever their values.
pub proof fn lemma_frame_round_trip(samples: Seq<SampleFields>)
    requires
        forall|i: int| 0 <= i < samples.len() ==> (#[trigger] samples[i]).wf(),
    ensures
        rle_decode(rle_encode(samples.map_values(|f: SampleFields| sample_word(f) as u64)))
            == samples.map_values(|f: SampleFields| sample_word(f) as u64),
{
    let words = samples.map_values(|f: SampleFields| sample_word(f) as u64);
    assert forall|i: int| 0 <= i < words.len() implies words[i] != MARKER by {
        lemma_sample_word_not_marker(samples[i]);
    }
    assert(marker_free(words));
    lemma_decode_encode(words);
}

} // verus!
