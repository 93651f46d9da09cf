//! The packed sample layout: 10-bit fields in 32-bit words, two 32-bit
//! words per sample pair, big-endian on the wire.
use vstd::prelude::*;

verus! {

/// Value of the run-record header word: eight bytes of 0xFE.
pub const MARKER: u64 = 0xFEFE_FEFE_FEFE_FEFE;

/// The eight big-endian bytes of `w`.
pub open spec fn word_bytes(w: u64) -> Seq<u8> {
    seq![
        (w >> 56u64) as u8,
        (w >> 48u64) as u8,
        (w >> 40u64) as u8,
        (w >> 32u64) as u8,
        (w >> 24u64) as u8,
        (w >> 16u64) as u8,
        (w >> 8u64) as u8,
        w as u8,
    ]
}

/// The word whose big-endian bytes are `b[0]` to `b[7]`.
pub open spec fn word_of(b: Seq<u8>) -> u64
    recommends
        b.len() >= 8,
{
    word_of_parts(b[0], b[1], b[2], b[3], b[4], b[5], b[6], b[7])
}

/// The word with big-endian bytes `b0` to `b7`.
pub open spec fn word_of_parts(
    b0: u8,
    b1: u8,
    b2: u8,
    b3: u8,
    b4: u8,
    b5: u8,
    b6: u8,
    b7: u8,
) -> u64 {
    (b0 as u64) << 56u64 | (b1 as u64) << 48u64 | (b2 as u64) << 40u64 | (b3 as u64) << 32u64
        | (b4 as u64) << 24u64 | (b5 as u64) << 16u64 | (b6 as u64) << 8u64 | (b7 as u64)
}

/// Reading back the bytes of a word gives the word.
pub proof fn lemma_word_of_bytes(w: u64)
    ensures
        word_bytes(w).len() == 8,
        word_of(word_bytes(w)) == w,
{
    assert(word_of_parts(
        (w >> 56u64) as u8,
        (w >> 48u64) as u8,
        (w >> 40u64) as u8,
        (w >> 32u64) as u8,
        (w >> 24u64) as u8,
        (w >> 16u64) as u8,
        (w >> 8u64) as u8,
        w as u8,
    ) == w) by (bit_vector);
}


/// The bytes of an eight-byte sequence, read as a word and written back.
pub proof fn lemma_bytes_of_word(b: Seq<u8>)
    requires
        b.len() == 8,
    ensures
        word_bytes(word_of(b)) == b,
{
    let (b0, b1, b2, b3, b4, b5, b6, b7) = (b[0], b[1], b[2], b[3], b[4], b[5], b[6], b[7]);
    let w = word_of_parts(b0, b1, b2, b3, b4, b5, b6, b7);
    assert((w >> 56u64) as u8 == b0 && (w >> 48u64) as u8 == b1 && (w >> 40u64) as u8 == b2
        && (w >> 32u64) as u8 == b3 && (w >> 24u64) as u8 == b4 && (w >> 16u64) as u8 == b5
        && (w >> 8u64) as u8 == b6 && w as u8 == b7) by (bit_vector)
        requires
            w == word_of_parts(b0, b1, b2, b3, b4, b5, b6, b7),
    ;
    assert(word_bytes(w) =~= b);
}

/// Reads the big-endian word held by `b[off..off + 8]`.
pub fn read_word(b: &[u8], off: usize) -> (r: u64)
    requires
        off + 8 <= b@.len(),
    ensures
        r == word_of(b@.subrange(off as int, off + 8)),
{
    (b[off] as u64) << 56u64 | (b[off + 1] as u64) << 48u64 | (b[off + 2] as u64) << 40u64 | (b[off
        + 3] as u64) << 32u64 | (b[off + 4] as u64) << 24u64 | (b[off + 5] as u64) << 16u64 | (b[off
        + 6] as u64) << 8u64 | (b[off + 7] as u64)
}


/// Appends the eight big-endian bytes of `w` to `out`.
pub fn write_word(out: &mut Vec<u8>, w: u64)
    ensures
        final(out)@ == old(out)@ + word_bytes(w),
{
    out.push((w >> 56u64) as u8);
    out.push((w >> 48u64) as u8);
    out.push((w >> 40u64) as u8);
    out.push((w >> 32u64) as u8);
    out.push((w >> 24u64) as u8);
    out.push((w >> 16u64) as u8);
    out.push((w >> 8u64) as u8);
    out.push(w as u8);
    assert(out@ =~= old(out)@ + word_bytes(w));
}

/// The eight big-endian bytes of `w`.
pub fn word_to_bytes(w: u64) -> (r: Vec<u8>)
    ensures
        r@ == word_bytes(w),
{
    let mut r: Vec<u8> = Vec::new();
    write_word(&mut r, w);
    assert(r@ =~= word_bytes(w));
    r
}

/// Number of distinct values of a 10-bit field.
pub const FIELD_RANGE: u32 = 1024;

/// The 32-bit word with `alpha` in bits 29..20, `chroma` in bits 19..10
/// and `luma` in bits 9..0.
pub open spec fn packed(alpha: int, chroma: int, luma: int) -> int {
    alpha * 0x10_0000 + chroma * 0x400 + luma
}

/// Packs three 10-bit fields into one 32-bit word.
pub fn pack_components(alpha: u32, chroma: u32, luma: u32) -> (r: u32)
    requires
        alpha < FIELD_RANGE,
        chroma < FIELD_RANGE,
        luma < FIELD_RANGE,
    ensures
        r == packed(alpha as int, chroma as int, luma as int),
{
    assert((alpha << 20u32) | (chroma << 10u32) | luma == alpha * 0x10_0000 + chroma * 0x400 + luma)
        by (bit_vector)
        requires
            alpha < 1024,
            chroma < 1024,
            luma < 1024,
    ;
    (alpha << 20u32) | (chroma << 10u32) | luma
}

/// The three 10-bit fields of a 32-bit word: alpha, chroma and luma.
pub open spec fn components(w: u32) -> (u32, u32, u32) {
    (((w / 0x10_0000) % 1024) as u32, ((w / 0x400) % 1024) as u32, (w % 1024) as u32)
}

/// Splits a 32-bit word into its alpha, chroma and luma fields; the top two
/// bits are ignored.
pub fn unpack_components(w: u32) -> (r: (u32, u32, u32))
    ensures
        r == components(w),
{
    assert((w >> 20u32) & 0x3ff == (w / 0x10_0000) % 1024 && (w >> 10u32) & 0x3ff == (w / 0x400)
        % 1024 && w & 0x3ff == w % 1024) by (bit_vector);
    ((w >> 20u32) & 0x3ff, (w >> 10u32) & 0x3ff, w & 0x3ff)
}


/// The six 10-bit fields of one sample pair: the first pixel's luma and
/// alpha with the pair's Cb, and the second pixel's luma and alpha with the
/// pair's Cr.
#[derive(Clone, Copy, Debug, PartialEq, Eq, Structural)]
pub struct SampleFields {
    pub y1: u32,
    pub cb: u32,
    pub a1: u32,
    pub y2: u32,
    pub cr: u32,
    pub a2: u32,
}

impl SampleFields {
    /// Every field fits in 10 bits.
    pub open spec fn wf(&self) -> bool {
        &&& self.y1 < FIELD_RANGE
        &&& self.cb < FIELD_RANGE
        &&& self.a1 < FIELD_RANGE
        &&& self.y2 < FIELD_RANGE
        &&& self.cr < FIELD_RANGE
        &&& self.a2 < FIELD_RANGE
    }
}

/// The sample word of a pair: the word (A1, Cb, Y1) in the high half and
/// the word (A2, Cr, Y2) in the low half, so that its big-endian bytes are
/// those of the first word followed by those of the second.
pub open spec fn sample_word(f: SampleFields) -> int {
    packed(f.a1 as int, f.cb as int, f.y1 as int) * 0x1_0000_0000 + packed(
        f.a2 as int,
        f.cr as int,
        f.y2 as int,
    )
}

/// The fields read back from a sample word.
pub open spec fn sample_fields(w: u64) -> SampleFields {
    let (a1, cb, y1) = components((w / 0x1_0000_0000) as u32);
    let (a2, cr, y2) = components((w % 0x1_0000_0000) as u32);
    SampleFields { y1, cb, a1, y2, cr, a2 }
}

/// Packs the six fields of a pair into its sample word.
pub fn pack_sample(f: SampleFields) -> (r: u64)
    requires
        f.wf(),
    ensures
        r == sample_word(f),
{
    let hi = pack_components(f.a1, f.cb, f.y1);
    let lo = pack_components(f.a2, f.cr, f.y2);
    assert(((hi as u64) << 32u64) | (lo as u64) == hi * 0x1_0000_0000 + lo) by (bit_vector);
    ((hi as u64) << 32u64) | (lo as u64)
}

/// Splits a sample word into the six fields of its pair.
pub fn unpack_sample(w: u64) -> (r: SampleFields)
    ensures
        r == sample_fields(w),
        r.wf(),
{
    assert((w >> 32u64) as u32 == (w / 0x1_0000_0000) as u32 && w as u32 == (w % 0x1_0000_0000)
        as u32) by (bit_vector);
    let (a1, cb, y1) = unpack_components((w >> 32u64) as u32);
    let (a2, cr, y2) = unpack_components(w as u32);
    SampleFields { y1, cb, a1, y2, cr, a2 }
}

/// Unpacking a packed sample word gives back the fields it was packed from.
pub proof fn lemma_unpack_pack(f: SampleFields)
    requires
        f.wf(),
    ensures
        0 <= sample_word(f) <= u64::MAX,
        sample_fields(sample_word(f) as u64) == f,
{
    let hi = packed(f.a1 as int, f.cb as int, f.y1 as int);
    let lo = packed(f.a2 as int, f.cr as int, f.y2 as int);
    assert(0 <= lo < 0x4000_0000);
    assert(0 <= hi < 0x4000_0000);
    let w = sample_word(f);
    assert(w / 0x1_0000_0000 == hi && w % 0x1_0000_0000 == lo) by (nonlinear_arith)
        requires
            w == hi * 0x1_0000_0000 + lo,
            0 <= lo < 0x1_0000_0000,
    ;
    lemma_components_packed(f.a1, f.cb, f.y1);
    lemma_components_packed(f.a2, f.cr, f.y2);
}

/// Unpacking a packed 32-bit word gives back its three fields.
pub proof fn lemma_components_packed(alpha: u32, chroma: u32, luma: u32)
    requires
        alpha < FIELD_RANGE,
        chroma < FIELD_RANGE,
        luma < FIELD_RANGE,
    ensures
        0 <= packed(alpha as int, chroma as int, luma as int) < 0x4000_0000,
        components(packed(alpha as int, chroma as int, luma as int) as u32) == (alpha, chroma, luma),
{
    let w: u32 = (alpha * 0x10_0000 + chroma * 0x400 + luma) as u32;
    assert(w == alpha * 0x10_0000 + chroma * 0x400 + luma && (w / 0x10_0000) % 1024 == alpha && (w
        / 0x400) % 1024 == chroma && w % 1024 == luma) by (bit_vector)
        requires
            alpha < 1024,
            chroma < 1024,
            luma < 1024,
            w == (alpha * 0x10_0000 + chroma * 0x400 + luma) as u32,
    ;
}

} // verus!
