use yuva422::word::{
    pack_components, pack_sample, read_word, unpack_components, unpack_sample, word_to_bytes,
    SampleFields, MARKER,
};

fn fields(y1: u32, cb: u32, a1: u32, y2: u32, cr: u32, a2: u32) -> SampleFields {
    SampleFields { y1, cb, a1, y2, cr, a2 }
}

#[test]
fn packs_sample_black() {
    let f = fields(64, 512, 64, 64, 512, 64);
    let expected: Vec<u8> = vec![4, 8, 0, 64, 4, 8, 0, 64];
    assert_eq!(word_to_bytes(pack_sample(f)), expected);
    assert_eq!(unpack_sample(read_word(&expected, 0)), f);
}

#[test]
fn packs_sample_one() {
    let f = fields(288, 674, 912, 634, 417, 390);
    let expected: Vec<u8> = vec![57, 10, 137, 32, 24, 102, 134, 122];
    assert_eq!(word_to_bytes(pack_sample(f)), expected);
    assert_eq!(unpack_sample(read_word(&expected, 0)), f);
}

#[test]
fn packs_sample_two() {
    let f = fields(379, 462, 761, 844, 683, 885);
    let expected: Vec<u8> = vec![47, 151, 57, 123, 55, 90, 175, 76];
    assert_eq!(word_to_bytes(pack_sample(f)), expected);
    assert_eq!(unpack_sample(read_word(&expected, 0)), f);
}

#[test]
fn packs_sample_three() {
    let f = fields(733, 319, 520, 480, 495, 826);
    let expected: Vec<u8> = vec![32, 132, 254, 221, 51, 167, 189, 224];
    assert_eq!(word_to_bytes(pack_sample(f)), expected);
    assert_eq!(unpack_sample(read_word(&expected, 0)), f);
}

#[test]
fn packs_sample_four() {
    let f = fields(358, 423, 414, 213, 559, 520);
    let expected: Vec<u8> = vec![25, 230, 157, 102, 32, 136, 188, 213];
    assert_eq!(word_to_bytes(pack_sample(f)), expected);
    assert_eq!(unpack_sample(read_word(&expected, 0)), f);
}

#[test]
fn packs_sample_five() {
    let f = fields(435, 471, 74, 562, 480, 713);
    let expected: Vec<u8> = vec![4, 167, 93, 179, 44, 151, 130, 50];
    assert_eq!(word_to_bytes(pack_sample(f)), expected);
    assert_eq!(unpack_sample(read_word(&expected, 0)), f);
}

#[test]
fn packs_sample_six() {
    let f = fields(731, 537, 139, 470, 210, 517);
    let expected: Vec<u8> = vec![8, 184, 102, 219, 32, 83, 73, 214];
    assert_eq!(word_to_bytes(pack_sample(f)), expected);
    assert_eq!(unpack_sample(read_word(&expected, 0)), f);
}

#[test]
fn packs_sample_seven() {
    let f = fields(296, 676, 658, 513, 524, 586);
    let expected: Vec<u8> = vec![41, 42, 145, 40, 36, 168, 50, 1];
    assert_eq!(word_to_bytes(pack_sample(f)), expected);
    assert_eq!(unpack_sample(read_word(&expected, 0)), f);
}

#[test]
fn packs_sample_eight() {
    let f = fields(469, 447, 294, 705, 643, 424);
    let expected: Vec<u8> = vec![18, 102, 253, 213, 26, 138, 14, 193];
    assert_eq!(word_to_bytes(pack_sample(f)), expected);
    assert_eq!(unpack_sample(read_word(&expected, 0)), f);
}

#[test]
fn packs_sample_nine() {
    let f = fields(704, 412, 352, 538, 369, 469);
    let expected: Vec<u8> = vec![22, 6, 114, 192, 29, 85, 198, 26];
    assert_eq!(word_to_bytes(pack_sample(f)), expected);
    assert_eq!(unpack_sample(read_word(&expected, 0)), f);
}

#[test]
fn packs_sample_ten() {
    let f = fields(453, 788, 606, 586, 839, 586);
    let expected: Vec<u8> = vec![37, 236, 81, 197, 36, 173, 30, 74];
    assert_eq!(word_to_bytes(pack_sample(f)), expected);
    assert_eq!(unpack_sample(read_word(&expected, 0)), f);
}

#[test]
fn black_pair_words_hold_offsets() {
    // Y = 64, Cb = Cr = 512, A = 64 in both words of the pair.
    assert_eq!(pack_components(64, 512, 64), 0x0408_0040);
    assert_eq!(pack_sample(fields(64, 512, 64, 64, 512, 64)), 0x0408_0040_0408_0040);
}

#[test]
fn components_take_their_bit_ranges() {
    assert_eq!(pack_components(1023, 0, 0), 0x3ff0_0000);
    assert_eq!(pack_components(0, 1023, 0), 0x000f_fc00);
    assert_eq!(pack_components(0, 0, 1023), 0x0000_03ff);
    assert_eq!(unpack_components(0x3ff0_0000), (1023, 0, 0));
    assert_eq!(unpack_components(0x000f_fc00), (0, 1023, 0));
    assert_eq!(unpack_components(0x0000_03ff), (0, 0, 1023));
}

#[test]
fn unpack_ignores_top_bits() {
    assert_eq!(unpack_components(0xc000_0000), (0, 0, 0));
    assert_eq!(unpack_components(0xffff_ffff), (1023, 1023, 1023));
}

#[test]
fn first_word_of_pair_comes_first_on_the_wire() {
    let w = pack_sample(fields(1, 2, 3, 4, 5, 6));
    let b = word_to_bytes(w);
    let first = u32::from_be_bytes([b[0], b[1], b[2], b[3]]);
    let second = u32::from_be_bytes([b[4], b[5], b[6], b[7]]);
    assert_eq!(unpack_components(first), (3, 2, 1));
    assert_eq!(unpack_components(second), (6, 5, 4));
}

#[test]
fn word_bytes_are_big_endian() {
    assert_eq!(word_to_bytes(0x0102_0304_0506_0708), vec![1, 2, 3, 4, 5, 6, 7, 8]);
    assert_eq!(word_to_bytes(MARKER), vec![0xfe; 8]);
    let b: Vec<u8> = vec![9, 1, 2, 3, 4, 5, 6, 7, 8];
    assert_eq!(read_word(&b, 1), 0x0102_0304_0506_0708);
}

#[test]
fn largest_fields_round_trip() {
    let f = fields(1023, 1023, 1023, 1023, 1023, 1023);
    let w = pack_sample(f);
    assert_eq!(w, 0x3fff_ffff_3fff_ffff);
    assert_eq!(unpack_sample(w), f);
}
