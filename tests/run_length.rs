use yuva422::rle::{decode_words, encode_words, RLEDecoder, RLEEncoder};
use yuva422::word::{word_to_bytes, MARKER};

const A: u64 = 0x0408_0040_0408_0040;
const B: u64 = 0x390a_8920_1866_867a;

fn bytes_of(words: &[u64]) -> Vec<u8> {
    let mut out = Vec::new();
    for w in words {
        out.extend_from_slice(&word_to_bytes(*w));
    }
    out
}

#[test]
fn short_runs_are_written_as_literals() {
    for len in 1..4usize {
        let words = vec![A; len];
        let encoded = encode_words(&words);
        assert_eq!(encoded.len(), 8 * len);
        assert_eq!(encoded, bytes_of(&words));
    }
}

#[test]
fn run_of_four_is_one_record() {
    let encoded = encode_words(&vec![A; 4]);
    assert_eq!(encoded.len(), 24);
    assert_eq!(encoded, bytes_of(&[MARKER, 4, A]));
}

#[test]
fn run_of_thousand_is_one_record() {
    let encoded = encode_words(&vec![B; 1000]);
    assert_eq!(encoded.len(), 24);
    assert_eq!(encoded, bytes_of(&[MARKER, 1000, B]));
    assert_eq!(decode_words(&encoded), vec![B; 1000]);
}

#[test]
fn run_then_differing_word() {
    let words = vec![A, A, A, A, B];
    let encoded = encode_words(&words);
    let mut expected = vec![0xfe; 8];
    expected.extend_from_slice(&[0, 0, 0, 0, 0, 0, 0, 4]);
    expected.extend_from_slice(&word_to_bytes(A));
    expected.extend_from_slice(&word_to_bytes(B));
    assert_eq!(encoded, expected);
    assert_eq!(decode_words(&encoded), words);
}

#[test]
fn empty_sequence_encodes_to_nothing() {
    assert_eq!(encode_words(&[]), Vec::<u8>::new());
    assert_eq!(decode_words(&[]), Vec::<u64>::new());
}

#[test]
fn mixed_sequence_round_trips() {
    let mut words = vec![1, 2, 2, 3, 3, 3];
    words.extend_from_slice(&vec![4; 9]);
    words.extend_from_slice(&[5, 4, 4, 4, 4, 1]);
    let encoded = encode_words(&words);
    // 1, 2 2, 3 3 3 as literals; the run of nine as a record; 5; the run of
    // four as a record; 1.
    assert_eq!(encoded.len(), 8 + 16 + 24 + 24 + 8 + 24 + 8);
    assert_eq!(decode_words(&encoded), words);
}

#[test]
fn encoder_pushes_one_word_at_a_time() {
    let mut e = RLEEncoder::new();
    for w in [A, A, A, A, A, B, B] {
        e.push(w);
    }
    assert_eq!(e.finish(), bytes_of(&[MARKER, 5, A, B, B]));
}

#[test]
fn decoder_repeats_run_value() {
    let input = bytes_of(&[MARKER, 3, A, B]);
    let mut d = RLEDecoder::new(&input);
    for _ in 0..3 {
        assert_eq!(d.read_sample(), Some(&word_to_bytes(A)[..]));
    }
    assert_eq!(d.read_sample(), Some(&word_to_bytes(B)[..]));
    assert_eq!(d.read_sample(), None);
    assert_eq!(d.read_sample(), None);
}

#[test]
fn decoder_rereads_value_of_run_of_one() {
    // The header is passed with nothing owed, so the value word is then
    // read once more as a literal.
    let input = bytes_of(&[MARKER, 1, A, B]);
    assert_eq!(decode_words(&input), vec![A, A, B]);
    let mut d = RLEDecoder::new(&input);
    assert_eq!(d.read_sample(), Some(&word_to_bytes(A)[..]));
    assert_eq!(d.read_sample(), Some(&word_to_bytes(A)[..]));
    assert_eq!(d.read_sample(), Some(&word_to_bytes(B)[..]));
    assert_eq!(d.read_sample(), None);
}

#[test]
fn decoder_reads_run_of_two_twice() {
    let input = bytes_of(&[MARKER, 2, A, B]);
    assert_eq!(decode_words(&input), vec![A, A, B]);
}

#[test]
fn decoder_reads_run_of_zero_as_one() {
    let input = bytes_of(&[MARKER, 0, A]);
    assert_eq!(decode_words(&input), vec![A]);
}

#[test]
fn decoder_ignores_trailing_partial_word() {
    let mut input = bytes_of(&[A, B]);
    input.extend_from_slice(&[1, 2, 3]);
    assert_eq!(decode_words(&input), vec![A, B]);
}

#[test]
fn marker_without_room_for_record_is_literal() {
    let input = bytes_of(&[MARKER, 7]);
    assert_eq!(decode_words(&input), vec![MARKER, 7]);
}

#[test]
fn literal_marker_word_is_taken_for_run_header() {
    // A word equal to the marker is not escaped: it reads back as a run.
    let encoded = encode_words(&[MARKER, 2, A]);
    assert_eq!(decode_words(&encoded), vec![A, A]);
}
