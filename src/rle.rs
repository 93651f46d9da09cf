//! Run-length compression of sample words. The compressed stream is a
//! sequence of records: a literal word (8 bytes), or a run record of 24
//! bytes (the marker word, the run length as a big-endian word, the value).
use vstd::prelude::*;
use crate::word::{MARKER, word_bytes, word_of, write_word, read_word, lemma_word_of_bytes, lemma_bytes_of_word};

verus! {

/// The shortest run written as a run record; shorter runs are written as
/// literal words.
pub const MIN_RUN: u64 = 4;

/// `k` copies of the bytes of `w`.
pub open spec fn repeat_bytes(w: u64, k: nat) -> Seq<u8>
    decreases k,
{
    if k == 0 {
        Seq::empty()
    } else {
        repeat_bytes(w, (k - 1) as nat) + word_bytes(w)
    }
}

/// What a run of `k` copies of `w` is written as.
pub open spec fn run_record(w: u64, k: nat) -> Seq<u8> {
    if k < MIN_RUN {
        repeat_bytes(w, k)
    } else {
        word_bytes(MARKER) + word_bytes(k as u64) + word_bytes(w)
    }
}

/// The bytes written for `ws` by an encoder that holds a pending run of `k`
/// copies of `w`. A run is cut when its length reaches `u64::MAX`, so that
/// every run length fits in its record.
pub open spec fn encode_from(w: u64, k: nat, ws: Seq<u64>) -> Seq<u8>
    decreases ws.len(),
{
    if ws.len() == 0 {
        run_record(w, k)
    } else if 0 < k < u64::MAX && ws[0] == w {
        encode_from(w, k + 1, ws.drop_first())
    } else {
        run_record(w, k) + encode_from(ws[0], 1, ws.drop_first())
    }
}

/// The compressed stream of a sequence of sample words.
pub open spec fn rle_encode(ws: Seq<u64>) -> Seq<u8> {
    encode_from(0, 0, ws)
}

/// `k` copies of a word take `8 * k` bytes.
pub proof fn lemma_repeat_bytes_len(w: u64, k: nat)
    ensures
        repeat_bytes(w, k).len() == 8 * k,
    decreases k,
{
    if k > 0 {
        lemma_repeat_bytes_len(w, (k - 1) as nat);
    }
}

/// Builds a compressed stream one sample word at a time.
pub struct RLEEncoder {
    output: Vec<u8>,
    last_word: u64,
    match_count: u64,
    pushed: Ghost<Seq<u64>>,
}

impl RLEEncoder {
    /// The words pushed so far.
    pub closed spec fn words(&self) -> Seq<u64> {
        self.pushed@
    }

    /// The bytes written so far, followed by the pending run and the
    /// encoding of any further words, make up the encoding of all words.
    pub closed spec fn wf(&self) -> bool {
        forall|rest: Seq<u64>|
            #[trigger] rle_encode(self.pushed@ + rest) == self.output@ + encode_from(
                self.last_word,
                self.match_count as nat,
                rest,
            )
    }

    /// An encoder to which nothing has been pushed.
    pub fn new() -> (r: Self)
        ensures
            r.wf(),
            r.words() == Seq::<u64>::empty(),
    {
        let r = RLEEncoder { output: Vec::new(), last_word: 0, match_count: 0, pushed: Ghost(Seq::empty()) };
        assert forall|rest: Seq<u64>|
            #[trigger] rle_encode(r.pushed@ + rest) == r.output@ + encode_from(
                r.last_word,
                r.match_count as nat,
                rest,
            ) by {
            assert(r.pushed@ + rest =~= rest);
            assert(r.output@ + encode_from(0, 0, rest) =~= encode_from(0, 0, rest));
        }
        r
    }

    /// Writes the pending run and forgets it.
    fn flush(&mut self)
        ensures
            final(self).output@ == old(self).output@ + run_record(old(self).last_word, old(self).match_count as nat),
            final(self).last_word == old(self).last_word,
            final(self).match_count == 0,
            final(self).pushed == old(self).pushed,
    {
        let w = self.last_word;
        let k = self.match_count;
        if k >= MIN_RUN {
            write_word(&mut self.output, MARKER);
            write_word(&mut self.output, k);
            write_word(&mut self.output, w);
            assert(self.output@ =~= old(self).output@ + run_record(w, k as nat));
        } else {
            let mut i: u64 = 0;
            while i < k
                invariant
                    i <= k,
                    k < MIN_RUN,
                    self.output@ == old(self).output@ + repeat_bytes(w, i as nat),
                    self.last_word == w,
                    self.pushed == old(self).pushed,
                decreases k - i,
            {
                write_word(&mut self.output, w);
                i = i + 1;
                assert(self.output@ =~= old(self).output@ + repeat_bytes(w, i as nat));
            }
        }
        self.match_count = 0;
    }

    /// Adds one word to the stream. A word equal to the pending run's value
    /// extends the run; any other word writes the pending run out and starts
    /// a new one.
    pub fn push(&mut self, word: u64)
        requires
            old(self).wf(),
        ensures
            final(self).wf(),
            final(self).words() == old(self).words().push(word),
    {
        let ghost old_words = self.pushed@;
        let ghost out0 = self.output@;
        let ghost w0 = self.last_word;
        let ghost k0 = self.match_count as nat;
        if self.match_count > 0 && self.match_count < u64::MAX && word == self.last_word {
            self.match_count = self.match_count + 1;
        } else {
            self.flush();
            self.last_word = word;
            self.match_count = 1;
        }
        self.pushed = Ghost(old_words.push(word));
        assert forall|rest: Seq<u64>|
            #[trigger] rle_encode(self.pushed@ + rest) == self.output@ + encode_from(
                self.last_word,
                self.match_count as nat,
                rest,
            ) by {
            let more = seq![word] + rest;
            assert(old_words.push(word) + rest =~= old_words + more);
            assert(rle_encode(old_words + more) == out0 + encode_from(w0, k0, more));
            assert(more.drop_first() =~= rest);
            assert(more[0] == word);
        }
    }

    /// Writes the pending run and returns the whole compressed stream.
    pub fn finish(self) -> (r: Vec<u8>)
        requires
            self.wf(),
        ensures
            r@ == rle_encode(self.words()),
    {
        let mut e = self;
        assert(rle_encode(e.pushed@ + Seq::empty()) == e.output@ + encode_from(
            e.last_word,
            e.match_count as nat,
            Seq::empty(),
        ));
        assert(e.pushed@ + Seq::<u64>::empty() =~= e.pushed@);
        e.flush();
        e.output
    }
}

/// Compresses a sequence of sample words.
pub fn encode_words(words: &[u64]) -> (r: Vec<u8>)
    ensures
        r@ == rle_encode(words@),
{
    let mut e = RLEEncoder::new();
    let mut i: usize = 0;
    while i < words.len()
        invariant
            i <= words@.len(),
            e.wf(),
            e.words() == words@.subrange(0, i as int),
        decreases words.len() - i,
    {
        e.push(words[i]);
        i = i + 1;
        assert(e.words() =~= words@.subrange(0, i as int));
    }
    assert(words@.subrange(0, i as int) =~= words@);
    e.finish()
}


/// One read of the decoder over `b`, at byte offset `off` with `rem`
/// copies of the current run still owed: the word read and the next offset
/// and count, or `None` at the end of the stream. A run record of length
/// `L >= 1` moves past its header only and leaves `L - 1` copies owed, so
/// that the value word is read once more as a literal when nothing is owed;
/// a run record of length zero is read as its value once.
pub open spec fn read_step(b: Seq<u8>, off: nat, rem: nat) -> Option<(u64, nat, nat)> {
    if off + 8 > b.len() {
        None
    } else if rem > 0 {
        if rem > 1 {
            Some((word_of(b.subrange(off as int, off + 8int)), off, (rem - 1) as nat))
        } else {
            Some((word_of(b.subrange(off as int, off + 8int)), off + 8, 0))
        }
    } else if off + 24 <= b.len() && word_of(b.subrange(off as int, off + 8int)) == MARKER {
        let count = word_of(b.subrange(off + 8int, off + 16int));
        let value = word_of(b.subrange(off + 16int, off + 24int));
        if count >= 1 {
            Some((value, off + 16, (count - 1) as nat))
        } else {
            Some((value, off + 24, 0))
        }
    } else {
        Some((word_of(b.subrange(off as int, off + 8int)), off + 8, 0))
    }
}

/// All words that the decoder reads from `b`, starting at byte offset `off`
/// with `rem` copies of the current run still owed.
pub open spec fn decode_from(b: Seq<u8>, off: nat, rem: nat) -> Seq<u64>
    decreases b.len() - off, rem,
{
    if off + 8 > b.len() {
        Seq::empty()
    } else {
        match read_step(b, off, rem) {
            Some((w, o, k)) => seq![w] + decode_from(b, o, k),
            None => Seq::empty(),
        }
    }
}

/// The sample words of a compressed stream.
pub open spec fn rle_decode(b: Seq<u8>) -> Seq<u64> {
    decode_from(b, 0, 0)
}

/// Reads sample words back from a compressed stream.
pub struct RLEDecoder<'a> {
    input: &'a [u8],
    read_offset: usize,
    rle_remaining: u64,
}

impl<'a> RLEDecoder<'a> {
    /// The compressed stream.
    pub closed spec fn input(&self) -> Seq<u8> {
        self.input@
    }

    /// Byte offset of the next record, or of the value of the current run.
    pub closed spec fn offset(&self) -> nat {
        self.read_offset as nat
    }

    /// Copies of the current run still owed.
    pub closed spec fn remaining(&self) -> nat {
        self.rle_remaining as nat
    }

    /// The words that are still to be read.
    pub open spec fn samples(&self) -> Seq<u64> {
        decode_from(self.input(), self.offset(), self.remaining())
    }

    /// A decoder at the start of `input`.
    pub fn new(input: &'a [u8]) -> (r: Self)
        ensures
            r.input() == input@,
            r.offset() == 0,
            r.remaining() == 0,
            r.samples() == rle_decode(input@),
    {
        RLEDecoder { input, read_offset: 0, rle_remaining: 0 }
    }

    /// Reads the next sample word: its eight bytes, or `None` at the end of
    /// the stream.
    pub fn read_sample(&mut self) -> (r: Option<&'a [u8]>)
        ensures
            final(self).input() == old(self).input(),
            match read_step(old(self).input(), old(self).offset(), old(self).remaining()) {
                Some((w, o, k)) => {
                    &&& r is Some
                    &&& r.unwrap()@ == word_bytes(w)
                    &&& final(self).offset() == o
                    &&& final(self).remaining() == k
                },
                None => {
                    &&& r is None
                    &&& final(self).offset() == old(self).offset()
                    &&& final(self).remaining() == old(self).remaining()
                },
            },
            match r {
                Some(s) => old(self).samples() == seq![word_of(s@)] + final(self).samples(),
                None => old(self).samples().len() == 0,
            },
    {
        let input: &'a [u8] = self.input;
        let len = input.len();
        let off = self.read_offset;
        if off > len || len - off < 8 {
            return None;
        }
        proof {
            lemma_bytes_of_word(input@.subrange(off as int, off + 8));
        }
        if self.rle_remaining > 0 {
            self.rle_remaining = self.rle_remaining - 1;
            if self.rle_remaining > 0 {
                let s = &input[off..off + 8];
                proof { lemma_word_of_bytes(word_of(s@)); }
                return Some(s);
            }
        } else if len - off >= 24 && read_word(input, off) == MARKER {
            let count = read_word(input, off + 8);
            let value = &input[off + 16..off + 24];
            proof {
                lemma_bytes_of_word(value@);
                lemma_word_of_bytes(word_of(value@));
            }
            if count >= 1 {
                self.rle_remaining = count - 1;
                self.read_offset = off + 16;
            } else {
                self.read_offset = off + 24;
            }
            return Some(value);
        }
        self.read_offset = off + 8;
        let s = &input[off..off + 8];
        proof { lemma_word_of_bytes(word_of(s@)); }
        Some(s)
    }
}

/// Decompresses a whole stream into its sample words.
pub fn decode_words(input: &[u8]) -> (r: Vec<u64>)
    ensures
        r@ == rle_decode(input@),
{
    let mut d = RLEDecoder::new(input);
    let mut out: Vec<u64> = Vec::new();
    loop
        invariant
            d.input() == input@,
            rle_decode(input@) == out@ + d.samples(),
        decreases d.samples().len(),
    {
        match d.read_sample() {
            Some(s) => {
                out.push(read_word(s, 0));
                assert(s@.subrange(0, 8) =~= s@);
                assert(rle_decode(input@) =~= out@ + d.samples());
            },
            None => {
                assert(rle_decode(input@) =~= out@);
                return out;
            },
        }
    }
}


/// `k` copies of `w`.
pub open spec fn copies(w: u64, k: nat) -> Seq<u64> {
    Seq::new(k, |i: int| w)
}

/// No word of `ws` is the marker word.
pub open spec fn marker_free(ws: Seq<u64>) -> bool {
    forall|i: int| 0 <= i < ws.len() ==> ws[i] != MARKER
}

proof fn lemma_repeat_bytes_front(w: u64, k: nat)
    requires
        k > 0,
    ensures
        repeat_bytes(w, k) == word_bytes(w) + repeat_bytes(w, (k - 1) as nat),
    decreases k,
{
    if k > 1 {
        lemma_repeat_bytes_front(w, (k - 1) as nat);
        assert(repeat_bytes(w, k) =~= word_bytes(w) + repeat_bytes(w, (k - 1) as nat));
    } else {
        assert(repeat_bytes(w, k) =~= word_bytes(w) + repeat_bytes(w, (k - 1) as nat));
    }
}

/// Where a part of `s` is `x + y`, the part of `s` before the cut is `x`
/// and the part after it is `y`.
proof fn lemma_split_at<T>(s: Seq<T>, lo: int, mid: int, hi: int, x: Seq<T>, y: Seq<T>)
    requires
        0 <= lo <= mid <= hi <= s.len(),
        s.subrange(lo, hi) == x + y,
        x.len() == mid - lo,
    ensures
        s.subrange(lo, mid) == x,
        s.subrange(mid, hi) == y,
{
    assert(s.subrange(lo, mid) =~= (x + y).subrange(0, mid - lo));
    assert(s.subrange(lo, mid) =~= x);
    let xy = x + y;
    assert(xy.len() == hi - lo);
    assert forall|i: int| 0 <= i < hi - mid implies s.subrange(mid, hi)[i] == y[i] by {
        assert(s.subrange(mid, hi)[i] == s[mid + i]);
        assert(s.subrange(lo, hi)[mid - lo + i] == s[mid + i]);
        assert(xy[x.len() + i] == y[i]);
    }
    assert(s.subrange(mid, hi) =~= y);
}

/// A literal word that is not the marker is read as itself.
proof fn lemma_decode_literal(b: Seq<u8>, off: nat, w: u64)
    requires
        w != MARKER,
        off + 8 <= b.len(),
        b.subrange(off as int, off + 8int) == word_bytes(w),
    ensures
        decode_from(b, off, 0) == seq![w] + decode_from(b, off + 8, 0),
{
    lemma_word_of_bytes(w);
    assert(read_step(b, off, 0) == Some((w, off + 8, 0nat)));
}

/// Literal words that are not the marker decode as themselves.
proof fn lemma_decode_literals(b: Seq<u8>, off: nat, w: u64, k: nat)
    requires
        w != MARKER,
        off + 8 * k <= b.len(),
        b.subrange(off as int, (off + 8 * k) as int) == repeat_bytes(w, k),
    ensures
        decode_from(b, off, 0) == copies(w, k) + decode_from(b, off + 8 * k, 0),
    decreases k,
{
    if k == 0 {
        assert(copies(w, k) + decode_from(b, off, 0) =~= decode_from(b, off, 0));
    } else {
        let next = (off + 8) as nat;
        let k1 = (k - 1) as nat;
        assert(off + 8 * k == next + 8 * k1);
        lemma_repeat_bytes_front(w, k);
        lemma_repeat_bytes_len(w, k1);
        lemma_word_of_bytes(w);
        lemma_split_at(b, off as int, next as int, (off + 8 * k) as int, word_bytes(w), repeat_bytes(w, k1));
        lemma_decode_literal(b, off, w);
        lemma_decode_literals(b, next, w, k1);
        let tail = decode_from(b, off + 8 * k, 0);
        assert(decode_from(b, next, 0) == copies(w, k1) + tail);
        assert(copies(w, k) =~= seq![w] + copies(w, k1));
        assert(seq![w] + (copies(w, k1) + tail) =~= copies(w, k) + tail);
    }
}

/// With `j` copies of a run still owed, the decoder reads the value `j`
/// times and then moves past it.
proof fn lemma_decode_run(b: Seq<u8>, off: nat, w: u64, j: nat)
    requires
        j >= 1,
        off + 8 <= b.len(),
        b.subrange(off as int, off + 8int) == word_bytes(w),
    ensures
        decode_from(b, off, j) == copies(w, j) + decode_from(b, off + 8, 0),
    decreases j,
{
    lemma_word_of_bytes(w);
    if j > 1 {
        assert(read_step(b, off, j) == Some((w, off, (j - 1) as nat)));
        lemma_decode_run(b, off, w, (j - 1) as nat);
    } else {
        assert(read_step(b, off, j) == Some((w, off + 8, 0nat)));
    }
    assert(copies(w, j) =~= seq![w] + copies(w, (j - 1) as nat));
    assert(decode_from(b, off, j) =~= copies(w, j) + decode_from(b, off + 8, 0));
}

/// The record of a run decodes as the run.
proof fn lemma_decode_record(b: Seq<u8>, off: nat, w: u64, k: nat)
    requires
        k <= u64::MAX,
        k > 0 ==> w != MARKER,
        off + run_record(w, k).len() <= b.len(),
        b.subrange(off as int, (off + run_record(w, k).len()) as int) == run_record(w, k),
    ensures
        decode_from(b, off, 0) == copies(w, k) + decode_from(b, off + run_record(w, k).len(), 0),
{
    lemma_repeat_bytes_len(w, k);
    if k == 0 {
        assert(copies(w, k) + decode_from(b, off, 0) =~= decode_from(b, off, 0));
    } else if k < MIN_RUN {
        lemma_decode_literals(b, off, w, k);
    } else {
        let rec = run_record(w, k);
        lemma_word_of_bytes(MARKER);
        lemma_word_of_bytes(k as u64);
        lemma_word_of_bytes(w);
        assert(rec.len() == 24);
        assert(b.subrange(off as int, off + 8int) =~= rec.subrange(0, 8));
        assert(rec.subrange(0, 8) =~= word_bytes(MARKER));
        assert(b.subrange(off + 8int, off + 16int) =~= rec.subrange(8, 16));
        assert(rec.subrange(8, 16) =~= word_bytes(k as u64));
        assert(b.subrange(off + 16int, off + 24int) =~= rec.subrange(16, 24));
        assert(rec.subrange(16, 24) =~= word_bytes(w));
        assert(read_step(b, off, 0) == Some((w, off + 16, (k - 1) as nat)));
        lemma_decode_run(b, off + 16, w, (k - 1) as nat);
        assert(copies(w, k) =~= seq![w] + copies(w, (k - 1) as nat));
        assert(decode_from(b, off, 0) =~= copies(w, k) + decode_from(b, off + 24, 0));
    }
}

proof fn lemma_decode_encode_from(b: Seq<u8>, off: nat, w: u64, k: nat, ws: Seq<u64>)
    requires
        k <= u64::MAX,
        k > 0 ==> w != MARKER,
        marker_free(ws),
        off + encode_from(w, k, ws).len() == b.len(),
        b.subrange(off as int, b.len() as int) == encode_from(w, k, ws),
    ensures
        decode_from(b, off, 0) == copies(w, k) + ws,
    decreases ws.len(),
{
    if ws.len() == 0 {
        lemma_decode_record(b, off, w, k);
        assert(copies(w, k) + ws =~= copies(w, k));
        assert(copies(w, k) + decode_from(b, b.len(), 0) =~= copies(w, k));
    } else if 0 < k < u64::MAX && ws[0] == w {
        lemma_decode_encode_from(b, off, w, k + 1, ws.drop_first());
        assert(copies(w, k + 1) + ws.drop_first() =~= copies(w, k) + ws);
    } else {
        let rec = run_record(w, k);
        let rest = encode_from(ws[0], 1, ws.drop_first());
        assert(b.subrange(off as int, (off + rec.len()) as int) =~= rec);
        lemma_decode_record(b, off, w, k);
        let whole = b.subrange(off as int, b.len() as int);
        assert(whole == rec + rest);
        assert(b.subrange((off + rec.len()) as int, b.len() as int) =~= whole.subrange(
            rec.len() as int,
            whole.len() as int,
        ));
        assert(whole.subrange(rec.len() as int, whole.len() as int) =~= rest);
        lemma_decode_encode_from(b, off + rec.len(), ws[0], 1, ws.drop_first());
        assert(copies(ws[0], 1) + ws.drop_first() =~= ws);
    }
}

/// Decoding the compressed stream of a sequence of words that holds no
/// marker word gives back the sequence.
pub proof fn lemma_decode_encode(ws: Seq<u64>)
    requires
        marker_free(ws),
    ensures
        rle_decode(rle_encode(ws)) == ws,
{
    let b = rle_encode(ws);
    assert(b.subrange(0, b.len() as int) =~= b);
    lemma_decode_encode_from(b, 0, 0, 0, ws);
    assert(copies(0, 0) + ws =~= ws);
}

proof fn lemma_encode_copies_from(w: u64, j: nat, m: nat)
    requires
        j >= 1,
        j + m <= u64::MAX,
    ensures
        encode_from(w, j, copies(w, m)) == run_record(w, j + m),
    decreases m,
{
    if m > 0 {
        assert(copies(w, m).drop_first() =~= copies(w, (m - 1) as nat));
        lemma_encode_copies_from(w, j + 1, (m - 1) as nat);
    }
}

/// A run of `n` equal words is written as `n` literal words when it is
/// shorter than the minimum run, and as one 24-byte run record otherwise.
pub proof fn lemma_encode_run(w: u64, n: nat)
    requires
        1 <= n <= u64::MAX,
    ensures
        rle_encode(copies(w, n)) == run_record(w, n),
        rle_encode(copies(w, n)).len() == if n < MIN_RUN { 8 * n } else { 24 },
{
    assert(copies(w, n).drop_first() =~= copies(w, (n - 1) as nat));
    lemma_encode_copies_from(w, 1, (n - 1) as nat);
    assert(rle_encode(copies(w, n)) =~= run_record(w, n));
    lemma_repeat_bytes_len(w, n);
}

proof fn lemma_encode_copies_then(w: u64, j: nat, m: nat, rest: Seq<u64>)
    requires
        j >= 1,
        j + m <= u64::MAX,
        rest.len() == 0 || rest[0] != w,
    ensures
        encode_from(w, j, copies(w, m) + rest) == run_record(w, j + m) + rle_encode(rest),
    decreases m,
{
    if m > 0 {
        assert((copies(w, m) + rest)[0] == w);
        assert((copies(w, m) + rest).drop_first() =~= copies(w, (m - 1) as nat) + rest);
        lemma_encode_copies_then(w, j + 1, (m - 1) as nat, rest);
    } else {
        assert(copies(w, m) + rest =~= rest);
        if rest.len() == 0 {
            assert(run_record(w, j) + rle_encode(rest) =~= run_record(w, j));
        } else {
            assert(run_record(0, 0) =~= Seq::<u8>::empty());
            assert(rle_encode(rest) =~= encode_from(rest[0], 1, rest.drop_first()));
        }
    }
}

/// A stream is written run by run: a maximal run of `n` copies of `w` at
/// its start (one that the next word, if any, does not extend) is written
/// as its record, followed by the encoding of the rest.
pub proof fn lemma_encode_leading_run(w: u64, n: nat, rest: Seq<u64>)
    requires
        1 <= n <= u64::MAX,
        rest.len() == 0 || rest[0] != w,
    ensures
        rle_encode(copies(w, n) + rest) == run_record(w, n) + rle_encode(rest),
{
    let ws = copies(w, n) + rest;
    assert(ws[0] == w);
    assert(ws.drop_first() =~= copies(w, (n - 1) as nat) + rest);
    lemma_encode_copies_then(w, 1, (n - 1) as nat, rest);
    assert(run_record(0, 0) =~= Seq::<u8>::empty());
    assert(rle_encode(ws) =~= run_record(w, n) + rle_encode(rest));
}

/// Four equal words followed by a different one are written as a run
/// record of length four and then the different word as a literal; the
/// stream decodes back to the five words when neither is the marker.
pub proof fn lemma_run_of_four_then_literal(w: u64, v: u64)
    requires
        w != v,
    ensures
        rle_encode(copies(w, 4).push(v)) == word_bytes(MARKER) + word_bytes(4) + word_bytes(w)
            + word_bytes(v),
        w != MARKER && v != MARKER ==> rle_decode(rle_encode(copies(w, 4).push(v))) == copies(
            w,
            4,
        ).push(v),
{
    let ws = copies(w, 4).push(v);
    assert(ws =~= copies(w, 4) + seq![v]);
    lemma_encode_leading_run(w, 4, seq![v]);
    lemma_encode_run(v, 1);
    assert(copies(v, 1) =~= seq![v]);
    assert(repeat_bytes(v, 1) =~= word_bytes(v));
    assert(rle_encode(ws) =~= word_bytes(MARKER) + word_bytes(4) + word_bytes(w) + word_bytes(v));
    if w != MARKER && v != MARKER {
        assert(marker_free(ws));
        lemma_decode_encode(ws);
    }
}

proof fn lemma_encode_from_len(w: u64, k: nat, ws: Seq<u64>)
    ensures
        encode_from(w, k, ws).len() <= 8 * (k + ws.len()),
    decreases ws.len(),
{
    lemma_repeat_bytes_len(w, k);
    if ws.len() > 0 {
        if 0 < k < u64::MAX && ws[0] == w {
            lemma_encode_from_len(w, k + 1, ws.drop_first());
        } else {
            lemma_encode_from_len(ws[0], 1, ws.drop_first());
        }
    }
}

/// The compressed stream is never longer than the words written out as
/// literals.
pub proof fn lemma_encode_len(ws: Seq<u64>)
    ensures
        rle_encode(ws).len() <= 8 * ws.len(),
{
    lemma_encode_from_len(0, 0, ws);
}

} // verus!
