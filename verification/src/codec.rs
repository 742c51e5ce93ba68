//! The frame codec: one frame on the wire is an 8-byte big-endian unsigned
//! length followed by exactly that many payload bytes. No type tag, no
//! checksum, no version field.
//!
//! Decoding is incremental: partial header bytes are accumulated exactly
//! like payload bytes, so a read that stops in the middle of a header or a
//! body never fails the connection; the decoder resumes where it left off.
//! A zero-length frame is legal on the wire but is dropped by the decoder:
//! it never surfaces to the caller.

use vstd::prelude::*;

verus! {

/// The eight big-endian bytes that encode a frame length.
pub open spec fn len_bytes(n: u64) -> Seq<u8> {
    seq![
        (n >> 56) as u8,
        (n >> 48) as u8,
        (n >> 40) as u8,
        (n >> 32) as u8,
        (n >> 24) as u8,
        (n >> 16) as u8,
        (n >> 8) as u8,
        n as u8,
    ]
}

/// The length that eight header bytes declare.
pub open spec fn len_value(s: Seq<u8>) -> u64
    recommends
        s.len() == 8,
{
    ((s[0] as u64) << 56) | ((s[1] as u64) << 48) | ((s[2] as u64) << 40) | ((s[3] as u64) << 32)
        | ((s[4] as u64) << 24) | ((s[5] as u64) << 16) | ((s[6] as u64) << 8) | (s[7] as u64)
}

/// The full wire form of one frame: length header, then payload.
pub open spec fn frame_bytes(payload: Seq<u8>) -> Seq<u8>
    recommends
        payload.len() <= u64::MAX,
{
    len_bytes(payload.len() as u64) + payload
}

/// Decoding the eight header bytes of a length recovers that length.
pub proof fn lemma_len_round_trip(n: u64)
    ensures
        len_value(len_bytes(n)) == n,
{
    let s = len_bytes(n);
    assert(s[0] == (n >> 56) as u8);
    assert(s[1] == (n >> 48) as u8);
    assert(s[2] == (n >> 40) as u8);
    assert(s[3] == (n >> 32) as u8);
    assert(s[4] == (n >> 24) as u8);
    assert(s[5] == (n >> 16) as u8);
    assert(s[6] == (n >> 8) as u8);
    assert(s[7] == n as u8);
    assert((((((n >> 56) as u8) as u64) << 56) | ((((n >> 48) as u8) as u64) << 48)
        | ((((n >> 40) as u8) as u64) << 40) | ((((n >> 32) as u8) as u64) << 32)
        | ((((n >> 24) as u8) as u64) << 24) | ((((n >> 16) as u8) as u64) << 16)
        | ((((n >> 8) as u8) as u64) << 8) | ((n as u8) as u64)) == n) by (bit_vector);
}

/// Encode a length as its eight big-endian header bytes.
pub fn encode_len(n: u64) -> (r: Vec<u8>)
    ensures
        r@ == len_bytes(n),
{
    let mut r: Vec<u8> = Vec::new();
    r.push((n >> 56) as u8);
    r.push((n >> 48) as u8);
    r.push((n >> 40) as u8);
    r.push((n >> 32) as u8);
    r.push((n >> 24) as u8);
    r.push((n >> 16) as u8);
    r.push((n >> 8) as u8);
    r.push(n as u8);
    proof {
        assert(r@ =~= len_bytes(n));
    }
    r
}

/// Read the length that eight header bytes declare.
pub fn decode_len(b: &Vec<u8>) -> (r: u64)
    requires
        b@.len() == 8,
    ensures
        r == len_value(b@),
{
    ((b[0] as u64) << 56) | ((b[1] as u64) << 48) | ((b[2] as u64) << 40) | ((b[3] as u64) << 32)
        | ((b[4] as u64) << 24) | ((b[5] as u64) << 16) | ((b[6] as u64) << 8) | (b[7] as u64)
}

/// Encode a whole frame: header, then payload.
pub fn encode_frame(payload: &Vec<u8>) -> (r: Vec<u8>)
    ensures
        r@ == frame_bytes(payload@),
{
    let mut r = encode_len(payload.len() as u64);
    let mut i: usize = 0;
    while i < payload.len()
        invariant
            i <= payload@.len(),
            r@ == len_bytes(payload@.len() as u64) + payload@.take(i as int),
        decreases payload@.len() - i,
    {
        r.push(payload[i]);
        proof {
            assert(r@ =~= len_bytes(payload@.len() as u64) + payload@.take(i + 1));
        }
        i += 1;
    }
    proof {
        assert(payload@.take(payload@.len() as int) =~= payload@);
    }
    r
}

/// Decoder progress, as specifications see it. While a header is incomplete
/// the bytes seen so far are kept; once a header is complete the declared
/// length and the payload bytes so far are kept. This is the read
/// continuation: saved state that lets decoding resume after an
/// interrupted read.
pub enum ReadProgress {
    /// Fewer than eight header bytes have arrived so far.
    Header(Seq<u8>),
    /// The header declared this payload length; these payload bytes arrived.
    Body(u64, Seq<u8>),
}

/// Decoder progress, as the executable decoder stores it.
pub enum ReadState {
    /// Fewer than eight header bytes have arrived so far.
    Header(Vec<u8>),
    /// The header declared this payload length; these payload bytes arrived.
    Body(u64, Vec<u8>),
}

impl View for ReadState {
    type V = ReadProgress;

    open spec fn view(&self) -> ReadProgress {
        match self {
            ReadState::Header(p) => ReadProgress::Header(p@),
            ReadState::Body(need, got) => ReadProgress::Body(*need, got@),
        }
    }
}

/// The decoder's starting state: no header bytes yet.
pub open spec fn init_read() -> ReadProgress {
    ReadProgress::Header(Seq::empty())
}

/// A well-formed decoder state: a partial header is shorter than eight
/// bytes, and a partial body is shorter than its declared length. A frame
/// that completes is emitted at once, so neither bound is ever reached
/// between calls.
pub open spec fn read_wf(st: ReadProgress) -> bool {
    match st {
        ReadProgress::Header(p) => p.len() < 8,
        ReadProgress::Body(need, got) => got.len() < need,
    }
}

/// One received byte advances the decoder. The byte that completes a
/// header either starts a body or, for a declared length of zero, drops
/// the frame on the spot; the byte that completes a body emits the frame.
pub open spec fn step(st: ReadProgress, b: u8) -> (ReadProgress, Option<Seq<u8>>) {
    match st {
        ReadProgress::Header(p) => {
            if p.len() < 7 {
                (ReadProgress::Header(p.push(b)), None::<Seq<u8>>)
            } else if p.len() == 7 {
                let need = len_value(p.push(b));
                if need == 0 {
                    (init_read(), None)
                } else {
                    (ReadProgress::Body(need, Seq::empty()), None)
                }
            } else {
                (st, None)
            }
        },
        ReadProgress::Body(need, got) => {
            if got.len() + 1 < need {
                (ReadProgress::Body(need, got.push(b)), None)
            } else if got.len() + 1 == need {
                (init_read(), Some(got.push(b)))
            } else {
                (st, None)
            }
        },
    }
}

/// Feeding a byte sequence to the decoder: the state it reaches and the
/// payloads of the frames that completed, in arrival order. Zero-length
/// frames never appear in the output.
pub open spec fn feed(st: ReadProgress, input: Seq<u8>) -> (ReadProgress, Seq<Seq<u8>>)
    decreases input.len(),
{
    if input.len() == 0 {
        (st, Seq::empty())
    } else {
        let first = step(st, input[0]);
        let rest = feed(first.0, input.skip(1));
        match first.1 {
            Some(f) => (rest.0, seq![f] + rest.1),
            None => rest,
        }
    }
}

/// Feeding a concatenation equals feeding the parts one after the other:
/// the decoder ends in the same state and emits the same frames in the
/// same order. This is what makes an interrupted read harmless.
pub proof fn lemma_feed_split(st: ReadProgress, a: Seq<u8>, b: Seq<u8>)
    ensures
        feed(st, a + b).0 == feed(feed(st, a).0, b).0,
        feed(st, a + b).1 == feed(st, a).1 + feed(feed(st, a).0, b).1,
    decreases a.len(),
{
    if a.len() == 0 {
        assert(a + b =~= b);
        assert(feed(st, a).1 + feed(feed(st, a).0, b).1 =~= feed(st, b).1);
    } else {
        let s1 = step(st, a[0]);
        assert((a + b)[0] == a[0]);
        assert((a + b).skip(1) =~= a.skip(1) + b);
        lemma_feed_split(s1.0, a.skip(1), b);
        match s1.1 {
            Some(f) => {
                assert(seq![f] + (feed(s1.0, a.skip(1)).1 + feed(feed(s1.0, a.skip(1)).0, b).1)
                    =~= (seq![f] + feed(s1.0, a.skip(1)).1) + feed(feed(s1.0, a.skip(1)).0, b).1);
            },
            None => {},
        }
    }
}

/// Header bytes accumulate byte for byte and emit nothing; the eighth
/// byte turns them into the declared length.
pub proof fn lemma_feed_header(p: Seq<u8>, a: Seq<u8>)
    requires
        p.len() < 8,
        p.len() + a.len() <= 8,
    ensures
        feed(ReadProgress::Header(p), a).1 == Seq::<Seq<u8>>::empty(),
        p.len() + a.len() < 8 ==> feed(ReadProgress::Header(p), a).0 == ReadProgress::Header(p + a),
        p.len() + a.len() == 8 && len_value(p + a) == 0 ==> feed(ReadProgress::Header(p), a).0
            == init_read(),
        p.len() + a.len() == 8 && len_value(p + a) != 0 ==> feed(ReadProgress::Header(p), a).0
            == ReadProgress::Body(len_value(p + a), Seq::<u8>::empty()),
    decreases a.len(),
{
    if a.len() == 0 {
        assert(p + a =~= p);
    } else {
        let p1 = p.push(a[0]);
        assert(p1 =~= p + a.take(1));
        if p.len() < 7 {
            lemma_feed_header(p1, a.skip(1));
            assert(p1 + a.skip(1) =~= p + a);
        } else {
            reveal_with_fuel(feed, 2);
            assert(a.len() == 1);
            assert(p1 =~= p + a);
            assert(a.skip(1) =~= Seq::<u8>::empty());
        }
    }
}

/// Body bytes accumulate byte for byte under the declared length and emit
/// nothing; the byte that reaches the declared length emits the frame and
/// resets the decoder.
pub proof fn lemma_feed_body(need: u64, got: Seq<u8>, a: Seq<u8>)
    requires
        got.len() < need,
        got.len() + a.len() <= need,
    ensures
        got.len() + a.len() < need ==> feed(ReadProgress::Body(need, got), a) == ((
            ReadProgress::Body(need, got + a),
            Seq::<Seq<u8>>::empty(),
        )),
        got.len() + a.len() == need ==> feed(ReadProgress::Body(need, got), a) == ((
            init_read(),
            seq![got + a],
        )),
    decreases a.len(),
{
    if a.len() == 0 {
        assert(got + a =~= got);
    } else {
        let g1 = got.push(a[0]);
        if got.len() + 1 < need {
            lemma_feed_body(need, g1, a.skip(1));
            assert(g1 + a.skip(1) =~= got + a);
        } else {
            reveal_with_fuel(feed, 2);
            assert(a.len() == 1);
            assert(g1 =~= got + a);
            assert(a.skip(1) =~= Seq::<u8>::empty());
            assert(seq![g1] + Seq::<Seq<u8>>::empty() =~= seq![got + a]);
        }
    }
}

/// Round trip: decoding an encoded frame yields exactly the original
/// payload and leaves the decoder back at its starting state — except a
/// zero-length payload, whose frame is dropped and yields nothing.
pub proof fn lemma_round_trip(payload: Seq<u8>)
    requires
        payload.len() <= u64::MAX,
    ensures
        feed(init_read(), frame_bytes(payload)).0 == init_read(),
        payload.len() == 0 ==> feed(init_read(), frame_bytes(payload)).1 == Seq::<Seq<u8>>::empty(),
        payload.len() > 0 ==> feed(init_read(), frame_bytes(payload)).1 == seq![payload],
{
    let l = payload.len() as u64;
    let hdr = len_bytes(l);
    lemma_feed_split(init_read(), hdr, payload);
    assert(Seq::<u8>::empty() + hdr =~= hdr);
    lemma_feed_header(Seq::<u8>::empty(), hdr);
    lemma_len_round_trip(l);
    if payload.len() == 0 {
        assert(feed(init_read(), hdr + payload).1 =~= Seq::<Seq<u8>>::empty());
    } else {
        lemma_feed_body(l, Seq::<u8>::empty(), payload);
        assert(Seq::<u8>::empty() + payload =~= payload);
        assert(Seq::<Seq<u8>>::empty() + seq![payload] =~= seq![payload]);
    }
}

/// Partial-read resumption: when only part of a frame's bytes have
/// arrived, no frame is emitted and the continuation records the declared
/// length and the bytes so far; feeding the rest later completes exactly
/// the original frame without re-reading the header.
pub proof fn lemma_partial_read_resumption(payload: Seq<u8>, k: int)
    requires
        0 < payload.len() <= u64::MAX,
        0 <= k < frame_bytes(payload).len(),
    ensures
        feed(init_read(), frame_bytes(payload).take(k)).1 == Seq::<Seq<u8>>::empty(),
        k < 8 ==> feed(init_read(), frame_bytes(payload).take(k)).0 == ReadProgress::Header(
            frame_bytes(payload).take(k),
        ),
        k >= 8 ==> feed(init_read(), frame_bytes(payload).take(k)).0 == ReadProgress::Body(
            payload.len() as u64,
            payload.take(k - 8),
        ),
        feed(feed(init_read(), frame_bytes(payload).take(k)).0, frame_bytes(payload).skip(k)).0
            == init_read(),
        feed(feed(init_read(), frame_bytes(payload).take(k)).0, frame_bytes(payload).skip(k)).1
            == seq![payload],
{
    let l = payload.len() as u64;
    let fb = frame_bytes(payload);
    let hdr = len_bytes(l);
    lemma_len_round_trip(l);
    if k < 8 {
        assert(fb.take(k) =~= Seq::<u8>::empty() + fb.take(k));
        lemma_feed_header(Seq::<u8>::empty(), fb.take(k));
    } else {
        assert(fb.take(k) =~= hdr + payload.take(k - 8));
        lemma_feed_split(init_read(), hdr, payload.take(k - 8));
        assert(Seq::<u8>::empty() + hdr =~= hdr);
        lemma_feed_header(Seq::<u8>::empty(), hdr);
        lemma_feed_body(l, Seq::<u8>::empty(), payload.take(k - 8));
        assert(Seq::<u8>::empty() + payload.take(k - 8) =~= payload.take(k - 8));
        assert(Seq::<Seq<u8>>::empty() + Seq::<Seq<u8>>::empty() =~= Seq::<Seq<u8>>::empty());
    }
    assert(fb =~= fb.take(k) + fb.skip(k));
    lemma_feed_split(init_read(), fb.take(k), fb.skip(k));
    lemma_round_trip(payload);
    assert(Seq::<Seq<u8>>::empty() + feed(feed(init_read(), fb.take(k)).0, fb.skip(k)).1
        =~= feed(feed(init_read(), fb.take(k)).0, fb.skip(k)).1);
}

/// Feed freshly received bytes to the decoder. Returns the payloads of the
/// frames that completed during this call, in arrival order; zero-length
/// frames are dropped and never returned.
pub fn feed_bytes(st: ReadState, data: &[u8]) -> (r: (ReadState, Vec<Vec<u8>>))
    requires
        read_wf(st@),
    ensures
        r.0@ == feed(st@, data@).0,
        r.1.deep_view() == feed(st@, data@).1,
        read_wf(r.0@),
{
    let ghost st0 = st@;
    let mut cur = st;
    let mut frames: Vec<Vec<u8>> = Vec::new();
    let mut i: usize = 0;
    proof {
        assert(data@.skip(0) =~= data@);
        assert(frames.deep_view() =~= Seq::<Seq<u8>>::empty());
        assert(Seq::<Seq<u8>>::empty() + feed(st0, data@).1 =~= feed(st0, data@).1);
    }
    while i < data.len()
        invariant
            i <= data@.len(),
            read_wf(cur@),
            feed(st0, data@).0 == feed(cur@, data@.skip(i as int)).0,
            feed(st0, data@).1 == frames.deep_view() + feed(cur@, data@.skip(i as int)).1,
        decreases data@.len() - i,
    {
        let b = data[i];
        let ghost pre = cur@;
        let ghost pre_frames = frames.deep_view();
        proof {
            assert(data@.skip(i as int)[0] == b);
            assert(data@.skip(i as int).skip(1) =~= data@.skip(i + 1));
        }
        cur = match cur {
            ReadState::Header(mut p) => {
                p.push(b);
                if p.len() == 8 {
                    let need = decode_len(&p);
                    if need == 0 {
                        ReadState::Header(Vec::new())
                    } else {
                        ReadState::Body(need, Vec::new())
                    }
                } else {
                    ReadState::Header(p)
                }
            },
            ReadState::Body(need, mut got) => {
                got.push(b);
                if got.len() as u64 == need {
                    frames.push(got);
                    ReadState::Header(Vec::new())
                } else {
                    ReadState::Body(need, got)
                }
            },
        };
        proof {
            let stepped = step(pre, b);
            assert(cur@ == stepped.0);
            match stepped.1 {
                Some(f) => {
                    assert(frames.deep_view() =~~= pre_frames.push(f));
                    assert(pre_frames + (seq![f] + feed(cur@, data@.skip(i + 1)).1) =~= frames.deep_view()
                        + feed(cur@, data@.skip(i + 1)).1);
                },
                None => {
                    assert(frames.deep_view() == pre_frames);
                },
            }
        }
        i += 1;
    }
    proof {
        assert(data@.skip(i as int) =~= Seq::<u8>::empty());
        assert(feed(cur@, data@.skip(i as int)) == (cur@, Seq::<Seq<u8>>::empty()));
        assert(frames.deep_view() + Seq::<Seq<u8>>::empty() =~= frames.deep_view());
    }
    (cur, frames)
}

} // verus!
