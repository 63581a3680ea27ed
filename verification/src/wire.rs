//! Byte-level framing of the serial link.
//!
//! A frame is a payload run through consistent-overhead byte stuffing (COBS),
//! which leaves no zero byte in it, followed by a single zero that delimits
//! it. [`Deframer`] cuts the incoming byte stream at the delimiters.
use vstd::prelude::*;

verus! {

/// Longest frame on the link, stuffing overhead and delimiter included.
pub const MAX_FRAME_LEN: usize = 256;

/// Longest payload that is stuffed with a single byte of overhead, whatever
/// it holds.
pub const MAX_PAYLOAD_LEN: usize = 253;

// ─── Byte stuffing ──────────────────────────────────────────────────────────

/// Number of bytes of `s` before its first zero; all of them if it has none.
pub open spec fn zero_free_run(s: Seq<u8>) -> nat
    decreases s.len(),
{
    if s.len() == 0 || s[0] == 0 {
        0
    } else {
        1 + zero_free_run(s.drop_first())
    }
}

/// The stuffed form of `data`: each zero-free run, headed by its length plus
/// one, in place of the zeros between the runs. This is COBS for data of at
/// most [`MAX_PAYLOAD_LEN`] bytes, where no run is long enough to be split.
pub open spec fn stuffed(data: Seq<u8>) -> Seq<u8>
    decreases data.len(),
{
    let run = zero_free_run(data) as int;
    let block = seq![(run + 1) as u8] + data.take(run);
    if run < data.len() {
        block + stuffed(data.skip(run + 1))
    } else {
        block
    }
}

/// What the zero-free bytes `s` are the stuffed form of: blocks, each headed
/// by its own length, with a zero after each block but the last and those of
/// full length. `None` where a block is cut short.
pub open spec fn unstuffed(s: Seq<u8>) -> Option<Seq<u8>>
    decreases s.len(),
{
    if s.len() == 0 {
        Some(Seq::empty())
    } else if s[0] == 0 || s[0] > s.len() {
        None
    } else {
        let code = s[0] as int;
        let rest = s.skip(code);
        let gap = if code != 255 && rest.len() > 0 {
            seq![0u8]
        } else {
            Seq::empty()
        };
        match unstuffed(rest) {
            Some(tail) => Some(s.subrange(1, code) + gap + tail),
            None => None,
        }
    }
}

/// The frame that carries `payload`: the stuffed payload and its delimiter.
pub open spec fn framed(payload: Seq<u8>) -> Seq<u8> {
    stuffed(payload).push(0)
}

/// The payload that a delimited run of bytes carries, read up to its first
/// zero. `None` for no bytes at all and for a block that is cut short.
pub open spec fn unframed(frame: Seq<u8>) -> Option<Seq<u8>> {
    if frame.len() == 0 {
        None
    } else {
        unstuffed(frame.take(zero_free_run(frame) as int))
    }
}

/// Declares `postcard::Error`.
#[verifier::external_type_specification]
#[verifier::external_body]
pub struct ExPostcardError(postcard::Error);

/// Runs `payload` through `postcard::ser_flavors::Cobs`, the flavor behind
/// `postcard::to_slice_cobs`, over a buffer of [`MAX_FRAME_LEN`] bytes. Claims
/// that a payload of up to [`MAX_PAYLOAD_LEN`] bytes always fits and comes out
/// as its COBS form with a zero behind it.
#[verifier::external_body]
fn cobs_encode(payload: &[u8]) -> (frame: Result<Vec<u8>, postcard::Error>)
    requires
        payload@.len() <= MAX_PAYLOAD_LEN,
    ensures
        frame is Ok,
        frame->Ok_0@ == framed(payload@),
{
    let mut buf = [0u8; MAX_FRAME_LEN];
    let slice = postcard::ser_flavors::Slice::new(&mut buf);
    let mut cobs = postcard::ser_flavors::Cobs::try_new(slice)?;
    postcard::ser_flavors::Flavor::try_extend(&mut cobs, payload)?;
    let used = postcard::ser_flavors::Flavor::finalize(cobs)?;
    Ok(used.to_vec())
}

/// Runs `frame` through `cobs::decode_in_place`, the decoder behind
/// `postcard::from_bytes_cobs`. Claims that it stops at the first zero, fails
/// on an empty input and on a block that is cut short, and otherwise gives
/// back the bytes that were stuffed.
#[verifier::external_body]
fn cobs_decode(frame: &[u8]) -> (payload: Option<Vec<u8>>)
    ensures
        payload is Some <==> unframed(frame@) is Some,
        payload matches Some(bytes) ==> unframed(frame@) == Some(bytes@),
{
    let mut buf = frame.to_vec();
    match cobs::decode_in_place(&mut buf) {
        Ok(len) => Some(buf[..len].to_vec()),
        Err(_) => None,
    }
}

/// The frame that carries `payload`.
pub fn encode_frame(payload: &[u8]) -> (frame: Vec<u8>)
    requires
        payload@.len() <= MAX_PAYLOAD_LEN,
    ensures
        frame@ == framed(payload@),
{
    match cobs_encode(payload) {
        Ok(frame) => frame,
        Err(_) => Vec::new(),
    }
}

/// The payload of a frame whose delimiter has been cut off, or `None` if the
/// bytes are not well stuffed.
pub fn decode_frame(frame: &[u8]) -> (payload: Option<Vec<u8>>)
    ensures
        payload is Some <==> unframed(frame@) is Some,
        payload matches Some(bytes) ==> unframed(frame@) == Some(bytes@),
{
    cobs_decode(frame)
}

/// A zero-free run ends at a zero or at the end of the bytes, and holds none.
pub proof fn lemma_zero_free_run(s: Seq<u8>)
    ensures
        zero_free_run(s) <= s.len(),
        forall|i: int| 0 <= i < zero_free_run(s) ==> s[i] != 0,
        zero_free_run(s) < s.len() ==> s[zero_free_run(s) as int] == 0,
    decreases s.len(),
{
    if s.len() > 0 && s[0] != 0 {
        let t = s.drop_first();
        lemma_zero_free_run(t);
        assert forall|i: int| 0 <= i < zero_free_run(s) implies s[i] != 0 by {
            if i > 0 {
                assert(t[i - 1] != 0);
            }
        }
    }
}

/// Bytes without a zero are one zero-free run.
pub proof fn lemma_run_of_zero_free(s: Seq<u8>)
    requires
        forall|i: int| 0 <= i < s.len() ==> s[i] != 0,
    ensures
        zero_free_run(s) == s.len(),
{
    lemma_zero_free_run(s);
}

/// Stuffing leaves no zero byte and costs exactly one byte.
pub proof fn lemma_stuffed_shape(data: Seq<u8>)
    requires
        data.len() <= MAX_PAYLOAD_LEN,
    ensures
        stuffed(data).len() == data.len() + 1,
        forall|i: int| 0 <= i < stuffed(data).len() ==> stuffed(data)[i] != 0,
    decreases data.len(),
{
    let run = zero_free_run(data) as int;
    lemma_zero_free_run(data);
    if run < data.len() {
        lemma_stuffed_shape(data.skip(run + 1));
    }
}

/// Stuffing loses nothing: unstuffing the stuffed form gives back the data.
pub proof fn lemma_unstuff_stuffed(data: Seq<u8>)
    requires
        data.len() <= MAX_PAYLOAD_LEN,
    ensures
        unstuffed(stuffed(data)) == Some(data),
    decreases data.len(),
{
    let run = zero_free_run(data) as int;
    let s = stuffed(data);
    lemma_zero_free_run(data);
    lemma_stuffed_shape(data);
    assert(s[0] == run + 1);
    assert(s.subrange(1, run + 1) =~= data.take(run));
    if run < data.len() {
        let tail = data.skip(run + 1);
        lemma_unstuff_stuffed(tail);
        lemma_stuffed_shape(tail);
        assert(s.skip(run + 1) =~= stuffed(tail));
        assert(data.take(run) + seq![0u8] + tail =~= data);
    } else {
        assert(s.skip(run + 1) =~= Seq::<u8>::empty());
        assert(unstuffed(Seq::<u8>::empty()) == Some(Seq::<u8>::empty()));
        assert(data.take(run) + Seq::<u8>::empty() + Seq::<u8>::empty() =~= data);
    }
}

/// A frame is at most [`MAX_FRAME_LEN`] bytes long, and its only zero is the
/// delimiter at its end.
pub proof fn lemma_framed_shape(payload: Seq<u8>)
    requires
        payload.len() <= MAX_PAYLOAD_LEN,
    ensures
        framed(payload).len() == payload.len() + 2,
        framed(payload).len() <= MAX_FRAME_LEN,
        framed(payload).last() == 0,
        forall|i: int| 0 <= i < framed(payload).len() - 1 ==> framed(payload)[i] != 0,
{
    lemma_stuffed_shape(payload);
}

/// Reading back what was written: the frame of a payload, with its delimiter
/// cut off, carries that payload.
pub proof fn lemma_frame_round_trip(payload: Seq<u8>)
    requires
        payload.len() <= MAX_PAYLOAD_LEN,
    ensures
        unframed(framed(payload).drop_last()) == Some(payload),
{
    let body = framed(payload).drop_last();
    assert(body =~= stuffed(payload));
    lemma_stuffed_shape(payload);
    lemma_run_of_zero_free(body);
    assert(body.take(body.len() as int) =~= body);
    lemma_unstuff_stuffed(payload);
}

// ─── Variable-length integers ───────────────────────────────────────────────

/// The unsigned 32-bit integer at the head of `bytes`, and the bytes behind
/// it: seven bits to a byte, least significant first, the top bit set on each
/// byte but the last. `place` counts the bytes already read. `None` where the
/// bytes run out, and where a fifth byte holds more than its four bits.
pub open spec fn varint(bytes: Seq<u8>, place: nat) -> Option<(nat, Seq<u8>)>
    decreases bytes.len(),
{
    if bytes.len() == 0 || place >= 5 || (place == 4 && bytes[0] > 15) {
        None
    } else if bytes[0] < 128 {
        Some((bytes[0] as nat, bytes.drop_first()))
    } else {
        match varint(bytes.drop_first(), place + 1) {
            Some((high, rest)) => Some(((bytes[0] - 128 + 128 * high) as nat, rest)),
            None => None,
        }
    }
}

/// Calls `postcard::take_from_bytes::<u32>`. Claims that it reads one
/// variable-length integer off the head of `bytes` and hands back the rest.
#[verifier::external_body]
pub(crate) fn take_u32(bytes: &[u8]) -> (taken: Option<(u32, Vec<u8>)>)
    ensures
        taken is Some <==> varint(bytes@, 0) is Some,
        taken matches Some((value, rest)) ==> varint(bytes@, 0) == Some((value as nat, rest@)),
{
    match postcard::take_from_bytes::<u32>(bytes) {
        Ok((value, rest)) => Some((value, rest.to_vec())),
        Err(_) => None,
    }
}

// ─── Cutting the stream into frames ─────────────────────────────────────────

/// What one incoming byte does to the bytes pending since the last delimiter:
/// the bytes pending after it, and the frame that it completes, if any. A
/// delimiter completes a non-empty frame that fits [`MAX_FRAME_LEN`]. A longer
/// one is discarded up to its delimiter: one byte too many stays pending as the
/// mark of it.
pub open spec fn deframed_byte(pending: Seq<u8>, byte: u8) -> (Seq<u8>, Option<Seq<u8>>) {
    if byte == 0 {
        (
            Seq::empty(),
            if 0 < pending.len() <= MAX_FRAME_LEN {
                Some(pending)
            } else {
                None
            },
        )
    } else if pending.len() <= MAX_FRAME_LEN {
        (pending.push(byte), None)
    } else {
        (pending, None)
    }
}

/// What a run of incoming bytes does: the bytes pending after it, and the
/// frames that it completes, in order.
pub open spec fn deframed(pending: Seq<u8>, bytes: Seq<u8>) -> (Seq<u8>, Seq<Seq<u8>>)
    decreases bytes.len(),
{
    if bytes.len() == 0 {
        (pending, Seq::empty())
    } else {
        let (next, done) = deframed_byte(pending, bytes[0]);
        let (last, frames) = deframed(next, bytes.drop_first());
        (
            last,
            match done {
                Some(frame) => seq![frame] + frames,
                None => frames,
            },
        )
    }
}

/// The messages among `frames`, in order, as `decode` reads them; a frame that
/// it rejects is dropped.
pub open spec fn accepted<M>(frames: Seq<Seq<u8>>, decode: spec_fn(Seq<u8>) -> Option<M>) -> Seq<M>
    decreases frames.len(),
{
    if frames.len() == 0 {
        Seq::empty()
    } else {
        let rest = accepted(frames.drop_first(), decode);
        match decode(frames[0]) {
            Some(msg) => seq![msg] + rest,
            None => rest,
        }
    }
}

/// Receive side of the link: the bytes seen since the last delimiter.
#[derive(Debug)]
pub struct Deframer {
    pending: Vec<u8>,
}

impl View for Deframer {
    type V = Seq<u8>;

    closed spec fn view(&self) -> Seq<u8> {
        self.pending@
    }
}

impl Deframer {
    /// Pending bytes outgrow a frame by one at most and hold no delimiter.
    pub open spec fn wf(&self) -> bool {
        &&& self@.len() <= MAX_FRAME_LEN + 1
        &&& forall|i: int| 0 <= i < self@.len() ==> self@[i] != 0
    }

    /// A receiver that has seen nothing yet.
    pub fn new() -> (r: Deframer)
        ensures
            r.wf(),
            r@ == Seq::<u8>::empty(),
    {
        Deframer { pending: Vec::new() }
    }

    /// Takes in one byte; hands out the frame that it completes, if any.
    pub fn feed(&mut self, byte: u8) -> (done: Option<Vec<u8>>)
        requires
            old(self).wf(),
        ensures
            final(self).wf(),
            final(self)@ == deframed_byte(old(self)@, byte).0,
            done is Some <==> deframed_byte(old(self)@, byte).1 is Some,
            done matches Some(frame) ==> deframed_byte(old(self)@, byte).1 == Some(frame@),
    {
        if byte == 0 {
            let mut done: Vec<u8> = Vec::new();
            std::mem::swap(&mut done, &mut self.pending);
            if done.len() > 0 && done.len() <= MAX_FRAME_LEN {
                Some(done)
            } else {
                None
            }
        } else {
            if self.pending.len() <= MAX_FRAME_LEN {
                self.pending.push(byte);
            }
            None
        }
    }
}

/// Cutting a stream does not depend on where it is broken into chunks.
pub proof fn lemma_deframed_concat(pending: Seq<u8>, a: Seq<u8>, b: Seq<u8>)
    ensures
        deframed(pending, a + b).0 == deframed(deframed(pending, a).0, b).0,
        deframed(pending, a + b).1 == deframed(pending, a).1 + deframed(
            deframed(pending, a).0,
            b,
        ).1,
    decreases a.len(),
{
    if a.len() == 0 {
        assert(a + b =~= b);
        assert(deframed(pending, a).1 + deframed(pending, b).1 =~= deframed(pending, b).1);
    } else {
        let (next, done) = deframed_byte(pending, a[0]);
        assert((a + b).drop_first() =~= a.drop_first() + b);
        lemma_deframed_concat(next, a.drop_first(), b);
        if let Some(frame) = done {
            let tail = deframed(next, a.drop_first()).1;
            let after = deframed(deframed(next, a.drop_first()).0, b).1;
            assert(seq![frame] + (tail + after) =~= (seq![frame] + tail) + after);
        }
    }
}

/// Delimiter-free bytes that fit are all kept pending.
proof fn lemma_deframed_body(pending: Seq<u8>, body: Seq<u8>)
    requires
        forall|i: int| 0 <= i < body.len() ==> body[i] != 0,
        pending.len() + body.len() <= MAX_FRAME_LEN,
    ensures
        deframed(pending, body) == (pending + body, Seq::<Seq<u8>>::empty()),
    decreases body.len(),
{
    if body.len() == 0 {
        assert(pending + body =~= pending);
    } else {
        lemma_deframed_body(pending.push(body[0]), body.drop_first());
        assert(pending.push(body[0]) + body.drop_first() =~= pending + body);
    }
}

/// From a clean start, the bytes of one frame come out as that frame without
/// its delimiter, and leave nothing pending.
pub proof fn lemma_deframed_frame(payload: Seq<u8>)
    requires
        payload.len() <= MAX_PAYLOAD_LEN,
    ensures
        deframed(Seq::empty(), framed(payload)) == (
            Seq::<u8>::empty(),
            seq![framed(payload).drop_last()],
        ),
{
    let frame = framed(payload);
    let body = frame.drop_last();
    let empty = Seq::<u8>::empty();
    lemma_framed_shape(payload);
    lemma_deframed_body(empty, body);
    assert(empty + body =~= body);
    assert(frame =~= body + seq![0u8]);
    lemma_deframed_concat(empty, body, seq![0u8]);
    assert(seq![0u8].drop_first() =~= empty);
    assert(deframed(empty, empty) == (empty, Seq::<Seq<u8>>::empty()));
    assert(deframed(body, seq![0u8]).0 == empty);
    assert(deframed(body, seq![0u8]).1 =~= seq![body]);
    assert(deframed(empty, frame).1 =~= seq![body]);
}

/// After any bytes at all, one delimiter brings the receiver back to a clean
/// start: whatever was lost before it, the frames behind it are unaffected.
pub proof fn lemma_delimiter_resyncs(pending: Seq<u8>, noise: Seq<u8>)
    ensures
        deframed(pending, noise.push(0)).0 == Seq::<u8>::empty(),
{
    assert(noise.push(0) =~= noise + seq![0u8]);
    lemma_deframed_concat(pending, noise, seq![0u8]);
    let mid = deframed(pending, noise).0;
    assert(seq![0u8].drop_first() =~= Seq::<u8>::empty());
    let empty = Seq::<u8>::empty();
    assert(deframed(empty, empty).0 == empty);
    assert(deframed(mid, seq![0u8]).0 == empty);
}

/// Too many delimiter-free bytes leave the mark of an oversized frame.
proof fn lemma_deframed_oversized(pending: Seq<u8>, body: Seq<u8>)
    requires
        forall|i: int| 0 <= i < body.len() ==> body[i] != 0,
        pending.len() <= MAX_FRAME_LEN + 1,
        pending.len() + body.len() > MAX_FRAME_LEN,
    ensures
        deframed(pending, body).0.len() == MAX_FRAME_LEN + 1,
        deframed(pending, body).1 == Seq::<Seq<u8>>::empty(),
    decreases body.len(),
{
    if body.len() > 0 {
        lemma_deframed_oversized(deframed_byte(pending, body[0]).0, body.drop_first());
    }
}

/// An oversized frame is discarded whole: of more bytes than a frame can hold,
/// nothing up to the next delimiter is handed out, and the receiver starts
/// afresh behind it.
pub proof fn lemma_oversized_is_discarded(pending: Seq<u8>, body: Seq<u8>)
    requires
        forall|i: int| 0 <= i < body.len() ==> body[i] != 0,
        pending.len() <= MAX_FRAME_LEN + 1,
        pending.len() + body.len() > MAX_FRAME_LEN,
    ensures
        deframed(pending, body.push(0)) == (Seq::<u8>::empty(), Seq::<Seq<u8>>::empty()),
{
    let empty = Seq::<u8>::empty();
    let mid = deframed(pending, body).0;
    lemma_deframed_oversized(pending, body);
    assert(body.push(0) =~= body + seq![0u8]);
    lemma_deframed_concat(pending, body, seq![0u8]);
    assert(seq![0u8].drop_first() =~= empty);
    assert(deframed(empty, empty) == (empty, Seq::<Seq<u8>>::empty()));
    assert(deframed(mid, seq![0u8]).0 == empty);
    assert(deframed(mid, seq![0u8]).1 =~= Seq::<Seq<u8>>::empty());
    assert(deframed(pending, body.push(0)).1 =~= Seq::<Seq<u8>>::empty());
}

/// Frames accepted from two runs of frames are those of the first, then those
/// of the second.
pub proof fn lemma_accepted_concat<M>(
    a: Seq<Seq<u8>>,
    b: Seq<Seq<u8>>,
    decode: spec_fn(Seq<u8>) -> Option<M>,
)
    ensures
        accepted(a + b, decode) == accepted(a, decode) + accepted(b, decode),
    decreases a.len(),
{
    if a.len() == 0 {
        assert(a + b =~= b);
        assert(accepted(a, decode) + accepted(b, decode) =~= accepted(b, decode));
    } else {
        assert((a + b).drop_first() =~= a.drop_first() + b);
        lemma_accepted_concat(a.drop_first(), b, decode);
        if let Some(msg) = decode(a[0]) {
            let rest = accepted(a.drop_first(), decode);
            assert(seq![msg] + (rest + accepted(b, decode)) =~= (seq![msg] + rest) + accepted(
                b,
                decode,
            ));
        }
    }
}

/// A delimited run of bytes comes out as it went in: from a clean start, bytes
/// without a zero and then a zero give exactly that frame, if there are one to
/// 256 of them, and none otherwise.
pub proof fn lemma_delimited_run_comes_out(body: Seq<u8>)
    requires
        forall|i: int| 0 <= i < body.len() ==> body[i] != 0,
    ensures
        deframed(Seq::empty(), body.push(0)).0 == Seq::<u8>::empty(),
        1 <= body.len() <= 256 ==> deframed(Seq::empty(), body.push(0)).1 == seq![body],
        body.len() == 0 || body.len() > 256 ==> deframed(Seq::empty(), body.push(0)).1
            == Seq::<Seq<u8>>::empty(),
{
    let empty = Seq::<u8>::empty();
    if body.len() > 256 {
        lemma_oversized_is_discarded(empty, body);
    } else {
        lemma_deframed_body(empty, body);
        assert(empty + body =~= body);
        assert(body.push(0) =~= body + seq![0u8]);
        lemma_deframed_concat(empty, body, seq![0u8]);
        assert(seq![0u8].drop_first() =~= empty);
        assert(deframed(empty, empty) == (empty, Seq::<Seq<u8>>::empty()));
        assert(deframed(body, seq![0u8]).0 == empty);
        if body.len() == 0 {
            assert(deframed(body, seq![0u8]).1 =~= Seq::<Seq<u8>>::empty());
            assert(deframed(empty, body.push(0)).1 =~= Seq::<Seq<u8>>::empty());
        } else {
            assert(deframed(body, seq![0u8]).1 =~= seq![body]);
            assert(deframed(empty, body.push(0)).1 =~= seq![body]);
        }
    }
}

/// Bytes without a zero are kept and hand out nothing, up to the 256 of a frame.
pub proof fn lemma_bytes_are_kept(pending: Seq<u8>, bytes: Seq<u8>)
    requires
        forall|i: int| 0 <= i < bytes.len() ==> bytes[i] != 0,
        pending.len() + bytes.len() <= 256,
    ensures
        deframed(pending, bytes).0 == pending + bytes,
        deframed(pending, bytes).1 == Seq::<Seq<u8>>::empty(),
{
    lemma_deframed_body(pending, bytes);
}

/// Of the frames behind those already seen, one that decodes adds its message at
/// the end, one that does not adds nothing.
pub proof fn lemma_accepted_one_more<M>(
    frames: Seq<Seq<u8>>,
    frame: Seq<u8>,
    decode: spec_fn(Seq<u8>) -> Option<M>,
)
    ensures
        accepted(Seq::empty(), decode) == Seq::<M>::empty(),
        decode(frame) matches Some(msg) ==> accepted(frames.push(frame), decode) == accepted(
            frames,
            decode,
        ).push(msg),
        decode(frame) is None ==> accepted(frames.push(frame), decode) == accepted(frames, decode),
{
    assert(frames.push(frame) =~= frames + seq![frame]);
    lemma_accepted_concat(frames, seq![frame], decode);
    assert(seq![frame].drop_first() =~= Seq::<Seq<u8>>::empty());
    assert(accepted(seq![frame].drop_first(), decode) =~= Seq::<M>::empty());
    if let Some(msg) = decode(frame) {
        assert(accepted(seq![frame], decode) =~= seq![msg]);
        assert(accepted(frames, decode) + seq![msg] =~= accepted(frames, decode).push(msg));
    } else {
        assert(accepted(seq![frame], decode) =~= Seq::<M>::empty());
        assert(accepted(frames, decode) + Seq::<M>::empty() =~= accepted(frames, decode));
    }
}

} // verus!
