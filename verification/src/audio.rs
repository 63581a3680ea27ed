//! Host side of the visualizer: taking captured audio apart, keeping the newest
//! samples, and deciding when to analyse them.
use vstd::arithmetic::div_mod::lemma_fundamental_div_mod_converse;
use vstd::prelude::*;

verus! {

/// Samples per analysis.
pub const FFT_SIZE: usize = 1024;

/// Bytes of one captured sample.
pub const SAMPLE_BYTES: usize = 4;

// ─── Pacing ─────────────────────────────────────────────────────────────────

/// The frame rate that is used for a requested one: 15 to 120 per second.
pub fn clamp_fps(fps: u32) -> (r: u32)
    ensures
        15 <= r <= 120,
        15 <= fps <= 120 ==> r == fps,
        fps < 15 ==> r == 15,
        fps > 120 ==> r == 120,
{
    if fps < 15 {
        15
    } else if fps > 120 {
        120
    } else {
        fps
    }
}

/// Time between two spectra at a frame rate, in microseconds, rounded down.
pub fn send_interval_us(fps: u32) -> (r: u64)
    requires
        fps > 0,
    ensures
        r == 1_000_000int / fps as int,
{
    1_000_000 / fps as u64
}

/// Whether captured audio is to be analysed: enough samples are there, and the
/// last spectrum is an interval old.
pub fn analysis_due(filled: usize, since_last_us: u64, interval_us: u64) -> (r: bool)
    ensures
        r == (filled >= FFT_SIZE && since_last_us >= interval_us),
{
    filled >= FFT_SIZE && since_last_us >= interval_us
}

// ─── Captured bytes ─────────────────────────────────────────────────────────

/// The 32-bit word at `at`, low byte first.
pub open spec fn le_word(bytes: Seq<u8>, at: int) -> u32 {
    (bytes[at] + 0x100 * bytes[at + 1] + 0x1_0000 * bytes[at + 2] + 0x100_0000 * bytes[at
        + 3]) as u32
}

/// One frame of interleaved audio: a word per channel, from `at` on.
pub open spec fn frame_words(bytes: Seq<u8>, channels: nat, at: int) -> Seq<u32> {
    Seq::new(channels, |c: int| le_word(bytes, at + 4 * c))
}

/// The complete frames of interleaved audio. A rest too short for a frame is
/// left out.
pub open spec fn audio_frames(bytes: Seq<u8>, channels: nat) -> Seq<Seq<u32>> {
    Seq::new(
        bytes.len() / (4 * channels),
        |f: int| frame_words(bytes, channels, f * (4 * channels)),
    )
}

/// Reads the 32-bit word at `at`, low byte first.
fn read_word(bytes: &[u8], at: usize) -> (r: u32)
    requires
        at + 4 <= bytes@.len(),
    ensures
        r == le_word(bytes@, at as int),
{
    bytes[at] as u32 + 0x100 * bytes[at + 1] as u32 + 0x1_0000 * bytes[at + 2] as u32 + 0x100_0000
        * bytes[at + 3] as u32
}

/// Takes captured audio apart into frames of raw 32-bit samples. Only the first
/// `chunk_size` bytes of the buffer count, and a stream that names no channels
/// has one.
pub fn capture_frames(data: &[u8], chunk_size: usize, channels: u32) -> (out: Vec<Vec<u32>>)
    ensures
        ({
            let used = if chunk_size < data@.len() {
                data@.take(chunk_size as int)
            } else {
                data@
            };
            let chans: nat = if channels == 0 {
                1
            } else {
                channels as nat
            };
            let frames = audio_frames(used, chans);
            &&& out@.len() == frames.len()
            &&& forall|f: int| 0 <= f < frames.len() ==> (#[trigger] out@[f])@ == frames[f]
        }),
{
    let n: usize = if chunk_size < data.len() {
        chunk_size
    } else {
        data.len()
    };
    let chans: usize = if channels == 0 {
        1
    } else {
        channels as usize
    };
    let ghost used = data@.take(n as int);
    let ghost frames = audio_frames(used, chans as nat);
    assert(n == data@.len() ==> used =~= data@);
    let mut out: Vec<Vec<u32>> = Vec::new();
    if n / SAMPLE_BYTES < chans {
        proof {
            lemma_fundamental_div_mod_converse(n as int, 4 * chans as int, 0, n as int);
        }
        return out;
    }
    let stride: usize = SAMPLE_BYTES * chans;
    let mut at: usize = 0;
    while n - at >= stride
        invariant
            n <= data@.len(),
            used == data@.take(n as int),
            chans > 0,
            stride == 4 * chans,
            at <= n,
            at == out@.len() * stride,
            forall|f: int|
                0 <= f < out@.len() ==> (#[trigger] out@[f])@ == frame_words(
                    used,
                    chans as nat,
                    f * (4 * chans),
                ),
        decreases n - at,
    {
        let mut words: Vec<u32> = Vec::new();
        let mut c: usize = 0;
        while c < chans
            invariant
                c <= chans,
                stride == 4 * chans,
                at + stride <= n <= data@.len(),
                used == data@.take(n as int),
                words@.len() == c,
                forall|k: int| 0 <= k < c ==> words@[k] == le_word(used, at + 4 * k),
            decreases chans - c,
        {
            words.push(read_word(data, at + SAMPLE_BYTES * c));
            c = c + 1;
        }
        assert(words@ =~= frame_words(used, chans as nat, at as int));
        proof {
            let k = out@.len() as int;
            let s = stride as int;
            assert((k + 1) * s == k * s + s) by (nonlinear_arith);
        }
        out.push(words);
        at = at + stride;
    }
    proof {
        lemma_fundamental_div_mod_converse(
            n as int,
            stride as int,
            out@.len() as int,
            (n - at) as int,
        );
    }
    out
}

// ─── The newest samples ─────────────────────────────────────────────────────

/// The last `cap` entries of `s`, or all of them if there are no more.
pub open spec fn newest<T>(s: Seq<T>, cap: nat) -> Seq<T> {
    if s.len() <= cap {
        s
    } else {
        s.skip(s.len() - cap)
    }
}

/// Holds the newest samples, up to a fixed number. Its view is those samples,
/// oldest first.
pub struct AudioRing<T> {
    buf: Vec<T>,
    write_pos: usize,
    filled: usize,
}

/// Where the `i`th oldest of `filled` samples lies in a ring of `cap` slots that
/// is next written at `write_pos`.
spec fn slot(write_pos: int, filled: int, cap: int, i: int) -> int {
    let at = write_pos - filled + i;
    if at < 0 {
        at + cap
    } else {
        at
    }
}

impl<T> View for AudioRing<T> {
    type V = Seq<T>;

    closed spec fn view(&self) -> Seq<T> {
        Seq::new(
            self.filled as nat,
            |i: int|
                self.buf@[slot(
                    self.write_pos as int,
                    self.filled as int,
                    self.buf@.len() as int,
                    i,
                )],
        )
    }
}

impl<T: Copy> AudioRing<T> {
    /// Internal consistency.
    pub closed spec fn wf(&self) -> bool {
        &&& self.filled <= self.buf@.len()
        &&& self.write_pos < self.buf@.len() || self.write_pos == 0
        &&& self.filled < self.buf@.len() ==> self.write_pos == self.filled
    }

    /// How many samples fit.
    pub closed spec fn capacity(&self) -> nat {
        self.buf@.len()
    }

    /// An empty ring for `capacity` samples. `silence` fills the slots until
    /// they are written.
    pub fn new(capacity: usize, silence: T) -> (ring: AudioRing<T>)
        ensures
            ring.wf(),
            ring.capacity() == capacity,
            ring@ == Seq::<T>::empty(),
    {
        let mut buf: Vec<T> = Vec::new();
        let mut i: usize = 0;
        while i < capacity
            invariant
                i <= capacity,
                buf@.len() == i,
            decreases capacity - i,
        {
            buf.push(silence);
            i = i + 1;
        }
        let ring = AudioRing { buf, write_pos: 0, filled: 0 };
        assert(ring@ =~= Seq::<T>::empty());
        ring
    }

    /// How many samples are held.
    pub fn filled(&self) -> (n: usize)
        ensures
            n == self@.len(),
    {
        self.filled
    }

    /// Adds one sample; the oldest gives way if the ring is full.
    fn push(&mut self, sample: T)
        requires
            old(self).wf(),
            old(self).capacity() > 0,
        ensures
            final(self).wf(),
            final(self).capacity() == old(self).capacity(),
            final(self)@ == newest(old(self)@.push(sample), old(self).capacity()),
    {
        let ghost before = self@;
        let cap: usize = self.buf.len();
        self.buf.set(self.write_pos, sample);
        self.write_pos = if self.write_pos == cap - 1 {
            0
        } else {
            self.write_pos + 1
        };
        if self.filled < cap {
            self.filled = self.filled + 1;
        }
        assert(self@ =~= newest(before.push(sample), cap as nat));
    }

    /// Adds samples, oldest first; the oldest held give way as the ring is full.
    pub fn push_mixed_mono(&mut self, mono: &[T])
        requires
            old(self).wf(),
            old(self).capacity() > 0,
        ensures
            final(self).wf(),
            final(self).capacity() == old(self).capacity(),
            final(self)@ == newest(old(self)@ + mono@, old(self).capacity()),
    {
        let mut i: usize = 0;
        assert(self@ + mono@.take(0) =~= self@);
        while i < mono.len()
            invariant
                i <= mono@.len(),
                self.wf(),
                self.capacity() == old(self).capacity(),
                self.capacity() > 0,
                self@ == newest(old(self)@ + mono@.take(i as int), self.capacity()),
            decreases mono@.len() - i,
        {
            let ghost so_far = old(self)@ + mono@.take(i as int);
            self.push(mono[i]);
            proof {
                assert(old(self)@ + mono@.take(i + 1) =~= so_far + seq![mono@[i as int]]);
                assert(newest(so_far, self.capacity()).push(mono@[i as int]) =~= newest(
                    so_far,
                    self.capacity(),
                ) + seq![mono@[i as int]]);
                lemma_newest_in_parts(so_far, seq![mono@[i as int]], self.capacity());
            }
            i = i + 1;
        }
        assert(mono@.take(i as int) =~= mono@);
    }

    /// Copies the newest `n` samples to the head of `dst`, oldest first, as far
    /// as they fit.
    pub fn read_latest(&self, n: usize, dst: &mut Vec<T>)
        requires
            self.wf(),
            n <= self@.len(),
        ensures
            final(dst)@.len() == old(dst)@.len(),
            forall|i: int|
                0 <= i < old(dst)@.len() ==> #[trigger] final(dst)@[i] == if i < n {
                    self@[self@.len() - n + i]
                } else {
                    old(dst)@[i]
                },
    {
        let cap: usize = self.buf.len();
        let mut i: usize = 0;
        while i < n && i < dst.len()
            invariant
                self.wf(),
                cap == self.buf@.len(),
                i <= n <= self@.len(),
                i <= dst@.len(),
                dst@.len() == old(dst)@.len(),
                forall|k: int|
                    0 <= k < dst@.len() ==> #[trigger] dst@[k] == if k < i {
                        self@[self@.len() - n + k]
                    } else {
                        old(dst)@[k]
                    },
            decreases n - i,
        {
            let back: usize = n - i;
            let at: usize = if self.write_pos >= back {
                self.write_pos - back
            } else {
                cap - (back - self.write_pos)
            };
            assert(self.buf@[at as int] == self@[self@.len() - n + i]);
            dst.set(i, self.buf[at]);
            i = i + 1;
        }
    }
}

// ─── Laws ───────────────────────────────────────────────────────────────────

/// Adding samples in two parts leaves the ring as adding them at once does.
pub proof fn lemma_newest_in_parts<T>(s: Seq<T>, t: Seq<T>, cap: nat)
    ensures
        newest(newest(s, cap) + t, cap) == newest(s + t, cap),
{
    assert(newest(newest(s, cap) + t, cap) =~= newest(s + t, cap));
}

/// As long as `n` fits the ring, its newest `n` samples are the newest `n` of
/// all that were ever added.
pub proof fn lemma_ring_keeps_newest<T>(all: Seq<T>, cap: nat, n: nat)
    requires
        n <= cap,
    ensures
        newest(newest(all, cap), n) == newest(all, n),
{
    assert(newest(newest(all, cap), n) =~= newest(all, n));
}

/// A word is read low byte first: the four bytes of a number give that number.
pub proof fn lemma_words_are_low_byte_first(bytes: Seq<u8>, at: int, w: u32)
    requires
        0 <= at,
        at + 4 <= bytes.len(),
    ensures
        bytes[at] == w % 256 && bytes[at + 1] == (w / 256) % 256 && bytes[at + 2] == (w / 65536)
            % 256 && bytes[at + 3] == w / 16777216 ==> le_word(bytes, at) == w,
{
}

/// Frames stand one behind the other, channel by channel: the sample of channel
/// `c` in frame `f` is the word number `f * channels + c`. There are as many
/// frames as fit whole.
pub proof fn lemma_samples_are_interleaved(bytes: Seq<u8>, channels: nat, f: int, c: int)
    requires
        channels > 0,
    ensures
        ({
            let frames = audio_frames(bytes, channels);
            &&& frames.len() * (4 * channels) <= bytes.len() < (frames.len() + 1) * (4 * channels)
            &&& 0 <= f < frames.len() ==> frames[f].len() == channels
            &&& 0 <= f < frames.len() && 0 <= c < channels ==> frames[f][c] == le_word(
                bytes,
                4 * (f * channels + c),
            )
        }),
{
    let n = bytes.len() as int;
    let d = (4 * channels) as int;
    vstd::arithmetic::div_mod::lemma_fundamental_div_mod(n, d);
    let q = n / d;
    assert(q * d <= n < (q + 1) * d) by (nonlinear_arith)
        requires
            n == d * q + n % d,
            0 <= n % d < d,
    ;
    let ch = channels as int;
    assert(f * (4 * ch) + 4 * c == 4 * (f * ch + c)) by (nonlinear_arith);
}

/// The newest samples are the end of what was added, as much as fits.
pub proof fn lemma_newest_is_the_end<T>(older: Seq<T>, s: Seq<T>, cap: nat)
    ensures
        s.len() == cap ==> newest(older + s, cap) == s,
        s.len() <= cap ==> newest(s, cap) == s,
        s.len() >= cap ==> newest(s, cap).len() == cap,
{
    if s.len() == cap {
        assert(newest(older + s, cap) =~= s);
        assert((older + s).skip(older.len() as int) =~= s);
    }
}

/// An analysis takes 1024 samples of four bytes each.
pub proof fn lemma_analysis_sizes()
    ensures
        FFT_SIZE == 1024,
        SAMPLE_BYTES == 4,
{
}

} // verus!
