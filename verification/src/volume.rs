//! Host side of the volume: reading the mixer's answer and reporting changes.
use vstd::prelude::*;

use crate::proto::HostToDevice;

verus! {

// ─── The mixer's answer ─────────────────────────────────────────────────────

/// Whether a character is white space, as Unicode defines it.
pub open spec fn white(c: char) -> bool {
    let n = c as u32;
    ||| 0x09 <= n <= 0x0D
    ||| n == 0x20
    ||| n == 0x85
    ||| n == 0xA0
    ||| n == 0x1680
    ||| 0x2000 <= n <= 0x200A
    ||| n == 0x2028
    ||| n == 0x2029
    ||| n == 0x202F
    ||| n == 0x205F
    ||| n == 0x3000
}

/// Whether a character is white space.
pub fn is_white(c: char) -> (r: bool)
    ensures
        r == white(c),
{
    let n: u32 = c as u32;
    (n >= 0x09 && n <= 0x0D) || n == 0x20 || n == 0x85 || n == 0xA0 || n == 0x1680 || (n >= 0x2000
        && n <= 0x200A) || n == 0x2028 || n == 0x2029 || n == 0x202F || n == 0x205F || n == 0x3000
}

/// Where the next word starts at or behind `from`: the end of the text if there
/// is none.
pub open spec fn word_start(s: Seq<char>, from: int) -> int
    decreases s.len() - from,
{
    if from >= s.len() {
        s.len() as int
    } else if white(s[from]) {
        word_start(s, from + 1)
    } else {
        from
    }
}

/// Where a word that reaches `from` ends.
pub open spec fn word_end(s: Seq<char>, from: int) -> int
    decreases s.len() - from,
{
    if from >= s.len() {
        s.len() as int
    } else if white(s[from]) {
        from
    } else {
        word_end(s, from + 1)
    }
}

/// The second word of a text.
pub open spec fn second_word(s: Seq<char>) -> Option<Seq<char>> {
    let at = word_start(s, word_end(s, word_start(s, 0)));
    if at >= s.len() {
        None
    } else {
        Some(s.subrange(at, word_end(s, at)))
    }
}

/// Whether `part` stands at `at` in `s`.
pub open spec fn stands_at(s: Seq<char>, part: Seq<char>, at: int) -> bool {
    &&& 0 <= at <= s.len() - part.len()
    &&& s.subrange(at, at + part.len()) == part
}

/// Whether `part` stands somewhere in `s`.
pub open spec fn has_part(s: Seq<char>, part: Seq<char>) -> bool {
    exists|at: int| #[trigger] stands_at(s, part, at)
}

/// Finds the next word.
fn skip_white(s: &str, from: usize, len: usize) -> (r: usize)
    requires
        len == s@.len(),
        from <= len,
    ensures
        r == word_start(s@, from as int),
        from <= r <= len,
{
    let mut at: usize = from;
    while at < len && is_white(s.get_char(at))
        invariant
            len == s@.len(),
            from <= at <= len,
            word_start(s@, at as int) == word_start(s@, from as int),
        decreases len - at,
    {
        at = at + 1;
    }
    at
}

/// Finds the end of a word.
fn skip_word(s: &str, from: usize, len: usize) -> (r: usize)
    requires
        len == s@.len(),
        from <= len,
    ensures
        r == word_end(s@, from as int),
        from <= r <= len,
{
    let mut at: usize = from;
    while at < len && !is_white(s.get_char(at))
        invariant
            len == s@.len(),
            from <= at <= len,
            word_end(s@, at as int) == word_end(s@, from as int),
        decreases len - at,
    {
        at = at + 1;
    }
    at
}

/// Whether `part` stands somewhere in `s`.
fn contains_part(s: &str, part: &str) -> (r: bool)
    ensures
        r == has_part(s@, part@),
{
    let len: usize = s.unicode_len();
    let n: usize = part.unicode_len();
    if n > len {
        return false;
    }
    let mut at: usize = 0;
    while at <= len - n
        invariant
            n == part@.len() <= len == s@.len(),
            at <= len - n + 1,
            forall|k: int| 0 <= k < at ==> !#[trigger] stands_at(s@, part@, k),
        decreases len - n + 1 - at,
    {
        let mut i: usize = 0;
        while i < n && s.get_char(at + i) == part.get_char(i)
            invariant
                n == part@.len() <= len == s@.len(),
                at <= len - n,
                i <= n,
                forall|k: int| 0 <= k < i ==> s@[at + k] == #[trigger] part@[k],
            decreases n - i,
        {
            i = i + 1;
        }
        if i == n {
            assert(s@.subrange(at as int, at + n) =~= part@);
            assert(stands_at(s@, part@, at as int));
            return true;
        }
        assert(s@.subrange(at as int, at + n)[i as int] == s@[at + i]);
        if at == len - n {
            return false;
        }
        at = at + 1;
    }
    false
}

/// Takes the mixer's answer apart: the word behind the label, which holds the
/// level as a decimal fraction, and whether the sink is muted. `None` without
/// such a word.
pub fn volume_fields(text: &str) -> (r: Option<(String, bool)>)
    ensures
        match r {
            Some((level, muted)) => second_word(text@) == Some(level@) && muted == has_part(
                text@,
                "[MUTED]"@,
            ),
            None => second_word(text@) is None,
        },
{
    let len: usize = text.unicode_len();
    let label: usize = skip_white(text, 0, len);
    let label_end: usize = skip_word(text, label, len);
    let at: usize = skip_white(text, label_end, len);
    if at >= len {
        return None;
    }
    let end: usize = skip_word(text, at, len);
    let level = text.substring_char(at, end).to_owned();
    Some((level, contains_part(text, "[MUTED]")))
}

// ─── Reporting changes ──────────────────────────────────────────────────────

/// The message that tells the device of a new reading.
pub open spec fn volume_news(last: Option<(u8, bool)>, reading: Option<(u8, bool)>) -> Option<
    HostToDevice,
> {
    match reading {
        Some(r) => if last == Some(r) {
            None
        } else {
            Some(HostToDevice::Volume { level: r.0, muted: r.1 })
        },
        None => None,
    }
}

/// What a watch remembers once it is known whether its message was delivered:
/// `taken`, or, if not, what it remembered `before`.
pub open spec fn settled_on(
    before: Option<(u8, bool)>,
    taken: Option<(u8, bool)>,
    delivered: bool,
) -> Option<(u8, bool)> {
    if delivered {
        taken
    } else {
        before
    }
}

/// Remembers the last reading of the volume.
pub struct VolumeWatch {
    pub last: Option<(u8, bool)>,
}

impl VolumeWatch {
    /// A watch that has seen no reading.
    pub fn new() -> (watch: VolumeWatch)
        ensures
            watch.last is None,
    {
        VolumeWatch { last: None }
    }

    /// Takes in a reading, `None` if the mixer gave none. Returns the message to
    /// send if the reading is news.
    pub fn observe(&mut self, reading: Option<(u8, bool)>) -> (msg: Option<HostToDevice>)
        ensures
            msg == volume_news(old(self).last, reading),
            final(self).last == if reading is Some {
                reading
            } else {
                old(self).last
            },
    {
        match reading {
            Some((level, muted)) => {
                let known = match self.last {
                    Some((l, m)) => l == level && m == muted,
                    None => false,
                };
                self.last = reading;
                if known {
                    None
                } else {
                    Some(HostToDevice::Volume { level, muted })
                }
            },
            None => None,
        }
    }

    /// Takes in whether the message of the last reading was delivered; `before`
    /// is what was remembered before that reading. A reading that did not get
    /// through counts as not seen.
    pub fn settle(&mut self, before: Option<(u8, bool)>, delivered: bool)
        ensures
            final(self).last == settled_on(before, old(self).last, delivered),
    {
        if !delivered {
            self.last = before;
        }
    }
}

/// A volume message for a level given by hand, capped at 100 percent.
pub fn manual_volume(level: u8) -> (msg: HostToDevice)
    ensures
        msg == (HostToDevice::Volume {
            level: if level > 100 {
                100
            } else {
                level
            },
            muted: false,
        }),
{
    HostToDevice::Volume {
        level: if level > 100 {
            100
        } else {
            level
        },
        muted: false,
    }
}

// ─── Laws ───────────────────────────────────────────────────────────────────

/// A word ends at the first white space, or at the end of the text.
proof fn lemma_word_ends(s: Seq<char>, from: int, to: int)
    requires
        0 <= from <= to <= s.len(),
        forall|i: int| from <= i < to ==> !white(#[trigger] s[i]),
        to == s.len() || white(s[to]),
    ensures
        word_end(s, from) == to,
    decreases to - from,
{
    if from < to {
        assert(!white(s[from]));
        lemma_word_ends(s, from + 1, to);
    }
}

/// The mixer's answer is a label, a blank, the level, and what follows behind
/// white space: the level is what is read off it.
pub proof fn lemma_level_is_second_word(label: Seq<char>, level: Seq<char>, rest: Seq<char>)
    requires
        label.len() > 0,
        level.len() > 0,
        forall|i: int| 0 <= i < label.len() ==> !white(#[trigger] label[i]),
        forall|i: int| 0 <= i < level.len() ==> !white(#[trigger] level[i]),
        rest.len() == 0 || white(rest[0]),
    ensures
        second_word(label + seq![' '] + level + rest) == Some(level),
{
    let s = label + seq![' '] + level + rest;
    let mid = label.len() as int;
    let end = mid + 1 + level.len();
    assert(!white(label[0]) && s[0] == label[0]);
    assert forall|i: int| 0 <= i < mid implies !white(#[trigger] s[i]) by {
        assert(s[i] == label[i]);
    }
    assert(s[mid] == ' ');
    lemma_word_ends(s, 0, mid);
    assert forall|i: int| mid + 1 <= i < end implies !white(#[trigger] s[i]) by {
        assert(s[i] == level[i - mid - 1]);
    }
    assert(!white(s[mid + 1]));
    assert(end < s.len() ==> s[end] == rest[0]);
    lemma_word_ends(s, mid + 1, end);
    assert(word_start(s, mid) == mid + 1) by {
        reveal_with_fuel(word_start, 2);
    }
    assert(s.subrange(mid + 1, end) =~= level);
}

/// A reading is reported once: as long as the mixer says the same, or nothing,
/// no further message goes out.
pub proof fn lemma_reported_once(last: Option<(u8, bool)>, reading: (u8, bool))
    ensures
        volume_news(Some(reading), Some(reading)) is None,
        volume_news(last, None) is None,
{
}

/// No change is lost: one whose message was not delivered is reported again by
/// the next reading that still shows it, and by every other that differs from
/// what was last delivered; one whose message was delivered is not.
pub proof fn lemma_undelivered_is_reported_again(
    before: Option<(u8, bool)>,
    reading: (u8, bool),
    next: (u8, bool),
)
    requires
        volume_news(before, Some(reading)) is Some,
    ensures
        ({
            let failed = settled_on(before, Some(reading), false);
            &&& volume_news(failed, Some(reading)) == volume_news(before, Some(reading))
            &&& volume_news(failed, Some(next)) is Some <==> before != Some(next)
        }),
        volume_news(settled_on(before, Some(reading), true), Some(reading)) is None,
{
}

/// A change is always reported, with the new reading.
pub proof fn lemma_change_is_reported(before: (u8, bool), reading: (u8, bool))
    requires
        before != reading,
    ensures
        volume_news(Some(before), Some(reading)) == Some(
            HostToDevice::Volume { level: reading.0, muted: reading.1 },
        ),
        volume_news(None, Some(reading)) == Some(
            HostToDevice::Volume { level: reading.0, muted: reading.1 },
        ),
{
}

/// All of `s` is white space.
pub open spec fn all_white(s: Seq<char>) -> bool {
    forall|i: int| 0 <= i < s.len() ==> white(#[trigger] s[i])
}

/// `s` is a word: not empty, and without white space.
pub open spec fn is_word(s: Seq<char>) -> bool {
    s.len() > 0 && forall|i: int| 0 <= i < s.len() ==> !white(#[trigger] s[i])
}

/// White space is skipped up to the next word, or to the end.
proof fn lemma_word_starts(s: Seq<char>, from: int, to: int)
    requires
        0 <= from <= to <= s.len(),
        forall|i: int| from <= i < to ==> white(#[trigger] s[i]),
        to == s.len() || !white(s[to]),
    ensures
        word_start(s, from) == to,
    decreases to - from,
{
    if from < to {
        assert(white(s[from]));
        lemma_word_starts(s, from + 1, to);
    }
}

/// The second word is found in any text that has one, however much white space
/// stands before, between and behind the words.
pub proof fn lemma_second_word_is_found(
    margin: Seq<char>,
    first: Seq<char>,
    gap: Seq<char>,
    second: Seq<char>,
    rest: Seq<char>,
)
    requires
        all_white(margin),
        is_word(first),
        gap.len() > 0,
        all_white(gap),
        is_word(second),
        rest.len() == 0 || white(rest[0]),
    ensures
        second_word(margin + first + gap + second + rest) == Some(second),
{
    let s = margin + first + gap + second + rest;
    let a = margin.len() as int;
    let b = a + first.len();
    let c = b + gap.len();
    let d = c + second.len();
    assert forall|i: int| 0 <= i < a implies white(#[trigger] s[i]) by {
        assert(s[i] == margin[i]);
    }
    assert forall|i: int| a <= i < b implies !white(#[trigger] s[i]) by {
        assert(s[i] == first[i - a]);
    }
    assert forall|i: int| b <= i < c implies white(#[trigger] s[i]) by {
        assert(s[i] == gap[i - b]);
    }
    assert forall|i: int| c <= i < d implies !white(#[trigger] s[i]) by {
        assert(s[i] == second[i - c]);
    }
    assert(!white(s[a]) && white(s[b]) && !white(s[c]));
    assert(d < s.len() ==> s[d] == rest[0]);
    lemma_word_starts(s, 0, a);
    lemma_word_ends(s, a, b);
    lemma_word_starts(s, b, c);
    lemma_word_ends(s, c, d);
    assert(s.subrange(c, d) =~= second);
}

/// A text of one word, or of none, has no second word.
pub proof fn lemma_one_word_is_not_enough(margin: Seq<char>, first: Seq<char>, gap: Seq<char>)
    requires
        all_white(margin),
        is_word(first),
        all_white(gap),
    ensures
        second_word(margin + first + gap) is None,
        second_word(margin) is None,
{
    let s = margin + first + gap;
    let a = margin.len() as int;
    let b = a + first.len();
    let n = s.len() as int;
    assert forall|i: int| 0 <= i < a implies white(#[trigger] s[i]) by {
        assert(s[i] == margin[i]);
    }
    assert forall|i: int| a <= i < b implies !white(#[trigger] s[i]) by {
        assert(s[i] == first[i - a]);
    }
    assert forall|i: int| b <= i < n implies white(#[trigger] s[i]) by {
        assert(s[i] == gap[i - b]);
    }
    assert(!white(s[a]));
    assert(b < n ==> white(s[b]));
    lemma_word_starts(s, 0, a);
    lemma_word_ends(s, a, b);
    lemma_word_starts(s, b, n);
    lemma_word_starts(margin, 0, a);
    lemma_word_ends(margin, a, a);
    lemma_word_starts(margin, a, a);
}

/// A part is found wherever it stands, and what is found stands there.
pub proof fn lemma_parts_are_found(before: Seq<char>, part: Seq<char>, behind: Seq<char>, s: Seq<char>)
    ensures
        has_part(before + part + behind, part),
        has_part(s, part) ==> exists|at: int|
            {
                &&& 0 <= at <= s.len() - part.len()
                &&& s == s.take(at) + part + #[trigger] s.skip(at + part.len())
            },
        s.len() < part.len() ==> !has_part(s, part),
{
    let t = before + part + behind;
    let at = before.len() as int;
    assert(t.subrange(at, at + part.len()) =~= part);
    assert(stands_at(t, part, at));
    if has_part(s, part) {
        let k = choose|k: int| #[trigger] stands_at(s, part, k);
        assert(s =~= s.take(k) + part + s.skip(k + part.len())) by {
            assert forall|i: int| 0 <= i < part.len() implies s[k + i] == part[i] by {
                assert(s.subrange(k, k + part.len())[i] == s[k + i]);
            }
        }
    }
}

/// White space is the blank, the tab and the line ends, among others; no letter,
/// digit, point or bracket of the mixer's answer is.
pub proof fn lemma_white_space(c: char)
    ensures
        white(' ') && white('\t') && white('\n') && white('\r'),
        '!' <= c <= '~' ==> !white(c),
{
}

} // verus!
