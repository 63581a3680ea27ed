//! Device side of the USB interfaces: media key reports and the serial link.
use vstd::prelude::*;

use crate::proto::{
    host_accepted, host_frame_message, host_stream, lemma_host_stream_round_trip, receive_host,
    HostToDevice,
};
use crate::state::{
    apply_host_message, host_applied, host_reaction, ConsumerKey, DisplayState, HostReaction,
};
use crate::wire::{
    deframed, lemma_accepted_concat, lemma_deframed_concat, lemma_delimiter_resyncs, Deframer,
};

verus! {

/// Vendor of the device.
pub const DEVICE_VID: u16 = 0xCB00;

/// Product number of the device.
pub const DEVICE_PID: u16 = 0x1337;

/// HID report descriptor: one application collection on the consumer page. A
/// report is its number, 1, and a 16-bit usage, low byte first.
pub const CONSUMER_REPORT_DESCRIPTOR: [u8; 26] = [
    0x05,
    0x0C,
    0x09,
    0x01,
    0xA1,
    0x01,
    0x85,
    0x01,
    0x15,
    0x00,
    0x26,
    0xFF,
    0xFF,
    0x1A,
    0x00,
    0x00,
    0x2A,
    0xFF,
    0xFF,
    0x75,
    0x10,
    0x95,
    0x01,
    0x81,
    0x00,
    0xC0,
];

// ─── Media keys ─────────────────────────────────────────────────────────────

/// The bytes of the report for a key going down.
pub open spec fn press_bytes(key: ConsumerKey) -> Seq<u8> {
    seq![1u8, (key.usage_code() % 256) as u8, (key.usage_code() / 256) as u8]
}

/// The bytes of the report for all keys up.
pub open spec fn release_bytes() -> Seq<u8> {
    seq![1u8, 0u8, 0u8]
}

/// The report for a key going down.
pub fn press_report(key: ConsumerKey) -> (report: [u8; 3])
    ensures
        report@ == press_bytes(key),
        report[1] + 256 * report[2] == key.usage_code(),
{
    let usage: u16 = key.usage();
    let report: [u8; 3] = [0x01, (usage % 256) as u8, (usage / 256) as u8];
    assert(report@ =~= press_bytes(key));
    report
}

/// The report for all keys up.
pub fn release_report() -> (report: [u8; 3])
    ensures
        report@ == release_bytes(),
{
    let report: [u8; 3] = [0x01, 0x00, 0x00];
    assert(report@ =~= release_bytes());
    report
}

/// Different keys have different reports, and none looks like a release.
pub proof fn lemma_reports_tell_keys_apart(a: ConsumerKey, b: ConsumerKey)
    ensures
        press_bytes(a) == press_bytes(b) ==> a == b,
        press_bytes(a) != release_bytes(),
{
    let low_a = press_bytes(a)[1];
    let low_b = press_bytes(b)[1];
    assert(low_a == (a.usage_code() % 256) as u8);
    assert(low_b == (b.usage_code() % 256) as u8);
    assert(release_bytes()[1] == 0);
}

// ─── Serial link ────────────────────────────────────────────────────────────

/// The live state after a run of host messages that arrive at `now`.
pub open spec fn host_applied_all(
    s: DisplayState,
    msgs: Seq<HostToDevice>,
    now: u64,
) -> DisplayState
    decreases msgs.len(),
{
    if msgs.len() == 0 {
        s
    } else {
        host_applied_all(host_applied(s, msgs[0], now), msgs.drop_first(), now)
    }
}

/// What a run of host messages asks of the rest of the device, in order.
pub open spec fn host_reactions(s: DisplayState, msgs: Seq<HostToDevice>, now: u64) -> Seq<
    HostReaction,
>
    decreases msgs.len(),
{
    if msgs.len() == 0 {
        Seq::empty()
    } else {
        seq![host_reaction(s, msgs[0])] + host_reactions(
            host_applied(s, msgs[0], now),
            msgs.drop_first(),
            now,
        )
    }
}

/// Takes in one packet from the host that arrives at `now`: every message that
/// it completes is applied, and a malformed frame is dropped.
pub fn cdc_rx_packet(rx: &mut Deframer, s: &mut DisplayState, packet: &[u8], now: u64) -> (out: Vec<
    HostReaction,
>)
    requires
        old(rx).wf(),
    ensures
        final(rx).wf(),
        final(rx)@ == deframed(old(rx)@, packet@).0,
        *final(s) == host_applied_all(
            *old(s),
            host_accepted(deframed(old(rx)@, packet@).1),
            now,
        ),
        out@ == host_reactions(*old(s), host_accepted(deframed(old(rx)@, packet@).1), now),
        old(s).wf() && old(s).clocked(now) ==> final(s).wf() && final(s).clocked(now),
{
    let msgs = receive_host(rx, packet);
    let mut out: Vec<HostReaction> = Vec::new();
    let mut i: usize = 0;
    assert(msgs@.skip(0) =~= msgs@);
    assert(out@ + host_reactions(*s, msgs@, now) =~= host_reactions(*s, msgs@, now));
    while i < msgs.len()
        invariant
            i <= msgs@.len(),
            host_applied_all(*old(s), msgs@, now) == host_applied_all(
                *s,
                msgs@.skip(i as int),
                now,
            ),
            host_reactions(*old(s), msgs@, now) == out@ + host_reactions(
                *s,
                msgs@.skip(i as int),
                now,
            ),
            old(s).wf() && old(s).clocked(now) ==> s.wf() && s.clocked(now),
        decreases msgs@.len() - i,
    {
        let ghost rest = msgs@.skip(i as int);
        let ghost before = out@;
        assert(rest.drop_first() =~= msgs@.skip(i + 1));
        let reaction = apply_host_message(s, msgs[i], now);
        out.push(reaction);
        let ghost later = host_reactions(*s, rest.drop_first(), now);
        assert(before + (seq![reaction] + later) =~= out@ + later);
        i = i + 1;
    }
    assert(msgs@.skip(i as int) =~= Seq::<HostToDevice>::empty());
    assert(out@ + Seq::<HostReaction>::empty() =~= out@);
    out
}

/// A run of messages can be taken in two parts.
proof fn lemma_applied_concat(s: DisplayState, a: Seq<HostToDevice>, b: Seq<HostToDevice>, now: u64)
    ensures
        host_applied_all(s, a + b, now) == host_applied_all(host_applied_all(s, a, now), b, now),
        host_reactions(s, a + b, now) == host_reactions(s, a, now) + host_reactions(
            host_applied_all(s, a, now),
            b,
            now,
        ),
    decreases a.len(),
{
    if a.len() == 0 {
        assert(a + b =~= b);
        assert(host_reactions(s, a, now) + host_reactions(s, b, now) =~= host_reactions(s, b, now));
    } else {
        let next = host_applied(s, a[0], now);
        assert((a + b).drop_first() =~= a.drop_first() + b);
        lemma_applied_concat(next, a.drop_first(), b, now);
        let head = seq![host_reaction(s, a[0])];
        let mid = host_reactions(next, a.drop_first(), now);
        let tail = host_reactions(host_applied_all(s, a, now), b, now);
        assert(head + (mid + tail) =~= (head + mid) + tail);
    }
}

/// How the host's bytes are split into packets makes no difference: two packets
/// that arrive together do what one with the bytes of both would have done.
pub proof fn lemma_packets_join(
    s: DisplayState,
    pending: Seq<u8>,
    a: Seq<u8>,
    b: Seq<u8>,
    now: u64,
)
    ensures
        ({
            let first = deframed(pending, a);
            let second = deframed(first.0, b);
            let both = host_accepted(deframed(pending, a + b).1);
            let mid = host_applied_all(s, host_accepted(first.1), now);
            &&& host_applied_all(s, both, now) == host_applied_all(
                mid,
                host_accepted(second.1),
                now,
            )
            &&& host_reactions(s, both, now) == host_reactions(s, host_accepted(first.1), now)
                + host_reactions(mid, host_accepted(second.1), now)
        }),
{
    let first = deframed(pending, a);
    let second = deframed(first.0, b);
    lemma_deframed_concat(pending, a, b);
    lemma_accepted_concat(first.1, second.1, |frame: Seq<u8>| host_frame_message(frame));
    lemma_applied_concat(s, host_accepted(first.1), host_accepted(second.1), now);
}

/// Whatever the device was in the middle of, behind a delimiter the messages of
/// a stream are applied, each once and in order.
pub proof fn lemma_stream_is_applied(
    s: DisplayState,
    pending: Seq<u8>,
    noise: Seq<u8>,
    msgs: Seq<HostToDevice>,
    now: u64,
)
    ensures
        ({
            let resynced = deframed(pending, noise.push(0));
            let behind = deframed(resynced.0, host_stream(msgs));
            host_applied_all(s, host_accepted(behind.1), now) == host_applied_all(s, msgs, now)
        }),
{
    lemma_delimiter_resyncs(pending, noise);
    lemma_host_stream_round_trip(msgs);
}

/// What can go wrong on a USB endpoint.
#[derive(Copy, Clone, Debug, PartialEq, Eq, Structural)]
pub enum EndpointFault {
    /// A packet did not fit its buffer.
    BufferOverflow,
    /// The endpoint is switched off: the cable was pulled or the host is gone.
    Disabled,
}

/// The serial link is down.
#[derive(Copy, Clone, Debug, PartialEq, Eq, Structural)]
pub struct Disconnected;

impl Disconnected {
    /// A disabled endpoint is a link that is down. An overflow cannot happen on
    /// packets of the endpoint's own size.
    pub fn from(fault: EndpointFault) -> (r: Disconnected)
        requires
            fault == EndpointFault::Disabled,
        ensures
            r == Disconnected,
    {
        Disconnected
    }
}

/// A report is its number, 1, and the usage, low byte first; a release has usage
/// 0.
pub proof fn lemma_report_layout(key: ConsumerKey)
    ensures
        press_bytes(key).len() == 3,
        press_bytes(key)[0] == 1,
        press_bytes(key)[1] + 256 * press_bytes(key)[2] == match key {
            ConsumerKey::Mute => 0xE2int,
            ConsumerKey::VolumeUp => 0xE9,
            ConsumerKey::VolumeDown => 0xEA,
            ConsumerKey::PlayPause => 0xCD,
            ConsumerKey::Stop => 0xB7,
            ConsumerKey::NextTrack => 0xB5,
            ConsumerKey::PrevTrack => 0xB6,
        },
        release_bytes() == seq![1u8, 0, 0],
{
}

/// Messages are taken one by one, in order: one more message acts on what the
/// earlier ones left, and its reaction comes last.
pub proof fn lemma_messages_act_in_order(
    s: DisplayState,
    msgs: Seq<HostToDevice>,
    msg: HostToDevice,
    now: u64,
)
    ensures
        host_applied_all(s, Seq::empty(), now) == s,
        host_reactions(s, Seq::empty(), now) == Seq::<HostReaction>::empty(),
        host_applied_all(s, msgs.push(msg), now) == host_applied(
            host_applied_all(s, msgs, now),
            msg,
            now,
        ),
        host_reactions(s, msgs.push(msg), now) == host_reactions(s, msgs, now).push(
            host_reaction(host_applied_all(s, msgs, now), msg),
        ),
{
    let mid = host_applied_all(s, msgs, now);
    let one = seq![msg];
    assert(msgs.push(msg) =~= msgs + one);
    lemma_applied_concat(s, msgs, one, now);
    assert(one.drop_first() =~= Seq::<HostToDevice>::empty());
    assert(host_applied_all(host_applied(mid, msg, now), one.drop_first(), now) == host_applied(
        mid,
        msg,
        now,
    ));
    assert(host_reactions(host_applied(mid, msg, now), one.drop_first(), now) =~= Seq::<
        HostReaction,
    >::empty());
    assert(host_reactions(mid, one, now) =~= seq![host_reaction(mid, msg)]);
    assert(host_reactions(s, msgs, now) + seq![host_reaction(mid, msg)] =~= host_reactions(
        s,
        msgs,
        now,
    ).push(host_reaction(mid, msg)));
}

/// The report descriptor opens an application collection of consumer controls,
/// declares report 1 of one 16-bit usage from 0 to 65535, and closes it.
pub proof fn lemma_descriptor_declares_reports()
    ensures
        ({
            let d = CONSUMER_REPORT_DESCRIPTOR@;
            &&& d.len() == 26
            &&& d.subrange(0, 6) == seq![0x05u8, 0x0C, 0x09, 0x01, 0xA1, 0x01]
            &&& d.subrange(6, 8) == seq![0x85u8, 0x01]
            &&& d.subrange(8, 13) == seq![0x15u8, 0x00, 0x26, 0xFF, 0xFF]
            &&& d.subrange(13, 19) == seq![0x1Au8, 0x00, 0x00, 0x2A, 0xFF, 0xFF]
            &&& d.subrange(19, 25) == seq![0x75u8, 0x10, 0x95, 0x01, 0x81, 0x00]
            &&& d[25] == 0xC0
        }),
        DEVICE_VID == 0xCB00,
        DEVICE_PID == 0x1337,
{
    let d = CONSUMER_REPORT_DESCRIPTOR@;
    assert(d.subrange(0, 6) =~= seq![0x05u8, 0x0C, 0x09, 0x01, 0xA1, 0x01]);
    assert(d.subrange(6, 8) =~= seq![0x85u8, 0x01]);
    assert(d.subrange(8, 13) =~= seq![0x15u8, 0x00, 0x26, 0xFF, 0xFF]);
    assert(d.subrange(13, 19) =~= seq![0x1Au8, 0x00, 0x00, 0x2A, 0xFF, 0xFF]);
    assert(d.subrange(19, 25) =~= seq![0x75u8, 0x10, 0x95, 0x01, 0x81, 0x00]);
}

} // verus!
