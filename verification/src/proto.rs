//! Messages exchanged between host and device, and their byte layout.
//!
//! A payload is the number of the variant as a variable-length integer,
//! followed by the variant's fields: an 8-bit integer as itself, a flag as 0
//! or 1, the spectrum as its eight bytes.
use vstd::prelude::*;

pub use crate::wire::MAX_FRAME_LEN;
use crate::wire::{
    accepted, decode_frame, deframed, deframed_byte, encode_frame, framed, lemma_accepted_concat,
    lemma_accepted_one_more,
    lemma_deframed_concat, lemma_deframed_frame, lemma_frame_round_trip, lemma_framed_shape,
    take_u32, unframed, varint, Deframer,
};

verus! {

/// Version of the message set that both ends announce in their greeting.
pub const PROTO_VERSION: u8 = 1;

/// Messages flowing host → device.
#[derive(Debug, Clone, Copy, PartialEq, Eq)]
pub enum HostToDevice {
    /// Volume of the default sink, in percent, and whether it is muted.
    Volume { level: u8, muted: bool },
    /// Keepalive.
    Ping,
    /// Eight log-spaced spectrum band magnitudes, bass first.
    Visualizer { bands: [u8; 8] },
    /// Greeting, sent once per connection.
    Hello { proto_version: u8 },
}

/// Messages flowing device → host.
#[derive(Debug, Clone, Copy, PartialEq, Eq)]
pub enum DeviceToHost {
    /// Reserved answer to a keepalive.
    Pong,
    /// The encoder was pressed.
    EncoderClick,
    /// Answer to the host's greeting.
    Hello { proto_version: u8 },
}

/// The byte a flag is sent as.
pub open spec fn flag_byte(flag: bool) -> u8 {
    if flag {
        1
    } else {
        0
    }
}

/// The eight bytes at the head of `bytes`.
pub open spec fn first_eight(bytes: Seq<u8>) -> [u8; 8] {
    [bytes[0], bytes[1], bytes[2], bytes[3], bytes[4], bytes[5], bytes[6], bytes[7]]
}

/// The host message that a payload holds. Bytes behind the last field are
/// ignored. `None` for an unknown variant, for missing bytes and for a flag
/// that is neither 0 nor 1.
pub open spec fn host_message(payload: Seq<u8>) -> Option<HostToDevice> {
    match varint(payload, 0) {
        None => None,
        Some((variant, fields)) => if variant == 0 {
            if fields.len() >= 2 && fields[1] <= 1 {
                Some(HostToDevice::Volume { level: fields[0], muted: fields[1] == 1 })
            } else {
                None
            }
        } else if variant == 1 {
            Some(HostToDevice::Ping)
        } else if variant == 2 {
            if fields.len() >= 8 {
                Some(HostToDevice::Visualizer { bands: first_eight(fields) })
            } else {
                None
            }
        } else if variant == 3 {
            if fields.len() >= 1 {
                Some(HostToDevice::Hello { proto_version: fields[0] })
            } else {
                None
            }
        } else {
            None
        },
    }
}

/// The device message that a payload holds, by the same rules.
pub open spec fn device_message(payload: Seq<u8>) -> Option<DeviceToHost> {
    match varint(payload, 0) {
        None => None,
        Some((variant, fields)) => if variant == 0 {
            Some(DeviceToHost::Pong)
        } else if variant == 1 {
            Some(DeviceToHost::EncoderClick)
        } else if variant == 2 {
            if fields.len() >= 1 {
                Some(DeviceToHost::Hello { proto_version: fields[0] })
            } else {
                None
            }
        } else {
            None
        },
    }
}

/// The host message that a frame without its delimiter carries.
pub open spec fn host_frame_message(frame: Seq<u8>) -> Option<HostToDevice> {
    match unframed(frame) {
        Some(payload) => host_message(payload),
        None => None,
    }
}

/// The device message that a frame without its delimiter carries.
pub open spec fn device_frame_message(frame: Seq<u8>) -> Option<DeviceToHost> {
    match unframed(frame) {
        Some(payload) => device_message(payload),
        None => None,
    }
}

impl HostToDevice {
    /// The bytes that stand for this message.
    pub open spec fn payload(self) -> Seq<u8> {
        match self {
            HostToDevice::Volume { level, muted } => seq![0u8, level, flag_byte(muted)],
            HostToDevice::Ping => seq![1u8],
            HostToDevice::Visualizer { bands } => seq![2u8] + bands@,
            HostToDevice::Hello { proto_version } => seq![3u8, proto_version],
        }
    }

    /// The bytes that stand for this message.
    pub fn to_payload(&self) -> (bytes: Vec<u8>)
        ensures
            bytes@ == self.payload(),
            bytes@.len() <= 9,
    {
        let mut bytes: Vec<u8> = Vec::new();
        match *self {
            HostToDevice::Volume { level, muted } => {
                bytes.push(0);
                bytes.push(level);
                bytes.push(if muted { 1 } else { 0 });
                assert(bytes@ =~= self.payload());
            },
            HostToDevice::Ping => {
                bytes.push(1);
                assert(bytes@ =~= self.payload());
            },
            HostToDevice::Visualizer { bands } => {
                bytes.push(2);
                let mut i: usize = 0;
                while i < 8
                    invariant
                        i <= 8,
                        bytes@ == seq![2u8] + bands@.take(i as int),
                    decreases 8 - i,
                {
                    bytes.push(bands[i]);
                    assert(bands@.take(i + 1) =~= bands@.take(i as int).push(bands@[i as int]));
                    i = i + 1;
                }
                assert(bands@.take(8) =~= bands@);
            },
            HostToDevice::Hello { proto_version } => {
                bytes.push(3);
                bytes.push(proto_version);
                assert(bytes@ =~= self.payload());
            },
        }
        bytes
    }

    /// The frame that carries this message.
    pub fn to_frame(&self) -> (frame: Vec<u8>)
        ensures
            frame@ == framed(self.payload()),
            frame@.len() <= MAX_FRAME_LEN,
    {
        let payload = self.to_payload();
        proof {
            lemma_framed_shape(payload@);
        }
        encode_frame(payload.as_slice())
    }

    /// Reads a message off a payload.
    pub fn from_payload(payload: &[u8]) -> (msg: Option<HostToDevice>)
        ensures
            msg == host_message(payload@),
    {
        match take_u32(payload) {
            None => None,
            Some((variant, fields)) => {
                if variant == 0 {
                    if fields.len() >= 2 && fields[1] <= 1 {
                        Some(HostToDevice::Volume { level: fields[0], muted: fields[1] == 1 })
                    } else {
                        None
                    }
                } else if variant == 1 {
                    Some(HostToDevice::Ping)
                } else if variant == 2 {
                    if fields.len() >= 8 {
                        let bands: [u8; 8] = [
                            fields[0],
                            fields[1],
                            fields[2],
                            fields[3],
                            fields[4],
                            fields[5],
                            fields[6],
                            fields[7],
                        ];
                        Some(HostToDevice::Visualizer { bands })
                    } else {
                        None
                    }
                } else if variant == 3 {
                    if fields.len() >= 1 {
                        Some(HostToDevice::Hello { proto_version: fields[0] })
                    } else {
                        None
                    }
                } else {
                    None
                }
            },
        }
    }

    /// Reads a message off a frame whose delimiter has been cut off.
    pub fn from_frame(frame: &[u8]) -> (msg: Option<HostToDevice>)
        ensures
            msg == host_frame_message(frame@),
    {
        match decode_frame(frame) {
            Some(payload) => HostToDevice::from_payload(payload.as_slice()),
            None => None,
        }
    }
}

impl DeviceToHost {
    /// The bytes that stand for this message.
    pub open spec fn payload(self) -> Seq<u8> {
        match self {
            DeviceToHost::Pong => seq![0u8],
            DeviceToHost::EncoderClick => seq![1u8],
            DeviceToHost::Hello { proto_version } => seq![2u8, proto_version],
        }
    }

    /// The bytes that stand for this message.
    pub fn to_payload(&self) -> (bytes: Vec<u8>)
        ensures
            bytes@ == self.payload(),
            bytes@.len() <= 2,
    {
        let mut bytes: Vec<u8> = Vec::new();
        match *self {
            DeviceToHost::Pong => {
                bytes.push(0);
            },
            DeviceToHost::EncoderClick => {
                bytes.push(1);
            },
            DeviceToHost::Hello { proto_version } => {
                bytes.push(2);
                bytes.push(proto_version);
            },
        }
        assert(bytes@ =~= self.payload());
        bytes
    }

    /// The frame that carries this message.
    pub fn to_frame(&self) -> (frame: Vec<u8>)
        ensures
            frame@ == framed(self.payload()),
            frame@.len() <= MAX_FRAME_LEN,
    {
        let payload = self.to_payload();
        proof {
            lemma_framed_shape(payload@);
        }
        encode_frame(payload.as_slice())
    }

    /// Reads a message off a payload.
    pub fn from_payload(payload: &[u8]) -> (msg: Option<DeviceToHost>)
        ensures
            msg == device_message(payload@),
    {
        match take_u32(payload) {
            None => None,
            Some((variant, fields)) => {
                if variant == 0 {
                    Some(DeviceToHost::Pong)
                } else if variant == 1 {
                    Some(DeviceToHost::EncoderClick)
                } else if variant == 2 && fields.len() >= 1 {
                    Some(DeviceToHost::Hello { proto_version: fields[0] })
                } else {
                    None
                }
            },
        }
    }

    /// Reads a message off a frame whose delimiter has been cut off.
    pub fn from_frame(frame: &[u8]) -> (msg: Option<DeviceToHost>)
        ensures
            msg == device_frame_message(frame@),
    {
        match decode_frame(frame) {
            Some(payload) => DeviceToHost::from_payload(payload.as_slice()),
            None => None,
        }
    }
}

/// Takes in bytes from the host and hands out the messages that they complete.
pub fn receive_host(rx: &mut Deframer, bytes: &[u8]) -> (msgs: Vec<HostToDevice>)
    requires
        old(rx).wf(),
    ensures
        final(rx).wf(),
        final(rx)@ == deframed(old(rx)@, bytes@).0,
        msgs@ == host_accepted(deframed(old(rx)@, bytes@).1),
{
    let ghost decode = |frame: Seq<u8>| host_frame_message(frame);
    let ghost goal = deframed(rx@, bytes@);
    let mut msgs: Vec<HostToDevice> = Vec::new();
    let mut i: usize = 0;
    assert(bytes@.skip(0) =~= bytes@);
    assert(msgs@ + accepted(goal.1, decode) =~= accepted(goal.1, decode));
    while i < bytes.len()
        invariant
            i <= bytes@.len(),
            rx.wf(),
            decode == (|frame: Seq<u8>| host_frame_message(frame)),
            goal.0 == deframed(rx@, bytes@.skip(i as int)).0,
            accepted(goal.1, decode) == msgs@ + accepted(
                deframed(rx@, bytes@.skip(i as int)).1,
                decode,
            ),
        decreases bytes@.len() - i,
    {
        let ghost rest = bytes@.skip(i as int);
        let ghost before = msgs@;
        let ghost (next, done) = deframed_byte(rx@, rest[0]);
        let ghost later = deframed(next, rest.drop_first()).1;
        assert(rest.drop_first() =~= bytes@.skip(i + 1));
        if let Some(frame) = rx.feed(bytes[i]) {
            assert((seq![frame@] + later).drop_first() =~= later);
            if let Some(msg) = HostToDevice::from_frame(frame.as_slice()) {
                msgs.push(msg);
                assert(before + (seq![msg] + accepted(later, decode)) =~= msgs@ + accepted(
                    later,
                    decode,
                ));
            }
        }
        i = i + 1;
    }
    assert(bytes@.skip(i as int) =~= Seq::<u8>::empty());
    assert(msgs@ + Seq::<HostToDevice>::empty() =~= msgs@);
    msgs
}

/// Takes in bytes from the device and hands out the messages that they
/// complete.
pub fn receive_device(rx: &mut Deframer, bytes: &[u8]) -> (msgs: Vec<DeviceToHost>)
    requires
        old(rx).wf(),
    ensures
        final(rx).wf(),
        final(rx)@ == deframed(old(rx)@, bytes@).0,
        msgs@ == device_accepted(deframed(old(rx)@, bytes@).1),
{
    let ghost decode = |frame: Seq<u8>| device_frame_message(frame);
    let ghost goal = deframed(rx@, bytes@);
    let mut msgs: Vec<DeviceToHost> = Vec::new();
    let mut i: usize = 0;
    assert(bytes@.skip(0) =~= bytes@);
    assert(msgs@ + accepted(goal.1, decode) =~= accepted(goal.1, decode));
    while i < bytes.len()
        invariant
            i <= bytes@.len(),
            rx.wf(),
            decode == (|frame: Seq<u8>| device_frame_message(frame)),
            goal.0 == deframed(rx@, bytes@.skip(i as int)).0,
            accepted(goal.1, decode) == msgs@ + accepted(
                deframed(rx@, bytes@.skip(i as int)).1,
                decode,
            ),
        decreases bytes@.len() - i,
    {
        let ghost rest = bytes@.skip(i as int);
        let ghost before = msgs@;
        let ghost (next, done) = deframed_byte(rx@, rest[0]);
        let ghost later = deframed(next, rest.drop_first()).1;
        assert(rest.drop_first() =~= bytes@.skip(i + 1));
        if let Some(frame) = rx.feed(bytes[i]) {
            assert((seq![frame@] + later).drop_first() =~= later);
            if let Some(msg) = DeviceToHost::from_frame(frame.as_slice()) {
                msgs.push(msg);
                assert(before + (seq![msg] + accepted(later, decode)) =~= msgs@ + accepted(
                    later,
                    decode,
                ));
            }
        }
        i = i + 1;
    }
    assert(bytes@.skip(i as int) =~= Seq::<u8>::empty());
    assert(msgs@ + Seq::<DeviceToHost>::empty() =~= msgs@);
    msgs
}

// ─── Laws ───────────────────────────────────────────────────────────────────

/// Every host message fits a payload of nine bytes, and its payload reads back
/// as that message.
pub proof fn lemma_host_payload_round_trip(msg: HostToDevice)
    ensures
        msg.payload().len() <= 9,
        host_message(msg.payload()) == Some(msg),
{
    let p = msg.payload();
    let fields = p.drop_first();
    assert(varint(p, 0) == Some((p[0] as nat, fields)));
    if let HostToDevice::Visualizer { bands } = msg {
        assert(fields =~= bands@);
        assert(first_eight(fields)@ =~= bands@);
        assert(first_eight(fields) == bands);
    }
}

/// Every device message fits a payload of two bytes, and its payload reads
/// back as that message.
pub proof fn lemma_device_payload_round_trip(msg: DeviceToHost)
    ensures
        msg.payload().len() <= 2,
        device_message(msg.payload()) == Some(msg),
{
    let p = msg.payload();
    assert(varint(p, 0) == Some((p[0] as nat, p.drop_first())));
}

/// Two different host messages never share a payload.
pub proof fn lemma_host_payload_injective(a: HostToDevice, b: HostToDevice)
    requires
        a.payload() == b.payload(),
    ensures
        a == b,
{
    lemma_host_payload_round_trip(a);
    lemma_host_payload_round_trip(b);
}

/// The bytes a run of host messages is sent as.
pub open spec fn host_stream(msgs: Seq<HostToDevice>) -> Seq<u8>
    decreases msgs.len(),
{
    if msgs.len() == 0 {
        Seq::empty()
    } else {
        framed(msgs[0].payload()) + host_stream(msgs.drop_first())
    }
}

/// The bytes a run of device messages is sent as.
pub open spec fn device_stream(msgs: Seq<DeviceToHost>) -> Seq<u8>
    decreases msgs.len(),
{
    if msgs.len() == 0 {
        Seq::empty()
    } else {
        framed(msgs[0].payload()) + device_stream(msgs.drop_first())
    }
}

/// The host messages in a run of frames.
pub open spec fn host_accepted(frames: Seq<Seq<u8>>) -> Seq<HostToDevice> {
    accepted(frames, |frame: Seq<u8>| host_frame_message(frame))
}

/// The device messages in a run of frames.
pub open spec fn device_accepted(frames: Seq<Seq<u8>>) -> Seq<DeviceToHost> {
    accepted(frames, |frame: Seq<u8>| device_frame_message(frame))
}

/// What the host writes, the device reads: from a clean start the bytes of any
/// run of messages come out as those messages in order, with nothing left
/// pending.
pub proof fn lemma_host_stream_round_trip(msgs: Seq<HostToDevice>)
    ensures
        deframed(Seq::empty(), host_stream(msgs)).0 == Seq::<u8>::empty(),
        host_accepted(deframed(Seq::empty(), host_stream(msgs)).1) == msgs,
    decreases msgs.len(),
{
    let empty = Seq::<u8>::empty();
    let decode = |frame: Seq<u8>| host_frame_message(frame);
    if msgs.len() > 0 {
        let head = msgs[0];
        let tail = msgs.drop_first();
        lemma_host_stream_round_trip(tail);
        lemma_host_payload_round_trip(head);
        lemma_deframed_frame(head.payload());
        lemma_frame_round_trip(head.payload());
        lemma_deframed_concat(empty, framed(head.payload()), host_stream(tail));
        let one = seq![framed(head.payload()).drop_last()];
        lemma_accepted_concat(one, deframed(empty, host_stream(tail)).1, decode);
        assert(one.drop_first() =~= Seq::<Seq<u8>>::empty());
        assert(accepted(one.drop_first(), decode) =~= Seq::<HostToDevice>::empty());
        assert(accepted(one, decode) =~= seq![head]);
        assert(seq![head] + tail =~= msgs);
    } else {
        assert(accepted(Seq::<Seq<u8>>::empty(), decode) =~= msgs);
    }
}

/// What the device writes, the host reads, in the same sense.
pub proof fn lemma_device_stream_round_trip(msgs: Seq<DeviceToHost>)
    ensures
        deframed(Seq::empty(), device_stream(msgs)).0 == Seq::<u8>::empty(),
        device_accepted(deframed(Seq::empty(), device_stream(msgs)).1) == msgs,
    decreases msgs.len(),
{
    let empty = Seq::<u8>::empty();
    let decode = |frame: Seq<u8>| device_frame_message(frame);
    if msgs.len() > 0 {
        let head = msgs[0];
        let tail = msgs.drop_first();
        lemma_device_stream_round_trip(tail);
        lemma_device_payload_round_trip(head);
        lemma_deframed_frame(head.payload());
        lemma_frame_round_trip(head.payload());
        lemma_deframed_concat(empty, framed(head.payload()), device_stream(tail));
        let one = seq![framed(head.payload()).drop_last()];
        lemma_accepted_concat(one, deframed(empty, device_stream(tail)).1, decode);
        assert(one.drop_first() =~= Seq::<Seq<u8>>::empty());
        assert(accepted(one.drop_first(), decode) =~= Seq::<DeviceToHost>::empty());
        assert(accepted(one, decode) =~= seq![head]);
        assert(seq![head] + tail =~= msgs);
    } else {
        assert(accepted(Seq::<Seq<u8>>::empty(), decode) =~= msgs);
    }
}

/// A payload starts with the number of its variant, in the order of
/// declaration, and goes on with the fields, in that order too.
pub proof fn lemma_payload_layout(
    level: u8,
    muted: bool,
    bands: [u8; 8],
    version: u8,
)
    ensures
        (HostToDevice::Volume { level, muted }).payload() == seq![
            0u8,
            level,
            if muted {
                1u8
            } else {
                0u8
            },
        ],
        HostToDevice::Ping.payload() == seq![1u8],
        (HostToDevice::Visualizer { bands }).payload().len() == 9,
        (HostToDevice::Visualizer { bands }).payload()[0] == 2,
        forall|i: int|
            0 <= i < 8 ==> (HostToDevice::Visualizer { bands }).payload()[i + 1]
                == #[trigger] bands@[i],
        (HostToDevice::Hello { proto_version: version }).payload() == seq![3u8, version],
        DeviceToHost::Pong.payload() == seq![0u8],
        DeviceToHost::EncoderClick.payload() == seq![1u8],
        (DeviceToHost::Hello { proto_version: version }).payload() == seq![2u8, version],
{
}

/// Bytes behind a message do not change it.
pub proof fn lemma_bytes_behind_are_ignored(
    host: HostToDevice,
    device: DeviceToHost,
    rest: Seq<u8>,
)
    ensures
        host_message(host.payload() + rest) == Some(host),
        device_message(device.payload() + rest) == Some(device),
{
    let h = host.payload() + rest;
    let d = device.payload() + rest;
    assert(varint(h, 0) == Some((h[0] as nat, h.drop_first())));
    assert(varint(d, 0) == Some((d[0] as nat, d.drop_first())));
    if let HostToDevice::Visualizer { bands } = host {
        let fields = h.drop_first();
        assert forall|i: int| 0 <= i < 8 implies fields[i] == #[trigger] bands@[i] by {
            assert(h[i + 1] == bands@[i]);
        }
        assert(first_eight(fields)@ =~= bands@);
        assert(first_eight(fields) == bands);
    }
}

/// What decodes to a message is that message: a payload whose variant is spelled
/// in one byte begins with exactly the bytes that the message is sent as.
pub proof fn lemma_only_its_own_bytes_decode(payload: Seq<u8>)
    requires
        payload.len() > 0,
        payload[0] < 128,
    ensures
        host_message(payload) matches Some(msg) ==> msg.payload().len() <= payload.len()
            && payload.take(msg.payload().len() as int) == msg.payload(),
        device_message(payload) matches Some(msg) ==> msg.payload().len() <= payload.len()
            && payload.take(msg.payload().len() as int) == msg.payload(),
{
    let fields = payload.drop_first();
    assert(varint(payload, 0) == Some((payload[0] as nat, fields)));
    if let Some(msg) = host_message(payload) {
        if let HostToDevice::Visualizer { bands } = msg {
            assert forall|i: int| 0 <= i < 8 implies payload[i + 1] == #[trigger] bands@[i] by {
                assert(fields[i] == payload[i + 1]);
            }
        }
        assert(payload.take(msg.payload().len() as int) =~= msg.payload());
    }
    if let Some(msg) = device_message(payload) {
        assert(payload.take(msg.payload().len() as int) =~= msg.payload());
    }
}

/// How the variant is spelled makes no difference, an unreadable one has no
/// message, and neither has a number that no variant has.
pub proof fn lemma_variant_spelling(a: Seq<u8>, b: Seq<u8>)
    ensures
        varint(a, 0) == varint(b, 0) ==> host_message(a) == host_message(b) && device_message(a)
            == device_message(b),
        varint(a, 0) is None ==> host_message(a) is None && device_message(a) is None,
        varint(a, 0) matches Some((n, _)) ==> (n >= 4 ==> host_message(a) is None) && (n >= 3
            ==> device_message(a) is None),
{
}

/// A frame carries the message of its payload, and none if it is not well
/// stuffed; what was framed on one end is read as that on the other.
pub proof fn lemma_frames_carry_messages(
    host: HostToDevice,
    device: DeviceToHost,
    frame: Seq<u8>,
)
    ensures
        host_frame_message(framed(host.payload()).drop_last()) == Some(host),
        device_frame_message(framed(device.payload()).drop_last()) == Some(device),
        unframed(frame) matches Some(payload) ==> host_frame_message(frame) == host_message(payload)
            && device_frame_message(frame) == device_message(payload),
        unframed(frame) is None ==> host_frame_message(frame) is None && device_frame_message(frame)
            is None,
{
    lemma_host_payload_round_trip(host);
    lemma_device_payload_round_trip(device);
    lemma_frame_round_trip(host.payload());
    lemma_frame_round_trip(device.payload());
}

/// Each frame of a run counts for itself: one more adds its message at the end
/// if it carries one, and nothing if it does not.
pub proof fn lemma_frames_count_one_by_one(frames: Seq<Seq<u8>>, frame: Seq<u8>)
    ensures
        host_accepted(Seq::empty()) == Seq::<HostToDevice>::empty(),
        device_accepted(Seq::empty()) == Seq::<DeviceToHost>::empty(),
        host_accepted(frames.push(frame)) == match host_frame_message(frame) {
            Some(msg) => host_accepted(frames).push(msg),
            None => host_accepted(frames),
        },
        device_accepted(frames.push(frame)) == match device_frame_message(frame) {
            Some(msg) => device_accepted(frames).push(msg),
            None => device_accepted(frames),
        },
{
    lemma_accepted_one_more(frames, frame, |f: Seq<u8>| host_frame_message(f));
    lemma_accepted_one_more(frames, frame, |f: Seq<u8>| device_frame_message(f));
}

} // verus!
