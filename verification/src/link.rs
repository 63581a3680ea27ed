//! Host side of the serial link: finding the device, keeping the connection
//! up, pacing the spectrum, and reading what the device says.
//!
//! [`Link`] decides and performs nothing. Its owner carries out the action that
//! [`Link::action`] names and reports the outcome to [`Link::step`].
use vstd::prelude::*;

use crate::proto::{
    device_accepted, device_frame_message, device_stream, host_frame_message,
    lemma_device_stream_round_trip, lemma_frames_carry_messages, lemma_frames_count_one_by_one,
    receive_device, DeviceToHost, HostToDevice, PROTO_VERSION,
};
use crate::state::{host_reaction, DisplayState};
use crate::usb::{DEVICE_PID, DEVICE_VID};
use crate::wire::{
    accepted, deframed, framed, lemma_accepted_concat, lemma_bytes_are_kept, lemma_deframed_concat,
    lemma_deframed_frame, lemma_delimited_run_comes_out, lemma_framed_shape, Deframer,
};

verus! {

// ─── Finding the device ─────────────────────────────────────────────────────

/// A serial port of the host. `usb` holds vendor and product for a USB port.
pub struct PortInfo {
    pub name: String,
    pub usb: Option<(u16, u16)>,
}

/// Why no port could be chosen.
#[derive(Copy, Clone, Debug, PartialEq, Eq, Structural)]
pub enum ResolveError {
    /// The ports could not be listed.
    ScanFailed,
    /// No port belongs to the device.
    NoDevice,
}

/// Whether a port belongs to the device.
pub open spec fn port_matches(port: PortInfo) -> bool {
    port.usb == Some((DEVICE_VID, DEVICE_PID))
}

/// Whether the port at `i` is the first in the list that belongs to the device.
pub open spec fn first_match(list: Seq<PortInfo>, i: int) -> bool {
    &&& 0 <= i < list.len()
    &&& port_matches(list[i])
    &&& forall|j: int| 0 <= j < i ==> !port_matches(#[trigger] list[j])
}

/// Whether the `--device` argument asks for a scan.
pub fn wants_scan(arg: &str) -> (r: bool)
    ensures
        r == (arg@ == "auto"@),
{
    arg.to_owned() == "auto".to_owned()
}

/// Where the first port of the device stands in a list.
fn first_device(list: &Vec<PortInfo>) -> (r: Option<usize>)
    ensures
        match r {
            Some(i) => first_match(list@, i as int),
            None => forall|i: int| 0 <= i < list@.len() ==> !port_matches(#[trigger] list@[i]),
        },
{
    let mut i: usize = 0;
    while i < list.len()
        invariant
            i <= list@.len(),
            forall|j: int| 0 <= j < i ==> !port_matches(#[trigger] list@[j]),
        decreases list@.len() - i,
    {
        if let Some((vid, pid)) = list[i].usb {
            if vid == DEVICE_VID && pid == DEVICE_PID {
                return Some(i);
            }
        }
        i = i + 1;
    }
    None
}

/// Turns the `--device` argument into a port name. `auto` picks the first
/// listed port of the device; anything else is taken as it is. `ports` is what
/// a scan found, `None` if it failed, and matters for `auto` only.
pub fn resolve_device(arg: &str, ports: &Option<Vec<PortInfo>>) -> (r: Result<String, ResolveError>)
    ensures
        arg@ != "auto"@ ==> r is Ok && r->Ok_0@ == arg@,
        arg@ == "auto"@ ==> match *ports {
            None => r == Err::<String, ResolveError>(ResolveError::ScanFailed),
            Some(list) => match r {
                Ok(name) => exists|i: int|
                    #[trigger] first_match(list@, i) && name@ == list@[i].name@,
                Err(e) => e == ResolveError::NoDevice && forall|i: int|
                    0 <= i < list@.len() ==> !port_matches(#[trigger] list@[i]),
            },
        },
{
    if !wants_scan(arg) {
        return Ok(arg.to_owned());
    }
    match ports {
        None => Err(ResolveError::ScanFailed),
        Some(list) => match first_device(list) {
            Some(i) => Ok(list[i].name.clone()),
            None => Err(ResolveError::NoDevice),
        },
    }
}

// ─── What the device says ───────────────────────────────────────────────────

/// What a device message means to the host.
#[derive(Copy, Clone, Debug, PartialEq, Eq, Structural)]
pub enum DeviceNotice {
    /// The encoder was pressed.
    EncoderClick,
    /// The device is alive.
    Pong,
    /// The device speaks this host's message set.
    VersionAgrees,
    /// The device speaks another one; the link carries on.
    VersionDiffers { device: u8 },
}

/// The notice that a device message stands for.
pub open spec fn notice(msg: DeviceToHost) -> DeviceNotice {
    match msg {
        DeviceToHost::EncoderClick => DeviceNotice::EncoderClick,
        DeviceToHost::Pong => DeviceNotice::Pong,
        DeviceToHost::Hello { proto_version } => if proto_version == PROTO_VERSION {
            DeviceNotice::VersionAgrees
        } else {
            DeviceNotice::VersionDiffers { device: proto_version }
        },
    }
}

/// The notices that a run of device messages stands for.
pub open spec fn notices(msgs: Seq<DeviceToHost>) -> Seq<DeviceNotice> {
    Seq::new(msgs.len(), |i: int| notice(msgs[i]))
}

/// Classifies a device message.
pub fn handle_device_message(msg: DeviceToHost) -> (r: DeviceNotice)
    ensures
        r == notice(msg),
{
    match msg {
        DeviceToHost::EncoderClick => DeviceNotice::EncoderClick,
        DeviceToHost::Pong => DeviceNotice::Pong,
        DeviceToHost::Hello { proto_version } => if proto_version == PROTO_VERSION {
            DeviceNotice::VersionAgrees
        } else {
            DeviceNotice::VersionDiffers { device: proto_version }
        },
    }
}

/// Feeds bytes from the device into the receiver and classifies every message
/// that they complete. Malformed frames are dropped.
pub fn ingest_device_frames(rx: &mut Deframer, bytes: &[u8]) -> (out: Vec<DeviceNotice>)
    requires
        old(rx).wf(),
    ensures
        final(rx).wf(),
        final(rx)@ == deframed(old(rx)@, bytes@).0,
        out@ == notices(device_accepted(deframed(old(rx)@, bytes@).1)),
{
    let msgs = receive_device(rx, bytes);
    let mut out: Vec<DeviceNotice> = Vec::new();
    let mut i: usize = 0;
    while i < msgs.len()
        invariant
            i <= msgs@.len(),
            out@ == notices(msgs@.take(i as int)),
        decreases msgs@.len() - i,
    {
        out.push(handle_device_message(msgs[i]));
        assert(out@ =~= notices(msgs@.take(i + 1)));
        i = i + 1;
    }
    assert(msgs@.take(i as int) =~= msgs@);
    out
}

// ─── The connection ─────────────────────────────────────────────────────────

/// Least time between two spectrum frames, in microseconds.
pub const VIZ_MIN_INTERVAL_US: u64 = 15_000;

/// Pause before another try to find or open the device, in microseconds.
pub const RETRY_DELAY_US: u64 = 2_000_000;

/// Longest wait for bytes from the device, in microseconds.
pub const READ_TIMEOUT_US: u64 = 10_000;

/// Longest wait for a queued message, in microseconds.
pub const RECEIVE_TIMEOUT_US: u64 = 5_000;

/// What the owner of a [`Link`] does next.
#[derive(Copy, Clone, Debug, PartialEq, Eq)]
pub enum LinkAction {
    /// Find the device's port.
    Resolve,
    /// Open the port that was found.
    Open,
    /// Pause for [`RETRY_DELAY_US`].
    Sleep,
    /// Write the frame that came with this action: the greeting.
    WriteHello,
    /// Read what the device has sent, for [`READ_TIMEOUT_US`] at most.
    Read,
    /// Look up the latest spectrum.
    PollBands,
    /// Write the frame that came with this action: these bands.
    WriteBands { bands: [u8; 8] },
    /// Take the next queued message, waiting [`RECEIVE_TIMEOUT_US`] at most.
    Receive,
    /// Write the frame that came with this action: a queued message.
    WriteMessage,
    /// End: nobody is left to send anything.
    Stop,
}

/// The outcome of an action.
pub enum LinkEvent {
    /// Whether a port was found.
    Resolved { ok: bool },
    /// Whether the port could be opened.
    Opened { ok: bool },
    /// The pause is over.
    Slept,
    /// Whether the whole frame was written.
    Written { ok: bool },
    /// Bytes from the device.
    Bytes { bytes: Vec<u8> },
    /// The device sent nothing in time.
    Quiet,
    /// The port could not be read.
    ReadFailed,
    /// The latest spectrum, if there is one.
    Bands { latest: Option<[u8; 8]> },
    /// A queued message.
    Message { msg: HostToDevice },
    /// No message was queued in time.
    NoMessage,
    /// All senders are gone.
    Closed,
}

/// A [`Link`] as its contracts see it.
pub struct LinkModel {
    /// The action under way.
    pub action: LinkAction,
    /// Bytes of an unfinished frame from the device.
    pub pending: Seq<u8>,
    /// Bands of the last spectrum frame of this connection.
    pub sent: Option<Seq<u8>>,
    /// When that frame was written.
    pub sent_at: Option<u64>,
}

/// What a step yields besides the next action.
pub struct LinkYield {
    /// The frame to write, empty if the next action writes none.
    pub frame: Seq<u8>,
    /// What the device said.
    pub received: Seq<DeviceNotice>,
}

/// Whether an event is an outcome of the action.
pub open spec fn is_outcome(action: LinkAction, event: LinkEvent) -> bool {
    match action {
        LinkAction::Resolve => event is Resolved,
        LinkAction::Open => event is Opened,
        LinkAction::Sleep => event is Slept,
        LinkAction::WriteHello | LinkAction::WriteMessage => event is Written,
        LinkAction::WriteBands { bands } => event is Written,
        LinkAction::Read => event is Bytes || event is Quiet || event is ReadFailed,
        LinkAction::PollBands => event is Bands,
        LinkAction::Receive => event is Message || event is NoMessage || event is Closed,
        LinkAction::Stop => false,
    }
}

/// Whether another spectrum frame may go out at `now`.
pub open spec fn viz_due(sent_at: Option<u64>, now: u64) -> bool {
    match sent_at {
        None => true,
        Some(at) => now - at >= VIZ_MIN_INTERVAL_US,
    }
}

impl LinkModel {
    /// The same link with another action under way.
    pub open spec fn turn(self, action: LinkAction) -> LinkModel {
        LinkModel { action, ..self }
    }
}

/// Where an event that happens at `now` takes a link.
pub open spec fn link_next(m: LinkModel, event: LinkEvent, now: u64) -> LinkModel {
    match event {
        LinkEvent::Resolved { ok } => m.turn(
            if ok {
                LinkAction::Open
            } else {
                LinkAction::Sleep
            },
        ),
        LinkEvent::Opened { ok } => m.turn(
            if ok {
                LinkAction::WriteHello
            } else {
                LinkAction::Sleep
            },
        ),
        LinkEvent::Slept => m.turn(LinkAction::Resolve),
        LinkEvent::ReadFailed => m.turn(LinkAction::Resolve),
        LinkEvent::Written { ok } => if !ok {
            m.turn(LinkAction::Resolve)
        } else {
            match m.action {
                LinkAction::WriteHello => LinkModel {
                    action: LinkAction::Read,
                    pending: Seq::empty(),
                    sent: None,
                    sent_at: None,
                },
                LinkAction::WriteBands { bands } => LinkModel {
                    action: LinkAction::Receive,
                    sent: Some(bands@),
                    sent_at: Some(now),
                    ..m
                },
                _ => m.turn(LinkAction::Read),
            }
        },
        LinkEvent::Bytes { bytes } => LinkModel {
            pending: deframed(m.pending, bytes@).0,
            ..m.turn(after_read(m.sent_at, now))
        },
        LinkEvent::Quiet => m.turn(after_read(m.sent_at, now)),
        LinkEvent::Bands { latest } => m.turn(
            match latest {
                Some(bands) => if m.sent == Some(bands@) {
                    LinkAction::Receive
                } else {
                    LinkAction::WriteBands { bands }
                },
                None => LinkAction::Receive,
            },
        ),
        LinkEvent::Message { msg } => m.turn(LinkAction::WriteMessage),
        LinkEvent::NoMessage => m.turn(LinkAction::Read),
        LinkEvent::Closed => m.turn(LinkAction::Stop),
    }
}

/// The action behind a read: the spectrum has its turn when it is due.
pub open spec fn after_read(sent_at: Option<u64>, now: u64) -> LinkAction {
    if viz_due(sent_at, now) {
        LinkAction::PollBands
    } else {
        LinkAction::Receive
    }
}

/// What an event yields besides the next action.
pub open spec fn link_yield(m: LinkModel, event: LinkEvent) -> LinkYield {
    LinkYield {
        frame: match event {
            LinkEvent::Opened { ok } => if ok {
                framed((HostToDevice::Hello { proto_version: PROTO_VERSION }).payload())
            } else {
                Seq::empty()
            },
            LinkEvent::Bands { latest } => match latest {
                Some(bands) => if m.sent == Some(bands@) {
                    Seq::empty()
                } else {
                    framed((HostToDevice::Visualizer { bands }).payload())
                },
                None => Seq::empty(),
            },
            LinkEvent::Message { msg } => framed(msg.payload()),
            _ => Seq::empty(),
        },
        received: match event {
            LinkEvent::Bytes { bytes } => notices(
                device_accepted(deframed(m.pending, bytes@).1),
            ),
            _ => Seq::empty(),
        },
    }
}

/// The host's end of the serial link.
pub struct Link {
    action: LinkAction,
    rx: Deframer,
    sent: Option<[u8; 8]>,
    sent_at: Option<u64>,
}

/// What [`Link::step`] hands to the owner besides the next action.
pub struct LinkOutput {
    /// The frame to write, empty if the next action writes none.
    pub frame: Vec<u8>,
    /// What the device said.
    pub received: Vec<DeviceNotice>,
}

impl View for Link {
    type V = LinkModel;

    closed spec fn view(&self) -> LinkModel {
        LinkModel {
            action: self.action,
            pending: self.rx@,
            sent: match self.sent {
                Some(bands) => Some(bands@),
                None => None,
            },
            sent_at: self.sent_at,
        }
    }
}

/// Whether two spectra hold the same bands.
fn same_bands(a: &[u8; 8], b: &[u8; 8]) -> (r: bool)
    ensures
        r == (a@ == b@),
{
    let mut i: usize = 0;
    while i < 8
        invariant
            i <= 8,
            forall|j: int| 0 <= j < i ==> a[j] == b[j],
        decreases 8 - i,
    {
        if a[i] != b[i] {
            assert(a@[i as int] != b@[i as int]);
            return false;
        }
        i = i + 1;
    }
    assert(a@ =~= b@);
    true
}

impl Link {
    /// Internal consistency: the receiver is in order.
    pub closed spec fn wf(&self) -> bool {
        self.rx.wf()
    }

    /// A link that has yet to find its device.
    pub fn new() -> (link: Link)
        ensures
            link.wf(),
            link@ == (LinkModel {
                action: LinkAction::Resolve,
                pending: Seq::empty(),
                sent: None,
                sent_at: None,
            }),
    {
        Link { action: LinkAction::Resolve, rx: Deframer::new(), sent: None, sent_at: None }
    }

    /// The action under way.
    pub fn action(&self) -> (action: LinkAction)
        ensures
            action == self@.action,
    {
        self.action
    }

    /// Whether another spectrum frame may go out at `now`.
    fn viz_due(&self, now: u64) -> (r: bool)
        ensures
            r == viz_due(self@.sent_at, now),
    {
        match self.sent_at {
            None => true,
            Some(at) => now >= at && now - at >= VIZ_MIN_INTERVAL_US,
        }
    }

    /// The action behind a read that ends at `now`.
    fn after_read(&self, now: u64) -> (action: LinkAction)
        ensures
            action == after_read(self@.sent_at, now),
    {
        if self.viz_due(now) {
            LinkAction::PollBands
        } else {
            LinkAction::Receive
        }
    }

    /// Takes in the outcome of the action under way and decides on the next. A
    /// failure to find or open the device leads to a pause, a failure to read or
    /// write straight to another search.
    pub fn step(&mut self, event: LinkEvent, now: u64) -> (out: LinkOutput)
        requires
            old(self).wf(),
            is_outcome(old(self)@.action, event),
        ensures
            final(self).wf(),
            final(self)@ == link_next(old(self)@, event, now),
            out.frame@ == link_yield(old(self)@, event).frame,
            out.received@ == link_yield(old(self)@, event).received,
    {
        let mut frame: Vec<u8> = Vec::new();
        let mut received: Vec<DeviceNotice> = Vec::new();
        match event {
            LinkEvent::Resolved { ok } => {
                self.action = if ok {
                    LinkAction::Open
                } else {
                    LinkAction::Sleep
                };
            },
            LinkEvent::Opened { ok } => {
                if ok {
                    frame = (HostToDevice::Hello { proto_version: PROTO_VERSION }).to_frame();
                    self.action = LinkAction::WriteHello;
                } else {
                    self.action = LinkAction::Sleep;
                }
            },
            LinkEvent::Slept | LinkEvent::ReadFailed => {
                self.action = LinkAction::Resolve;
            },
            LinkEvent::Written { ok } => {
                if !ok {
                    self.action = LinkAction::Resolve;
                } else {
                    match self.action {
                        LinkAction::WriteHello => {
                            self.rx = Deframer::new();
                            self.sent = None;
                            self.sent_at = None;
                            self.action = LinkAction::Read;
                        },
                        LinkAction::WriteBands { bands } => {
                            self.sent = Some(bands);
                            self.sent_at = Some(now);
                            self.action = LinkAction::Receive;
                        },
                        _ => {
                            self.action = LinkAction::Read;
                        },
                    }
                }
            },
            LinkEvent::Bytes { bytes } => {
                received = ingest_device_frames(&mut self.rx, bytes.as_slice());
                self.action = self.after_read(now);
            },
            LinkEvent::Quiet => {
                self.action = self.after_read(now);
            },
            LinkEvent::Bands { latest } => {
                self.action = LinkAction::Receive;
                if let Some(bands) = latest {
                    let stale = match self.sent {
                        Some(sent) => same_bands(&sent, &bands),
                        None => false,
                    };
                    if !stale {
                        frame = (HostToDevice::Visualizer { bands }).to_frame();
                        self.action = LinkAction::WriteBands { bands };
                    }
                }
            },
            LinkEvent::Message { msg } => {
                frame = msg.to_frame();
                self.action = LinkAction::WriteMessage;
            },
            LinkEvent::NoMessage => {
                self.action = LinkAction::Read;
            },
            LinkEvent::Closed => {
                self.action = LinkAction::Stop;
            },
        }
        LinkOutput { frame, received }
    }
}

// ─── Laws ───────────────────────────────────────────────────────────────────

/// Nothing but the loss of all senders ends the link: every failure leads back
/// to a search for the device, at once or after a pause.
pub proof fn lemma_failures_lead_back(m: LinkModel, event: LinkEvent, now: u64)
    requires
        is_outcome(m.action, event),
    ensures
        link_next(m, event, now).action == LinkAction::Stop <==> event is Closed,
        event == (LinkEvent::Resolved { ok: false }) || event == (LinkEvent::Opened { ok: false })
            ==> link_next(m, event, now).action == LinkAction::Sleep,
        event == (LinkEvent::Written { ok: false }) || event is ReadFailed || event is Slept
            ==> link_next(m, event, now).action == LinkAction::Resolve,
{
}

/// Every connection opens with a greeting, and starts afresh behind it: nothing
/// of an earlier connection is left.
pub proof fn lemma_connection_starts_afresh(m: LinkModel, opened: u64, written: u64)
    requires
        m.action == LinkAction::Open,
    ensures
        ({
            let up = LinkEvent::Opened { ok: true };
            let greeting = link_next(m, up, opened);
            let ready = link_next(greeting, LinkEvent::Written { ok: true }, written);
            &&& greeting.action == LinkAction::WriteHello
            &&& link_yield(m, up).frame == framed(
                (HostToDevice::Hello { proto_version: PROTO_VERSION }).payload(),
            )
            &&& ready.action == LinkAction::Read
            &&& ready.pending == Seq::<u8>::empty()
            &&& ready.sent is None
            &&& ready.sent_at is None
        }),
{
}

/// What holds of a link at `now`: a spectrum frame under way keeps its distance
/// from the last one.
pub open spec fn paced(m: LinkModel, now: u64) -> bool {
    m.action == LinkAction::PollBands || m.action is WriteBands ==> viz_due(m.sent_at, now)
}

/// Two spectrum frames of one connection are never closer than the least
/// interval: pacing holds from step to step as the clock moves on, and a frame
/// that goes out finds the interval over.
pub proof fn lemma_bands_are_paced(m: LinkModel, event: LinkEvent, before: u64, now: u64)
    requires
        is_outcome(m.action, event),
        paced(m, before),
        before <= now,
    ensures
        paced(link_next(m, event, now), now),
        m.action is WriteBands && event == (LinkEvent::Written { ok: true }) ==> {
            &&& link_next(m, event, now).sent_at == Some(now)
            &&& m.sent_at matches Some(at) ==> now - at >= VIZ_MIN_INTERVAL_US
        },
{
}

/// A spectrum frame goes out only if its bands differ from those that went out
/// last on this connection.
pub proof fn lemma_bands_are_news(m: LinkModel, event: LinkEvent, now: u64)
    requires
        is_outcome(m.action, event),
        link_next(m, event, now).action is WriteBands,
    ensures
        m.sent != Some(link_next(m, event, now).action->bands@),
        link_yield(m, event).frame == framed(
            (HostToDevice::Visualizer {
                bands: link_next(m, event, now).action->bands,
            }).payload(),
        ),
{
}

/// The two ends agree on a version when they are built against the same message
/// set, whatever version the greeting carried.
pub proof fn lemma_greeting_is_answered(s: DisplayState, host_version: u8)
    ensures
        host_reaction(s, HostToDevice::Hello { proto_version: host_version }).reply matches Some(
            reply,
        ) && notice(reply) == DeviceNotice::VersionAgrees,
{
}

/// How the device's bytes are split into reads makes no difference to what is
/// received.
pub proof fn lemma_reads_join(pending: Seq<u8>, a: Seq<u8>, b: Seq<u8>)
    ensures
        notices(device_accepted(deframed(pending, a + b).1)) == notices(
            device_accepted(deframed(pending, a).1),
        ) + notices(device_accepted(deframed(deframed(pending, a).0, b).1)),
{
    let decode = |frame: Seq<u8>| device_frame_message(frame);
    let first = deframed(pending, a);
    let second = deframed(first.0, b);
    lemma_deframed_concat(pending, a, b);
    lemma_accepted_concat(first.1, second.1, decode);
    assert(notices(accepted(first.1, decode) + accepted(second.1, decode)) =~= notices(
        accepted(first.1, decode),
    ) + notices(accepted(second.1, decode)));
}

/// Every queued message reaches the device as it is: the frame that it is
/// written as, with its delimiter cut off, is read there as exactly that
/// message.
pub proof fn lemma_messages_go_out(m: LinkModel, msg: HostToDevice, now: u64)
    ensures
        ({
            let event = LinkEvent::Message { msg };
            let frame = link_yield(m, event).frame;
            &&& host_frame_message(frame.drop_last()) == Some(msg)
            &&& frame.last() == 0
            &&& deframed(Seq::empty(), frame).1 == seq![frame.drop_last()]
            &&& link_next(m, event, now).action == LinkAction::WriteMessage
        }),
{
    lemma_frames_carry_messages(msg, DeviceToHost::Pong, Seq::empty());
    lemma_framed_shape(msg.payload());
    lemma_deframed_frame(msg.payload());
}

/// Every new spectrum goes out, and is read on the device as exactly those
/// bands; the one that went out last does not go out again, and without one
/// nothing does. Either way the queue has its turn next.
pub proof fn lemma_spectra_go_out(m: LinkModel, bands: [u8; 8], now: u64)
    ensures
        ({
            let event = LinkEvent::Bands { latest: Some(bands) };
            let frame = link_yield(m, event).frame;
            let next = link_next(m, event, now);
            &&& m.sent != Some(bands@) ==> {
                &&& host_frame_message(frame.drop_last()) == Some(HostToDevice::Visualizer { bands })
                &&& deframed(Seq::empty(), frame).1 == seq![frame.drop_last()]
                &&& next.action == (LinkAction::WriteBands { bands })
                &&& link_next(next, LinkEvent::Written { ok: true }, now).sent == Some(bands@)
                &&& link_next(next, LinkEvent::Written { ok: true }, now).sent_at == Some(now)
                &&& link_next(next, LinkEvent::Written { ok: true }, now).action
                    == LinkAction::Receive
            }
            &&& m.sent == Some(bands@) ==> frame == Seq::<u8>::empty() && next.action
                == LinkAction::Receive
        }),
        ({
            let event = LinkEvent::Bands { latest: None };
            &&& link_yield(m, event).frame == Seq::<u8>::empty()
            &&& link_next(m, event, now).action == LinkAction::Receive
        }),
{
    let msg = HostToDevice::Visualizer { bands };
    lemma_frames_carry_messages(msg, DeviceToHost::Pong, Seq::empty());
    lemma_deframed_frame(msg.payload());
}

/// A port that opens is greeted: the frame is read on the device as a greeting
/// with this side's version.
pub proof fn lemma_greeting_goes_out(m: LinkModel, now: u64)
    ensures
        ({
            let event = LinkEvent::Opened { ok: true };
            let frame = link_yield(m, event).frame;
            &&& host_frame_message(frame.drop_last()) == Some(
                HostToDevice::Hello { proto_version: PROTO_VERSION },
            )
            &&& deframed(Seq::empty(), frame).1 == seq![frame.drop_last()]
            &&& link_next(m, event, now).action == LinkAction::WriteHello
        }),
{
    let msg = HostToDevice::Hello { proto_version: PROTO_VERSION };
    lemma_frames_carry_messages(msg, DeviceToHost::Pong, Seq::empty());
    lemma_deframed_frame(msg.payload());
}

/// No other event has anything to write, and nothing but bytes from the device
/// is received.
pub proof fn lemma_nothing_else_goes_out(m: LinkModel, event: LinkEvent)
    ensures
        !(event is Message) && !(event is Bands) && event != (LinkEvent::Opened { ok: true })
            ==> link_yield(m, event).frame == Seq::<u8>::empty(),
        !(event is Bytes) ==> link_yield(m, event).received == Seq::<DeviceNotice>::empty(),
{
}

/// What the device sends is received: on a clean link the bytes of a run of
/// messages give the notice of each, in order, and leave the link clean.
pub proof fn lemma_device_is_heard(
    m: LinkModel,
    bytes: Vec<u8>,
    msgs: Seq<DeviceToHost>,
    now: u64,
    i: int,
)
    requires
        m.pending == Seq::<u8>::empty(),
        bytes@ == device_stream(msgs),
        0 <= i < msgs.len(),
    ensures
        ({
            let event = LinkEvent::Bytes { bytes };
            let received = link_yield(m, event).received;
            &&& received.len() == msgs.len()
            &&& received[i] == match msgs[i] {
                DeviceToHost::EncoderClick => DeviceNotice::EncoderClick,
                DeviceToHost::Pong => DeviceNotice::Pong,
                DeviceToHost::Hello { proto_version } => if proto_version == PROTO_VERSION {
                    DeviceNotice::VersionAgrees
                } else {
                    DeviceNotice::VersionDiffers { device: proto_version }
                },
            }
            &&& link_next(m, event, now).pending == Seq::<u8>::empty()
        }),
{
    lemma_device_stream_round_trip(msgs);
}

/// The turns of a connection: a read, then the spectrum if 15 ms have passed
/// since the last one, then the queue, then a read again; what was written and
/// received so far stays as it is.
pub proof fn lemma_turns(m: LinkModel, event: LinkEvent, now: u64)
    requires
        is_outcome(m.action, event),
    ensures
        ({
            let next = link_next(m, event, now);
            let due = match m.sent_at {
                Some(at) => now - at >= 15_000,
                None => true,
            };
            &&& event is Bytes || event is Quiet ==> next.action == (if due {
                LinkAction::PollBands
            } else {
                LinkAction::Receive
            })
            &&& event is NoMessage ==> next.action == LinkAction::Read
            &&& event == (LinkEvent::Resolved { ok: true }) ==> next.action == LinkAction::Open
            &&& event == (LinkEvent::Written { ok: true }) ==> next.action == (
            if m.action is WriteBands {
                LinkAction::Receive
            } else {
                LinkAction::Read
            })
            &&& !(event is Bytes) && !(event is Written) ==> next.pending == m.pending
            &&& !(event is Written) ==> next.sent == m.sent && next.sent_at == m.sent_at
            &&& m.action == LinkAction::WriteMessage || event == (LinkEvent::Written { ok: false })
                ==> next.pending == m.pending && next.sent == m.sent && next.sent_at == m.sent_at
            &&& m.action is WriteBands ==> next.pending == m.pending
        }),
{
}

/// A port belongs to the device by its USB numbers, vendor CB00 and product
/// 1337; the first such port of a list is the one that has none before it.
pub proof fn lemma_ports(list: Seq<PortInfo>, i: int, j: int)
    requires
        0 <= i < list.len(),
        0 <= j < list.len(),
    ensures
        port_matches(list[i]) <==> list[i].usb == Some((0xCB00u16, 0x1337u16)),
        first_match(list, i) && first_match(list, j) ==> i == j,
        first_match(list, i) && list[j].usb == Some((0xCB00u16, 0x1337u16)) ==> i <= j,
        first_match(list, i) ==> list[i].usb == Some((0xCB00u16, 0x1337u16)),
{
}

/// Reads join up: what two reads in a row receive is what one read of the bytes
/// of both would have, and they leave the same bytes waiting.
pub proof fn lemma_reads_join_up(
    m: LinkModel,
    a: Vec<u8>,
    b: Vec<u8>,
    both: Vec<u8>,
    earlier: u64,
    later: u64,
)
    requires
        both@ == a@ + b@,
    ensures
        ({
            let first = link_next(m, LinkEvent::Bytes { bytes: a }, earlier);
            let second = link_next(first, LinkEvent::Bytes { bytes: b }, later);
            &&& link_yield(m, LinkEvent::Bytes { bytes: a }).received + link_yield(
                first,
                LinkEvent::Bytes { bytes: b },
            ).received == link_yield(m, LinkEvent::Bytes { bytes: both }).received
            &&& second.pending == link_next(m, LinkEvent::Bytes { bytes: both }, later).pending
        }),
{
    lemma_reads_join(m.pending, a@, b@);
    lemma_deframed_concat(m.pending, a@, b@);
}

/// A frame split over two reads is heard with the second: bytes without a
/// delimiter wait, and the delimiter hands out the message of all of them.
pub proof fn lemma_split_frames_are_heard(m: LinkModel, bytes: Vec<u8>, end: Vec<u8>, now: u64)
    requires
        m.pending == Seq::<u8>::empty(),
        1 <= bytes@.len() <= 256,
        forall|i: int| 0 <= i < bytes@.len() ==> bytes@[i] != 0,
        end@ == seq![0u8],
    ensures
        ({
            let read = link_next(m, LinkEvent::Bytes { bytes }, now);
            let received = link_yield(read, LinkEvent::Bytes { bytes: end }).received;
            &&& read.pending == bytes@
            &&& link_yield(m, LinkEvent::Bytes { bytes }).received == Seq::<DeviceNotice>::empty()
            &&& device_frame_message(bytes@) is Some ==> received.len() == 1 && received[0]
                == notice(device_frame_message(bytes@).unwrap())
            &&& device_frame_message(bytes@) is None ==> received == Seq::<DeviceNotice>::empty()
            &&& link_next(read, LinkEvent::Bytes { bytes: end }, now).pending == Seq::<u8>::empty()
        }),
{
    let none = Seq::<Seq<u8>>::empty();
    let empty = Seq::<u8>::empty();
    lemma_bytes_are_kept(empty, bytes@);
    assert(empty + bytes@ =~= bytes@);
    lemma_delimited_run_comes_out(bytes@);
    assert(bytes@.push(0) =~= bytes@ + end@);
    lemma_deframed_concat(empty, bytes@, end@);
    assert(none + deframed(bytes@, end@).1 =~= deframed(bytes@, end@).1);
    lemma_frames_count_one_by_one(none, bytes@);
    assert(none.push(bytes@) =~= seq![bytes@]);
    assert(notices(device_accepted(none)) =~= Seq::<DeviceNotice>::empty());
}

/// The times of the link: spectra at least 15 ms apart, retries after 2 s, waits
/// of at most 10 ms for bytes and 5 ms for messages.
pub proof fn lemma_link_times()
    ensures
        VIZ_MIN_INTERVAL_US == 15_000,
        RETRY_DELAY_US == 2_000_000,
        READ_TIMEOUT_US == 10_000,
        RECEIVE_TIMEOUT_US == 5_000,
{
}

} // verus!
