use oxcb_media::link::{
    handle_device_message, ingest_device_frames, resolve_device, wants_scan, DeviceNotice, Link,
    LinkAction, LinkEvent, PortInfo, ResolveError,
};
use oxcb_media::proto::{DeviceToHost, HostToDevice, PROTO_VERSION};
use oxcb_media::wire::Deframer;

fn port(name: &str, usb: Option<(u16, u16)>) -> PortInfo {
    PortInfo { name: name.to_string(), usb }
}

#[test]
fn explicit_devices_are_taken_as_they_are() {
    assert_eq!(resolve_device("/dev/ttyACM0", &None), Ok("/dev/ttyACM0".to_string()));
    assert_eq!(resolve_device("", &Some(vec![])), Ok(String::new()));
    assert_eq!(resolve_device("AUTO", &None), Ok("AUTO".to_string()));
    assert!(wants_scan("auto"));
    assert!(!wants_scan("auto "));
}

#[test]
fn a_scan_picks_the_first_match() {
    let ports = Some(vec![
        port("a", None),
        port("b", Some((0xCB00, 0x1338))),
        port("c", Some((0xCB01, 0x1337))),
        port("d", Some((0xCB00, 0x1337))),
        port("e", Some((0xCB00, 0x1337))),
    ]);
    assert_eq!(resolve_device("auto", &ports), Ok("d".to_string()));
}

#[test]
fn a_scan_can_fail_or_find_nothing() {
    assert_eq!(resolve_device("auto", &None), Err(ResolveError::ScanFailed));
    assert_eq!(resolve_device("auto", &Some(vec![])), Err(ResolveError::NoDevice));
    let others = Some(vec![port("a", None), port("b", Some((0x1337, 0xCB00)))]);
    assert_eq!(resolve_device("auto", &others), Err(ResolveError::NoDevice));
}

#[test]
fn device_messages_are_classified() {
    assert_eq!(handle_device_message(DeviceToHost::EncoderClick), DeviceNotice::EncoderClick);
    assert_eq!(handle_device_message(DeviceToHost::Pong), DeviceNotice::Pong);
    assert_eq!(
        handle_device_message(DeviceToHost::Hello { proto_version: PROTO_VERSION }),
        DeviceNotice::VersionAgrees
    );
    assert_eq!(
        handle_device_message(DeviceToHost::Hello { proto_version: PROTO_VERSION + 1 }),
        DeviceNotice::VersionDiffers { device: PROTO_VERSION + 1 }
    );
}

#[test]
fn device_bytes_become_notices() {
    let mut stream = DeviceToHost::Pong.to_frame();
    stream.extend([9, 0]);
    stream.extend(DeviceToHost::EncoderClick.to_frame());
    let want = vec![DeviceNotice::Pong, DeviceNotice::EncoderClick];
    for size in [1, 2, 64] {
        let mut rx = Deframer::new();
        let mut got = Vec::new();
        for chunk in stream.chunks(size) {
            got.extend(ingest_device_frames(&mut rx, chunk));
        }
        assert_eq!(got, want);
    }
}

#[test]
fn oversized_device_frames_say_nothing() {
    let mut stream = vec![5u8; 257];
    stream.extend([2, 1, 0]);
    stream.extend(DeviceToHost::Pong.to_frame());
    let mut rx = Deframer::new();
    assert_eq!(ingest_device_frames(&mut rx, &stream), vec![DeviceNotice::Pong]);
}

/// A link that is up and about to read for the first time.
fn connected() -> Link {
    let mut link = Link::new();
    assert_eq!(link.action(), LinkAction::Resolve);
    link.step(LinkEvent::Resolved { ok: true }, 0);
    assert_eq!(link.action(), LinkAction::Open);
    let out = link.step(LinkEvent::Opened { ok: true }, 0);
    assert_eq!(link.action(), LinkAction::WriteHello);
    assert_eq!(out.frame, HostToDevice::Hello { proto_version: PROTO_VERSION }.to_frame());
    let out = link.step(LinkEvent::Written { ok: true }, 0);
    assert!(out.frame.is_empty());
    assert_eq!(link.action(), LinkAction::Read);
    link
}

#[test]
fn failures_to_connect_are_retried_after_a_pause() {
    let mut link = Link::new();
    link.step(LinkEvent::Resolved { ok: false }, 0);
    assert_eq!(link.action(), LinkAction::Sleep);
    link.step(LinkEvent::Slept, 0);
    assert_eq!(link.action(), LinkAction::Resolve);
    link.step(LinkEvent::Resolved { ok: true }, 0);
    link.step(LinkEvent::Opened { ok: false }, 0);
    assert_eq!(link.action(), LinkAction::Sleep);
}

#[test]
fn a_lost_connection_is_reopened_at_once() {
    let mut link = connected();
    link.step(LinkEvent::ReadFailed, 0);
    assert_eq!(link.action(), LinkAction::Resolve);

    let mut link = Link::new();
    link.step(LinkEvent::Resolved { ok: true }, 0);
    link.step(LinkEvent::Opened { ok: true }, 0);
    link.step(LinkEvent::Written { ok: false }, 0);
    assert_eq!(link.action(), LinkAction::Resolve);

    let mut link = connected();
    link.step(LinkEvent::Quiet, 0);
    link.step(LinkEvent::Bands { latest: Some([1; 8]) }, 0);
    link.step(LinkEvent::Written { ok: false }, 0);
    assert_eq!(link.action(), LinkAction::Resolve);

    let mut link = connected();
    link.step(LinkEvent::Quiet, 0);
    link.step(LinkEvent::Bands { latest: None }, 0);
    link.step(LinkEvent::Message { msg: HostToDevice::Ping }, 0);
    link.step(LinkEvent::Written { ok: false }, 0);
    assert_eq!(link.action(), LinkAction::Resolve);
}

#[test]
fn queued_messages_go_out() {
    let mut link = connected();
    link.step(LinkEvent::Quiet, 0);
    assert_eq!(link.action(), LinkAction::PollBands);
    link.step(LinkEvent::Bands { latest: None }, 0);
    assert_eq!(link.action(), LinkAction::Receive);
    let out = link.step(LinkEvent::Message { msg: HostToDevice::Ping }, 0);
    assert_eq!(out.frame, vec![2, 1, 0]);
    assert_eq!(link.action(), LinkAction::WriteMessage);
    link.step(LinkEvent::Written { ok: true }, 0);
    assert_eq!(link.action(), LinkAction::Read);
}

#[test]
fn the_link_ends_with_its_senders() {
    let mut link = connected();
    link.step(LinkEvent::Quiet, 0);
    link.step(LinkEvent::Bands { latest: None }, 0);
    link.step(LinkEvent::Closed, 0);
    assert_eq!(link.action(), LinkAction::Stop);
}

#[test]
fn spectra_are_paced_and_not_repeated() {
    let mut link = connected();
    let bands = [3u8; 8];
    link.step(LinkEvent::Quiet, 1_000);
    let out = link.step(LinkEvent::Bands { latest: Some(bands) }, 1_000);
    assert_eq!(out.frame, HostToDevice::Visualizer { bands }.to_frame());
    assert_eq!(link.action(), LinkAction::WriteBands { bands });
    link.step(LinkEvent::Written { ok: true }, 2_000);
    assert_eq!(link.action(), LinkAction::Receive);
    link.step(LinkEvent::NoMessage, 2_000);
    assert_eq!(link.action(), LinkAction::Read);
    link.step(LinkEvent::Quiet, 16_999);
    assert_eq!(link.action(), LinkAction::Receive);
    link.step(LinkEvent::NoMessage, 16_999);
    link.step(LinkEvent::Quiet, 17_000);
    assert_eq!(link.action(), LinkAction::PollBands);
    let out = link.step(LinkEvent::Bands { latest: Some(bands) }, 17_000);
    assert!(out.frame.is_empty());
    assert_eq!(link.action(), LinkAction::Receive);
    link.step(LinkEvent::NoMessage, 17_000);
    link.step(LinkEvent::Quiet, 17_001);
    link.step(LinkEvent::Bands { latest: Some([4; 8]) }, 17_001);
    assert_eq!(link.action(), LinkAction::WriteBands { bands: [4; 8] });
}

#[test]
fn a_new_connection_forgets_the_old_one() {
    let mut link = connected();
    link.step(LinkEvent::Bytes { bytes: vec![2] }, 0);
    link.step(LinkEvent::Bands { latest: Some([7; 8]) }, 0);
    link.step(LinkEvent::Written { ok: true }, 0);
    link.step(LinkEvent::NoMessage, 0);
    link.step(LinkEvent::ReadFailed, 0);
    link.step(LinkEvent::Resolved { ok: true }, 0);
    link.step(LinkEvent::Opened { ok: true }, 0);
    link.step(LinkEvent::Written { ok: true }, 0);
    let out = link.step(LinkEvent::Bytes { bytes: vec![2, 1, 0] }, 0);
    assert_eq!(out.received, vec![DeviceNotice::EncoderClick]);
    assert_eq!(link.action(), LinkAction::PollBands);
    link.step(LinkEvent::Bands { latest: Some([7; 8]) }, 0);
    assert_eq!(link.action(), LinkAction::WriteBands { bands: [7; 8] });
}

#[test]
fn frames_may_span_reads() {
    let mut link = connected();
    let frame = DeviceToHost::Hello { proto_version: PROTO_VERSION }.to_frame();
    let (head, tail) = frame.split_at(2);
    let out = link.step(LinkEvent::Bytes { bytes: head.to_vec() }, 0);
    assert!(out.received.is_empty());
    link.step(LinkEvent::Bands { latest: None }, 0);
    link.step(LinkEvent::NoMessage, 0);
    let out = link.step(LinkEvent::Bytes { bytes: tail.to_vec() }, 0);
    assert_eq!(out.received, vec![DeviceNotice::VersionAgrees]);
}
