use oxcb_media::proto::{DeviceToHost, HostToDevice, PROTO_VERSION};
use oxcb_media::state::{ConsumerKey, DisplayState, HostReaction, LedCommand};
use oxcb_media::usb::{
    cdc_rx_packet, press_report, release_report, Disconnected, EndpointFault,
    CONSUMER_REPORT_DESCRIPTOR,
};
use oxcb_media::wire::Deframer;

#[test]
fn report_descriptor_is_one_collection() {
    assert_eq!(CONSUMER_REPORT_DESCRIPTOR.len(), 26);
    assert_eq!(CONSUMER_REPORT_DESCRIPTOR[..4], [0x05, 0x0C, 0x09, 0x01]);
    assert_eq!(CONSUMER_REPORT_DESCRIPTOR[25], 0xC0);
}

#[test]
fn reports_hold_the_usage() {
    assert_eq!(press_report(ConsumerKey::Mute), [1, 0xE2, 0]);
    assert_eq!(press_report(ConsumerKey::VolumeUp), [1, 0xE9, 0]);
    assert_eq!(press_report(ConsumerKey::VolumeDown), [1, 0xEA, 0]);
    assert_eq!(press_report(ConsumerKey::PlayPause), [1, 0xCD, 0]);
    assert_eq!(press_report(ConsumerKey::Stop), [1, 0xB7, 0]);
    assert_eq!(press_report(ConsumerKey::NextTrack), [1, 0xB5, 0]);
    assert_eq!(press_report(ConsumerKey::PrevTrack), [1, 0xB6, 0]);
    assert_eq!(release_report(), [1, 0, 0]);
}

#[test]
fn packets_are_applied_in_order() {
    let mut stream = HostToDevice::Volume { level: 30, muted: true }.to_frame();
    stream.extend([5, 5, 0]);
    stream.extend(HostToDevice::Volume { level: 31, muted: true }.to_frame());
    stream.extend(HostToDevice::Hello { proto_version: 200 }.to_frame());
    for size in [1, 3, 64] {
        let mut rx = Deframer::new();
        let mut s = DisplayState::new();
        let mut out = Vec::new();
        for packet in stream.chunks(size) {
            out.extend(cdc_rx_packet(&mut rx, &mut s, packet, 42));
        }
        assert_eq!(
            out,
            vec![
                HostReaction { led: Some(LedCommand::Muted), reply: None },
                HostReaction { led: Some(LedCommand::VolumeChanged), reply: None },
                HostReaction {
                    led: None,
                    reply: Some(DeviceToHost::Hello { proto_version: PROTO_VERSION }),
                },
            ]
        );
        assert_eq!(s.volume.level, 31);
        assert_eq!(s.last_message, 42);
    }
}

#[test]
fn a_malformed_packet_changes_nothing() {
    let mut rx = Deframer::new();
    let mut s = DisplayState::new();
    let before = s;
    assert!(cdc_rx_packet(&mut rx, &mut s, &[3, 0, 2, 99, 0, 0], 42).is_empty());
    assert_eq!(s, before);
}

#[test]
fn an_oversized_frame_changes_nothing() {
    let mut rx = Deframer::new();
    let mut s = DisplayState::new();
    let before = s;
    let mut stream = vec![7u8; 300];
    stream.extend(HostToDevice::Ping.to_frame());
    for packet in stream.chunks(64) {
        assert!(cdc_rx_packet(&mut rx, &mut s, packet, 42).is_empty());
    }
    assert_eq!(s, before);
    assert_eq!(cdc_rx_packet(&mut rx, &mut s, &HostToDevice::Ping.to_frame(), 43).len(), 1);
}

#[test]
fn a_disabled_endpoint_is_a_lost_link() {
    assert_eq!(Disconnected::from(EndpointFault::Disabled), Disconnected);
}
