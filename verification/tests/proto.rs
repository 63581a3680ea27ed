use oxcb_media::proto::{
    receive_device, receive_host, DeviceToHost, HostToDevice, MAX_FRAME_LEN, PROTO_VERSION,
};
use oxcb_media::wire::Deframer;

fn host_messages() -> Vec<HostToDevice> {
    vec![
        HostToDevice::Volume { level: 0, muted: false },
        HostToDevice::Volume { level: 47, muted: true },
        HostToDevice::Volume { level: 255, muted: false },
        HostToDevice::Ping,
        HostToDevice::Visualizer { bands: [0; 8] },
        HostToDevice::Visualizer { bands: [255, 0, 1, 0, 2, 128, 0, 9] },
        HostToDevice::Hello { proto_version: PROTO_VERSION },
        HostToDevice::Hello { proto_version: 0 },
    ]
}

fn device_messages() -> Vec<DeviceToHost> {
    vec![
        DeviceToHost::Pong,
        DeviceToHost::EncoderClick,
        DeviceToHost::Hello { proto_version: PROTO_VERSION },
        DeviceToHost::Hello { proto_version: 0 },
    ]
}

#[test]
fn ping_frame_bytes() {
    assert_eq!(HostToDevice::Ping.to_frame(), vec![2, 1, 0]);
}

#[test]
fn volume_frame_bytes() {
    let msg = HostToDevice::Volume { level: 47, muted: false };
    assert_eq!(msg.to_payload(), vec![0, 47, 0]);
    assert_eq!(msg.to_frame(), vec![1, 2, 47, 1, 0]);
}

#[test]
fn payloads_start_with_the_variant() {
    let bands = [1, 2, 3, 4, 5, 6, 7, 8];
    assert_eq!(HostToDevice::Visualizer { bands }.to_payload(), vec![2, 1, 2, 3, 4, 5, 6, 7, 8]);
    assert_eq!(HostToDevice::Hello { proto_version: 9 }.to_payload(), vec![3, 9]);
    assert_eq!(DeviceToHost::Pong.to_payload(), vec![0]);
    assert_eq!(DeviceToHost::EncoderClick.to_payload(), vec![1]);
    assert_eq!(DeviceToHost::Hello { proto_version: 9 }.to_payload(), vec![2, 9]);
}

#[test]
fn host_frames_are_those_of_postcard() {
    let mut buf = [0u8; 256];
    for msg in host_messages() {
        let mine = msg.to_frame();
        let theirs = match msg {
            HostToDevice::Volume { level, muted } => {
                postcard::to_slice_cobs(&(0u32, level, muted), &mut buf)
            }
            HostToDevice::Ping => postcard::to_slice_cobs(&1u32, &mut buf),
            HostToDevice::Visualizer { bands } => {
                postcard::to_slice_cobs(&(2u32, bands), &mut buf)
            }
            HostToDevice::Hello { proto_version } => {
                postcard::to_slice_cobs(&(3u32, proto_version), &mut buf)
            }
        };
        assert_eq!(mine, theirs.unwrap().to_vec());
        assert!(mine.len() <= MAX_FRAME_LEN);
    }
}

#[test]
fn device_frames_are_read_back_by_postcard() {
    for msg in device_messages() {
        let mut frame = msg.to_frame();
        match msg {
            DeviceToHost::Pong => {
                assert_eq!(postcard::from_bytes_cobs::<u32>(&mut frame), Ok(0));
            }
            DeviceToHost::EncoderClick => {
                assert_eq!(postcard::from_bytes_cobs::<u32>(&mut frame), Ok(1));
            }
            DeviceToHost::Hello { proto_version } => {
                assert_eq!(
                    postcard::from_bytes_cobs::<(u32, u8)>(&mut frame),
                    Ok((2, proto_version))
                );
            }
        }
    }
}

#[test]
fn messages_round_trip() {
    for msg in host_messages() {
        let frame = msg.to_frame();
        assert_eq!(HostToDevice::from_frame(&frame[..frame.len() - 1]), Some(msg));
        assert_eq!(HostToDevice::from_payload(&msg.to_payload()), Some(msg));
    }
    for msg in device_messages() {
        let frame = msg.to_frame();
        assert_eq!(DeviceToHost::from_frame(&frame[..frame.len() - 1]), Some(msg));
        assert_eq!(DeviceToHost::from_payload(&msg.to_payload()), Some(msg));
    }
}

#[test]
fn malformed_payloads_are_rejected() {
    assert_eq!(HostToDevice::from_payload(&[]), None);
    assert_eq!(HostToDevice::from_payload(&[4]), None);
    assert_eq!(HostToDevice::from_payload(&[0, 47]), None);
    assert_eq!(HostToDevice::from_payload(&[0, 47, 2]), None);
    assert_eq!(HostToDevice::from_payload(&[2, 1, 2, 3, 4, 5, 6, 7]), None);
    assert_eq!(HostToDevice::from_payload(&[3]), None);
    assert_eq!(DeviceToHost::from_payload(&[]), None);
    assert_eq!(DeviceToHost::from_payload(&[3]), None);
    assert_eq!(DeviceToHost::from_payload(&[2]), None);
    assert_eq!(HostToDevice::from_frame(&[]), None);
    assert_eq!(HostToDevice::from_frame(&[9, 1]), None);
}

#[test]
fn bytes_behind_a_message_are_ignored() {
    assert_eq!(HostToDevice::from_payload(&[1, 77]), Some(HostToDevice::Ping));
    assert_eq!(DeviceToHost::from_payload(&[0, 77, 8]), Some(DeviceToHost::Pong));
}

#[test]
fn variants_may_be_spelled_with_padding() {
    assert_eq!(HostToDevice::from_payload(&[0x81, 0x00]), Some(HostToDevice::Ping));
    assert_eq!(HostToDevice::from_payload(&[0x81, 0x80, 0x80, 0x80, 0x00]), Some(HostToDevice::Ping));
    assert_eq!(HostToDevice::from_payload(&[0x81, 0x80, 0x80, 0x80, 0x80, 0x00]), None);
    assert_eq!(HostToDevice::from_payload(&[0x81]), None);
}

#[test]
fn integers_are_read_as_postcard_reads_them() {
    let inputs: [&[u8]; 9] = [
        &[],
        &[0x80],
        &[0x7F, 1],
        &[0x80, 0x01],
        &[0xFF, 0xFF, 0xFF, 0xFF, 0x0F],
        &[0xFF, 0xFF, 0xFF, 0xFF, 0x10],
        &[0xFF, 0xFF, 0xFF, 0xFF, 0xFF, 0x01],
        &[0x82, 0x80, 0x80, 0x80, 0x00],
        &[0x83, 0x00, 5],
    ];
    for payload in inputs {
        let mine = HostToDevice::from_payload(payload);
        let theirs = match postcard::take_from_bytes::<u32>(payload) {
            Ok((1, _)) => Some(HostToDevice::Ping),
            Ok((3, [v, ..])) => Some(HostToDevice::Hello { proto_version: *v }),
            _ => None,
        };
        assert_eq!(mine, theirs, "{:?}", payload);
    }
}

#[test]
fn a_stream_yields_its_messages_however_it_is_cut() {
    let msgs = host_messages();
    let stream: Vec<u8> = msgs.iter().flat_map(|m| m.to_frame()).collect();
    for size in [1, 2, 3, 7, 64, 1000] {
        let mut rx = Deframer::new();
        let mut got = Vec::new();
        for chunk in stream.chunks(size) {
            got.extend(receive_host(&mut rx, chunk));
        }
        assert_eq!(got, msgs);
    }
}

#[test]
fn bad_frames_in_a_stream_are_skipped() {
    let mut rx = Deframer::new();
    let mut stream = vec![0, 9, 9, 0];
    stream.extend(DeviceToHost::EncoderClick.to_frame());
    stream.extend([2, 77, 0]);
    stream.extend(DeviceToHost::Pong.to_frame());
    assert_eq!(
        receive_device(&mut rx, &stream),
        vec![DeviceToHost::EncoderClick, DeviceToHost::Pong]
    );
}
