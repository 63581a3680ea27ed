use oxcb_media::state::{DisplayState, GlowViz, HueMode, OledViz};
use oxcb_media::storage::{
    load, restore, save, Settings, SettingsError, FLASH_SIZE, SCHEMA_VERSION,
};

#[test]
fn records_are_four_bytes() {
    let s = Settings::new(OledViz::Dots, GlowViz::Bass, HueMode::Static);
    let mut buf = [9u8; 6];
    assert_eq!(s.serialize_into(&mut buf), Ok(4));
    assert_eq!(buf, [1, 2, 2, 0, 9, 9]);
    assert_eq!(FLASH_SIZE, 4 * 1024 * 1024);
    assert_eq!(SCHEMA_VERSION, 1);
}

#[test]
fn records_are_those_of_postcard() {
    let s = Settings::new(OledViz::Particles, GlowViz::Off, HueMode::Static);
    let mut mine = [0u8; 16];
    let mut theirs = [0u8; 16];
    let n = s.serialize_into(&mut mine).unwrap();
    let used = postcard::to_slice(&(1u8, 7u32, 3u32, 0u32), &mut theirs).unwrap();
    assert_eq!(mine[..n], *used);
}

#[test]
fn small_buffers_are_refused() {
    let s = Settings::default();
    for len in 0..4 {
        let mut buf = vec![0u8; len];
        assert_eq!(s.serialize_into(&mut buf), Err(SettingsError::BufferTooSmall));
    }
    assert_eq!(s.serialize_into(&mut [0u8; 4]), Ok(4));
}

#[test]
fn records_read_back() {
    for oled in 0..8 {
        for glow in 0..4 {
            let s = Settings::new(
                OledViz::from_variant(oled).unwrap(),
                GlowViz::from_variant(glow).unwrap(),
                HueMode::Static,
            );
            let mut buf = [0xFFu8; 10];
            s.serialize_into(&mut buf).unwrap();
            assert_eq!(Settings::deserialize_from(&buf), Ok(s));
        }
    }
}

#[test]
fn bytes_that_are_no_record_are_refused() {
    let bad: [&[u8]; 7] = [&[], &[1], &[1, 0], &[1, 0, 0], &[1, 8, 0, 0], &[1, 0, 4, 0], &[1, 0, 0, 1]];
    for bytes in bad {
        assert_eq!(Settings::deserialize_from(bytes), Err(SettingsError::InvalidFormat));
    }
    let padded = Settings::deserialize_from(&[1, 0x81, 0x00, 0, 0]).unwrap();
    assert_eq!(padded.oled_viz, OledViz::Mirror);
}

#[test]
fn other_schemas_fall_back_to_defaults() {
    let mut s = Settings::new(OledViz::Dots, GlowViz::Vu, HueMode::Static);
    assert_eq!(load(Some(s)), s);
    s.version = 2;
    assert_eq!(load(Some(s)), Settings::default());
    s.version = 0;
    assert_eq!(load(Some(s)), Settings::default());
    assert_eq!(load(None), Settings::default());
    assert_eq!(
        Settings::default(),
        Settings::new(OledViz::Bars, GlowViz::Spec, HueMode::Static)
    );
}

#[test]
fn choices_survive_a_power_cycle() {
    let mut before = DisplayState::new();
    before.oled_viz = OledViz::Off;
    before.glow_viz = GlowViz::Bass;
    let mut flash = [0u8; 128];
    save(&before).serialize_into(&mut flash).unwrap();
    let stored = Settings::deserialize_from(&flash).ok();
    let mut after = DisplayState::new();
    restore(&mut after, &load(stored));
    assert_eq!(after.oled_viz, OledViz::Off);
    assert_eq!(after.glow_viz, GlowViz::Bass);
    assert_eq!(after.hue_mode, HueMode::Static);
}
