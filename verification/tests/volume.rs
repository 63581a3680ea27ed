use oxcb_media::proto::HostToDevice;
use oxcb_media::volume::{is_white, manual_volume, volume_fields, VolumeWatch};

fn fields(text: &str) -> Option<(String, bool)> {
    volume_fields(text)
}

#[test]
fn mixer_answers_are_read() {
    assert_eq!(fields("Volume: 0.47\n"), Some(("0.47".to_string(), false)));
    assert_eq!(fields("Volume: 0.47 [MUTED]\n"), Some(("0.47".to_string(), true)));
    assert_eq!(fields("  a\t\tb c"), Some(("b".to_string(), false)));
}

#[test]
fn answers_without_a_level_are_none() {
    assert_eq!(fields(""), None);
    assert_eq!(fields("  \n"), None);
    assert_eq!(fields("Volume:"), None);
    assert_eq!(fields("Volume:  \n"), None);
}

#[test]
fn the_mute_mark_may_stand_anywhere() {
    assert_eq!(fields("x[MUTED] 1"), Some(("1".to_string(), true)));
    assert_eq!(fields("x 1 [MUTED"), Some(("1".to_string(), false)));
    assert_eq!(fields("x [[MUTED]]"), Some(("[[MUTED]]".to_string(), true)));
    assert_eq!(fields("x 1 [muted]"), Some(("1".to_string(), false)));
}

#[test]
fn words_are_those_of_split_whitespace() {
    let texts = ["a\u{a0}b", "\u{3000}x\u{2003}yé z", "é ü", "a\u{200b}b c", "one two\u{85}three"];
    for text in texts {
        let second = text.split_whitespace().nth(1).map(|w| w.to_string());
        assert_eq!(fields(text).map(|f| f.0), second, "{:?}", text);
    }
}

#[test]
fn white_space_is_that_of_std() {
    for n in 0..=0x10FFFFu32 {
        if let Some(c) = char::from_u32(n) {
            assert_eq!(is_white(c), c.is_whitespace(), "{:#x}", n);
        }
    }
}

#[test]
fn only_changes_are_reported() {
    let mut watch = VolumeWatch::new();
    assert_eq!(watch.observe(None), None);
    assert_eq!(
        watch.observe(Some((50, false))),
        Some(HostToDevice::Volume { level: 50, muted: false })
    );
    assert_eq!(watch.observe(Some((50, false))), None);
    assert_eq!(watch.observe(None), None);
    assert_eq!(watch.observe(Some((50, false))), None);
    assert_eq!(
        watch.observe(Some((50, true))),
        Some(HostToDevice::Volume { level: 50, muted: true })
    );
    assert_eq!(
        watch.observe(Some((51, true))),
        Some(HostToDevice::Volume { level: 51, muted: true })
    );
}

#[test]
fn an_undelivered_change_is_reported_again() {
    let mut watch = VolumeWatch::new();
    watch.observe(Some((50, false)));
    watch.settle(None, true);
    assert_eq!(watch.observe(Some((50, false))), None);
    let before = watch.last;
    let msg = watch.observe(Some((60, false)));
    assert_eq!(msg, Some(HostToDevice::Volume { level: 60, muted: false }));
    watch.settle(before, false);
    assert_eq!(watch.observe(Some((60, false))), msg);
    watch.settle(before, false);
    assert_eq!(watch.observe(Some((50, false))), None);
}

#[test]
fn manual_volume_is_capped() {
    assert_eq!(manual_volume(47), HostToDevice::Volume { level: 47, muted: false });
    assert_eq!(manual_volume(100), HostToDevice::Volume { level: 100, muted: false });
    assert_eq!(manual_volume(101), HostToDevice::Volume { level: 100, muted: false });
    assert_eq!(manual_volume(255), HostToDevice::Volume { level: 100, muted: false });
}
