use oxcb_media::proto::{DeviceToHost, HostToDevice, PROTO_VERSION};
use oxcb_media::state::{
    apply_encoder_step, apply_host_message, cycle, ConsumerKey, DisplayState, GlowViz, HueMode,
    LedCommand, MenuView, OledViz, Selector, VolumeInfo, MENU_ITEM_COUNT,
};

#[test]
fn usage_codes() {
    assert_eq!(ConsumerKey::Mute.usage(), 0x00E2);
    assert_eq!(ConsumerKey::VolumeUp.usage(), 0x00E9);
    assert_eq!(ConsumerKey::VolumeDown.usage(), 0x00EA);
    assert_eq!(ConsumerKey::PlayPause.usage(), 0x00CD);
    assert_eq!(ConsumerKey::Stop.usage(), 0x00B7);
    assert_eq!(ConsumerKey::NextTrack.usage(), 0x00B5);
    assert_eq!(ConsumerKey::PrevTrack.usage(), 0x00B6);
}

#[test]
fn labels_of_the_screen_styles() {
    let short: Vec<&str> = OledViz::ALL.iter().map(|v| v.label()).collect();
    assert_eq!(short, vec!["bars", "mirr", "dots", "off"]);
    let long: Vec<&str> = OledViz::ALL.iter().map(|v| v.long_label()).collect();
    assert_eq!(long, vec!["bars", "mirror", "dots", "off"]);
}

#[test]
fn labels_of_the_ring_styles() {
    let short: Vec<&str> = GlowViz::ALL.iter().map(|v| v.label()).collect();
    assert_eq!(short, vec!["spec", "vu", "bass", "off"]);
    let long: Vec<&str> = GlowViz::ALL.iter().map(|v| v.long_label()).collect();
    assert_eq!(long, vec!["spectrum", "vu", "bass", "off"]);
}

#[test]
fn short_labels_fit_their_column() {
    for n in 0..8 {
        let viz = OledViz::from_variant(n).unwrap();
        assert_eq!(viz.variant() as u32, n);
        assert!(viz.label().len() <= 4);
        assert!(viz.long_label().starts_with(viz.label()));
    }
    assert!(OledViz::from_variant(8).is_none());
    for n in 0..4 {
        let viz = GlowViz::from_variant(n).unwrap();
        assert_eq!(viz.variant() as u32, n);
        assert!(viz.long_label().starts_with(viz.label()));
    }
    assert!(GlowViz::from_variant(4).is_none());
    assert_eq!(HueMode::from_variant(0), Some(HueMode::Static));
    assert!(HueMode::from_variant(1).is_none());
}

#[test]
fn styles_cycle_in_both_directions() {
    assert_eq!(OledViz::Bars.next(), OledViz::Mirror);
    assert_eq!(OledViz::Off.next(), OledViz::Bars);
    assert_eq!(OledViz::Bars.prev(), OledViz::Off);
    assert_eq!(GlowViz::Spec.next(), GlowViz::Vu);
    assert_eq!(GlowViz::Off.next(), GlowViz::Spec);
    assert_eq!(GlowViz::Spec.prev(), GlowViz::Off);
    assert_eq!(HueMode::Static.next(), HueMode::Static);
    assert_eq!(HueMode::Static.prev(), HueMode::Static);
    for viz in OledViz::ALL {
        assert_eq!(viz.next().prev(), viz);
        assert_eq!(viz.next().next().next().next(), viz);
    }
    for viz in GlowViz::ALL {
        assert_eq!(viz.prev().next(), viz);
    }
}

#[test]
fn a_style_outside_the_menu_steps_to_its_first_row() {
    assert_eq!(OledViz::Waterfall.next(), OledViz::Bars);
    assert_eq!(OledViz::Particles.prev(), OledViz::Bars);
}

#[test]
fn cycle_wraps_around() {
    let all = [10, 20, 30];
    assert_eq!(cycle(&all, 10, 1), 20);
    assert_eq!(cycle(&all, 30, 1), 10);
    assert_eq!(cycle(&all, 10, -1), 30);
    assert_eq!(cycle(&all, 20, 4), 30);
    assert_eq!(cycle(&all, 20, -5), 30);
    assert_eq!(cycle(&all, 20, 0), 20);
    assert_eq!(cycle(&all, 99, 1), 10);
}

#[test]
fn a_fresh_device_knows_nothing() {
    let s = DisplayState::new();
    assert_eq!(s.volume, VolumeInfo { level: 0, muted: false });
    assert_eq!(s.bands, [0; 8]);
    assert_eq!(s.oled_viz, OledViz::Bars);
    assert_eq!(s.glow_viz, GlowViz::Spec);
    assert_eq!(s.menu, MenuView::Closed);
    assert!(!s.connected(1_000));
    assert!(!s.bands_fresh(1_000));
    assert!(!s.oled_viz_active(1_000));
    assert!(!s.glow_viz_active(1_000));
    assert!(!s.menu_open());
}

#[test]
fn any_message_keeps_the_link_alive_for_five_seconds() {
    let mut s = DisplayState::new();
    let r = apply_host_message(&mut s, HostToDevice::Ping, 1_000);
    assert_eq!(r.led, None);
    assert_eq!(r.reply, None);
    assert!(s.connected(1_000));
    assert!(s.connected(5_000_999));
    assert!(!s.connected(5_001_000));
    assert!(!s.bands_fresh(1_000));
}

#[test]
fn bands_are_fresh_for_half_a_second() {
    let mut s = DisplayState::new();
    let bands = [1, 2, 3, 4, 5, 6, 7, 8];
    apply_host_message(&mut s, HostToDevice::Visualizer { bands }, 1_000);
    assert_eq!(s.bands, bands);
    assert!(s.bands_fresh(500_999));
    assert!(s.oled_viz_active(500_999));
    assert!(s.glow_viz_active(500_999));
    assert!(!s.bands_fresh(501_000));
    assert!(s.connected(501_000));
    s.oled_viz = OledViz::Off;
    assert!(!s.oled_viz_active(1_000));
    assert!(s.glow_viz_active(1_000));
    s.glow_viz = GlowViz::Off;
    assert!(!s.glow_viz_active(1_000));
}

#[test]
fn volume_messages_light_the_ring() {
    let mut s = DisplayState::new();
    let on = HostToDevice::Volume { level: 40, muted: true };
    let off = HostToDevice::Volume { level: 41, muted: false };
    assert_eq!(apply_host_message(&mut s, on, 1).led, Some(LedCommand::Muted));
    assert_eq!(s.volume, VolumeInfo { level: 40, muted: true });
    assert_eq!(apply_host_message(&mut s, on, 2).led, Some(LedCommand::VolumeChanged));
    assert_eq!(apply_host_message(&mut s, off, 3).led, Some(LedCommand::VolumeChanged));
    assert_eq!(s.volume, VolumeInfo { level: 41, muted: false });
    assert_eq!(s.last_message, 3);
}

#[test]
fn greetings_are_answered_with_the_own_version() {
    let mut s = DisplayState::new();
    for version in [0, PROTO_VERSION, 255] {
        let r = apply_host_message(&mut s, HostToDevice::Hello { proto_version: version }, 7);
        assert_eq!(r.reply, Some(DeviceToHost::Hello { proto_version: PROTO_VERSION }));
        assert_eq!(r.led, None);
    }
}

#[test]
fn a_closed_menu_leaves_the_encoder_alone() {
    let mut s = DisplayState::new();
    let before = s;
    assert!(!apply_encoder_step(&mut s, 1));
    assert!(!apply_encoder_step(&mut s, -1));
    assert_eq!(s, before);
}

#[test]
fn the_main_menu_wraps() {
    let mut s = DisplayState::new();
    s.menu = MenuView::Main;
    let mut rows = Vec::new();
    for _ in 0..MENU_ITEM_COUNT + 1 {
        assert!(apply_encoder_step(&mut s, 1));
        rows.push(s.main_selection);
    }
    assert_eq!(rows, vec![1, 2, 0, 1]);
    assert!(apply_encoder_step(&mut s, -1));
    assert!(apply_encoder_step(&mut s, -1));
    assert_eq!(s.main_selection, 2);
}

#[test]
fn submenus_change_the_live_value() {
    let mut s = DisplayState::new();
    s.menu = MenuView::Sub(Selector::OledViz);
    assert!(apply_encoder_step(&mut s, 1));
    assert_eq!(s.oled_viz, OledViz::Mirror);
    assert!(apply_encoder_step(&mut s, -1));
    assert!(apply_encoder_step(&mut s, -1));
    assert_eq!(s.oled_viz, OledViz::Off);
    assert_eq!(s.glow_viz, GlowViz::Spec);
    s.menu = MenuView::Sub(Selector::GlowViz);
    assert!(apply_encoder_step(&mut s, 1));
    assert_eq!(s.glow_viz, GlowViz::Vu);
    s.menu = MenuView::Sub(Selector::HueMode);
    assert!(apply_encoder_step(&mut s, 1));
    assert_eq!(s.hue_mode, HueMode::Static);
}

#[test]
fn messages_leave_the_choices_alone() {
    let mut s = DisplayState::new();
    s.oled_viz = OledViz::Dots;
    s.glow_viz = GlowViz::Bass;
    s.menu = MenuView::Main;
    s.main_selection = 2;
    apply_host_message(&mut s, HostToDevice::Visualizer { bands: [9; 8] }, 5);
    apply_host_message(&mut s, HostToDevice::Volume { level: 1, muted: true }, 6);
    assert_eq!(s.oled_viz, OledViz::Dots);
    assert_eq!(s.glow_viz, GlowViz::Bass);
    assert_eq!(s.menu, MenuView::Main);
    assert_eq!(s.main_selection, 2);
}
