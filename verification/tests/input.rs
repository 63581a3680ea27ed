use oxcb_media::input::{
    encoder_edge, keymap, matrix_to_led, press, Encoder, KeyActions, Matrix, QDEC,
};
use oxcb_media::proto::DeviceToHost;
use oxcb_media::state::{ConsumerKey, DisplayState, LedCommand, MenuView, OledViz, Selector};
use oxcb_media::storage::Settings;

fn only(i: usize) -> [bool; 9] {
    let mut lows = [false; 9];
    lows[i] = true;
    lows
}

/// Presses key `i` down long enough to count, then lets go.
fn tap(m: &mut Matrix, s: &mut DisplayState, i: usize) -> Vec<KeyActions> {
    let mut out = Vec::new();
    for _ in 0..5 {
        out.extend(m.scan(s, &only(i)));
    }
    for _ in 0..5 {
        out.extend(m.scan(s, &[false; 9]));
    }
    out
}

#[test]
fn keys_and_their_leds() {
    let keys: Vec<Option<ConsumerKey>> = (0..9).map(keymap).collect();
    assert_eq!(
        keys,
        vec![
            Some(ConsumerKey::PrevTrack),
            Some(ConsumerKey::PlayPause),
            Some(ConsumerKey::Mute),
            Some(ConsumerKey::NextTrack),
            Some(ConsumerKey::Stop),
            None,
            None,
            None,
            None,
        ]
    );
    let leds: Vec<Option<u8>> = (0..9).map(matrix_to_led).collect();
    assert_eq!(
        leds,
        vec![Some(1), Some(0), None, Some(2), Some(3), Some(4), Some(7), Some(6), Some(5)]
    );
}

#[test]
fn a_press_counts_after_five_ticks() {
    let mut m = Matrix::new();
    let hits: Vec<bool> = (0..7).map(|_| m.debounce(3, true)).collect();
    assert_eq!(hits, vec![false, false, false, false, true, false, false]);
    let back: Vec<bool> = (0..5).map(|_| m.debounce(3, false)).collect();
    assert!(back.iter().all(|h| !h));
    let again: Vec<bool> = (0..5).map(|_| m.debounce(3, true)).collect();
    assert_eq!(again, vec![false, false, false, false, true]);
}

#[test]
fn bounces_are_ignored() {
    let mut m = Matrix::new();
    for _ in 0..50 {
        assert!(!m.debounce(0, true));
        assert!(!m.debounce(0, true));
        assert!(!m.debounce(0, false));
        assert!(!m.debounce(0, false));
    }
    for _ in 0..5 {
        m.debounce(0, true);
    }
    for _ in 0..20 {
        assert!(!m.debounce(0, false));
        assert!(!m.debounce(0, true));
    }
}

#[test]
fn keys_are_debounced_apart() {
    let mut m = Matrix::new();
    for _ in 0..4 {
        m.debounce(0, true);
    }
    for _ in 0..4 {
        assert!(!m.debounce(1, true));
    }
    assert!(m.debounce(0, true));
    assert!(m.debounce(1, true));
}

#[test]
fn media_keys_fire_with_their_flash() {
    let mut m = Matrix::new();
    let mut s = DisplayState::new();
    assert_eq!(
        tap(&mut m, &mut s, 1),
        vec![KeyActions {
            media: Some(ConsumerKey::PlayPause),
            led: Some(LedCommand::KeyPress { led: 0 }),
            message: None,
            save: None,
            bootloader: false,
        }]
    );
}

#[test]
fn two_keys_fire_in_scan_order() {
    let mut m = Matrix::new();
    let mut s = DisplayState::new();
    let mut out = Vec::new();
    for _ in 0..5 {
        let mut lows = only(4);
        lows[0] = true;
        out.extend(m.scan(&mut s, &lows));
    }
    let media: Vec<Option<ConsumerKey>> = out.iter().map(|a| a.media).collect();
    assert_eq!(media, vec![Some(ConsumerKey::PrevTrack), Some(ConsumerKey::Stop)]);
}

#[test]
fn the_encoder_click_mutes_and_tells_the_host() {
    let click = KeyActions {
        media: Some(ConsumerKey::Mute),
        led: None,
        message: Some(DeviceToHost::EncoderClick),
        save: None,
        bootloader: false,
    };
    let mut s = DisplayState::new();
    assert_eq!(press(&mut s, 2), click);
    s.menu = MenuView::Main;
    assert_eq!(press(&mut s, 2), click);
    assert_eq!(s.menu, MenuView::Main);
}

#[test]
fn an_open_menu_swallows_media_keys() {
    let mut s = DisplayState::new();
    s.menu = MenuView::Sub(Selector::GlowViz);
    for key in [0, 1, 3, 4] {
        let a = press(&mut s, key);
        assert_eq!(a.media, None);
        assert!(a.led.is_some());
    }
}

#[test]
fn ok_walks_the_menu() {
    let mut s = DisplayState::new();
    s.main_selection = 2;
    assert!(!press(&mut s, 5).bootloader);
    assert_eq!(s.menu, MenuView::Main);
    assert_eq!(s.main_selection, 0);
    press(&mut s, 5);
    assert_eq!(s.menu, MenuView::Sub(Selector::OledViz));
    press(&mut s, 5);
    assert_eq!(s.menu, MenuView::Main);
    s.main_selection = 1;
    press(&mut s, 5);
    assert_eq!(s.menu, MenuView::Sub(Selector::GlowViz));
}

#[test]
fn the_last_row_reboots() {
    let mut m = Matrix::new();
    let mut s = DisplayState::new();
    s.menu = MenuView::Main;
    s.main_selection = 2;
    let out = tap(&mut m, &mut s, 5);
    assert_eq!(out.len(), 1);
    assert!(out[0].bootloader);
    assert_eq!(s.menu, MenuView::Main);
    s.main_selection = 3;
    assert!(!press(&mut s, 5).bootloader);
}

#[test]
fn a_reboot_ends_the_scan() {
    let mut m = Matrix::new();
    let mut s = DisplayState::new();
    s.menu = MenuView::Main;
    s.main_selection = 2;
    let mut out = Vec::new();
    for _ in 0..5 {
        let mut lows = only(5);
        lows[8] = true;
        out = m.scan(&mut s, &lows);
    }
    assert_eq!(out.len(), 1);
    assert!(out[0].bootloader);
    assert_eq!(s.menu, MenuView::Main);
}

#[test]
fn back_leaves_the_menu_and_saves() {
    let mut s = DisplayState::new();
    s.oled_viz = OledViz::Dots;
    s.menu = MenuView::Sub(Selector::OledViz);
    assert_eq!(press(&mut s, 8).save, None);
    assert_eq!(s.menu, MenuView::Main);
    let a = press(&mut s, 8);
    assert_eq!(s.menu, MenuView::Closed);
    assert_eq!(a.save, Some(Settings::new(OledViz::Dots, s.glow_viz, s.hue_mode)));
    assert_eq!(press(&mut s, 8).save, None);
    assert_eq!(s.menu, MenuView::Closed);
}

#[test]
fn a_question_is_confirmed_or_dropped() {
    let mut s = DisplayState::new();
    s.menu = MenuView::Confirm;
    assert!(press(&mut s, 5).bootloader);
    s.menu = MenuView::Confirm;
    press(&mut s, 8);
    assert_eq!(s.menu, MenuView::Closed);
}

#[test]
fn unbound_keys_only_flash() {
    let mut s = DisplayState::new();
    let before = s;
    for key in [6, 7, 8] {
        let a = press(&mut s, key);
        assert_eq!(a.media, None);
        assert_eq!(a.message, None);
        assert!(a.led.is_some());
    }
    assert_eq!(s, before);
}

#[test]
fn phases_of_the_pins() {
    assert_eq!(Encoder::read(false, false), 0);
    assert_eq!(Encoder::read(false, true), 1);
    assert_eq!(Encoder::read(true, false), 2);
    assert_eq!(Encoder::read(true, true), 3);
    assert_eq!(QDEC[2], 1);
    assert_eq!(QDEC[1], -1);
}

#[test]
fn four_quarter_steps_make_a_detent() {
    let mut e = Encoder::new(3);
    let cw: Vec<i8> = [1, 0, 2, 3].iter().map(|p| e.update(*p)).collect();
    assert_eq!(cw, vec![0, 0, 0, 1]);
    let ccw: Vec<i8> = [2, 0, 1, 3].iter().map(|p| e.update(*p)).collect();
    assert_eq!(ccw, vec![0, 0, 0, -1]);
    assert_eq!(e, Encoder::new(3));
}

#[test]
fn encoder_bounce_cancels_out() {
    let mut e = Encoder::new(3);
    for _ in 0..20 {
        assert_eq!(e.update(1), 0);
        assert_eq!(e.update(1), 0);
        assert_eq!(e.update(3), 0);
    }
    assert_eq!(e, Encoder::new(3));
}

#[test]
fn skipped_phases_do_not_count() {
    let mut e = Encoder::new(3);
    assert_eq!(e.update(0), 0);
    assert_eq!(e, Encoder::new(0));
}

#[test]
fn detents_turn_volume_or_menu() {
    let mut e = Encoder::new(3);
    let mut s = DisplayState::new();
    let mut out = Vec::new();
    for p in [1, 0, 2, 3, 2, 0, 1, 3] {
        out.extend(encoder_edge(&mut e, &mut s, p));
    }
    assert_eq!(out, vec![ConsumerKey::VolumeUp, ConsumerKey::VolumeDown]);
    s.menu = MenuView::Main;
    for p in [1, 0, 2, 3] {
        assert_eq!(encoder_edge(&mut e, &mut s, p), None);
    }
    assert_eq!(s.main_selection, 1);
}
