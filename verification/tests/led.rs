use oxcb_media::led::{
    accent_perkey, accent_underglow, avg_band, black, mute_color, render_glow_spec,
    render_glow_uniform, scale_rgb, LedRenderer, Rgb8, UnderglowEffect, ACTIVE_TICK_MS,
    IDLE_TICK_MS, NUM_LEDS, UNDERGLOW_COUNT, UNDERGLOW_START,
};
use oxcb_media::proto::HostToDevice;
use oxcb_media::state::{apply_host_message, DisplayState, GlowViz, LedCommand};

const MS: u64 = 1_000;

/// A live state with the given volume and no fresh bands.
fn at_volume(level: u8, muted: bool) -> DisplayState {
    let mut s = DisplayState::new();
    apply_host_message(&mut s, HostToDevice::Volume { level, muted }, 1);
    s
}

/// A live state whose bands arrived at tick 1.
fn with_bands(bands: [u8; 8], glow: GlowViz) -> DisplayState {
    let mut s = DisplayState::new();
    s.glow_viz = glow;
    apply_host_message(&mut s, HostToDevice::Visualizer { bands }, 1);
    s
}

fn ring(l: &LedRenderer) -> Vec<Rgb8> {
    l.frame[UNDERGLOW_START..].to_vec()
}

#[test]
fn colours() {
    assert_eq!(accent_underglow(), Rgb8 { r: 112, g: 32, b: 0 });
    assert_eq!(accent_perkey(), Rgb8 { r: 96, g: 12, b: 0 });
    assert_eq!(mute_color(), Rgb8 { r: 140, g: 0, b: 0 });
    assert_eq!(black(), Rgb8 { r: 0, g: 0, b: 0 });
    assert_eq!(NUM_LEDS, 31);
    assert_eq!(UNDERGLOW_COUNT, 23);
}

#[test]
fn colours_scale() {
    let c = Rgb8 { r: 200, g: 100, b: 1 };
    assert_eq!(scale_rgb(c, 255), c);
    assert_eq!(scale_rgb(c, 0), black());
    assert_eq!(scale_rgb(c, 128), Rgb8 { r: 100, g: 50, b: 0 });
}

#[test]
fn average_of_bands() {
    assert_eq!(avg_band(&[0; 8]), 0);
    assert_eq!(avg_band(&[255; 8]), 255);
    assert_eq!(avg_band(&[255, 0, 0, 0, 0, 0, 0, 0]), 31);
}

#[test]
fn the_spiral_starts_at_the_front_and_covers_the_ring() {
    let mut l = LedRenderer::new();
    l.spiral_step(0);
    assert_eq!(l.frame[13], accent_underglow());
    for step in 1..UNDERGLOW_COUNT {
        l.spiral_step(step);
        if step == 17 {
            assert_eq!(l.frame[30], accent_underglow());
            assert_eq!(l.frame[8], black());
        }
    }
    assert!(ring(&l).iter().all(|c| *c == accent_underglow()));
    assert!(l.frame[..8].iter().all(|c| *c == black()));
    l.blank();
    assert!(l.frame.iter().all(|c| *c == black()));
}

#[test]
fn presses_flash_and_die_down() {
    let mut l = LedRenderer::new();
    let s = DisplayState::new();
    l.command(LedCommand::KeyPress { led: 3 }, 5);
    l.tick(&s, 5);
    assert_eq!(l.frame[3], accent_perkey());
    assert_eq!(l.frame[2], black());
    assert_eq!(l.press_brightness[3], 237);
    assert_eq!(l.tick_ms, ACTIVE_TICK_MS);
    l.tick(&s, 6);
    assert_eq!(l.frame[3], Rgb8 { r: 89, g: 11, b: 0 });
    for _ in 0..12 {
        l.tick(&s, 7);
    }
    assert_eq!(l.press_brightness[3], 3);
    l.tick(&s, 8);
    assert_eq!(l.press_brightness[3], 0);
    assert_eq!(l.tick_ms, IDLE_TICK_MS);
    l.tick(&s, 9);
    assert_eq!(l.frame[3], black());
}

#[test]
fn presses_without_a_led_are_ignored() {
    let mut l = LedRenderer::new();
    l.command(LedCommand::KeyPress { led: 8 }, 5);
    assert_eq!(l.press_brightness, [0; 8]);
}

#[test]
fn the_gauge_shows_the_level() {
    let mut l = LedRenderer::new();
    let s = at_volume(100, false);
    l.command(LedCommand::VolumeChanged, 10);
    l.tick(&s, 10);
    assert!(ring(&l).iter().all(|c| *c == accent_underglow()));
    assert_eq!(l.effect, Some(UnderglowEffect::Gauge(10)));

    let s = at_volume(50, false);
    l.tick(&s, 10);
    assert_eq!(l.frame[30], accent_underglow());
    assert_eq!(l.frame[20], accent_underglow());
    assert_eq!(l.frame[19], Rgb8 { r: 55, g: 15, b: 0 });
    assert_eq!(l.frame[18], black());
    assert_eq!(l.frame[8], black());

    let s = at_volume(200, false);
    l.tick(&s, 10);
    assert!(ring(&l).iter().all(|c| *c == accent_underglow()));
}

#[test]
fn a_muted_gauge_is_dark() {
    let mut l = LedRenderer::new();
    l.command(LedCommand::VolumeChanged, 10);
    l.tick(&at_volume(80, true), 10);
    assert!(ring(&l).iter().all(|c| *c == black()));
}

#[test]
fn the_gauge_holds_then_fades() {
    let mut l = LedRenderer::new();
    let s = at_volume(100, false);
    l.command(LedCommand::VolumeChanged, 10);
    l.tick(&s, 10 + 1_499 * MS);
    assert_eq!(l.frame[30], accent_underglow());
    l.tick(&s, 10 + 1_850 * MS);
    assert_eq!(l.frame[30], Rgb8 { r: 56, g: 16, b: 0 });
    l.tick(&s, 10 + 2_199 * MS);
    assert_eq!(l.frame[30], black());
    assert!(l.effect.is_some());
    assert_eq!(l.tick_ms, ACTIVE_TICK_MS);
    l.tick(&s, 10 + 2_200 * MS);
    assert!(l.effect.is_none());
    assert_eq!(l.tick_ms, IDLE_TICK_MS);
}

#[test]
fn the_gauge_never_brightens_with_time_or_darkens_with_level() {
    let shown = |level: u8, ms: u64| {
        let mut l = LedRenderer::new();
        l.command(LedCommand::VolumeChanged, 10);
        l.tick(&at_volume(level, false), 10 + ms * MS);
        l.frame
    };
    for (low, high) in [(0, 1), (13, 14), (49, 80), (99, 100)] {
        for (earlier, later) in [(0, 1_499), (1_499, 1_500), (1_600, 1_601), (1_900, 2_199)] {
            let dark = shown(low, later);
            let bright = shown(high, earlier);
            for k in 0..NUM_LEDS {
                assert!(dark[k].r <= bright[k].r && dark[k].g <= bright[k].g);
            }
        }
    }
}

#[test]
fn mute_fades_from_red() {
    let mut l = LedRenderer::new();
    let s = at_volume(10, true);
    l.command(LedCommand::Muted, 10);
    l.tick(&s, 10);
    assert!(ring(&l).iter().all(|c| *c == mute_color()));
    l.tick(&s, 10 + 500 * MS);
    assert!(ring(&l).iter().all(|c| *c == Rgb8 { r: 70, g: 0, b: 0 }));
    l.tick(&s, 10 + 1_000 * MS);
    assert!(ring(&l).iter().all(|c| *c == black()));
    assert!(l.effect.is_none());
}

#[test]
fn the_newest_effect_wins() {
    let mut l = LedRenderer::new();
    l.command(LedCommand::Muted, 10);
    l.command(LedCommand::VolumeChanged, 11);
    assert_eq!(l.effect, Some(UnderglowEffect::Gauge(11)));
    l.command(LedCommand::Muted, 12);
    assert_eq!(l.effect, Some(UnderglowEffect::Mute(12)));
}

#[test]
fn bass_shows_at_the_front() {
    let mut l = LedRenderer::new();
    l.tick(&with_bands([255, 0, 0, 0, 0, 0, 0, 0], GlowViz::Spec), 2);
    assert_eq!(l.frame[13], accent_underglow());
    assert_eq!(l.frame[14], l.frame[12]);
    assert_eq!(l.frame[14], Rgb8 { r: 14, g: 4, b: 0 });
    assert_eq!(l.frame[15], black());
    assert_eq!(l.tick_ms, ACTIVE_TICK_MS);
}

#[test]
fn the_spectrum_is_mirrored() {
    let mut frame = [black(); NUM_LEDS];
    render_glow_spec(
        &mut frame,
        &[10, 200, 30, 255, 50, 60, 170, 80],
        UNDERGLOW_START,
        UNDERGLOW_COUNT,
        13,
        accent_underglow(),
    );
    for d in 1..=11 {
        let right = UNDERGLOW_START + (5 + d) % UNDERGLOW_COUNT;
        let left = UNDERGLOW_START + (5 + UNDERGLOW_COUNT - d) % UNDERGLOW_COUNT;
        assert_eq!(frame[right], frame[left]);
    }
    assert_eq!(frame[24], Rgb8 { r: 10, g: 3, b: 0 });
    assert!(frame[..8].iter().all(|c| *c == black()));
}

#[test]
fn treble_shows_at_the_back() {
    let mut l = LedRenderer::new();
    l.tick(&with_bands([0, 0, 0, 0, 0, 0, 0, 255], GlowViz::Spec), 2);
    assert_eq!(l.frame[24], accent_underglow());
    assert_eq!(l.frame[25], accent_underglow());
    assert_eq!(l.frame[13], black());
}

#[test]
fn louder_bands_darken_no_led() {
    let quiet = [3u8, 90, 0, 255, 17, 128, 64, 200];
    for style in GlowViz::ALL {
        for band in 0..8 {
            let mut loud = quiet;
            loud[band] = loud[band].saturating_add(40);
            let mut a = LedRenderer::new();
            let mut b = LedRenderer::new();
            a.tick(&with_bands(quiet, style), 2);
            b.tick(&with_bands(loud, style), 2);
            for k in 0..NUM_LEDS {
                assert!(a.frame[k].r <= b.frame[k].r && a.frame[k].g <= b.frame[k].g);
            }
        }
    }
}

#[test]
fn uniform_styles_fill_the_ring() {
    let mut l = LedRenderer::new();
    l.tick(&with_bands([128; 8], GlowViz::Vu), 2);
    assert!(ring(&l).iter().all(|c| *c == Rgb8 { r: 28, g: 8, b: 0 }));
    l.tick(&with_bands([255, 0, 255, 255, 255, 255, 255, 255], GlowViz::Bass), 2);
    assert!(ring(&l).iter().all(|c| *c == Rgb8 { r: 27, g: 7, b: 0 }));
    let mut frame = [mute_color(); NUM_LEDS];
    render_glow_uniform(&mut frame, 255, 10, 2, accent_perkey());
    assert_eq!(frame[9], mute_color());
    assert_eq!(frame[10], accent_perkey());
    assert_eq!(frame[11], accent_perkey());
    assert_eq!(frame[12], mute_color());
}

#[test]
fn without_fresh_bands_the_ring_is_dark() {
    let mut l = LedRenderer::new();
    let s = with_bands([255; 8], GlowViz::Spec);
    l.tick(&s, 2);
    assert!(ring(&l).iter().all(|c| *c == accent_underglow()));
    l.tick(&s, 500_001);
    assert!(ring(&l).iter().all(|c| *c == black()));
    assert_eq!(l.tick_ms, IDLE_TICK_MS);
    l.tick(&with_bands([255; 8], GlowViz::Off), 2);
    assert!(ring(&l).iter().all(|c| *c == black()));
}

#[test]
fn an_effect_covers_the_spectrum() {
    let mut l = LedRenderer::new();
    let mut s = with_bands([255; 8], GlowViz::Vu);
    s.volume.muted = true;
    l.command(LedCommand::Muted, 2);
    l.tick(&s, 2);
    assert!(ring(&l).iter().all(|c| *c == mute_color()));
}
