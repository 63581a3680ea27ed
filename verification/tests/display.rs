use oxcb_media::display::{
    bar_x, render_bars, render_frame, render_menu, render_particles, render_radial,
    render_vu_needle, render_waterfall, DrawOp, OledVizState,
};
use oxcb_media::input::press;
use oxcb_media::proto::HostToDevice;
use oxcb_media::state::{
    apply_encoder_step, apply_host_message, DisplayState, MenuView, OledViz, Selector,
    MENU_ITEM_COUNT,
};

fn text(text: &'static str, x: i32, y: i32) -> DrawOp {
    DrawOp::Text { text, x, y }
}

/// A connected state at tick 1 with fresh bands.
fn playing(viz: OledViz, bands: [u8; 8]) -> DisplayState {
    let mut s = DisplayState::new();
    s.oled_viz = viz;
    apply_host_message(&mut s, HostToDevice::Visualizer { bands }, 1);
    s
}

fn pixels(ops: &[DrawOp]) -> Vec<(i32, i32)> {
    ops.iter()
        .filter_map(|op| match op {
            DrawOp::Pixel { x, y } => Some((*x, *y)),
            _ => None,
        })
        .collect()
}

const OUTLINE: DrawOp = DrawOp::Outline { x: 118, y: 2, w: 8, h: 60 };

#[test]
fn a_lost_host_is_told() {
    let s = DisplayState::new();
    let mut viz = OledVizState::new();
    assert_eq!(
        render_frame(&s, 1, &mut viz),
        vec![DrawOp::Clear, text("Disconnected", 28, 28), text("(no host daemon)", 16, 42)]
    );
}

#[test]
fn silence_shows_the_volume_only() {
    let mut s = DisplayState::new();
    let mut viz = OledVizState::new();
    apply_host_message(&mut s, HostToDevice::Ping, 1);
    assert_eq!(render_frame(&s, 1, &mut viz), vec![DrawOp::Clear, OUTLINE]);
    for (level, top, h) in [(1u8, 60, 1u32), (50, 32, 29), (100, 3, 58), (255, 3, 58)] {
        apply_host_message(&mut s, HostToDevice::Volume { level, muted: false }, 1);
        assert_eq!(
            render_frame(&s, 1, &mut viz),
            vec![DrawOp::Clear, OUTLINE, DrawOp::Fill { x: 119, y: top, w: 6, h }]
        );
    }
    apply_host_message(&mut s, HostToDevice::Volume { level: 70, muted: true }, 1);
    assert_eq!(
        render_frame(&s, 1, &mut viz),
        vec![DrawOp::Clear, OUTLINE, DrawOp::Fill { x: 118, y: 30, w: 8, h: 4 }]
    );
}

#[test]
fn bars_stand_on_the_bottom() {
    assert_eq!(bar_x(0), 2);
    assert_eq!(bar_x(7), 100);
    let mut out = Vec::new();
    render_bars(&mut out, &[255, 0, 4, 5, 128, 0, 0, 255]);
    assert_eq!(
        out,
        vec![
            DrawOp::Fill { x: 2, y: 4, w: 13, h: 60 },
            DrawOp::Fill { x: 44, y: 63, w: 13, h: 1 },
            DrawOp::Fill { x: 58, y: 34, w: 13, h: 30 },
            DrawOp::Fill { x: 100, y: 4, w: 13, h: 60 },
        ]
    );
}

#[test]
fn spokes_leave_the_centre() {
    let mut out = Vec::new();
    render_radial(&mut out, &[255, 128, 0, 1, 255, 0, 0, 128]);
    assert_eq!(
        out,
        vec![
            DrawOp::Line { x0: 57, y0: 32, x1: 85, y1: 32 },
            DrawOp::Line { x0: 57, y0: 32, x1: 67, y1: 22 },
            DrawOp::Line { x0: 57, y0: 32, x1: 57, y1: 32 },
            DrawOp::Line { x0: 57, y0: 32, x1: 29, y1: 32 },
            DrawOp::Line { x0: 57, y0: 32, x1: 67, y1: 42 },
            DrawOp::Fill { x: 56, y: 31, w: 3, h: 3 },
        ]
    );
}

#[test]
fn the_waterfall_scrolls_left() {
    let mut viz = OledVizState::new();
    let mut out = Vec::new();
    render_waterfall(&mut out, &[255, 0, 0, 0, 0, 0, 0, 31], &mut viz);
    assert_eq!(out, vec![DrawOp::Fill { x: 111, y: 56, w: 1, h: 8 }]);
    let mut out = Vec::new();
    render_waterfall(&mut out, &[0, 0, 0, 0, 0, 0, 0, 32], &mut viz);
    assert_eq!(
        out,
        vec![
            DrawOp::Fill { x: 110, y: 56, w: 1, h: 8 },
            DrawOp::Fill { x: 111, y: 7, w: 1, h: 1 },
        ]
    );
    for _ in 0..108 {
        render_waterfall(&mut Vec::new(), &[0; 8], &mut viz);
    }
    let mut out = Vec::new();
    render_waterfall(&mut out, &[0; 8], &mut viz);
    assert_eq!(out, vec![DrawOp::Fill { x: 2, y: 7, w: 1, h: 1 }]);
}

#[test]
fn every_column_moves_one_to_the_left() {
    fn on(ops: &[DrawOp], px: i32, py: i32) -> bool {
        ops.iter().any(|op| match op {
            DrawOp::Fill { x, y, w, h } => {
                *x <= px && px < *x + *w as i32 && *y <= py && py < *y + *h as i32
            }
            _ => false,
        })
    }
    let mut viz = OledVizState::new();
    let mut before = Vec::new();
    for n in 0..130u32 {
        let bands: [u8; 8] = std::array::from_fn(|b| ((n * 37 + b as u32 * 91) % 256) as u8);
        let mut after = Vec::new();
        render_waterfall(&mut after, &bands, &mut viz);
        if n % 13 == 0 && n > 0 {
            for py in 0..64 {
                for px in 2..111 {
                    assert_eq!(on(&after, px, py), on(&before, px + 1, py));
                }
                let band = bands[(7 - py / 8) as usize] as i32;
                assert_eq!(on(&after, 111, py), py % 8 >= 8 - band * 8 / 255);
                assert!(!on(&after, 1, py) && !on(&after, 112, py));
            }
        }
        before = after;
    }
}

#[test]
fn the_needle_follows_the_energy() {
    let mut viz = OledVizState::new();
    let mut out = Vec::new();
    render_vu_needle(&mut out, &[255; 8], &mut viz);
    assert_eq!(out.len(), 37);
    let dots = pixels(&out);
    assert_eq!(dots.len(), 35);
    assert_eq!(dots[0], (14, 31));
    assert_eq!(dots[1], (15, 29));
    assert_eq!(dots[31], (100, 31));
    assert_eq!(dots[32..], [(99, 31), (100, 31), (101, 31)]);
    assert_eq!(out[35], DrawOp::Line { x0: 57, y0: 56, x1: 100, y1: 31 });
    assert_eq!(out[36], DrawOp::Fill { x: 55, y: 55, w: 5, h: 3 });
}

#[test]
fn the_peak_holds_then_sinks() {
    let mut viz = OledVizState::new();
    render_vu_needle(&mut Vec::new(), &[255; 8], &mut viz);
    for _ in 0..8 {
        let mut out = Vec::new();
        render_vu_needle(&mut out, &[0; 8], &mut viz);
        assert_eq!(pixels(&out)[33], (100, 31));
        assert_eq!(out[35], DrawOp::Line { x0: 57, y0: 56, x1: 14, y1: 31 });
    }
    let mut out = Vec::new();
    render_vu_needle(&mut out, &[0; 8], &mut viz);
    assert_eq!(pixels(&out)[33], (96, 25));
    for _ in 0..62 {
        render_vu_needle(&mut Vec::new(), &[0; 8], &mut viz);
    }
    let mut out = Vec::new();
    render_vu_needle(&mut out, &[0; 8], &mut viz);
    assert_eq!(pixels(&out)[33], (14, 31));
}

#[test]
fn loud_fire_is_solid() {
    let mut viz = OledVizState::new();
    let mut out = Vec::new();
    render_particles(&mut out, &[255, 0, 0, 0, 0, 0, 0, 0], &mut viz);
    let mut want = Vec::new();
    for y in 62..64 {
        for x in 2..16 {
            want.push((x, y));
        }
    }
    assert_eq!(pixels(&out), want);
}

#[test]
fn quiet_fire_twinkles() {
    let mut viz = OledVizState::new();
    let mut out = Vec::new();
    render_particles(&mut out, &[0, 1, 0, 0, 0, 0, 0, 0], &mut viz);
    assert_eq!(pixels(&out), vec![(16, 63), (20, 63), (24, 63), (28, 63)]);
}

#[test]
fn fire_rises_and_spreads() {
    let mut viz = OledVizState::new();
    render_particles(&mut Vec::new(), &[0, 0, 0, 200, 0, 0, 0, 0], &mut viz);
    let mut out = Vec::new();
    render_particles(&mut out, &[0; 8], &mut viz);
    let dots = pixels(&out);
    let lit = |c: i32, r: i32| {
        dots.iter()
            .filter(|(x, y)| (x - 2) / 14 == c && y / 2 == r)
            .count()
    };
    assert!(lit(3, 31) > lit(3, 30));
    assert!(lit(3, 30) > lit(2, 30));
    assert!(lit(2, 30) > 0);
    assert!(lit(4, 30) > 0);
    assert_eq!(lit(1, 30), 0);
    assert_eq!(lit(3, 29), 0);
}

#[test]
fn fire_goes_out() {
    let mut viz = OledVizState::new();
    render_particles(&mut Vec::new(), &[255; 8], &mut viz);
    for _ in 0..120 {
        render_particles(&mut Vec::new(), &[0; 8], &mut viz);
    }
    let mut out = Vec::new();
    render_particles(&mut out, &[0; 8], &mut viz);
    assert!(out.is_empty());
}

#[test]
fn the_main_menu() {
    let mut s = playing(OledViz::Bars, [255; 8]);
    s.menu = MenuView::Main;
    s.main_selection = 1;
    let mut viz = OledVizState::new();
    assert_eq!(
        render_frame(&s, 1, &mut viz),
        vec![
            DrawOp::Clear,
            text("MENU", 52, 2),
            text("oled viz", 14, 14),
            text("bars", 98, 14),
            text(">", 4, 24),
            text("glow viz", 14, 24),
            text("spec", 98, 24),
            text("Bootloader", 14, 34),
            text("Go", 98, 34),
        ]
    );
}

#[test]
fn the_marked_row_is_what_ok_does() {
    let mut s = DisplayState::new();
    s.menu = MenuView::Main;
    let mut labels = Vec::new();
    for _ in 0..MENU_ITEM_COUNT {
        let mut out = Vec::new();
        render_menu(&mut out, &s);
        let marks: Vec<usize> = (0..out.len())
            .filter(|k| matches!(out[*k], DrawOp::Text { text: ">", .. }))
            .collect();
        assert_eq!(marks.len(), 1);
        assert_eq!(out[marks[0]], text(">", 4, 14 + 10 * s.main_selection as i32));
        let label = match out[marks[0] + 1] {
            DrawOp::Text { text, .. } => text,
            _ => "",
        };
        let mut pressed = s;
        assert_eq!(press(&mut pressed, 5).bootloader, label == "Bootloader");
        labels.push(label);
        apply_encoder_step(&mut s, 1);
    }
    assert_eq!(labels, vec!["oled viz", "glow viz", "Bootloader"]);
}

#[test]
fn submenus_mark_the_live_value() {
    let mut s = DisplayState::new();
    s.menu = MenuView::Sub(Selector::OledViz);
    s.oled_viz = OledViz::Dots;
    let mut out = Vec::new();
    render_menu(&mut out, &s);
    assert_eq!(
        out,
        vec![
            text("bars", 14, 2),
            text("mirror", 14, 12),
            text(">", 4, 22),
            text("dots", 14, 22),
            text("off", 14, 32),
        ]
    );
    s.menu = MenuView::Sub(Selector::GlowViz);
    let mut out = Vec::new();
    render_menu(&mut out, &s);
    assert_eq!(
        out,
        vec![
            text(">", 4, 2),
            text("spectrum", 14, 2),
            text("vu", 14, 12),
            text("bass", 14, 22),
            text("off", 14, 32),
        ]
    );
    s.menu = MenuView::Sub(Selector::HueMode);
    let mut out = Vec::new();
    render_menu(&mut out, &s);
    assert_eq!(out, vec![text(">", 4, 2), text("static", 14, 2)]);
}

#[test]
fn the_reboot_question() {
    let mut s = DisplayState::new();
    s.menu = MenuView::Confirm;
    let mut out = Vec::new();
    render_menu(&mut out, &s);
    assert_eq!(
        out,
        vec![
            text("Reboot to", 37, 8),
            text("bootloader?", 31, 20),
            text("OK=confirm", 34, 40),
            text("back=cancel", 31, 52),
        ]
    );
    s.menu = MenuView::Closed;
    let mut out = Vec::new();
    render_menu(&mut out, &s);
    assert!(out.is_empty());
}

#[test]
fn frames_draw_the_active_style() {
    let mut viz = OledVizState::new();
    let s = playing(OledViz::Bars, [255, 0, 0, 0, 0, 0, 0, 0]);
    assert_eq!(
        render_frame(&s, 1, &mut viz),
        vec![DrawOp::Clear, DrawOp::Fill { x: 2, y: 4, w: 13, h: 60 }, OUTLINE]
    );
    for viz_style in [OledViz::Off, OledViz::Mirror, OledViz::Dots] {
        let s = playing(viz_style, [255; 8]);
        assert_eq!(render_frame(&s, 1, &mut viz), vec![DrawOp::Clear, OUTLINE]);
    }
    let s = playing(OledViz::Radial, [0; 8]);
    assert_eq!(
        render_frame(&s, 1, &mut viz),
        vec![DrawOp::Clear, DrawOp::Fill { x: 56, y: 31, w: 3, h: 3 }, OUTLINE]
    );
}

#[test]
fn a_change_of_style_forgets_the_history() {
    let mut viz = OledVizState::new();
    let loud = playing(OledViz::Waterfall, [255; 8]);
    let quiet = playing(OledViz::Waterfall, [0; 8]);
    render_frame(&loud, 1, &mut viz);
    assert!(render_frame(&quiet, 1, &mut viz).len() > 2);
    render_frame(&playing(OledViz::Bars, [0; 8]), 1, &mut viz);
    assert_eq!(render_frame(&quiet, 1, &mut viz), vec![DrawOp::Clear, OUTLINE]);
}

#[test]
fn stale_bands_forget_the_history() {
    let mut viz = OledVizState::new();
    let loud = playing(OledViz::Waterfall, [255; 8]);
    let quiet = playing(OledViz::Waterfall, [0; 8]);
    render_frame(&loud, 1, &mut viz);
    assert_eq!(render_frame(&loud, 600_000, &mut viz), vec![DrawOp::Clear, OUTLINE]);
    assert_eq!(render_frame(&quiet, 1, &mut viz), vec![DrawOp::Clear, OUTLINE]);
}

#[test]
fn an_open_menu_keeps_the_history() {
    let mut viz = OledVizState::new();
    let loud = playing(OledViz::Waterfall, [255; 8]);
    render_frame(&loud, 1, &mut viz);
    let mut menu = loud;
    menu.menu = MenuView::Main;
    render_frame(&menu, 1, &mut viz);
    assert!(render_frame(&playing(OledViz::Waterfall, [0; 8]), 1, &mut viz).len() > 2);
}

#[test]
fn everything_stays_on_screen() {
    let styles = [
        OledViz::Bars,
        OledViz::Waterfall,
        OledViz::Radial,
        OledViz::VuNeedle,
        OledViz::Particles,
    ];
    for style in styles {
        let mut viz = OledVizState::new();
        for v in [0u8, 1, 31, 128, 254, 255] {
            let s = playing(style, [v; 8]);
            for op in render_frame(&s, 1, &mut viz) {
                match op {
                    DrawOp::Fill { x, y, w, h } | DrawOp::Outline { x, y, w, h } => {
                        assert!(x >= 0 && x + w as i32 <= 128);
                        assert!(y >= 0 && y + h as i32 <= 64);
                    }
                    DrawOp::Pixel { x, y } => assert!((0..115).contains(&x) && (0..64).contains(&y)),
                    DrawOp::Line { x1, y1, .. } => {
                        assert!((0..115).contains(&x1) && (0..64).contains(&y1));
                    }
                    _ => {}
                }
            }
        }
    }
}
