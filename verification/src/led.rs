//! The LED chain: per-key flashes and the underglow ring.
//!
//! The chain has the eight per-key LEDs first and the 23 underglow LEDs behind
//! them. The ring shows, in this order of precedence, a fading mute backdrop or
//! volume gauge, the live spectrum, or nothing.
use vstd::prelude::*;

use crate::state::{DisplayState, GlowViz, LedCommand};

verus! {

/// LEDs on the chain.
pub const NUM_LEDS: usize = 31;

/// Per-key LEDs come first on the chain; the underglow starts behind them.
pub const UNDERGLOW_START: usize = 8;

/// LEDs on the underglow ring.
pub const UNDERGLOW_COUNT: usize = 23;

/// Place on the chain of the LED closest to the user.
pub const SPIRAL_PIVOT: usize = 13;

/// Milliseconds per step of the boot spiral.
pub const SPIRAL_STEP_MS: u64 = 85;

/// Milliseconds that the full spiral is held.
pub const SPIRAL_HOLD_MS: u64 = 400;

/// What a press flash loses per tick.
pub const PRESS_DECAY: u8 = 18;

/// Milliseconds between frames while anything is animated.
pub const ACTIVE_TICK_MS: u64 = 16;

/// Milliseconds between frames while all is dark.
pub const IDLE_TICK_MS: u64 = 100;

/// Milliseconds that the gauge is held at full intensity.
pub const VOL_GAUGE_HOLD_MS: u64 = 1500;

/// Milliseconds that the gauge then takes to fade out.
pub const VOL_GAUGE_FADE_MS: u64 = 700;

/// Milliseconds that the mute backdrop takes to fade out.
pub const MUTE_FADE_MS: u64 = 1000;

/// Clock ticks per millisecond.
pub const TICKS_PER_MS: u64 = 1000;

/// Colour of one LED.
#[derive(Copy, Clone, Debug, PartialEq, Eq, Structural)]
pub struct Rgb8 {
    pub r: u8,
    pub g: u8,
    pub b: u8,
}

/// An LED that is off.
#[verifier::allow_in_spec]
pub fn black() -> Rgb8
    returns
        (Rgb8 { r: 0, g: 0, b: 0 }),
{
    Rgb8 { r: 0, g: 0, b: 0 }
}

/// Accent colour, tuned for the underglow LEDs.
#[verifier::allow_in_spec]
pub fn accent_underglow() -> Rgb8
    returns
        (Rgb8 { r: 112, g: 32, b: 0 }),
{
    Rgb8 { r: 112, g: 32, b: 0 }
}

/// Accent colour, tuned for the per-key LEDs.
#[verifier::allow_in_spec]
pub fn accent_perkey() -> Rgb8
    returns
        (Rgb8 { r: 96, g: 12, b: 0 }),
{
    Rgb8 { r: 96, g: 12, b: 0 }
}

/// Colour of the mute backdrop.
#[verifier::allow_in_spec]
pub fn mute_color() -> Rgb8
    returns
        (Rgb8 { r: 140, g: 0, b: 0 }),
{
    Rgb8 { r: 140, g: 0, b: 0 }
}

// ─── Scaling ────────────────────────────────────────────────────────────────

/// One colour channel at `factor` 255ths.
pub open spec fn scaled_channel(c: u8, factor: int) -> u8 {
    ((c * factor / 255) % 256) as u8
}

/// A colour at `factor` 255ths.
pub open spec fn scaled(c: Rgb8, factor: int) -> Rgb8 {
    Rgb8 {
        r: scaled_channel(c.r, factor),
        g: scaled_channel(c.g, factor),
        b: scaled_channel(c.b, factor),
    }
}

/// One colour channel at `factor` 255ths, cut to eight bits.
fn scale_channel(c: u8, factor: u32) -> (r: u8)
    requires
        c * factor <= u32::MAX,
    ensures
        r == scaled_channel(c, factor as int),
{
    let x: u32 = (c as u32 * factor) / 255;
    assert(x as u8 == x % 256) by (bit_vector);
    assert((x % 256) as u8 == x % 256);
    x as u8
}

/// A colour at `factor` 255ths, each channel cut to eight bits.
pub fn scale_rgb(c: Rgb8, factor: u32) -> (r: Rgb8)
    requires
        c.r * factor <= u32::MAX,
        c.g * factor <= u32::MAX,
        c.b * factor <= u32::MAX,
    ensures
        r == scaled(c, factor as int),
{
    Rgb8 {
        r: scale_channel(c.r, factor),
        g: scale_channel(c.g, factor),
        b: scale_channel(c.b, factor),
    }
}

/// Scaling by up to 255 never brightens a colour; by 0 it gives black and by
/// 255 the colour itself; and a larger factor never gives a darker colour.
pub proof fn lemma_scaled_bounds(c: Rgb8, f: int, g: int)
    requires
        0 <= f <= g <= 255,
    ensures
        scaled(c, f).r <= scaled(c, g).r <= c.r,
        scaled(c, f).g <= scaled(c, g).g <= c.g,
        scaled(c, f).b <= scaled(c, g).b <= c.b,
        scaled(c, 0) == black(),
        scaled(c, 255) == c,
{
    lemma_channel_bounds(c.r, f, g);
    lemma_channel_bounds(c.g, f, g);
    lemma_channel_bounds(c.b, f, g);
}

/// The same of one channel.
proof fn lemma_channel_bounds(c: u8, f: int, g: int)
    requires
        0 <= f <= g <= 255,
    ensures
        scaled_channel(c, f) <= scaled_channel(c, g) <= c,
        scaled_channel(c, 0) == 0,
        scaled_channel(c, 255) == c,
{
    assert(c * f <= c * g <= c * 255) by (nonlinear_arith)
        requires
            0 <= f <= g <= 255,
            0 <= c,
    ;
    assert(0 <= c * f) by (nonlinear_arith)
        requires
            0 <= f,
            0 <= c,
    ;
}

// ─── Spectrum on the ring ───────────────────────────────────────────────────

/// Mean of the eight bands, rounded down.
pub open spec fn mean_band(bands: Seq<u8>) -> int {
    (bands[0] + bands[1] + bands[2] + bands[3] + bands[4] + bands[5] + bands[6] + bands[7]) / 8
}

/// Mean of the eight bands, rounded down.
pub fn avg_band(bands: &[u8; 8]) -> (mean: u8)
    ensures
        mean == mean_band(bands@),
{
    let sum: u32 = bands[0] as u32 + bands[1] as u32 + bands[2] as u32 + bands[3] as u32
        + bands[4] as u32 + bands[5] as u32 + bands[6] as u32 + bands[7] as u32;
    (sum / 8) as u8
}

/// Distance of place `i` from place `center` around a ring of `count`.
pub open spec fn ring_distance(i: int, center: int, count: int) -> int {
    let raw = (i - center) % count;
    if raw <= count - raw {
        raw
    } else {
        count - raw
    }
}

/// Position between the bands, in 256ths of a band, of a place at distance
/// `dist` on a ring of `count`: bass at the center, treble opposite.
pub open spec fn band_position(dist: int, count: int) -> int {
    (dist * 7 * 256) / (count / 2)
}

/// The bands interpolated at a position in 256ths of a band.
pub open spec fn interpolated(bands: Seq<u8>, pos: int) -> int {
    let bi = pos / 256;
    let frac = pos % 256;
    let v0 = bands[if bi < 7 {
        bi
    } else {
        7
    }] as int;
    let v1 = bands[if bi + 1 < 7 {
        bi + 1
    } else {
        7
    }] as int;
    (v0 * (256 - frac) + v1 * frac) / 256
}

/// Square-law brightness of a magnitude, so that quiet noise stays dark.
pub open spec fn gamma(magnitude: int) -> int {
    (magnitude * magnitude) / 255
}

/// Brightness of place `i` of a ring of `count` that shows `bands` around
/// place `center`.
pub open spec fn spectrum_factor(bands: Seq<u8>, i: int, center: int, count: int) -> int {
    gamma(interpolated(bands, band_position(ring_distance(i, center, count), count)))
}

/// A chain whose underglow shows the spectrum, mirrored around LED `pivot`.
pub open spec fn glow_spec(
    frame: Seq<Rgb8>,
    bands: Seq<u8>,
    start: int,
    count: int,
    pivot: int,
    accent: Rgb8,
) -> Seq<Rgb8> {
    Seq::new(
        frame.len(),
        |k: int|
            if start <= k < start + count {
                scaled(accent, spectrum_factor(bands, k - start, pivot - start, count))
            } else {
                frame[k]
            },
    )
}

/// A chain whose underglow is filled with one colour.
pub open spec fn filled(frame: Seq<Rgb8>, start: int, count: int, color: Rgb8) -> Seq<Rgb8> {
    Seq::new(
        frame.len(),
        |k: int|
            if start <= k < start + count {
                color
            } else {
                frame[k]
            },
    )
}

/// A magnitude never comes out brighter than full.
proof fn lemma_gamma_bound(m: int)
    requires
        0 <= m <= 255,
    ensures
        0 <= gamma(m) <= 255,
{
    assert(0 <= m * m <= 255 * 255) by (nonlinear_arith)
        requires
            0 <= m <= 255,
    ;
}

/// An interpolation lies between the bands.
proof fn lemma_interpolated_bound(bands: Seq<u8>, pos: int)
    requires
        bands.len() == 8,
        0 <= pos,
    ensures
        0 <= interpolated(bands, pos) <= 255,
{
    let frac = pos % 256;
    let bi = pos / 256;
    let v0 = bands[if bi < 7 {
        bi
    } else {
        7
    }] as int;
    let v1 = bands[if bi + 1 < 7 {
        bi + 1
    } else {
        7
    }] as int;
    assert(0 <= v0 * (256 - frac) + v1 * frac <= 255 * 256) by (nonlinear_arith)
        requires
            0 <= v0 <= 255,
            0 <= v1 <= 255,
            0 <= frac < 256,
    ;
}

/// Spectrum mirrored around LED `pivot` of the chain: bass at the pivot, treble
/// walking both ways to the far side of the ring.
pub fn render_glow_spec(
    frame: &mut [Rgb8; 31],
    bands: &[u8; 8],
    underglow_start: usize,
    underglow_count: usize,
    pivot: usize,
    accent: Rgb8,
)
    requires
        underglow_start + underglow_count <= NUM_LEDS,
        underglow_count != 1,
        pivot <= i32::MAX,
    ensures
        final(frame)@ == glow_spec(
            old(frame)@,
            bands@,
            underglow_start as int,
            underglow_count as int,
            pivot as int,
            accent,
        ),
{
    let ghost target = glow_spec(
        old(frame)@,
        bands@,
        underglow_start as int,
        underglow_count as int,
        pivot as int,
        accent,
    );
    let count: i64 = underglow_count as i64;
    let center: i64 = pivot as i64 - underglow_start as i64;
    let mut i: usize = 0;
    while i < underglow_count
        invariant
            i <= underglow_count,
            underglow_start + underglow_count <= NUM_LEDS,
            underglow_count != 1,
            count == underglow_count,
            pivot <= i32::MAX,
            center == pivot - underglow_start,
            frame@.len() == NUM_LEDS,
            target == glow_spec(
                old(frame)@,
                bands@,
                underglow_start as int,
                underglow_count as int,
                pivot as int,
                accent,
            ),
            forall|k: int|
                0 <= k < NUM_LEDS ==> #[trigger] frame@[k] == (if k < underglow_start + i {
                    target[k]
                } else {
                    old(frame)@[k]
                }),
        decreases underglow_count - i,
    {
        let raw: i64 = ring_offset(i as i64 - center, count);
        let dist: i64 = if raw <= count - raw {
            raw
        } else {
            count - raw
        };
        let half: i64 = count / 2;
        assert(dist <= half);
        assert(0 <= dist * 7 * 256 <= half * 1792);
        assert(0 <= (dist * 7 * 256) / (half as int) <= 1792) by (nonlinear_arith)
            requires
                0 <= dist * 7 * 256 <= half * 1792,
                half > 0,
        ;
        let band_pos: u32 = ((dist * 7 * 256) / half) as u32;
        let bi: usize = (band_pos / 256) as usize;
        let frac: u32 = band_pos % 256;
        let v0: u32 = bands[if bi < 7 {
            bi
        } else {
            7
        }] as u32;
        let v1: u32 = bands[if bi + 1 < 7 {
            bi + 1
        } else {
            7
        }] as u32;
        proof {
            lemma_interpolated_bound(bands@, band_pos as int);
            assert(0 <= v0 * (256 - frac) <= 255 * 256 && 0 <= v1 * frac <= 255 * 256)
                by (nonlinear_arith)
                requires
                    0 <= v0 <= 255,
                    0 <= v1 <= 255,
                    0 <= frac < 256,
            ;
        }
        let lin: u32 = (v0 * (256 - frac) + v1 * frac) / 256;
        assert(lin == interpolated(bands@, band_pos as int));
        let factor: u32 = square_law(lin);
        assert(factor == spectrum_factor(bands@, i as int, center as int, count as int));
        frame[underglow_start + i] = scale_full(accent, factor);
        i = i + 1;
    }
    assert(frame@ =~= target);
}

/// `x` brought into `0..count` by whole turns.
fn ring_offset(x: i64, count: i64) -> (r: i64)
    requires
        0 < count <= NUM_LEDS,
        -0x1_0000_0000 <= x <= 0x1_0000_0000,
    ensures
        r == (x as int) % (count as int),
        0 <= r < count,
{
    let shift: i64 = 0x2_0000_0000;
    let r: i64 = (x + shift * count) % count;
    proof {
        vstd::arithmetic::div_mod::lemma_mod_multiples_vanish(shift as int, x as int, count as int);
        assert(count * shift == shift * count) by (nonlinear_arith);
    }
    r
}

/// Square-law brightness of a magnitude.
fn square_law(magnitude: u32) -> (factor: u32)
    requires
        magnitude <= 255,
    ensures
        factor == gamma(magnitude as int),
        factor <= 255,
{
    proof {
        lemma_gamma_bound(magnitude as int);
    }
    assert(magnitude * magnitude <= 255 * 255) by (nonlinear_arith)
        requires
            0 <= magnitude <= 255,
    ;
    (magnitude * magnitude) / 255
}

/// A colour at `factor` 255ths, up to full.
fn scale_full(c: Rgb8, factor: u32) -> (r: Rgb8)
    requires
        factor <= 255,
    ensures
        r == scaled(c, factor as int),
{
    assert(c.r * factor <= 255 * 255 && c.g * factor <= 255 * 255 && c.b * factor <= 255 * 255)
        by (nonlinear_arith)
        requires
            factor <= 255,
            c.r <= 255,
            c.g <= 255,
            c.b <= 255,
    ;
    scale_rgb(c, factor)
}

/// The whole ring at one brightness, by the square law.
pub fn render_glow_uniform(
    frame: &mut [Rgb8; 31],
    magnitude: u8,
    underglow_start: usize,
    underglow_count: usize,
    accent: Rgb8,
)
    requires
        underglow_start + underglow_count <= NUM_LEDS,
    ensures
        final(frame)@ == filled(
            old(frame)@,
            underglow_start as int,
            underglow_count as int,
            scaled(accent, gamma(magnitude as int)),
        ),
{
    let factor: u32 = square_law(magnitude as u32);
    let color = scale_full(accent, factor);
    fill(frame, underglow_start, underglow_count, color);
}

/// Sets `count` LEDs from `start` on to one colour.
fn fill(frame: &mut [Rgb8; 31], start: usize, count: usize, color: Rgb8)
    requires
        start + count <= NUM_LEDS,
    ensures
        final(frame)@ == filled(old(frame)@, start as int, count as int, color),
{
    let mut i: usize = 0;
    while i < count
        invariant
            i <= count,
            start + count <= NUM_LEDS,
            frame@.len() == NUM_LEDS,
            forall|k: int|
                0 <= k < NUM_LEDS ==> #[trigger] frame@[k] == (if start <= k < start + i {
                    color
                } else {
                    old(frame)@[k]
                }),
        decreases count - i,
    {
        frame[start + i] = color;
        i = i + 1;
    }
    assert(frame@ =~= filled(old(frame)@, start as int, count as int, color));
}

// ─── The renderer ───────────────────────────────────────────────────────────

/// An underglow effect, with the time at which it started.
#[derive(Copy, Clone, Debug, PartialEq, Eq, Structural)]
pub enum UnderglowEffect {
    /// Volume gauge.
    Gauge(u64),
    /// Mute backdrop.
    Mute(u64),
}

/// State of the LED chain.
#[derive(Copy, Clone, Debug, PartialEq, Eq)]
pub struct LedRenderer {
    /// Colours last rendered.
    pub frame: [Rgb8; 31],
    /// Brightness of each press flash.
    pub press_brightness: [u8; 8],
    /// Effect on the ring.
    pub effect: Option<UnderglowEffect>,
    /// Milliseconds to the next frame.
    pub tick_ms: u64,
}

/// Whole milliseconds from `start` to `now`.
pub open spec fn elapsed_ms(start: u64, now: u64) -> int {
    (now - start) / (TICKS_PER_MS as int)
}

/// Intensity of the mute backdrop, in 255ths: full at first, fading linearly.
pub open spec fn mute_envelope(elapsed: int) -> int {
    255 - (elapsed * 255) / (MUTE_FADE_MS as int)
}

/// Intensity of the gauge, in 255ths: held, then fading linearly.
pub open spec fn gauge_envelope(elapsed: int) -> int {
    if elapsed < VOL_GAUGE_HOLD_MS {
        255
    } else {
        255 - ((elapsed - VOL_GAUGE_HOLD_MS) * 255) / (VOL_GAUGE_FADE_MS as int)
    }
}

/// Level that the gauge shows: none if muted, at most 100.
pub open spec fn gauge_level(s: DisplayState) -> int {
    if s.volume.muted {
        0
    } else if s.volume.level <= 100 {
        s.volume.level as int
    } else {
        100
    }
}

/// Length of the gauge at `level` percent, in 256ths of an LED.
pub open spec fn gauge_fill(level: int) -> int {
    (level * UNDERGLOW_COUNT * 256) / 100
}

/// Intensity, in 255ths, of gauge cell `cell` for a gauge `fill` 256ths long:
/// full where the gauge covers it, in part at the leading edge.
pub open spec fn cell_intensity(fill: int, cell: int) -> int {
    if fill >= cell * 256 + 256 {
        255
    } else if fill > cell * 256 {
        ((fill - cell * 256) * 255) / 256
    } else {
        0
    }
}

/// Brightness of gauge cell `cell`.
pub open spec fn gauge_factor(level: int, elapsed: int, cell: int) -> int {
    (cell_intensity(gauge_fill(level), cell) * gauge_envelope(elapsed)) / 255
}

/// A chain whose underglow shows the gauge: cell 0 on the last LED, running
/// down the chain.
pub open spec fn gauge_frame(frame: Seq<Rgb8>, level: int, elapsed: int) -> Seq<Rgb8> {
    Seq::new(
        frame.len(),
        |k: int|
            if UNDERGLOW_START <= k < UNDERGLOW_START + UNDERGLOW_COUNT {
                scaled(accent_underglow(), gauge_factor(level, elapsed, NUM_LEDS - 1 - k))
            } else {
                frame[k]
            },
    )
}

/// An effect that has not run its course by `now`.
pub open spec fn effect_live(effect: Option<UnderglowEffect>, now: u64) -> bool {
    match effect {
        Some(UnderglowEffect::Mute(start)) => now - start < MUTE_FADE_MS * TICKS_PER_MS,
        Some(UnderglowEffect::Gauge(start)) => now - start < (VOL_GAUGE_HOLD_MS + VOL_GAUGE_FADE_MS)
            * TICKS_PER_MS,
        None => false,
    }
}

/// A chain whose underglow shows `style` of the live spectrum.
pub open spec fn viz_frame(frame: Seq<Rgb8>, style: GlowViz, bands: Seq<u8>) -> Seq<Rgb8> {
    let start = UNDERGLOW_START as int;
    let count = UNDERGLOW_COUNT as int;
    let accent = accent_underglow();
    match style {
        GlowViz::Spec => glow_spec(frame, bands, start, count, SPIRAL_PIVOT as int, accent),
        GlowViz::Vu => filled(frame, start, count, scaled(accent, gamma(mean_band(bands)))),
        GlowViz::Bass => filled(
            frame,
            start,
            count,
            scaled(accent, gamma((bands[0] + bands[1]) / 2)),
        ),
        GlowViz::Off => frame,
    }
}

/// A chain with the underglow rendered: a live effect, else the live spectrum,
/// else dark.
pub open spec fn underglow_frame(
    frame: Seq<Rgb8>,
    effect: Option<UnderglowEffect>,
    s: DisplayState,
    now: u64,
) -> Seq<Rgb8> {
    let start = UNDERGLOW_START as int;
    let count = UNDERGLOW_COUNT as int;
    if effect_live(effect, now) {
        match effect {
            Some(UnderglowEffect::Mute(began)) => filled(
                frame,
                start,
                count,
                scaled(mute_color(), mute_envelope(elapsed_ms(began, now))),
            ),
            Some(UnderglowEffect::Gauge(began)) => gauge_frame(
                frame,
                gauge_level(s),
                elapsed_ms(began, now),
            ),
            None => frame,
        }
    } else if s.shows_glow_viz(now) {
        viz_frame(frame, s.glow_viz, s.bands@)
    } else {
        filled(frame, start, count, black())
    }
}

/// A chain with the per-key LEDs rendered.
pub open spec fn press_frame(frame: Seq<Rgb8>, press: Seq<u8>) -> Seq<Rgb8> {
    Seq::new(
        frame.len(),
        |k: int|
            if 0 <= k < UNDERGLOW_START {
                scaled(accent_perkey(), press[k] as int)
            } else {
                frame[k]
            },
    )
}

/// A press flash one tick later.
pub open spec fn decayed(brightness: u8) -> u8 {
    if brightness >= PRESS_DECAY {
        (brightness - PRESS_DECAY) as u8
    } else {
        0
    }
}

/// All press flashes one tick later.
pub open spec fn decayed_all(press: Seq<u8>) -> Seq<u8> {
    press.map_values(|b: u8| decayed(b))
}

/// No press flash is lit.
pub open spec fn all_dark(press: Seq<u8>) -> bool {
    forall|k: int| 0 <= k < press.len() ==> #[trigger] press[k] == 0
}

/// LED of the boot spiral at `step`.
pub open spec fn spiral_place(step: int) -> int {
    UNDERGLOW_START + (SPIRAL_PIVOT - UNDERGLOW_START + step) % (UNDERGLOW_COUNT as int)
}

/// The underglow LEDs that the boot spiral lights in its first `steps` steps.
pub open spec fn spiral_lit(steps: int, led: int) -> bool {
    exists|step: int| 0 <= step < steps && #[trigger] spiral_place(step) == led
}

impl LedRenderer {
    /// Effects did not start in the future.
    pub open spec fn clocked(self, now: u64) -> bool {
        match self.effect {
            Some(UnderglowEffect::Mute(start)) => start <= now,
            Some(UnderglowEffect::Gauge(start)) => start <= now,
            None => true,
        }
    }

    /// A dark chain.
    pub fn new() -> (l: LedRenderer)
        ensures
            l.frame@ == Seq::new(NUM_LEDS as nat, |k: int| black()),
            l.press_brightness@ == Seq::new(8, |k: int| 0u8),
            l.effect is None,
            l.tick_ms == ACTIVE_TICK_MS,
    {
        let l = LedRenderer {
            frame: [black();31],
            press_brightness: [0u8;8],
            effect: None,
            tick_ms: ACTIVE_TICK_MS,
        };
        assert(l.frame@ =~= Seq::new(NUM_LEDS as nat, |k: int| black()));
        assert(l.press_brightness@ =~= Seq::new(8, |k: int| 0u8));
        l
    }

    /// Step `step` of the boot spiral: lights one more underglow LED, from the
    /// one closest to the user around the ring.
    pub fn spiral_step(&mut self, step: usize)
        requires
            step < UNDERGLOW_COUNT,
        ensures
            final(self).frame@ == old(self).frame@.update(
                spiral_place(step as int),
                accent_underglow(),
            ),
            final(self).press_brightness == old(self).press_brightness,
            final(self).effect == old(self).effect,
            final(self).tick_ms == old(self).tick_ms,
    {
        let offset: usize = (SPIRAL_PIVOT - UNDERGLOW_START + step) % UNDERGLOW_COUNT;
        self.frame[UNDERGLOW_START + offset] = accent_underglow();
    }

    /// Blanks the chain at the end of the boot spiral.
    pub fn blank(&mut self)
        ensures
            final(self).frame@ == Seq::new(NUM_LEDS as nat, |k: int| black()),
            final(self).press_brightness == old(self).press_brightness,
            final(self).effect == old(self).effect,
            final(self).tick_ms == old(self).tick_ms,
    {
        fill(&mut self.frame, 0, NUM_LEDS, black());
        assert(self.frame@ =~= Seq::new(NUM_LEDS as nat, |k: int| black()));
    }

    /// Takes in a request at `now`: a press starts the flash of its LED, a
    /// volume or mute event replaces the effect on the ring.
    pub fn command(&mut self, cmd: LedCommand, now: u64)
        ensures
            final(self).frame == old(self).frame,
            final(self).tick_ms == old(self).tick_ms,
            final(self).press_brightness@ == (match cmd {
                LedCommand::KeyPress { led } => if led < 8 {
                    old(self).press_brightness@.update(led as int, 255)
                } else {
                    old(self).press_brightness@
                },
                _ => old(self).press_brightness@,
            }),
            final(self).effect == (match cmd {
                LedCommand::KeyPress { led } => old(self).effect,
                LedCommand::VolumeChanged => Some(UnderglowEffect::Gauge(now)),
                LedCommand::Muted => Some(UnderglowEffect::Mute(now)),
            }),
            old(self).clocked(now) ==> final(self).clocked(now),
    {
        match cmd {
            LedCommand::KeyPress { led } => {
                if led < 8 {
                    self.press_brightness[led as usize] = 255;
                }
            },
            LedCommand::VolumeChanged => {
                self.effect = Some(UnderglowEffect::Gauge(now));
            },
            LedCommand::Muted => {
                self.effect = Some(UnderglowEffect::Mute(now));
            },
        }
    }

    /// Renders the per-key LEDs and lets the press flashes decay.
    fn render_presses(&mut self)
        ensures
            final(self).frame@ == press_frame(old(self).frame@, old(self).press_brightness@),
            final(self).press_brightness@ == decayed_all(old(self).press_brightness@),
            final(self).effect == old(self).effect,
            final(self).tick_ms == old(self).tick_ms,
    {
        let mut i: usize = 0;
        while i < 8
            invariant
                i <= 8,
                self.frame@.len() == NUM_LEDS,
                self.press_brightness@.len() == 8,
                self.effect == old(self).effect,
                self.tick_ms == old(self).tick_ms,
                forall|k: int|
                    0 <= k < NUM_LEDS ==> #[trigger] self.frame@[k] == (if k < i {
                        scaled(accent_perkey(), old(self).press_brightness@[k] as int)
                    } else {
                        old(self).frame@[k]
                    }),
                forall|k: int|
                    0 <= k < 8 ==> #[trigger] self.press_brightness@[k] == (if k < i {
                        decayed(old(self).press_brightness@[k])
                    } else {
                        old(self).press_brightness@[k]
                    }),
            decreases 8 - i,
        {
            let press: u8 = self.press_brightness[i];
            self.frame[i] = scale_full(accent_perkey(), press as u32);
            self.press_brightness[i] = if press >= PRESS_DECAY {
                press - PRESS_DECAY
            } else {
                0
            };
            i = i + 1;
        }
        assert(self.frame@ =~= press_frame(old(self).frame@, old(self).press_brightness@));
        assert(self.press_brightness@ =~= decayed_all(old(self).press_brightness@));
    }

    /// Renders the volume gauge, `elapsed` milliseconds into its life.
    fn render_gauge(&mut self, level: u32, elapsed: u64)
        requires
            level <= 100,
            elapsed < VOL_GAUGE_HOLD_MS + VOL_GAUGE_FADE_MS,
        ensures
            final(self).frame@ == gauge_frame(old(self).frame@, level as int, elapsed as int),
            final(self).press_brightness == old(self).press_brightness,
            final(self).effect == old(self).effect,
            final(self).tick_ms == old(self).tick_ms,
    {
        let envelope: u32 = if elapsed < VOL_GAUGE_HOLD_MS {
            255
        } else {
            let into_fade: u64 = elapsed - VOL_GAUGE_HOLD_MS;
            255 - ((into_fade * 255) / VOL_GAUGE_FADE_MS) as u32
        };
        assert(envelope == gauge_envelope(elapsed as int));
        let count: u32 = UNDERGLOW_COUNT as u32;
        assert(count == 23);
        let fill_units: u32 = (level * count * 256) / 100;
        assert(fill_units == gauge_fill(level as int));
        let ghost target = gauge_frame(old(self).frame@, level as int, elapsed as int);
        let mut i: usize = 0;
        while i < UNDERGLOW_COUNT
            invariant
                i <= UNDERGLOW_COUNT,
                envelope <= 255,
                envelope == gauge_envelope(elapsed as int),
                fill_units == gauge_fill(level as int),
                self.frame@.len() == NUM_LEDS,
                target == gauge_frame(old(self).frame@, level as int, elapsed as int),
                self.press_brightness == old(self).press_brightness,
                self.effect == old(self).effect,
                self.tick_ms == old(self).tick_ms,
                forall|k: int|
                    0 <= k < NUM_LEDS ==> #[trigger] self.frame@[k] == (if k > NUM_LEDS - 1 - i {
                        target[k]
                    } else {
                        old(self).frame@[k]
                    }),
            decreases UNDERGLOW_COUNT - i,
        {
            let led_start: u32 = i as u32 * 256;
            let intensity: u32 = if fill_units >= led_start + 256 {
                255
            } else if fill_units > led_start {
                ((fill_units - led_start) * 255) / 256
            } else {
                0
            };
            assert(intensity == cell_intensity(fill_units as int, i as int));
            assert(intensity * envelope <= 255 * 255) by (nonlinear_arith)
                requires
                    intensity <= 255,
                    envelope <= 255,
            ;
            let factor: u32 = (intensity * envelope) / 255;
            assert(factor == gauge_factor(level as int, elapsed as int, i as int));
            let chain_offset: usize = (22 + UNDERGLOW_COUNT - i) % UNDERGLOW_COUNT;
            assert(UNDERGLOW_START + chain_offset == NUM_LEDS - 1 - i);
            self.frame[UNDERGLOW_START + chain_offset] = scale_full(accent_underglow(), factor);
            i = i + 1;
        }
        assert(self.frame@ =~= target);
    }

    /// Renders the underglow for the live state `s` at `now`, and drops an
    /// effect that has run its course.
    fn render_underglow(&mut self, s: &DisplayState, now: u64)
        requires
            old(self).clocked(now),
            s.last_visualizer <= now,
        ensures
            final(self).frame@ == underglow_frame(old(self).frame@, old(self).effect, *s, now),
            final(self).effect == (if effect_live(old(self).effect, now) {
                old(self).effect
            } else {
                None
            }),
            final(self).press_brightness == old(self).press_brightness,
            final(self).tick_ms == old(self).tick_ms,
    {
        if let Some(UnderglowEffect::Mute(start)) = self.effect {
            if now - start < MUTE_FADE_MS * TICKS_PER_MS {
                let elapsed: u64 = (now - start) / TICKS_PER_MS;
                let envelope: u32 = 255 - ((elapsed as u32) * 255) / (MUTE_FADE_MS as u32);
                let color = scale_full(mute_color(), envelope);
                fill(&mut self.frame, UNDERGLOW_START, UNDERGLOW_COUNT, color);
                return;
            }
        }
        if let Some(UnderglowEffect::Gauge(start)) = self.effect {
            if now - start < (VOL_GAUGE_HOLD_MS + VOL_GAUGE_FADE_MS) * TICKS_PER_MS {
                let elapsed: u64 = (now - start) / TICKS_PER_MS;
                let level: u32 = if s.volume.muted {
                    0
                } else if s.volume.level <= 100 {
                    s.volume.level as u32
                } else {
                    100
                };
                self.render_gauge(level, elapsed);
                return;
            }
        }
        self.effect = None;
        if s.glow_viz_active(now) {
            match s.glow_viz {
                GlowViz::Spec => render_glow_spec(
                    &mut self.frame,
                    &s.bands,
                    UNDERGLOW_START,
                    UNDERGLOW_COUNT,
                    SPIRAL_PIVOT,
                    accent_underglow(),
                ),
                GlowViz::Vu => render_glow_uniform(
                    &mut self.frame,
                    avg_band(&s.bands),
                    UNDERGLOW_START,
                    UNDERGLOW_COUNT,
                    accent_underglow(),
                ),
                GlowViz::Bass => render_glow_uniform(
                    &mut self.frame,
                    ((s.bands[0] as u16 + s.bands[1] as u16) / 2) as u8,
                    UNDERGLOW_START,
                    UNDERGLOW_COUNT,
                    accent_underglow(),
                ),
                GlowViz::Off => {},
            }
        } else {
            fill(&mut self.frame, UNDERGLOW_START, UNDERGLOW_COUNT, black());
        }
    }

    /// Every press flash has died down, no effect runs and no spectrum shows.
    pub open spec fn is_idle(self, s: DisplayState, now: u64) -> bool {
        &&& all_dark(self.press_brightness@)
        &&& self.effect is None
        &&& !s.shows_glow_viz(now)
    }

    /// Renders the frame for the live state `s` at `now`, and picks the time to
    /// the next one.
    pub fn tick(&mut self, s: &DisplayState, now: u64)
        requires
            old(self).clocked(now),
            s.last_visualizer <= now,
        ensures
            final(self).frame@ == underglow_frame(
                press_frame(old(self).frame@, old(self).press_brightness@),
                old(self).effect,
                *s,
                now,
            ),
            final(self).press_brightness@ == decayed_all(old(self).press_brightness@),
            final(self).effect == (if effect_live(old(self).effect, now) {
                old(self).effect
            } else {
                None
            }),
            final(self).tick_ms == (if final(self).is_idle(*s, now) {
                IDLE_TICK_MS
            } else {
                ACTIVE_TICK_MS
            }),
            final(self).clocked(now),
    {
        self.render_presses();
        self.render_underglow(s, now);
        let mut dark = true;
        let mut i: usize = 0;
        while i < 8
            invariant
                i <= 8,
                self.press_brightness@.len() == 8,
                dark == forall|k: int| 0 <= k < i ==> #[trigger] self.press_brightness@[k] == 0,
            decreases 8 - i,
        {
            if self.press_brightness[i] != 0 {
                dark = false;
            }
            i = i + 1;
        }
        assert(dark == all_dark(self.press_brightness@));
        let idle = dark && self.effect.is_none() && !s.glow_viz_active(now);
        self.tick_ms = if idle {
            IDLE_TICK_MS
        } else {
            ACTIVE_TICK_MS
        };
    }
}

// ─── Laws ───────────────────────────────────────────────────────────────────

/// Keys and ring keep to themselves: the underglow never changes a per-key LED,
/// and the per-key LEDs never change the underglow.
pub proof fn lemma_keys_and_ring_are_apart(
    frame: Seq<Rgb8>,
    press: Seq<u8>,
    effect: Option<UnderglowEffect>,
    s: DisplayState,
    now: u64,
    k: int,
)
    requires
        frame.len() == NUM_LEDS,
        0 <= k < NUM_LEDS,
    ensures
        k < UNDERGLOW_START ==> underglow_frame(frame, effect, s, now)[k] == frame[k],
        k >= UNDERGLOW_START ==> press_frame(frame, press)[k] == frame[k],
{
}

/// The ring does not remember: what it shows depends on the effect, the live
/// state and the time, not on the frame before.
pub proof fn lemma_ring_forgets(
    a: Seq<Rgb8>,
    b: Seq<Rgb8>,
    effect: Option<UnderglowEffect>,
    s: DisplayState,
    now: u64,
    k: int,
)
    requires
        a.len() == NUM_LEDS,
        b.len() == NUM_LEDS,
        UNDERGLOW_START <= k < NUM_LEDS,
    ensures
        underglow_frame(a, effect, s, now)[k] == underglow_frame(b, effect, s, now)[k],
{
}

/// A ring without a live effect and without fresh bands is dark.
pub proof fn lemma_idle_ring_is_dark(
    frame: Seq<Rgb8>,
    effect: Option<UnderglowEffect>,
    s: DisplayState,
    now: u64,
    k: int,
)
    requires
        frame.len() == NUM_LEDS,
        !effect_live(effect, now),
        !s.shows_glow_viz(now),
        UNDERGLOW_START <= k < NUM_LEDS,
    ensures
        underglow_frame(frame, effect, s, now)[k] == black(),
{
}

/// Press flashes die down: after `n` ticks without a press a flash that began
/// at full has lost `n` times the decay, and after 15 it is out.
pub proof fn lemma_flash_dies_down(n: nat)
    ensures
        n <= 14 ==> decayed_by(255, n) == 255 - n * PRESS_DECAY,
        n >= 15 ==> decayed_by(255, n) == 0,
    decreases n,
{
    if n > 0 {
        lemma_flash_dies_down((n - 1) as nat);
    }
}

/// A press flash `n` ticks later.
pub open spec fn decayed_by(brightness: u8, n: nat) -> u8
    decreases n,
{
    if n == 0 {
        brightness
    } else {
        decayed(decayed_by(brightness, (n - 1) as nat))
    }
}

/// An effect ends: the mute backdrop after a second, the gauge after 2.2, for
/// good.
pub proof fn lemma_effects_end(effect: UnderglowEffect, earlier: u64, later: u64)
    requires
        earlier <= later,
    ensures
        match effect {
            UnderglowEffect::Mute(start) => effect_live(Some(effect), earlier) <==> earlier - start
                < 1_000_000,
            UnderglowEffect::Gauge(start) => effect_live(Some(effect), earlier) <==> earlier - start
                < 2_200_000,
        },
        !effect_live(Some(effect), earlier) ==> !effect_live(Some(effect), later),
{
}

/// Envelopes of live effects stay within range and never rise.
pub proof fn lemma_envelopes_fall(a: int, b: int)
    requires
        0 <= a <= b,
    ensures
        b < MUTE_FADE_MS ==> 0 < mute_envelope(b) <= mute_envelope(a) <= 255,
        b < VOL_GAUGE_HOLD_MS + VOL_GAUGE_FADE_MS ==> 0 < gauge_envelope(b) <= gauge_envelope(a)
            <= 255,
{
}

/// The gauge shows the level: dark at 0, and at 100 every cell at full as long
/// as it is held; and over its whole time no cell is darker at a higher level
/// or brighter later.
pub proof fn lemma_gauge_shows_level(a: int, b: int, earlier: int, later: int, cell: int)
    requires
        0 <= a <= b <= 100,
        0 <= earlier <= later < VOL_GAUGE_HOLD_MS + VOL_GAUGE_FADE_MS,
        0 <= cell < UNDERGLOW_COUNT,
    ensures
        gauge_factor(0, earlier, cell) == 0,
        earlier < VOL_GAUGE_HOLD_MS ==> gauge_factor(100, earlier, cell) == 255,
        0 <= gauge_factor(a, later, cell) <= gauge_factor(b, earlier, cell) <= 255,
{
    assert(gauge_fill(a) <= gauge_fill(b));
    let x = cell_intensity(gauge_fill(a), cell);
    let y = cell_intensity(gauge_fill(b), cell);
    assert(0 <= x <= y <= 255);
    lemma_envelopes_fall(earlier, later);
    let p = gauge_envelope(later);
    let q = gauge_envelope(earlier);
    assert(0 <= x * p <= y * q <= 255 * 255) by (nonlinear_arith)
        requires
            0 <= x <= y <= 255,
            0 <= p <= q <= 255,
    ;
    assert(cell_intensity(gauge_fill(0), cell) == 0);
    assert(cell_intensity(gauge_fill(100), cell) == 255);
    assert(0 * q == 0) by (nonlinear_arith);
}

/// On the chain: over the gauge's whole time no LED is darker at a higher level
/// or brighter later.
pub proof fn lemma_gauge_leds_follow(
    frame: Seq<Rgb8>,
    a: int,
    b: int,
    earlier: int,
    later: int,
    k: int,
)
    requires
        0 <= a <= b <= 100,
        0 <= earlier <= later < VOL_GAUGE_HOLD_MS + VOL_GAUGE_FADE_MS,
        frame.len() == NUM_LEDS,
        0 <= k < NUM_LEDS,
    ensures
        gauge_frame(frame, a, later)[k].r <= gauge_frame(frame, b, earlier)[k].r,
        gauge_frame(frame, a, later)[k].g <= gauge_frame(frame, b, earlier)[k].g,
        gauge_frame(frame, a, later)[k].b <= gauge_frame(frame, b, earlier)[k].b,
{
    if k >= UNDERGLOW_START {
        let cell = NUM_LEDS - 1 - k;
        lemma_gauge_shows_level(a, b, earlier, later, cell);
        lemma_scaled_bounds(
            accent_underglow(),
            gauge_factor(a, later, cell),
            gauge_factor(b, earlier, cell),
        );
    }
}

/// The gauge lights its cells in order: a cell lights up only once the cell
/// before it is full.
pub proof fn lemma_gauge_fills_in_order(fill: int, cell: int)
    requires
        0 <= cell,
        cell_intensity(fill, cell + 1) > 0,
    ensures
        cell_intensity(fill, cell) == 255,
{
}

/// The spectrum is mirrored around the pivot: places equally far from it on
/// either side are equally bright.
pub proof fn lemma_spectrum_is_mirrored(bands: Seq<u8>, center: int, d: int, count: int)
    requires
        count > 0,
        0 <= d < count,
    ensures
        spectrum_factor(bands, center + d, center, count) == spectrum_factor(
            bands,
            center - d,
            center,
            count,
        ),
{
    if d > 0 {
        vstd::arithmetic::div_mod::lemma_small_mod(d as nat, count as nat);
        vstd::arithmetic::div_mod::lemma_small_mod((count - d) as nat, count as nat);
        vstd::arithmetic::div_mod::lemma_mod_add_multiples_vanish(-d, count);
        assert((-d) % count == count - d);
    }
}

/// The pivot shows the lowest band.
pub proof fn lemma_bass_at_pivot(bands: Seq<u8>, center: int, count: int)
    requires
        count >= 2,
        bands.len() == 8,
    ensures
        spectrum_factor(bands, center, center, count) == gamma(bands[0] as int),
{
    assert(ring_distance(center, center, count) == 0) by {
        vstd::arithmetic::div_mod::lemma_small_mod(0, count as nat);
    }
    assert(band_position(0, count) == 0) by {
        vstd::arithmetic::div_mod::lemma_div_of0(count / 2);
    }
    let v1 = bands[1] as int;
    assert(v1 * 0 == 0);
    assert(interpolated(bands, 0) == (bands[0] * 256 + v1 * 0) / 256);
}

/// Half a ring away from the pivot, either way around, shows the highest band.
pub proof fn lemma_treble_at_back(bands: Seq<u8>, center: int, count: int, i: int)
    requires
        count >= 2,
        bands.len() == 8,
        ring_distance(i, center, count) == count / 2 || i == center + count / 2 || i == center
            - count / 2,
    ensures
        ring_distance(i, center, count) == count / 2,
        spectrum_factor(bands, i, center, count) == gamma(bands[7] as int),
{
    let half = count / 2;
    if i == center + half {
        vstd::arithmetic::div_mod::lemma_small_mod(half as nat, count as nat);
    } else if i == center - half {
        vstd::arithmetic::div_mod::lemma_small_mod((count - half) as nat, count as nat);
        vstd::arithmetic::div_mod::lemma_mod_add_multiples_vanish(-half, count);
        assert((-half) % count == count - half);
    }
    assert(band_position(half, count) == 1792) by {
        assert(half * 7 * 256 == 1792 * half);
        vstd::arithmetic::div_mod::lemma_div_multiples_vanish(1792, half);
        assert(half * 1792 == 1792 * half) by (nonlinear_arith);
    }
    let v = bands[7] as int;
    assert(v * 0 == 0);
    assert(interpolated(bands, 1792) == (v * 256 + v * 0) / 256);
}

/// No band of `a` is louder than that of `b`.
pub open spec fn no_louder(a: Seq<u8>, b: Seq<u8>) -> bool {
    &&& a.len() == 8
    &&& b.len() == 8
    &&& forall|i: int| 0 <= i < 8 ==> #[trigger] a[i] <= b[i]
}

/// Square-law brightness grows with the magnitude.
proof fn lemma_gamma_grows(m: int, n: int)
    requires
        0 <= m <= n <= 255,
    ensures
        0 <= gamma(m) <= gamma(n) <= 255,
{
    lemma_gamma_bound(m);
    lemma_gamma_bound(n);
    assert(m * m <= n * n) by (nonlinear_arith)
        requires
            0 <= m <= n,
    ;
}

/// No place on the ring darkens as a band grows.
pub proof fn lemma_spectrum_grows(a: Seq<u8>, b: Seq<u8>, i: int, center: int, count: int)
    requires
        no_louder(a, b),
        count >= 2,
    ensures
        0 <= spectrum_factor(a, i, center, count) <= spectrum_factor(b, i, center, count) <= 255,
{
    let dist = ring_distance(i, center, count);
    vstd::arithmetic::div_mod::lemma_mod_bound(i - center, count);
    let pos = band_position(dist, count);
    assert(0 <= pos) by {
        vstd::arithmetic::div_mod::lemma_div_pos_is_pos(dist * 7 * 256, count / 2);
    }
    let bi = pos / 256;
    let frac = pos % 256;
    let j0 = if bi < 7 {
        bi
    } else {
        7
    };
    let j1 = if bi + 1 < 7 {
        bi + 1
    } else {
        7
    };
    let (a0, a1) = (a[j0] as int, a[j1] as int);
    let (b0, b1) = (b[j0] as int, b[j1] as int);
    assert(a0 <= b0 && a1 <= b1);
    assert(a0 * (256 - frac) + a1 * frac <= b0 * (256 - frac) + b1 * frac) by (nonlinear_arith)
        requires
            0 <= a0 <= b0,
            0 <= a1 <= b1,
            0 <= frac < 256,
    ;
    lemma_interpolated_bound(a, pos);
    lemma_interpolated_bound(b, pos);
    lemma_gamma_grows(interpolated(a, pos), interpolated(b, pos));
}

/// On the chain: whatever the style, no LED darkens as a band grows.
pub proof fn lemma_louder_is_no_darker(
    frame: Seq<Rgb8>,
    style: GlowViz,
    a: Seq<u8>,
    b: Seq<u8>,
    k: int,
)
    requires
        frame.len() == NUM_LEDS,
        no_louder(a, b),
        0 <= k < NUM_LEDS,
    ensures
        viz_frame(frame, style, a)[k].r <= viz_frame(frame, style, b)[k].r,
        viz_frame(frame, style, a)[k].g <= viz_frame(frame, style, b)[k].g,
        viz_frame(frame, style, a)[k].b <= viz_frame(frame, style, b)[k].b,
{
    if k >= UNDERGLOW_START {
        let i = k - UNDERGLOW_START;
        let center = SPIRAL_PIVOT - UNDERGLOW_START;
        let count = UNDERGLOW_COUNT as int;
        let accent = accent_underglow();
        match style {
            GlowViz::Spec => {
                lemma_spectrum_grows(a, b, i, center, count);
                lemma_scaled_bounds(
                    accent,
                    spectrum_factor(a, i, center, count),
                    spectrum_factor(b, i, center, count),
                );
            },
            GlowViz::Vu => {
                assert(a[0] <= b[0] && a[1] <= b[1] && a[2] <= b[2] && a[3] <= b[3]);
                assert(a[4] <= b[4] && a[5] <= b[5] && a[6] <= b[6] && a[7] <= b[7]);
                lemma_gamma_grows(mean_band(a), mean_band(b));
                lemma_scaled_bounds(accent, gamma(mean_band(a)), gamma(mean_band(b)));
            },
            GlowViz::Bass => {
                assert(a[0] <= b[0] && a[1] <= b[1]);
                let low = (a[0] + a[1]) / 2;
                let high = (b[0] + b[1]) / 2;
                lemma_gamma_grows(low, high);
                lemma_scaled_bounds(accent, gamma(low), gamma(high));
            },
            GlowViz::Off => {},
        }
    }
}

/// The boot spiral visits every underglow LED once, and no other.
pub proof fn lemma_spiral_covers_ring()
    ensures
        forall|step: int|
            0 <= step < UNDERGLOW_COUNT ==> UNDERGLOW_START <= #[trigger] spiral_place(step)
                < NUM_LEDS,
        forall|a: int, b: int|
            0 <= a < UNDERGLOW_COUNT && 0 <= b < UNDERGLOW_COUNT && #[trigger] spiral_place(a)
                == #[trigger] spiral_place(b) ==> a == b,
        forall|led: int|
            UNDERGLOW_START <= led < NUM_LEDS ==> #[trigger] spiral_lit(
                UNDERGLOW_COUNT as int,
                led,
            ),
{
    assert forall|led: int| UNDERGLOW_START <= led < NUM_LEDS implies #[trigger] spiral_lit(
        UNDERGLOW_COUNT as int,
        led,
    ) by {
        let step = if led >= SPIRAL_PIVOT {
            led - SPIRAL_PIVOT
        } else {
            led - SPIRAL_PIVOT + UNDERGLOW_COUNT
        };
        assert(spiral_place(step) == led);
    }
}

// ─── Laws of single places and values ───────────────────────────────────────

/// `q` is `x` divided by `d`, rounded down.
pub open spec fn is_quotient(q: int, x: int, d: int) -> bool {
    d * q <= x < d * q + d
}

/// Scaling is exact: each channel is its share of the colour's, rounded down.
pub proof fn lemma_scaling_is_exact(c: Rgb8, f: int)
    requires
        0 <= f <= 255,
    ensures
        is_quotient(scaled(c, f).r as int, c.r * f, 255),
        is_quotient(scaled(c, f).g as int, c.g * f, 255),
        is_quotient(scaled(c, f).b as int, c.b * f, 255),
{
    lemma_channel_is_exact(c.r, f);
    lemma_channel_is_exact(c.g, f);
    lemma_channel_is_exact(c.b, f);
}

/// The same of one channel.
proof fn lemma_channel_is_exact(c: u8, f: int)
    requires
        0 <= f <= 255,
    ensures
        is_quotient(scaled_channel(c, f) as int, c * f, 255),
{
    assert(0 <= c * f <= 255 * 255) by (nonlinear_arith)
        requires
            0 <= f <= 255,
            0 <= c <= 255,
    ;
}

/// The mean of the bands is their sum over eight, rounded down; the square law
/// is the square over 255, rounded down.
pub proof fn lemma_mean_and_square(bands: Seq<u8>, m: int)
    requires
        bands.len() == 8,
        0 <= m <= 255,
    ensures
        is_quotient(
            mean_band(bands),
            bands[0] + bands[1] + bands[2] + bands[3] + bands[4] + bands[5] + bands[6] + bands[7],
            8,
        ),
        is_quotient(gamma(m), m * m, 255),
{
    assert(0 <= m * m) by (nonlinear_arith);
}

/// The distance of a place is the fewest steps to the centre, either way around
/// the ring.
pub proof fn lemma_distance_is_fewest_steps(i: int, center: int, count: int)
    requires
        count >= 2,
    ensures
        ({
            let d = ring_distance(i, center, count);
            &&& 0 <= d <= count / 2
            &&& (center + d - i) % count == 0 || (center - d - i) % count == 0
        }),
{
    let raw = (i - center) % count;
    vstd::arithmetic::div_mod::lemma_fundamental_div_mod(i - center, count);
    let q = (i - center) / count;
    assert(i - center == count * q + raw);
    assert(center + raw - i == (-q) * count) by (nonlinear_arith)
        requires
            i - center == count * q + raw,
    ;
    assert(center - (count - raw) - i == (-q - 1) * count) by (nonlinear_arith)
        requires
            i - center == count * q + raw,
    ;
    vstd::arithmetic::div_mod::lemma_mod_multiples_basic(-q, count);
    vstd::arithmetic::div_mod::lemma_mod_multiples_basic(-q - 1, count);
}

/// Positions run evenly from the lowest band at the centre to the highest half
/// a ring away: seven bands of 256 steps each, rounded down.
pub proof fn lemma_positions_run_evenly(dist: int, count: int)
    requires
        count >= 2,
        0 <= dist <= count / 2,
    ensures
        is_quotient(band_position(dist, count), 1792 * dist, count / 2),
        0 <= band_position(dist, count) <= 1792,
{
    let half = count / 2;
    let x = dist * 7 * 256;
    vstd::arithmetic::div_mod::lemma_fundamental_div_mod(x, half);
    let q = x / half;
    assert(half * q <= x < half * q + half);
    assert(x <= 1792 * half);
    assert(0 <= q <= 1792) by (nonlinear_arith)
        requires
            half > 0,
            0 <= x <= 1792 * half,
            half * q <= x < half * q + half,
    ;
}

/// Bands stand in order: at a position of exactly `b` bands the value is that of
/// band `b`, and from there to the next band it moves evenly from the one to the
/// other, rounded down.
pub proof fn lemma_bands_stand_in_order(bands: Seq<u8>, b: int, frac: int)
    requires
        bands.len() == 8,
        0 <= b <= 7,
        0 <= frac < 256,
    ensures
        interpolated(bands, 256 * b) == bands[b],
        b < 7 ==> is_quotient(
            interpolated(bands, 256 * b + frac),
            bands[b] * (256 - frac) + bands[b + 1] * frac,
            256,
        ),
        b < 7 && bands[b] <= bands[b + 1] ==> bands[b] <= interpolated(bands, 256 * b + frac)
            <= bands[b + 1],
        b < 7 && bands[b + 1] <= bands[b] ==> bands[b + 1] <= interpolated(bands, 256 * b + frac)
            <= bands[b],
{
    let v0 = bands[b] as int;
    assert((256 * b) / 256 == b && (256 * b) % 256 == 0);
    let behind = bands[if b + 1 < 7 {
        b + 1
    } else {
        7
    }] as int;
    assert(behind * 0 == 0);
    assert(interpolated(bands, 256 * b) == (v0 * 256 + behind * 0) / 256);
    if b < 7 {
        let v1 = bands[b + 1] as int;
        let pos = 256 * b + frac;
        assert(pos / 256 == b && pos % 256 == frac);
        let mix = v0 * (256 - frac) + v1 * frac;
        assert(interpolated(bands, pos) == mix / 256);
        if v0 <= v1 {
            assert(256 * v0 <= mix <= 256 * v1) by (nonlinear_arith)
                requires
                    mix == v0 * (256 - frac) + v1 * frac,
                    v0 <= v1,
                    0 <= frac < 256,
            ;
        } else {
            assert(256 * v1 <= mix <= 256 * v0) by (nonlinear_arith)
                requires
                    mix == v0 * (256 - frac) + v1 * frac,
                    v1 <= v0,
                    0 <= frac < 256,
            ;
        }
    }
}

/// A band shows at its own place and nowhere else: where two spectra differ in
/// band `b` alone, every LED a band's width or more away from that band's
/// position, and every LED off the ring, is the same.
pub proof fn lemma_band_shows_at_its_place(
    frame: Seq<Rgb8>,
    x: Seq<u8>,
    y: Seq<u8>,
    b: int,
    start: int,
    count: int,
    pivot: int,
    accent: Rgb8,
    k: int,
)
    requires
        x.len() == 8,
        y.len() == 8,
        0 <= b <= 7,
        forall|j: int| 0 <= j < 8 && j != b ==> #[trigger] x[j] == y[j],
        count >= 2,
        0 <= k < frame.len(),
        ({
            let pos = band_position(ring_distance(k - start, pivot - start, count), count);
            k < start || k >= start + count || pos <= 256 * b - 256 || pos >= 256 * b + 256
        }),
    ensures
        glow_spec(frame, x, start, count, pivot, accent)[k] == glow_spec(
            frame,
            y,
            start,
            count,
            pivot,
            accent,
        )[k],
        k < start || k >= start + count ==> glow_spec(frame, x, start, count, pivot, accent)[k]
            == frame[k],
{
    if start <= k < start + count {
        let dist = ring_distance(k - start, pivot - start, count);
        lemma_distance_is_fewest_steps(k - start, pivot - start, count);
        lemma_positions_run_evenly(dist, count);
        let pos = band_position(dist, count);
        let bi = pos / 256;
        let frac = pos % 256;
        lemma_bands_stand_in_order(x, bi, frac);
        lemma_bands_stand_in_order(y, bi, frac);
        assert(256 * bi + frac == pos);
        if bi < 7 {
            if frac == 0 {
                assert(x[bi] == y[bi]);
            } else {
                assert(bi != b && bi + 1 != b);
                assert(x[bi] == y[bi] && x[bi + 1] == y[bi + 1]);
            }
        } else {
            assert(frac == 0);
            assert(x[7] == y[7]);
        }
        assert(interpolated(x, pos) == interpolated(y, pos));
    }
}

/// An LED on the ring shows the accent at the square of the value that the
/// spectrum has at its place.
pub proof fn lemma_led_shows_its_place(
    frame: Seq<Rgb8>,
    bands: Seq<u8>,
    start: int,
    count: int,
    pivot: int,
    accent: Rgb8,
    k: int,
)
    requires
        bands.len() == 8,
        count >= 2,
        0 <= k < frame.len(),
        start <= k < start + count,
    ensures
        ({
            let pos = band_position(ring_distance(k - start, pivot - start, count), count);
            let v = interpolated(bands, pos);
            let led = glow_spec(frame, bands, start, count, pivot, accent)[k];
            &&& 0 <= v <= 255
            &&& exists|f: int|
                {
                    &&& is_quotient(f, v * v, 255)
                    &&& #[trigger] is_share(led, accent, f)
                }
        }),
{
    let dist = ring_distance(k - start, pivot - start, count);
    lemma_distance_is_fewest_steps(k - start, pivot - start, count);
    lemma_positions_run_evenly(dist, count);
    let v = interpolated(bands, band_position(dist, count));
    lemma_interpolated_bound(bands, band_position(dist, count));
    lemma_mean_and_square(bands, v);
    lemma_gamma_bound(v);
    lemma_scaling_is_exact(accent, gamma(v));
    assert(is_share(
        glow_spec(frame, bands, start, count, pivot, accent)[k],
        accent,
        gamma(v),
    ));
}

/// A colour is another at `f` 255ths, each channel rounded down.
pub open spec fn is_share(led: Rgb8, of: Rgb8, f: int) -> bool {
    &&& is_quotient(led.r as int, of.r * f, 255)
    &&& is_quotient(led.g as int, of.g * f, 255)
    &&& is_quotient(led.b as int, of.b * f, 255)
}

/// The accents, the mute colour and black.
pub proof fn lemma_colours()
    ensures
        accent_underglow() == (Rgb8 { r: 112, g: 32, b: 0 }),
        accent_perkey() == (Rgb8 { r: 96, g: 12, b: 0 }),
        mute_color() == (Rgb8 { r: 140, g: 0, b: 0 }),
        black() == (Rgb8 { r: 0, g: 0, b: 0 }),
{
}

/// Each key's LED shows the key accent at the brightness of that key's own
/// flash, and a flash loses 18 a tick, down to nothing.
pub proof fn lemma_flash_shows_on_its_led(frame: Seq<Rgb8>, press: Seq<u8>, k: int)
    requires
        frame.len() == 31,
        press.len() == 8,
        0 <= k < 31,
    ensures
        press_frame(frame, press).len() == 31,
        k < 8 ==> is_share(
            press_frame(frame, press)[k],
            Rgb8 { r: 96, g: 12, b: 0 },
            press[k] as int,
        ),
        k >= 8 ==> press_frame(frame, press)[k] == frame[k],
        decayed_all(press).len() == 8,
        k < 8 && press[k] >= 18 ==> decayed_all(press)[k] == press[k] - 18,
        k < 8 && press[k] < 18 ==> decayed_all(press)[k] == 0,
{
    if k < 8 {
        lemma_scaling_is_exact(accent_perkey(), press[k] as int);
    }
}

/// The boot spiral starts at LED 13 and takes the LEDs in chain order, from the
/// last underglow LED on to the first.
pub proof fn lemma_spiral_runs_in_order(step: int)
    requires
        0 <= step < 22,
    ensures
        spiral_place(0) == 13,
        spiral_place(step) < 30 ==> spiral_place(step + 1) == spiral_place(step) + 1,
        spiral_place(step) == 30 ==> spiral_place(step + 1) == 8,
{
}

/// The envelopes are linear: full at first, the mute backdrop falling over 1000
/// ms, the gauge held for 1500 and falling over 700. Time is counted in whole
/// milliseconds.
pub proof fn lemma_envelopes_are_linear(elapsed: int, start: u64, now: u64)
    requires
        0 <= elapsed,
        start <= now,
    ensures
        is_quotient(255 - mute_envelope(elapsed), 255 * elapsed, 1000),
        elapsed < 1500 ==> gauge_envelope(elapsed) == 255,
        elapsed >= 1500 ==> is_quotient(
            255 - gauge_envelope(elapsed),
            255 * (elapsed - 1500),
            700,
        ),
        is_quotient(elapsed_ms(start, now), now - start, 1000),
{
}

/// The gauge is as long as the level says: muted none, else at most 100 percent
/// of 23 LEDs, in steps of a 256th of an LED; each cell shows the part of it
/// that the gauge covers, dimmed by the envelope.
pub proof fn lemma_gauge_is_in_proportion(
    s: DisplayState,
    level: int,
    elapsed: int,
    fill: int,
    cell: int,
)
    requires
        0 <= level <= 100,
        0 <= elapsed < 2200,
        0 <= fill,
        0 <= cell < 23,
    ensures
        s.volume.muted ==> gauge_level(s) == 0,
        !s.volume.muted && s.volume.level <= 100 ==> gauge_level(s) == s.volume.level,
        !s.volume.muted && s.volume.level > 100 ==> gauge_level(s) == 100,
        is_quotient(gauge_fill(level), level * 5888, 100),
        fill <= 256 * cell ==> cell_intensity(fill, cell) == 0,
        fill >= 256 * cell + 256 ==> cell_intensity(fill, cell) == 255,
        256 * cell < fill < 256 * cell + 256 ==> is_quotient(
            cell_intensity(fill, cell),
            255 * (fill - 256 * cell),
            256,
        ),
        is_quotient(
            gauge_factor(level, elapsed, cell),
            cell_intensity(gauge_fill(level), cell) * gauge_envelope(elapsed),
            255,
        ),
{
}

/// The gauge runs down the chain from LED 30: while it is held, an LED that the
/// level covers shows the full accent, one that it does not reach is dark, and
/// the keys are left alone.
pub proof fn lemma_gauge_runs_down_the_chain(
    frame: Seq<Rgb8>,
    level: int,
    elapsed: int,
    k: int,
)
    requires
        frame.len() == 31,
        0 <= level <= 100,
        0 <= elapsed < 2200,
        0 <= k < 31,
    ensures
        k < 8 ==> gauge_frame(frame, level, elapsed)[k] == frame[k],
        k >= 8 && elapsed < 1500 && level * 23 >= 100 * (31 - k) ==> gauge_frame(
            frame,
            level,
            elapsed,
        )[k] == (Rgb8 { r: 112, g: 32, b: 0 }),
        k >= 8 && level * 23 <= 100 * (30 - k) ==> gauge_frame(frame, level, elapsed)[k] == (Rgb8 {
            r: 0,
            g: 0,
            b: 0,
        }),
        k >= 8 ==> is_share(
            gauge_frame(frame, level, elapsed)[k],
            Rgb8 { r: 112, g: 32, b: 0 },
            gauge_factor(level, elapsed, 30 - k),
        ),
{
    if k >= 8 {
        let cell = 30 - k;
        lemma_gauge_shows_level(level, level, elapsed, elapsed, cell);
        lemma_scaling_is_exact(accent_underglow(), gauge_factor(level, elapsed, cell));
        lemma_scaled_bounds(accent_underglow(), 0, 255);
        let x = cell_intensity(gauge_fill(level), cell);
        if level * 23 <= 100 * (30 - k) {
            assert(x == 0);
            assert(0 * gauge_envelope(elapsed) == 0);
            assert(gauge_factor(level, elapsed, cell) == 0);
        }
        if elapsed < 1500 && level * 23 >= 100 * (31 - k) {
            assert(x == 255);
            assert(gauge_factor(level, elapsed, cell) == 255);
        }
    }
}

/// What the ring shows: a live mute backdrop all over in red; a live gauge of
/// the volume; else, with fresh bands, the chosen style, which is the spectrum
/// around LED 13, the mean of all bands, or that of the two lowest; else
/// nothing.
pub proof fn lemma_ring_shows(
    frame: Seq<Rgb8>,
    effect: Option<UnderglowEffect>,
    s: DisplayState,
    now: u64,
    k: int,
)
    requires
        frame.len() == 31,
        8 <= k < 31,
        match effect {
            Some(UnderglowEffect::Mute(start)) => start <= now,
            Some(UnderglowEffect::Gauge(start)) => start <= now,
            None => true,
        },
    ensures
        ({
            let led = underglow_frame(frame, effect, s, now)[k];
            let fresh = s.last_visualizer != 0 && now - s.last_visualizer < 500_000;
            let accent = Rgb8 { r: 112, g: 32, b: 0 };
            let bass = (s.bands@[0] + s.bands@[1]) / 2;
            let quiet = match effect {
                Some(UnderglowEffect::Mute(start)) => now - start >= 1_000_000,
                Some(UnderglowEffect::Gauge(start)) => now - start >= 2_200_000,
                None => true,
            };
            &&& match effect {
                Some(UnderglowEffect::Mute(start)) => now - start < 1_000_000 ==> is_share(
                    led,
                    Rgb8 { r: 140, g: 0, b: 0 },
                    mute_envelope((now - start) / 1000),
                ),
                Some(UnderglowEffect::Gauge(start)) => now - start < 2_200_000 ==> led
                    == gauge_frame(frame, gauge_level(s), (now - start) / 1000)[k],
                None => true,
            }
            &&& quiet && fresh && s.glow_viz == GlowViz::Spec ==> led == glow_spec(
                frame,
                s.bands@,
                8,
                23,
                13,
                accent,
            )[k]
            &&& quiet && fresh && s.glow_viz == GlowViz::Vu ==> is_share(
                led,
                accent,
                gamma(mean_band(s.bands@)),
            )
            &&& quiet && fresh && s.glow_viz == GlowViz::Bass ==> is_share(
                led,
                accent,
                gamma(bass),
            )
            &&& quiet && (!fresh || s.glow_viz == GlowViz::Off) ==> led == (Rgb8 {
                r: 0,
                g: 0,
                b: 0,
            })
        }),
{
    let accent = accent_underglow();
    if let Some(UnderglowEffect::Mute(start)) = effect {
        if now - start < 1_000_000 {
            let e = elapsed_ms(start, now);
            lemma_envelopes_fall(e, e);
            lemma_scaling_is_exact(mute_color(), mute_envelope(e));
        }
    }
    lemma_gamma_bound(mean_band(s.bands@));
    lemma_scaling_is_exact(accent, gamma(mean_band(s.bands@)));
    let bass = (s.bands@[0] + s.bands@[1]) / 2;
    lemma_gamma_bound(bass);
    lemma_scaling_is_exact(accent, gamma(bass));
}

/// The chain is idle exactly where nothing is lit or about to be: no flash, no
/// effect, and no fresh bands for a style that shows.
pub proof fn lemma_idle_is_dark(l: LedRenderer, s: DisplayState, now: u64)
    ensures
        l.is_idle(s, now) <==> {
            &&& forall|k: int| 0 <= k < 8 ==> #[trigger] l.press_brightness@[k] == 0
            &&& l.effect is None
            &&& s.glow_viz == GlowViz::Off || s.last_visualizer == 0 || now - s.last_visualizer
                >= 500_000
        },
{
}

/// A fill colours the LEDs of its range and no other.
pub proof fn lemma_fills_cover_their_range(
    frame: Seq<Rgb8>,
    start: int,
    count: int,
    color: Rgb8,
    k: int,
)
    requires
        0 <= k < frame.len(),
    ensures
        filled(frame, start, count, color).len() == frame.len(),
        start <= k < start + count ==> filled(frame, start, count, color)[k] == color,
        k < start || k >= start + count ==> filled(frame, start, count, color)[k] == frame[k],
{
}

/// The chain: 31 LEDs, the underglow from LED 8 on; frames 16 ms apart while
/// anything moves and 100 ms apart while nothing does; the boot spiral takes a
/// step every 85 ms and stands for 400.
pub proof fn lemma_chain_and_times()
    ensures
        NUM_LEDS == 31,
        UNDERGLOW_START == 8,
        UNDERGLOW_COUNT == 23,
        SPIRAL_PIVOT == 13,
        ACTIVE_TICK_MS == 16,
        IDLE_TICK_MS == 100,
        SPIRAL_STEP_MS == 85,
        SPIRAL_HOLD_MS == 400,
{
}

} // verus!
