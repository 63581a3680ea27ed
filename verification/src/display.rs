//! What the 128×64 OLED shows: the live state turned into drawing operations.
//!
//! Text is drawn in a font of 6×10 pixels per character, anchored at its top
//! left corner. Operations are listed in drawing order, on a screen that the
//! first of them clears.
use vstd::prelude::*;

use crate::input::ok_reboots;
use crate::led::{avg_band, is_quotient, mean_band};
use crate::state::{
    encoder_applied, lemma_options, DisplayState, GlowViz, HueMode, MenuView, OledViz, Selector,
    MENU_ITEM_COUNT,
};

verus! {

/// One drawing operation. All of them switch pixels on, but for `Clear`.
#[derive(Copy, Clone, Debug, PartialEq, Eq)]
pub enum DrawOp {
    /// Switch every pixel off.
    Clear,
    /// A line of text.
    Text { text: &'static str, x: i32, y: i32 },
    /// A filled rectangle.
    Fill { x: i32, y: i32, w: u32, h: u32 },
    /// The one pixel wide outline of a rectangle.
    Outline { x: i32, y: i32, w: u32, h: u32 },
    /// A one pixel wide line.
    Line { x0: i32, y0: i32, x1: i32, y1: i32 },
    /// A single pixel.
    Pixel { x: i32, y: i32 },
}

/// Columns of history in the waterfall.
pub const VIZ_W: usize = 110;

/// Rows of the particle heat field, two pixels each.
pub const PART_ROWS: usize = 32;

/// Width of a bar.
pub const BAR_W: u32 = 13;

/// Gap between bars.
pub const BAR_GAP: i32 = 1;

/// Left edge of the visualizer pane.
pub const BAR_LEFT: i32 = 2;

/// Left edge of the volume bar.
pub const VOLUME_LEFT: i32 = 118;

// ─── Listing operations ─────────────────────────────────────────────────────

/// The operations of `part(0)`, `part(1)` and so on up to `part(n - 1)`.
pub open spec fn concat(n: nat, part: spec_fn(int) -> Seq<DrawOp>) -> Seq<DrawOp>
    decreases n,
{
    if n == 0 {
        Seq::empty()
    } else {
        concat((n - 1) as nat, part) + part(n - 1)
    }
}

/// Every operation of the list is `good`.
pub open spec fn all_ops(ops: Seq<DrawOp>, good: spec_fn(DrawOp) -> bool) -> bool {
    forall|k: int| 0 <= k < ops.len() ==> good(#[trigger] ops[k])
}

/// What holds of the operations of every part holds of all of them.
proof fn lemma_concat_all(
    n: nat,
    part: spec_fn(int) -> Seq<DrawOp>,
    good: spec_fn(DrawOp) -> bool,
)
    requires
        forall|i: int| 0 <= i < n ==> all_ops(#[trigger] part(i), good),
    ensures
        all_ops(concat(n, part), good),
    decreases n,
{
    if n > 0 {
        lemma_concat_all((n - 1) as nat, part, good);
        let head = concat((n - 1) as nat, part);
        assert(all_ops(part(n - 1), good));
        assert forall|k: int| 0 <= k < concat(n, part).len() implies good(
            #[trigger] concat(n, part)[k],
        ) by {
            if k < head.len() {
                assert(concat(n, part)[k] == head[k]);
            } else {
                assert(concat(n, part)[k] == part(n - 1)[k - head.len()]);
            }
        }
    }
}

/// Division that rounds towards zero.
pub open spec fn trunc_div(a: int, b: int) -> int {
    if a >= 0 {
        a / b
    } else {
        -((-a) / b)
    }
}

// ─── Bars ───────────────────────────────────────────────────────────────────

/// Left edge of bar `i`.
pub open spec fn bar_left(i: int) -> int {
    BAR_LEFT + i * (BAR_W + BAR_GAP)
}

/// Height of a bar.
pub open spec fn bar_height(magnitude: u8) -> int {
    (magnitude * 60) / 255
}

/// Bar `i`: it stands on the bottom row, and a band too quiet for a pixel has
/// none.
pub open spec fn bar_ops(bands: Seq<u8>, i: int) -> Seq<DrawOp> {
    let h = bar_height(bands[i]);
    if h > 0 {
        seq![
            DrawOp::Fill { x: bar_left(i) as i32, y: (64 - h) as i32, w: BAR_W, h: h as u32 },
        ]
    } else {
        Seq::empty()
    }
}

/// All eight bars, bass to the left.
pub open spec fn bars_ops(bands: Seq<u8>) -> Seq<DrawOp> {
    concat(8, |i: int| bar_ops(bands, i))
}

/// Left edge of bar `i`.
pub fn bar_x(i: usize) -> (x: i32)
    requires
        bar_left(i as int) <= i32::MAX,
    ensures
        x == bar_left(i as int),
{
    BAR_LEFT + i as i32 * (BAR_W as i32 + BAR_GAP)
}

/// Draws the eight bars.
pub fn render_bars(out: &mut Vec<DrawOp>, bands: &[u8; 8])
    ensures
        final(out)@ == old(out)@ + bars_ops(bands@),
{
    let ghost part = |i: int| bar_ops(bands@, i);
    let mut i: usize = 0;
    assert(out@ =~= old(out)@ + concat(0, part));
    while i < 8
        invariant
            i <= 8,
            part == (|i: int| bar_ops(bands@, i)),
            out@ == old(out)@ + concat(i as nat, part),
        decreases 8 - i,
    {
        let h: i32 = (bands[i] as i32 * 60) / 255;
        if h > 0 {
            let x: i32 = bar_x(i);
            let y: i32 = 63 - h + 1;
            out.push(DrawOp::Fill { x, y, w: BAR_W, h: h as u32 });
        }
        assert(concat((i + 1) as nat, part) == concat(i as nat, part) + bar_ops(bands@, i as int));
        assert(out@ =~= old(out)@ + concat((i + 1) as nat, part));
        i = i + 1;
    }
}

// ─── Radial ─────────────────────────────────────────────────────────────────

/// Centre of the spokes.
pub const RADIAL_CX: i32 = 57;

pub const RADIAL_CY: i32 = 32;

/// Ends of the eight spokes at full magnitude, from the centre: from 0° in
/// steps of 45°, 90° pointing up.
pub const SPOKE_AT_MAX: [(i8, i8); 8] = [
    (28, 0),
    (20, -20),
    (0, -28),
    (-20, -20),
    (-28, 0),
    (-20, 20),
    (0, 28),
    (20, 20),
];

/// Spoke `i`, as long as its band is loud; a silent band has none.
pub open spec fn spoke_ops(bands: Seq<u8>, i: int) -> Seq<DrawOp> {
    let m = bands[i] as int;
    if m != 0 {
        seq![
            DrawOp::Line {
                x0: RADIAL_CX,
                y0: RADIAL_CY,
                x1: (RADIAL_CX + trunc_div(SPOKE_AT_MAX@[i].0 * m, 255)) as i32,
                y1: (RADIAL_CY + trunc_div(SPOKE_AT_MAX@[i].1 * m, 255)) as i32,
            },
        ]
    } else {
        Seq::empty()
    }
}

/// All eight spokes and a dot at the centre.
pub open spec fn radial_ops(bands: Seq<u8>) -> Seq<DrawOp> {
    concat(8, |i: int| spoke_ops(bands, i)).push(
        DrawOp::Fill { x: (RADIAL_CX - 1) as i32, y: (RADIAL_CY - 1) as i32, w: 3, h: 3 },
    )
}

/// One coordinate of the end of a spoke.
fn spoke_reach(at_max: i8, m: u8) -> (d: i32)
    requires
        -28 <= at_max <= 28,
    ensures
        d == trunc_div(at_max * m, 255),
        -28 <= d <= 28,
{
    assert(-28 * 255 <= at_max * m <= 28 * 255) by (nonlinear_arith)
        requires
            -28 <= at_max <= 28,
            0 <= m <= 255,
    ;
    (at_max as i32 * m as i32) / 255
}

/// Draws the eight spokes.
pub fn render_radial(out: &mut Vec<DrawOp>, bands: &[u8; 8])
    ensures
        final(out)@ == old(out)@ + radial_ops(bands@),
{
    let ghost part = |i: int| spoke_ops(bands@, i);
    let mut i: usize = 0;
    assert(out@ =~= old(out)@ + concat(0, part));
    while i < 8
        invariant
            i <= 8,
            part == (|i: int| spoke_ops(bands@, i)),
            out@ == old(out)@ + concat(i as nat, part),
        decreases 8 - i,
    {
        let m: u8 = bands[i];
        if m != 0 {
            let (dx, dy) = SPOKE_AT_MAX[i];
            let x1: i32 = RADIAL_CX + spoke_reach(dx, m);
            let y1: i32 = RADIAL_CY + spoke_reach(dy, m);
            out.push(DrawOp::Line { x0: RADIAL_CX, y0: RADIAL_CY, x1, y1 });
        }
        assert(concat((i + 1) as nat, part) == concat(i as nat, part) + spoke_ops(bands@, i as int));
        assert(out@ =~= old(out)@ + concat((i + 1) as nat, part));
        i = i + 1;
    }
    out.push(DrawOp::Fill { x: RADIAL_CX - 1, y: RADIAL_CY - 1, w: 3, h: 3 });
    assert(out@ =~= old(out)@ + radial_ops(bands@));
}

// ─── History ────────────────────────────────────────────────────────────────

/// What the visualizers remember from frame to frame.
#[verifier::ext_equal]
pub struct VizHistory {
    /// Bands of the last frames, oldest first.
    pub columns: Seq<Seq<u8>>,
    /// Slot that the newest of them takes in a ring of as many.
    pub head: int,
    /// Heat of each cell, by column and row.
    pub heat: Seq<Seq<u8>>,
    /// Peak of the needle.
    pub peak: u8,
    /// Frames since the peak last rose.
    pub peak_age: u16,
    /// Style last drawn.
    pub last_viz: OledViz,
}

/// An empty history of the style `viz`.
pub open spec fn blank_history(viz: OledViz) -> VizHistory {
    VizHistory {
        columns: Seq::new(VIZ_W as nat, |c: int| Seq::new(8, |b: int| 0u8)),
        head: 0,
        heat: Seq::new(8, |c: int| Seq::new(PART_ROWS as nat, |r: int| 0u8)),
        peak: 0,
        peak_age: 0,
        last_viz: viz,
    }
}

impl VizHistory {
    /// The history has its size: a column of eight bands for every column of the
    /// waterfall, and a heat for every cell of the fire.
    pub open spec fn shaped(self) -> bool {
        &&& self.columns.len() == VIZ_W
        &&& forall|c: int| 0 <= c < VIZ_W ==> (#[trigger] self.columns[c]).len() == 8
        &&& 0 <= self.head < VIZ_W
        &&& self.heat.len() == 8
        &&& forall|c: int| 0 <= c < 8 ==> (#[trigger] self.heat[c]).len() == PART_ROWS
    }
}

/// What the visualizers remember from frame to frame.
#[derive(Debug)]
pub struct OledVizState {
    /// Ring of columns.
    waterfall_hist: [[u8; 8]; 110],
    /// Place of the newest column.
    waterfall_head: usize,
    particle_heat: [[u8; 32]; 8],
    needle_peak: u8,
    needle_peak_age: u16,
    last_viz: OledViz,
}

impl View for OledVizState {
    type V = VizHistory;

    closed spec fn view(&self) -> VizHistory {
        VizHistory {
            columns: Seq::new(
                VIZ_W as nat,
                |c: int|
                    self.waterfall_hist@[(self.waterfall_head + 1 + c) % (VIZ_W as int)]@,
            ),
            head: self.waterfall_head as int,
            heat: Seq::new(8, |c: int| self.particle_heat@[c]@),
            peak: self.needle_peak,
            peak_age: self.needle_peak_age,
            last_viz: self.last_viz,
        }
    }
}

impl OledVizState {
    /// The newest column is on the ring.
    pub closed spec fn wf(&self) -> bool {
        self.waterfall_head < VIZ_W
    }

    /// What a state in order remembers has its size.
    pub proof fn lemma_shaped(&self)
        requires
            self.wf(),
        ensures
            self@.shaped(),
    {
    }

    /// Nothing remembered.
    pub fn new() -> (state: OledVizState)
        ensures
            state.wf(),
            state@ == blank_history(OledViz::Bars),
    {
        let state = OledVizState {
            waterfall_hist: [[0u8;8];110],
            waterfall_head: 0,
            particle_heat: [[0u8;32];8],
            needle_peak: 0,
            needle_peak_age: 0,
            last_viz: OledViz::Bars,
        };
        proof {
            state.lemma_blank();
        }
        state
    }

    /// Forgets everything but the style.
    fn reset(&mut self)
        ensures
            final(self).wf(),
            final(self)@ == blank_history(old(self)@.last_viz),
    {
        self.waterfall_hist = [[0u8;8];110];
        self.waterfall_head = 0;
        self.particle_heat = [[0u8;32];8];
        self.needle_peak = 0;
        self.needle_peak_age = 0;
        proof {
            self.lemma_blank();
        }
    }

    /// Zeroed buffers are an empty history.
    proof fn lemma_blank(&self)
        requires
            forall|c: int, b: int|
                0 <= c < VIZ_W && 0 <= b < 8 ==> #[trigger] self.waterfall_hist@[c]@[b] == 0,
            forall|c: int, r: int|
                0 <= c < 8 && 0 <= r < PART_ROWS ==> #[trigger] self.particle_heat@[c]@[r] == 0,
            self.waterfall_head == 0,
            self.needle_peak == 0,
            self.needle_peak_age == 0,
        ensures
            self@ == blank_history(self.last_viz),
    {
        let blank = blank_history(self.last_viz);
        assert forall|c: int| 0 <= c < VIZ_W implies #[trigger] self@.columns[c]
            == blank.columns[c] by {
            let k = (self.waterfall_head + 1 + c) % (VIZ_W as int);
            assert(self.waterfall_hist@[k]@ =~= blank.columns[c]);
        }
        assert(self@.columns =~= blank.columns);
        assert forall|c: int| 0 <= c < 8 implies #[trigger] self@.heat[c] == blank.heat[c] by {
            assert(self.particle_heat@[c]@ =~= blank.heat[c]);
        }
        assert(self@.heat =~= blank.heat);
    }
}

// ─── Waterfall ──────────────────────────────────────────────────────────────

/// Height of a cell of the waterfall that is filled.
pub open spec fn cell_fill(magnitude: u8) -> int {
    (magnitude * 8) / 255
}

/// Cell of band `b` in screen column `c`: a slice of eight rows, filled from
/// its bottom, bass in the lowest slice.
pub open spec fn cell_ops(column: Seq<u8>, c: int, b: int) -> Seq<DrawOp> {
    let fill = cell_fill(column[b]);
    if fill > 0 {
        seq![
            DrawOp::Fill {
                x: (BAR_LEFT + c) as i32,
                y: ((7 - b) * 8 + 8 - fill) as i32,
                w: 1,
                h: fill as u32,
            },
        ]
    } else {
        Seq::empty()
    }
}

/// Screen column `c`.
pub open spec fn column_ops(columns: Seq<Seq<u8>>, c: int) -> Seq<DrawOp> {
    concat(8, |b: int| cell_ops(columns[c], c, b))
}

/// The whole history, oldest column to the left.
pub open spec fn waterfall_ops(columns: Seq<Seq<u8>>) -> Seq<DrawOp> {
    concat(VIZ_W as nat, |c: int| column_ops(columns, c))
}

/// The history with one more frame: it enters at the right, the oldest column
/// leaves at the left.
pub open spec fn scrolled(h: VizHistory, bands: Seq<u8>) -> VizHistory {
    VizHistory {
        columns: h.columns.drop_first().push(bands),
        head: (h.head + 1) % (VIZ_W as int),
        ..h
    }
}

/// Draws the eight cells of one column.
fn render_column(out: &mut Vec<DrawOp>, column: &[u8; 8], c: usize)
    requires
        c < VIZ_W,
    ensures
        final(out)@ == old(out)@ + concat(8, |b: int| cell_ops(column@, c as int, b)),
{
    let ghost part = |b: int| cell_ops(column@, c as int, b);
    let x: i32 = BAR_LEFT + c as i32;
    let mut b: usize = 0;
    assert(out@ =~= old(out)@ + concat(0, part));
    while b < 8
        invariant
            b <= 8,
            c < VIZ_W,
            x == BAR_LEFT + c,
            part == (|b: int| cell_ops(column@, c as int, b)),
            out@ == old(out)@ + concat(b as nat, part),
        decreases 8 - b,
    {
        let slice_top: i32 = (7 - b) as i32 * 8;
        let fill: i32 = (column[b] as i32 * 8) / 255;
        if fill > 0 {
            let y: i32 = slice_top + 8 - fill;
            out.push(DrawOp::Fill { x, y, w: 1, h: fill as u32 });
        }
        assert(concat((b + 1) as nat, part) == concat(b as nat, part) + cell_ops(
            column@,
            c as int,
            b as int,
        ));
        assert(out@ =~= old(out)@ + concat((b + 1) as nat, part));
        b = b + 1;
    }
}

impl OledVizState {
    /// Takes in one more frame of bands.
    fn scroll(&mut self, bands: &[u8; 8])
        requires
            old(self).wf(),
        ensures
            final(self).wf(),
            final(self)@ == scrolled(old(self)@, bands@),
    {
        self.waterfall_head = (self.waterfall_head + 1) % VIZ_W;
        self.waterfall_hist[self.waterfall_head] = *bands;
        proof {
            let before = old(self)@.columns;
            let after = self@.columns;
            let w = VIZ_W as int;
            let head = old(self).waterfall_head as int;
            assert forall|c: int| 0 <= c < w implies #[trigger] after[c]
                == before.drop_first().push(bands@)[c] by {
                let k = (self.waterfall_head + 1 + c) % w;
                if c == w - 1 {
                    assert(k == self.waterfall_head);
                } else {
                    assert(k != self.waterfall_head);
                    assert(k == (head + 1 + (c + 1)) % w);
                    assert(before[c + 1] == old(self).waterfall_hist@[k]@);
                }
            }
            assert(after =~= before.drop_first().push(bands@));
        }
    }
}

/// Takes in one more frame of bands and draws the history.
pub fn render_waterfall(out: &mut Vec<DrawOp>, bands: &[u8; 8], state: &mut OledVizState)
    requires
        old(state).wf(),
    ensures
        final(state).wf(),
        final(state)@ == scrolled(old(state)@, bands@),
        final(out)@ == old(out)@ + waterfall_ops(final(state)@.columns),
{
    state.scroll(bands);
    let ghost columns = state@.columns;
    let ghost part = |c: int| column_ops(columns, c);
    let mut c: usize = 0;
    assert(out@ =~= old(out)@ + concat(0, part));
    while c < VIZ_W
        invariant
            c <= VIZ_W,
            state.wf(),
            columns == state@.columns,
            part == (|c: int| column_ops(columns, c)),
            out@ == old(out)@ + concat(c as nat, part),
        decreases VIZ_W - c,
    {
        let idx: usize = (state.waterfall_head + 1 + c) % VIZ_W;
        let column = state.waterfall_hist[idx];
        assert(columns[c as int] == column@);
        render_column(out, &column, c);
        assert(part(c as int) == concat(8, |b: int| cell_ops(column@, c as int, b)));
        assert(concat((c + 1) as nat, part) == concat(c as nat, part) + part(c as int));
        assert(out@ =~= old(out)@ + concat((c + 1) as nat, part));
        c = c + 1;
    }
}

// ─── Needle ─────────────────────────────────────────────────────────────────

/// Pivot of the needle.
pub const NEEDLE_PIVOT_X: i32 = 57;

pub const NEEDLE_PIVOT_Y: i32 = 56;

/// Tip of the needle at 16 positions of its sweep, from the pivot: left for
/// silence, right for full energy.
pub const NEEDLE_LUT: [(i8, i8); 16] = [
    (-43, -25),
    (-39, -31),
    (-35, -36),
    (-29, -40),
    (-23, -44),
    (-17, -47),
    (-10, -49),
    (-3, -50),
    (3, -50),
    (10, -49),
    (17, -47),
    (23, -44),
    (29, -40),
    (35, -36),
    (39, -31),
    (43, -25),
];

/// Position of the needle's sweep for an energy.
pub open spec fn sweep(energy: int) -> int {
    (energy * 15) / 255
}

/// One coordinate of the dial, `frac` 31sts of the way from `a` to `b`.
pub open spec fn between(a: i8, b: i8, frac: int) -> int {
    a + trunc_div((b - a) * frac, 31)
}

/// Dot `i` of the 32 dots of the dial.
pub open spec fn dial_dot(i: int) -> DrawOp {
    let t = (i * 15) / 31;
    let frac = (i * 15) % 31;
    let from = NEEDLE_LUT@[t];
    let to = NEEDLE_LUT@[if t + 1 <= 15 {
        t + 1
    } else {
        15
    }];
    DrawOp::Pixel {
        x: (NEEDLE_PIVOT_X + between(from.0, to.0, frac)) as i32,
        y: (NEEDLE_PIVOT_Y + between(from.1, to.1, frac)) as i32,
    }
}

/// The peak marker one frame later: it rises at once, holds for eight frames
/// and then falls.
pub open spec fn peaked(h: VizHistory, energy: int) -> VizHistory {
    if energy >= h.peak {
        VizHistory { peak: energy as u8, peak_age: 0, ..h }
    } else {
        let age = if h.peak_age < u16::MAX {
            (h.peak_age + 1) as u16
        } else {
            u16::MAX
        };
        let peak = if age > 8 {
            if h.peak >= 4 {
                (h.peak - 4) as u8
            } else {
                0
            }
        } else {
            h.peak
        };
        VizHistory { peak, peak_age: age, ..h }
    }
}

/// Dot `d` of the three dots of the peak marker.
pub open spec fn peak_dot(peak: u8, d: int) -> DrawOp {
    let tip = NEEDLE_LUT@[sweep(peak as int)];
    DrawOp::Pixel {
        x: (NEEDLE_PIVOT_X + tip.0 + d - 1) as i32,
        y: (NEEDLE_PIVOT_Y + tip.1) as i32,
    }
}

/// The dial, the peak marker, the needle and its pivot.
pub open spec fn needle_ops(energy: int, peak: u8) -> Seq<DrawOp> {
    let tip = NEEDLE_LUT@[sweep(energy)];
    concat(32, |i: int| seq![dial_dot(i)]) + concat(3, |d: int| seq![peak_dot(peak, d)]) + seq![
        DrawOp::Line {
            x0: NEEDLE_PIVOT_X,
            y0: NEEDLE_PIVOT_Y,
            x1: (NEEDLE_PIVOT_X + tip.0) as i32,
            y1: (NEEDLE_PIVOT_Y + tip.1) as i32,
        },
        DrawOp::Fill {
            x: (NEEDLE_PIVOT_X - 2) as i32,
            y: (NEEDLE_PIVOT_Y - 1) as i32,
            w: 5,
            h: 3,
        },
    ]
}

/// Tips of the needle stay within its arc.
proof fn lemma_needle_lut(i: int)
    requires
        0 <= i < 16,
    ensures
        -43 <= NEEDLE_LUT@[i].0 <= 43,
        -50 <= NEEDLE_LUT@[i].1 <= -25,
{
}

/// A coordinate between two others lies between them.
proof fn lemma_between(a: i8, b: i8, frac: int)
    requires
        0 <= frac < 31,
        -50 <= a <= 50,
        -50 <= b <= 50,
    ensures
        a <= b ==> a <= between(a, b, frac) <= b,
        b <= a ==> b <= between(a, b, frac) <= a,
        -3100 <= (b - a) * frac <= 3100,
{
    let w = b - a;
    if w >= 0 {
        assert(0 <= w * frac <= w * 31 && w * frac <= 3100) by (nonlinear_arith)
            requires
                0 <= w <= 100,
                0 <= frac < 31,
        ;
    } else {
        assert(0 <= (-w) * frac <= (-w) * 31 && (-w) * frac <= 3100) by (nonlinear_arith)
            requires
                0 <= -w <= 100,
                0 <= frac < 31,
        ;
        assert((-w) * frac == -(w * frac)) by (nonlinear_arith);
    }
}

/// One coordinate of the dial.
fn lerp(a: i8, b: i8, frac: i32) -> (r: i32)
    requires
        0 <= frac < 31,
        -50 <= a <= 50,
        -50 <= b <= 50,
    ensures
        r == between(a, b, frac as int),
        -50 <= r <= 50,
{
    proof {
        lemma_between(a, b, frac as int);
    }
    a as i32 + ((b as i32 - a as i32) * frac) / 31
}

/// Draws the dial.
fn render_dial(out: &mut Vec<DrawOp>)
    ensures
        final(out)@ == old(out)@ + concat(32, |i: int| seq![dial_dot(i)]),
{
    let ghost part = |i: int| seq![dial_dot(i)];
    let mut i: usize = 0;
    assert(out@ =~= old(out)@ + concat(0, part));
    while i < 32
        invariant
            i <= 32,
            part == (|i: int| seq![dial_dot(i)]),
            out@ == old(out)@ + concat(i as nat, part),
        decreases 32 - i,
    {
        let t: usize = (i * 15) / 31;
        let frac: i32 = ((i * 15) % 31) as i32;
        let next: usize = if t + 1 <= 15 {
            t + 1
        } else {
            15
        };
        proof {
            lemma_needle_lut(t as int);
            lemma_needle_lut(next as int);
        }
        let (x0, y0) = NEEDLE_LUT[t];
        let (x1, y1) = NEEDLE_LUT[next];
        let x: i32 = NEEDLE_PIVOT_X + lerp(x0, x1, frac);
        let y: i32 = NEEDLE_PIVOT_Y + lerp(y0, y1, frac);
        out.push(DrawOp::Pixel { x, y });
        assert(out@.last() == dial_dot(i as int));
        assert(concat((i + 1) as nat, part) == concat(i as nat, part) + part(i as int));
        assert(out@ =~= old(out)@ + concat((i + 1) as nat, part));
        i = i + 1;
    }
}

/// Draws the peak marker.
fn render_peak(out: &mut Vec<DrawOp>, peak: u8)
    ensures
        final(out)@ == old(out)@ + concat(3, |d: int| seq![peak_dot(peak, d)]),
{
    let ghost part = |d: int| seq![peak_dot(peak, d)];
    let idx: usize = ((peak as u32 * 15) / 255) as usize;
    proof {
        lemma_needle_lut(idx as int);
    }
    let (dx, dy) = NEEDLE_LUT[idx];
    let mut d: i32 = 0;
    assert(out@ =~= old(out)@ + concat(0, part));
    while d < 3
        invariant
            0 <= d <= 3,
            part == (|d: int| seq![peak_dot(peak, d)]),
            (dx, dy) == NEEDLE_LUT@[sweep(peak as int)],
            -43 <= dx <= 43,
            -50 <= dy <= -25,
            out@ == old(out)@ + concat(d as nat, part),
        decreases 3 - d,
    {
        out.push(
            DrawOp::Pixel { x: NEEDLE_PIVOT_X + dx as i32 + d - 1, y: NEEDLE_PIVOT_Y + dy as i32 },
        );
        assert(out@.last() == peak_dot(peak, d as int));
        assert(concat((d + 1) as nat, part) == concat(d as nat, part) + part(d as int));
        assert(out@ =~= old(out)@ + concat((d + 1) as nat, part));
        d = d + 1;
    }
}

/// Draws the dial with the needle at the mean of the bands and the peak marker
/// trailing it.
pub fn render_vu_needle(out: &mut Vec<DrawOp>, bands: &[u8; 8], state: &mut OledVizState)
    requires
        old(state).wf(),
    ensures
        final(state).wf(),
        final(state)@ == peaked(old(state)@, mean_band(bands@)),
        final(out)@ == old(out)@ + needle_ops(mean_band(bands@), final(state)@.peak),
{
    let avg: u8 = avg_band(bands);
    let needle_idx: usize = ((avg as u32 * 15) / 255) as usize;
    render_dial(out);
    if avg >= state.needle_peak {
        state.needle_peak = avg;
        state.needle_peak_age = 0;
    } else {
        state.needle_peak_age = if state.needle_peak_age < u16::MAX {
            state.needle_peak_age + 1
        } else {
            u16::MAX
        };
        if state.needle_peak_age > 8 {
            state.needle_peak = if state.needle_peak >= 4 {
                state.needle_peak - 4
            } else {
                0
            };
        }
    }
    assert(state@ =~= peaked(old(state)@, mean_band(bands@)));
    render_peak(out, state.needle_peak);
    proof {
        lemma_needle_lut(needle_idx as int);
    }
    let (dx, dy) = NEEDLE_LUT[needle_idx];
    out.push(
        DrawOp::Line {
            x0: NEEDLE_PIVOT_X,
            y0: NEEDLE_PIVOT_Y,
            x1: NEEDLE_PIVOT_X + dx as i32,
            y1: NEEDLE_PIVOT_Y + dy as i32,
        },
    );
    out.push(DrawOp::Fill { x: NEEDLE_PIVOT_X - 2, y: NEEDLE_PIVOT_Y - 1, w: 5, h: 3 });
    assert(out@ =~= old(out)@ + needle_ops(mean_band(bands@), state@.peak));
}

// ─── Particles ──────────────────────────────────────────────────────────────

/// What a cell loses per frame.
pub const HEAT_DECAY: u8 = 3;

/// Width of a heat cell in pixels.
pub const PART_COL_W: usize = 14;

/// Height of a heat cell in pixels.
pub const PART_ROW_H: usize = 2;

/// Ordered dither matrix.
pub const BAYER4: [[u8; 4]; 4] = [[0, 8, 2, 10], [12, 4, 14, 6], [3, 11, 1, 9], [15, 7, 13, 5]];

/// A cell that has lost its decay.
pub open spec fn cooled(heat: int) -> int {
    if heat >= HEAT_DECAY {
        heat - HEAT_DECAY
    } else {
        0
    }
}

/// Heat of a cell one frame later. The bottom row takes in the bands and keeps
/// what glows on; a cell above draws from the row below, half from its own
/// column and a quarter from each neighbour, the outer columns being
/// neighbours.
pub open spec fn next_cell(heat: Seq<Seq<u8>>, bands: Seq<u8>, c: int, r: int) -> u8 {
    if r == PART_ROWS - 1 {
        let kept = cooled(heat[c][r] as int);
        if kept >= bands[c] {
            kept as u8
        } else {
            bands[c]
        }
    } else {
        let below = r + 1;
        cooled((heat[c][below] * 2 + heat[(c + 7) % 8][below] + heat[(c + 1) % 8][below]) / 4) as u8
    }
}

/// The heat field one frame later.
pub open spec fn next_heat(heat: Seq<Seq<u8>>, bands: Seq<u8>) -> Seq<Seq<u8>> {
    Seq::new(8, |c: int| Seq::new(PART_ROWS as nat, |r: int| next_cell(heat, bands, c, r)))
}

/// The history with the heat field one frame later.
pub open spec fn burned(h: VizHistory, bands: Seq<u8>) -> VizHistory {
    VizHistory { heat: next_heat(h.heat, bands), ..h }
}

/// Heat above which the pixel at `(x, y)` is lit, in eight bits: the topmost
/// step of the matrix comes round to 0, so that it is lit by any heat.
pub open spec fn dither_threshold(x: int, y: int) -> int {
    ((BAYER4@[y % 4]@[x % 4] + 1) * 16) % 256
}

/// Pixel `dx` of line `dy` of the cell at column `c`, row `r`.
pub open spec fn spark_ops(heat: u8, c: int, r: int, dy: int, dx: int) -> Seq<DrawOp> {
    let x = BAR_LEFT + c * PART_COL_W + dx;
    let y = r * PART_ROW_H + dy;
    if heat > dither_threshold(x, y) {
        seq![DrawOp::Pixel { x: x as i32, y: y as i32 }]
    } else {
        Seq::empty()
    }
}

/// Line `dy` of a cell.
pub open spec fn spark_line_ops(heat: u8, c: int, r: int, dy: int) -> Seq<DrawOp> {
    concat(PART_COL_W as nat, |dx: int| spark_ops(heat, c, r, dy, dx))
}

/// A cell; a cold one draws nothing.
pub open spec fn ember_ops(heat: u8, c: int, r: int) -> Seq<DrawOp> {
    if heat == 0 {
        Seq::empty()
    } else {
        concat(PART_ROW_H as nat, |dy: int| spark_line_ops(heat, c, r, dy))
    }
}

/// A column of cells, top to bottom.
pub open spec fn flame_ops(heat: Seq<Seq<u8>>, c: int) -> Seq<DrawOp> {
    concat(PART_ROWS as nat, |r: int| ember_ops(heat[c][r], c, r))
}

/// The whole heat field.
pub open spec fn particles_ops(heat: Seq<Seq<u8>>) -> Seq<DrawOp> {
    concat(8, |c: int| flame_ops(heat, c))
}

/// A cell that has lost its decay.
fn cool(heat: u8) -> (r: u8)
    ensures
        r == cooled(heat as int),
{
    if heat >= HEAT_DECAY {
        heat - HEAT_DECAY
    } else {
        0
    }
}

/// Whether a cell of this heat lights the pixel at `(x, y)`.
fn lit(heat: u8, x: usize, y: usize) -> (on: bool)
    ensures
        on == (heat > dither_threshold(x as int, y as int)),
{
    let step: u8 = BAYER4[y % 4][x % 4];
    assert(step <= 15) by {
        let a = (y % 4) as int;
        let b = (x % 4) as int;
        assert(0 <= a < 4 && 0 <= b < 4);
        assert(BAYER4@[a]@[b] <= 15);
    }
    let threshold: u8 = (((step as u16 + 1) * 16) % 256) as u8;
    heat > threshold
}

/// Draws line `dy` of a cell.
fn render_spark_line(out: &mut Vec<DrawOp>, heat: u8, c: usize, r: usize, dy: usize)
    requires
        c < 8,
        r < PART_ROWS,
        dy < PART_ROW_H,
    ensures
        final(out)@ == old(out)@ + spark_line_ops(heat, c as int, r as int, dy as int),
{
    let ghost part = |dx: int| spark_ops(heat, c as int, r as int, dy as int, dx);
    let mut dx: usize = 0;
    assert(out@ =~= old(out)@ + concat(0, part));
    while dx < PART_COL_W
        invariant
            dx <= PART_COL_W,
            c < 8,
            r < PART_ROWS,
            dy < PART_ROW_H,
            part == (|dx: int| spark_ops(heat, c as int, r as int, dy as int, dx)),
            out@ == old(out)@ + concat(dx as nat, part),
        decreases PART_COL_W - dx,
    {
        let x: usize = BAR_LEFT as usize + c * PART_COL_W + dx;
        let y: usize = r * PART_ROW_H + dy;
        if lit(heat, x, y) {
            out.push(DrawOp::Pixel { x: x as i32, y: y as i32 });
        }
        assert(concat((dx + 1) as nat, part) == concat(dx as nat, part) + part(dx as int));
        assert(out@ =~= old(out)@ + concat((dx + 1) as nat, part));
        dx = dx + 1;
    }
}

/// Draws a cell.
fn render_ember(out: &mut Vec<DrawOp>, heat: u8, c: usize, r: usize)
    requires
        c < 8,
        r < PART_ROWS,
    ensures
        final(out)@ == old(out)@ + ember_ops(heat, c as int, r as int),
{
    if heat == 0 {
        assert(out@ =~= old(out)@ + ember_ops(heat, c as int, r as int));
        return;
    }
    let ghost part = |dy: int| spark_line_ops(heat, c as int, r as int, dy);
    let mut dy: usize = 0;
    assert(out@ =~= old(out)@ + concat(0, part));
    while dy < PART_ROW_H
        invariant
            dy <= PART_ROW_H,
            c < 8,
            r < PART_ROWS,
            part == (|dy: int| spark_line_ops(heat, c as int, r as int, dy)),
            out@ == old(out)@ + concat(dy as nat, part),
        decreases PART_ROW_H - dy,
    {
        render_spark_line(out, heat, c, r, dy);
        assert(concat((dy + 1) as nat, part) == concat(dy as nat, part) + part(dy as int));
        assert(out@ =~= old(out)@ + concat((dy + 1) as nat, part));
        dy = dy + 1;
    }
}

/// Draws a column of cells.
fn render_flame(out: &mut Vec<DrawOp>, column: &[u8; 32], c: usize)
    requires
        c < 8,
    ensures
        final(out)@ == old(out)@ + concat(
            PART_ROWS as nat,
            |r: int| ember_ops(column@[r], c as int, r),
        ),
{
    let ghost part = |r: int| ember_ops(column@[r], c as int, r);
    let mut r: usize = 0;
    assert(out@ =~= old(out)@ + concat(0, part));
    while r < PART_ROWS
        invariant
            r <= PART_ROWS,
            c < 8,
            part == (|r: int| ember_ops(column@[r], c as int, r)),
            out@ == old(out)@ + concat(r as nat, part),
        decreases PART_ROWS - r,
    {
        render_ember(out, column[r], c, r);
        assert(concat((r + 1) as nat, part) == concat(r as nat, part) + part(r as int));
        assert(out@ =~= old(out)@ + concat((r + 1) as nat, part));
        r = r + 1;
    }
}

impl OledVizState {
    /// Heat of one cell one frame later.
    fn next_heat_cell(&self, bands: &[u8; 8], c: usize, r: usize) -> (heat: u8)
        requires
            c < 8,
            r < PART_ROWS,
        ensures
            heat == next_cell(self@.heat, bands@, c as int, r as int),
    {
        let ghost h = self@.heat;
        assert(h[c as int] == self.particle_heat@[c as int]@);
        if r == PART_ROWS - 1 {
            let kept: u8 = cool(self.particle_heat[c][r]);
            if kept >= bands[c] {
                kept
            } else {
                bands[c]
            }
        } else {
            let cl: usize = (c + 7) % 8;
            let cr: usize = (c + 1) % 8;
            assert(h[cl as int] == self.particle_heat@[cl as int]@);
            assert(h[cr as int] == self.particle_heat@[cr as int]@);
            let sum: u16 = self.particle_heat[c][r + 1] as u16 * 2 + self.particle_heat[cl][r
                + 1] as u16 + self.particle_heat[cr][r + 1] as u16;
            cool((sum / 4) as u8)
        }
    }

    /// Lets the heat field burn for one frame.
    fn burn(&mut self, bands: &[u8; 8])
        requires
            old(self).wf(),
        ensures
            final(self).wf(),
            final(self)@ == burned(old(self)@, bands@),
    {
        let mut new_heat: [[u8; 32]; 8] = [[0u8;32];8];
        let ghost target = next_heat(self@.heat, bands@);
        let mut c: usize = 0;
        while c < 8
            invariant
                c <= 8,
                target == next_heat(self@.heat, bands@),
                forall|i: int, j: int|
                    0 <= i < c && 0 <= j < PART_ROWS ==> #[trigger] new_heat@[i]@[j]
                        == target[i][j],
            decreases 8 - c,
        {
            let mut r: usize = 0;
            while r < PART_ROWS
                invariant
                    c < 8,
                    r <= PART_ROWS,
                    target == next_heat(self@.heat, bands@),
                    forall|i: int, j: int|
                        0 <= i < c && 0 <= j < PART_ROWS ==> #[trigger] new_heat@[i]@[j]
                            == target[i][j],
                    forall|j: int| 0 <= j < r ==> #[trigger] new_heat@[c as int]@[j]
                        == target[c as int][j],
                decreases PART_ROWS - r,
            {
                let heat: u8 = self.next_heat_cell(bands, c, r);
                new_heat[c][r] = heat;
                r = r + 1;
            }
            c = c + 1;
        }
        self.particle_heat = new_heat;
        assert forall|i: int| 0 <= i < 8 implies #[trigger] self@.heat[i] == target[i] by {
            assert(self.particle_heat@[i]@ =~= target[i]);
        }
        assert(self@.heat =~= target);
        assert(self@ =~= burned(old(self)@, bands@));
    }
}

/// Lets the heat field burn for one frame and draws it.
pub fn render_particles(out: &mut Vec<DrawOp>, bands: &[u8; 8], state: &mut OledVizState)
    requires
        old(state).wf(),
    ensures
        final(state).wf(),
        final(state)@ == burned(old(state)@, bands@),
        final(out)@ == old(out)@ + particles_ops(final(state)@.heat),
{
    state.burn(bands);
    let ghost heat = state@.heat;
    let ghost part = |c: int| flame_ops(heat, c);
    let mut c: usize = 0;
    assert(out@ =~= old(out)@ + concat(0, part));
    while c < 8
        invariant
            c <= 8,
            heat == state@.heat,
            part == (|c: int| flame_ops(heat, c)),
            out@ == old(out)@ + concat(c as nat, part),
        decreases 8 - c,
    {
        let column = state.particle_heat[c];
        assert(heat[c as int] == column@);
        render_flame(out, &column, c);
        assert((|r: int| ember_ops(column@[r], c as int, r)) =~= (|r: int|
            ember_ops(heat[c as int][r], c as int, r)));
        assert(concat((c + 1) as nat, part) == concat(c as nat, part) + part(c as int));
        assert(out@ =~= old(out)@ + concat((c + 1) as nat, part));
        c = c + 1;
    }
}

// ─── Menu ───────────────────────────────────────────────────────────────────

/// A line of text.
pub open spec fn text_op(text: &'static str, x: int, y: int) -> DrawOp {
    DrawOp::Text { text, x: x as i32, y: y as i32 }
}

/// The cursor in front of a row, if the row is selected.
pub open spec fn cursor_ops(selected: bool, y: int) -> Seq<DrawOp> {
    if selected {
        seq![text_op(">", 4, y)]
    } else {
        Seq::empty()
    }
}

/// Label of row `i` of the main menu.
pub open spec fn main_row_label(i: int) -> &'static str {
    if i == 0 {
        "oled viz"
    } else if i == 1 {
        "glow viz"
    } else {
        "Bootloader"
    }
}

/// What stands behind the label of row `i` of the main menu: the live value, or
/// an invitation.
pub open spec fn main_row_value(s: DisplayState, i: int) -> &'static str {
    if i == 0 {
        s.oled_viz.short_text()
    } else if i == 1 {
        s.glow_viz.short_text()
    } else {
        "Go"
    }
}

/// Row `i` of the main menu: the cursor, a label and the live value.
pub open spec fn main_row_ops(s: DisplayState, i: int) -> Seq<DrawOp> {
    let y = 14 + i * 10;
    cursor_ops(i == s.main_selection, y) + seq![
        text_op(main_row_label(i), 14, y),
        text_op(main_row_value(s, i), 98, y),
    ]
}

/// The main menu: a title and its rows.
pub open spec fn main_menu_ops(s: DisplayState) -> Seq<DrawOp> {
    seq![text_op("MENU", 52, 2)] + concat(MENU_ITEM_COUNT as nat, |i: int| main_row_ops(s, i))
}

/// Row `i` of a submenu.
pub open spec fn sub_row_ops(label: &'static str, selected: bool, i: int) -> Seq<DrawOp> {
    let y = 2 + i * 10;
    cursor_ops(selected, y) + seq![text_op(label, 14, y)]
}

/// A submenu: every option, with the cursor on the live one.
pub open spec fn submenu_ops(s: DisplayState, selector: Selector) -> Seq<DrawOp> {
    match selector {
        Selector::OledViz => concat(
            OledViz::ALL@.len(),
            |i: int|
                sub_row_ops(OledViz::ALL@[i].long_text(), OledViz::ALL@[i] == s.oled_viz, i),
        ),
        Selector::GlowViz => concat(
            GlowViz::ALL@.len(),
            |i: int|
                sub_row_ops(GlowViz::ALL@[i].long_text(), GlowViz::ALL@[i] == s.glow_viz, i),
        ),
        Selector::HueMode => concat(
            HueMode::ALL@.len(),
            |i: int|
                sub_row_ops(HueMode::ALL@[i].long_text(), HueMode::ALL@[i] == s.hue_mode, i),
        ),
    }
}

/// The question whether to reboot into the bootloader.
pub open spec fn confirm_ops() -> Seq<DrawOp> {
    seq![
        text_op("Reboot to", 37, 8),
        text_op("bootloader?", 31, 20),
        text_op("OK=confirm", 34, 40),
        text_op("back=cancel", 31, 52),
    ]
}

/// Whatever menu is open.
pub open spec fn menu_ops(s: DisplayState) -> Seq<DrawOp> {
    match s.menu {
        MenuView::Closed => Seq::empty(),
        MenuView::Main => main_menu_ops(s),
        MenuView::Sub(selector) => submenu_ops(s, selector),
        MenuView::Confirm => confirm_ops(),
    }
}

/// Draws the question whether to reboot into the bootloader.
fn render_confirm(out: &mut Vec<DrawOp>)
    ensures
        final(out)@ == old(out)@ + confirm_ops(),
{
    out.push(DrawOp::Text { text: "Reboot to", x: 37, y: 8 });
    out.push(DrawOp::Text { text: "bootloader?", x: 31, y: 20 });
    out.push(DrawOp::Text { text: "OK=confirm", x: 34, y: 40 });
    out.push(DrawOp::Text { text: "back=cancel", x: 31, y: 52 });
    assert(out@ =~= old(out)@ + confirm_ops());
}

/// Draws one row of the main menu.
fn render_main_row(
    out: &mut Vec<DrawOp>,
    label: &'static str,
    right: &'static str,
    selected: bool,
    y: i32,
)
    ensures
        final(out)@ == old(out)@ + (cursor_ops(selected, y as int) + seq![
            text_op(label, 14, y as int),
            text_op(right, 98, y as int),
        ]),
{
    if selected {
        out.push(DrawOp::Text { text: ">", x: 4, y });
    }
    out.push(DrawOp::Text { text: label, x: 14, y });
    out.push(DrawOp::Text { text: right, x: 98, y });
    assert(out@ =~= old(out)@ + (cursor_ops(selected, y as int) + seq![
        text_op(label, 14, y as int),
        text_op(right, 98, y as int),
    ]));
}

/// Draws the main menu.
fn render_main_menu(out: &mut Vec<DrawOp>, s: &DisplayState)
    ensures
        final(out)@ == old(out)@ + main_menu_ops(*s),
{
    let ghost part = |i: int| main_row_ops(*s, i);
    out.push(DrawOp::Text { text: "MENU", x: 52, y: 2 });
    render_main_row(out, "oled viz", s.oled_viz.label(), s.main_selection == 0, 14);
    render_main_row(out, "glow viz", s.glow_viz.label(), s.main_selection == 1, 24);
    render_main_row(out, "Bootloader", "Go", s.main_selection == 2, 34);
    proof {
        reveal_with_fuel(concat, 4);
        assert(concat(3, part) == Seq::<DrawOp>::empty() + part(0) + part(1) + part(2));
        assert(out@ =~= old(out)@ + main_menu_ops(*s));
    }
}

/// Draws one row of a submenu.
fn render_sub_row(out: &mut Vec<DrawOp>, i: usize, label: &'static str, selected: bool)
    requires
        i < 6,
    ensures
        final(out)@ == old(out)@ + sub_row_ops(label, selected, i as int),
{
    let y: i32 = 2 + i as i32 * 10;
    if selected {
        out.push(DrawOp::Text { text: ">", x: 4, y });
    }
    out.push(DrawOp::Text { text: label, x: 14, y });
    assert(out@ =~= old(out)@ + sub_row_ops(label, selected, i as int));
}

/// Draws the list of a selector's options.
fn render_submenu(out: &mut Vec<DrawOp>, selector: Selector, s: &DisplayState)
    ensures
        final(out)@ == old(out)@ + submenu_ops(*s, selector),
{
    match selector {
        Selector::OledViz => {
            let ghost part = |i: int|
                sub_row_ops(OledViz::ALL@[i].long_text(), OledViz::ALL@[i] == s.oled_viz, i);
            let all = OledViz::ALL;
            let mut i: usize = 0;
            assert(out@ =~= old(out)@ + concat(0, part));
            while i < 4
                invariant
                    i <= 4,
                    all@ == OledViz::ALL@,
                    part == (|i: int|
                        sub_row_ops(OledViz::ALL@[i].long_text(), OledViz::ALL@[i] == s.oled_viz, i)),
                    out@ == old(out)@ + concat(i as nat, part),
                decreases 4 - i,
            {
                render_sub_row(out, i, all[i].long_label(), all[i] == s.oled_viz);
                assert(concat((i + 1) as nat, part) == concat(i as nat, part) + part(i as int));
                assert(out@ =~= old(out)@ + concat((i + 1) as nat, part));
                i = i + 1;
            }
        },
        Selector::GlowViz => {
            let ghost part = |i: int|
                sub_row_ops(GlowViz::ALL@[i].long_text(), GlowViz::ALL@[i] == s.glow_viz, i);
            let all = GlowViz::ALL;
            let mut i: usize = 0;
            assert(out@ =~= old(out)@ + concat(0, part));
            while i < 4
                invariant
                    i <= 4,
                    all@ == GlowViz::ALL@,
                    part == (|i: int|
                        sub_row_ops(GlowViz::ALL@[i].long_text(), GlowViz::ALL@[i] == s.glow_viz, i)),
                    out@ == old(out)@ + concat(i as nat, part),
                decreases 4 - i,
            {
                render_sub_row(out, i, all[i].long_label(), all[i] == s.glow_viz);
                assert(concat((i + 1) as nat, part) == concat(i as nat, part) + part(i as int));
                assert(out@ =~= old(out)@ + concat((i + 1) as nat, part));
                i = i + 1;
            }
        },
        Selector::HueMode => {
            let ghost part = |i: int|
                sub_row_ops(HueMode::ALL@[i].long_text(), HueMode::ALL@[i] == s.hue_mode, i);
            let all = HueMode::ALL;
            let mut i: usize = 0;
            assert(out@ =~= old(out)@ + concat(0, part));
            while i < 1
                invariant
                    i <= 1,
                    all@ == HueMode::ALL@,
                    part == (|i: int|
                        sub_row_ops(HueMode::ALL@[i].long_text(), HueMode::ALL@[i] == s.hue_mode, i)),
                    out@ == old(out)@ + concat(i as nat, part),
                decreases 1 - i,
            {
                render_sub_row(out, i, all[i].long_label(), all[i] == s.hue_mode);
                assert(concat((i + 1) as nat, part) == concat(i as nat, part) + part(i as int));
                assert(out@ =~= old(out)@ + concat((i + 1) as nat, part));
                i = i + 1;
            }
        },
    }
}

/// Draws whatever menu is open.
pub fn render_menu(out: &mut Vec<DrawOp>, s: &DisplayState)
    ensures
        final(out)@ == old(out)@ + menu_ops(*s),
{
    match s.menu {
        MenuView::Closed => {
            assert(out@ =~= old(out)@ + menu_ops(*s));
        },
        MenuView::Main => render_main_menu(out, s),
        MenuView::Sub(selector) => render_submenu(out, selector, s),
        MenuView::Confirm => render_confirm(out),
    }
}

// ─── The frame ──────────────────────────────────────────────────────────────

/// Height of the volume fill for a level, rounded to the nearest pixel.
pub open spec fn volume_height(level: u8) -> int {
    let shown = if level <= 100 {
        level as int
    } else {
        100
    };
    (shown * 58 + 50) / 100
}

/// The volume bar at the right edge: an outline, and in it the level growing
/// from the bottom, or a stripe across the middle while muted.
pub open spec fn volume_ops(s: DisplayState) -> Seq<DrawOp> {
    let outline = DrawOp::Outline { x: VOLUME_LEFT, y: 2, w: 8, h: 60 };
    let h = volume_height(s.volume.level);
    if s.volume.muted {
        seq![outline, DrawOp::Fill { x: VOLUME_LEFT, y: 30, w: 8, h: 4 }]
    } else if s.volume.level > 0 {
        seq![outline, DrawOp::Fill { x: 119, y: (3 + 58 - h) as i32, w: 6, h: h as u32 }]
    } else {
        seq![outline]
    }
}

/// The screen without a host.
pub open spec fn disconnected_ops() -> Seq<DrawOp> {
    seq![text_op("Disconnected", 28, 28), text_op("(no host daemon)", 16, 42)]
}

/// The history after a frame of the live style.
pub open spec fn viz_advanced(h: VizHistory, viz: OledViz, bands: Seq<u8>) -> VizHistory {
    match viz {
        OledViz::Waterfall => scrolled(h, bands),
        OledViz::VuNeedle => peaked(h, mean_band(bands)),
        OledViz::Particles => burned(h, bands),
        _ => h,
    }
}

/// The visualizer pane, given the history that includes this frame.
pub open spec fn viz_ops(h: VizHistory, viz: OledViz, bands: Seq<u8>) -> Seq<DrawOp> {
    match viz {
        OledViz::Bars => bars_ops(bands),
        OledViz::Waterfall => waterfall_ops(h.columns),
        OledViz::Radial => radial_ops(bands),
        OledViz::VuNeedle => needle_ops(mean_band(bands), h.peak),
        OledViz::Particles => particles_ops(h.heat),
        _ => Seq::empty(),
    }
}

/// The history that a frame starts from: empty after a change of style.
pub open spec fn history_for(h: VizHistory, viz: OledViz) -> VizHistory {
    if viz != h.last_viz {
        blank_history(viz)
    } else {
        h
    }
}

/// The history after a frame. It stands still while the pane is covered, and is
/// lost where no fresh bands are shown.
pub open spec fn frame_history(s: DisplayState, now: u64, h: VizHistory) -> VizHistory {
    if !s.is_connected(now) || s.menu != MenuView::Closed {
        h
    } else if s.shows_oled_viz(now) {
        viz_advanced(history_for(h, s.oled_viz), s.oled_viz, s.bands@)
    } else {
        blank_history(s.oled_viz)
    }
}

/// A frame: the screen without a host, or the menu, or the visualizer pane with
/// the volume bar beside it.
pub open spec fn frame_ops(s: DisplayState, now: u64, h: VizHistory) -> Seq<DrawOp> {
    seq![DrawOp::Clear] + (if !s.is_connected(now) {
        disconnected_ops()
    } else if s.menu != MenuView::Closed {
        menu_ops(s)
    } else if s.shows_oled_viz(now) {
        viz_ops(frame_history(s, now, h), s.oled_viz, s.bands@) + volume_ops(s)
    } else {
        volume_ops(s)
    })
}

/// Draws the volume bar.
fn render_volume(out: &mut Vec<DrawOp>, s: &DisplayState)
    ensures
        final(out)@ == old(out)@ + volume_ops(*s),
{
    out.push(DrawOp::Outline { x: VOLUME_LEFT, y: 2, w: 8, h: 60 });
    if s.volume.muted {
        out.push(DrawOp::Fill { x: VOLUME_LEFT, y: 30, w: 8, h: 4 });
    } else {
        let level: u32 = if s.volume.level <= 100 {
            s.volume.level as u32
        } else {
            100
        };
        if level > 0 {
            let h: u32 = (level * 58 + 50) / 100;
            let top: i32 = 3 + (58 - h) as i32;
            out.push(DrawOp::Fill { x: 119, y: top, w: 6, h });
        }
    }
    assert(out@ =~= old(out)@ + volume_ops(*s));
}

/// Draws one frame of the live state at `now`.
pub fn render_frame(snapshot: &DisplayState, now: u64, state: &mut OledVizState) -> (out: Vec<
    DrawOp,
>)
    requires
        old(state).wf(),
        snapshot.clocked(now),
    ensures
        final(state).wf(),
        final(state)@ == frame_history(*snapshot, now, old(state)@),
        out@ == frame_ops(*snapshot, now, old(state)@),
{
    let mut out: Vec<DrawOp> = Vec::new();
    out.push(DrawOp::Clear);
    assert(out@ =~= seq![DrawOp::Clear]);
    if !snapshot.connected(now) {
        out.push(DrawOp::Text { text: "Disconnected", x: 28, y: 28 });
        out.push(DrawOp::Text { text: "(no host daemon)", x: 16, y: 42 });
        assert(out@ =~= seq![DrawOp::Clear] + disconnected_ops());
        return out;
    }
    if snapshot.menu_open() {
        render_menu(&mut out, snapshot);
        return out;
    }
    if snapshot.oled_viz != state.last_viz {
        state.reset();
        state.last_viz = snapshot.oled_viz;
        assert(state@ =~= blank_history(snapshot.oled_viz));
    }
    assert(state@ == history_for(old(state)@, snapshot.oled_viz));
    if snapshot.oled_viz_active(now) {
        match snapshot.oled_viz {
            OledViz::Bars => render_bars(&mut out, &snapshot.bands),
            OledViz::Waterfall => render_waterfall(&mut out, &snapshot.bands, state),
            OledViz::Radial => render_radial(&mut out, &snapshot.bands),
            OledViz::VuNeedle => render_vu_needle(&mut out, &snapshot.bands, state),
            OledViz::Particles => render_particles(&mut out, &snapshot.bands, state),
            OledViz::Mirror | OledViz::Dots | OledViz::Off => {
                assert(out@ =~= seq![DrawOp::Clear] + Seq::<DrawOp>::empty());
            },
        }
        let ghost pane = viz_ops(state@, snapshot.oled_viz, snapshot.bands@);
        assert(out@ == seq![DrawOp::Clear] + pane);
        render_volume(&mut out, snapshot);
        assert(out@ =~= seq![DrawOp::Clear] + (pane + volume_ops(*snapshot)));
    } else {
        state.reset();
        render_volume(&mut out, snapshot);
    }
    out
}

// ─── Laws ───────────────────────────────────────────────────────────────────

/// Width of the screen.
pub const SCREEN_W: i32 = 128;

/// Height of the screen.
pub const SCREEN_H: i32 = 64;

/// Width of a character.
pub const FONT_W: i32 = 6;

/// Height of a character.
pub const FONT_H: i32 = 10;

/// A rectangle of pixels that lies within the columns left of `right`.
pub open spec fn rect_within(x: int, y: int, w: int, h: int, right: int) -> bool {
    0 <= x && x + w <= right && 0 <= y && y + h <= SCREEN_H
}

/// All pixels that the operation touches lie on the screen, in the columns left
/// of `right`.
pub open spec fn op_within(op: DrawOp, right: int) -> bool {
    match op {
        DrawOp::Clear => true,
        DrawOp::Text { text, x, y } => rect_within(
            x as int,
            y as int,
            text@.len() * FONT_W,
            FONT_H as int,
            right,
        ),
        DrawOp::Fill { x, y, w, h } => rect_within(x as int, y as int, w as int, h as int, right),
        DrawOp::Outline { x, y, w, h } => rect_within(
            x as int,
            y as int,
            w as int,
            h as int,
            right,
        ),
        DrawOp::Line { x0, y0, x1, y1 } => rect_within(x0 as int, y0 as int, 1, 1, right)
            && rect_within(x1 as int, y1 as int, 1, 1, right),
        DrawOp::Pixel { x, y } => rect_within(x as int, y as int, 1, 1, right),
    }
}

/// Right edge of the visualizer pane.
pub const PANE_RIGHT: i32 = 114;

/// A list of operations that stays within the visualizer pane.
pub open spec fn in_pane(ops: Seq<DrawOp>) -> bool {
    all_ops(ops, |op: DrawOp| op_within(op, PANE_RIGHT as int))
}

/// A list of operations that stays on the screen.
pub open spec fn on_screen(ops: Seq<DrawOp>) -> bool {
    all_ops(ops, |op: DrawOp| op_within(op, SCREEN_W as int))
}

/// Bars stay in the pane.
proof fn lemma_bars_in_pane(bands: Seq<u8>)
    requires
        bands.len() == 8,
    ensures
        in_pane(bars_ops(bands)),
{
    lemma_concat_all(
        8,
        |i: int| bar_ops(bands, i),
        |op: DrawOp| op_within(op, PANE_RIGHT as int),
    );
}

/// The waterfall stays in the pane.
proof fn lemma_waterfall_in_pane(columns: Seq<Seq<u8>>)
    ensures
        in_pane(waterfall_ops(columns)),
{
    let good = |op: DrawOp| op_within(op, PANE_RIGHT as int);
    let part = |c: int| column_ops(columns, c);
    assert forall|c: int| 0 <= c < VIZ_W implies all_ops(#[trigger] part(c), good) by {
        lemma_concat_all(8, |b: int| cell_ops(columns[c], c, b), good);
    }
    lemma_concat_all(VIZ_W as nat, part, good);
}

/// A spoke stays within its reach.
proof fn lemma_spoke_reach(at_max: int, m: int)
    requires
        -28 <= at_max <= 28,
        0 <= m <= 255,
    ensures
        -28 <= trunc_div(at_max * m, 255) <= 28,
{
    assert(-28 * 255 <= at_max * m <= 28 * 255) by (nonlinear_arith)
        requires
            -28 <= at_max <= 28,
            0 <= m <= 255,
    ;
}

/// Spokes stay in the pane.
proof fn lemma_radial_in_pane(bands: Seq<u8>)
    requires
        bands.len() == 8,
    ensures
        in_pane(radial_ops(bands)),
{
    let good = |op: DrawOp| op_within(op, PANE_RIGHT as int);
    let part = |i: int| spoke_ops(bands, i);
    assert forall|i: int| 0 <= i < 8 implies all_ops(#[trigger] part(i), good) by {
        let m = bands[i] as int;
        lemma_spoke_reach(SPOKE_AT_MAX@[i].0 as int, m);
        lemma_spoke_reach(SPOKE_AT_MAX@[i].1 as int, m);
    }
    lemma_concat_all(8, part, good);
}

/// The needle and its dial stay in the pane.
proof fn lemma_needle_in_pane(energy: int, peak: u8)
    requires
        0 <= energy <= 255,
    ensures
        in_pane(needle_ops(energy, peak)),
{
    let good = |op: DrawOp| op_within(op, PANE_RIGHT as int);
    let dial = |i: int| seq![dial_dot(i)];
    assert forall|i: int| 0 <= i < 32 implies all_ops(#[trigger] dial(i), good) by {
        let t = (i * 15) / 31;
        let next = if t + 1 <= 15 {
            t + 1
        } else {
            15
        };
        lemma_needle_lut(t);
        lemma_needle_lut(next);
        lemma_between(NEEDLE_LUT@[t].0, NEEDLE_LUT@[next].0, (i * 15) % 31);
        lemma_between(NEEDLE_LUT@[t].1, NEEDLE_LUT@[next].1, (i * 15) % 31);
    }
    lemma_concat_all(32, dial, good);
    lemma_needle_lut(sweep(peak as int));
    lemma_needle_lut(sweep(energy));
    lemma_concat_all(3, |d: int| seq![peak_dot(peak, d)], good);
}

/// The heat field stays in the pane.
proof fn lemma_particles_in_pane(heat: Seq<Seq<u8>>)
    ensures
        in_pane(particles_ops(heat)),
{
    let good = |op: DrawOp| op_within(op, PANE_RIGHT as int);
    let flames = |c: int| flame_ops(heat, c);
    assert forall|c: int| 0 <= c < 8 implies all_ops(#[trigger] flames(c), good) by {
        let embers = |r: int| ember_ops(heat[c][r], c, r);
        assert forall|r: int| 0 <= r < PART_ROWS implies all_ops(#[trigger] embers(r), good) by {
            let h = heat[c][r];
            let lines = |dy: int| spark_line_ops(h, c, r, dy);
            assert forall|dy: int| 0 <= dy < PART_ROW_H implies all_ops(
                #[trigger] lines(dy),
                good,
            ) by {
                lemma_concat_all(PART_COL_W as nat, |dx: int| spark_ops(h, c, r, dy, dx), good);
            }
            lemma_concat_all(PART_ROW_H as nat, lines, good);
        }
        lemma_concat_all(PART_ROWS as nat, embers, good);
    }
    lemma_concat_all(8, flames, good);
}

/// No visualizer ever reaches the volume bar: whatever the style and the
/// history, the pane ends left of it.
pub proof fn lemma_viz_clear_of_volume(h: VizHistory, viz: OledViz, bands: Seq<u8>)
    requires
        bands.len() == 8,
    ensures
        in_pane(viz_ops(h, viz, bands)),
        PANE_RIGHT < VOLUME_LEFT,
{
    lemma_bars_in_pane(bands);
    lemma_waterfall_in_pane(h.columns);
    lemma_radial_in_pane(bands);
    lemma_needle_in_pane(mean_band(bands), h.peak);
    lemma_particles_in_pane(h.heat);
}

/// Menus fit the screen.
proof fn lemma_menu_on_screen(s: DisplayState)
    ensures
        on_screen(menu_ops(s)),
{
    let good = |op: DrawOp| op_within(op, SCREEN_W as int);
    reveal_strlit("MENU");
    reveal_strlit(">");
    reveal_strlit("oled viz");
    reveal_strlit("glow viz");
    reveal_strlit("Bootloader");
    reveal_strlit("Go");
    reveal_strlit("bars");
    reveal_strlit("mirr");
    reveal_strlit("mirror");
    reveal_strlit("dots");
    reveal_strlit("off");
    reveal_strlit("wate");
    reveal_strlit("rad");
    reveal_strlit("vu");
    reveal_strlit("part");
    reveal_strlit("spec");
    reveal_strlit("spectrum");
    reveal_strlit("bass");
    reveal_strlit("static");
    reveal_strlit("Reboot to");
    reveal_strlit("bootloader?");
    reveal_strlit("OK=confirm");
    reveal_strlit("back=cancel");
    match s.menu {
        MenuView::Main => {
            let rows = |i: int| main_row_ops(s, i);
            assert forall|i: int| 0 <= i < 3 implies all_ops(#[trigger] rows(i), good) by {
            }
            lemma_concat_all(3, rows, good);
        },
        MenuView::Sub(Selector::OledViz) => {
            let rows = |i: int|
                sub_row_ops(OledViz::ALL@[i].long_text(), OledViz::ALL@[i] == s.oled_viz, i);
            assert forall|i: int| 0 <= i < 4 implies all_ops(#[trigger] rows(i), good) by {
                assert(OledViz::ALL@[i].offered());
            }
            lemma_concat_all(4, rows, good);
        },
        MenuView::Sub(Selector::GlowViz) => {
            let rows = |i: int|
                sub_row_ops(GlowViz::ALL@[i].long_text(), GlowViz::ALL@[i] == s.glow_viz, i);
            lemma_concat_all(4, rows, good);
        },
        MenuView::Sub(Selector::HueMode) => {
            let rows = |i: int|
                sub_row_ops(HueMode::ALL@[i].long_text(), HueMode::ALL@[i] == s.hue_mode, i);
            lemma_concat_all(1, rows, good);
        },
        _ => {},
    }
}

/// Everything that is ever drawn fits the screen: no text is cut off, and
/// nothing is drawn beyond an edge.
pub proof fn lemma_frame_on_screen(s: DisplayState, now: u64, h: VizHistory)
    ensures
        on_screen(frame_ops(s, now, h)),
{
    reveal_strlit("Disconnected");
    reveal_strlit("(no host daemon)");
    lemma_menu_on_screen(s);
    let pane = viz_ops(frame_history(s, now, h), s.oled_viz, s.bands@);
    lemma_viz_clear_of_volume(frame_history(s, now, h), s.oled_viz, s.bands@);
    assert(on_screen(pane)) by {
        assert forall|k: int| 0 <= k < pane.len() implies op_within(
            #[trigger] pane[k],
            SCREEN_W as int,
        ) by {
            assert((|op: DrawOp| op_within(op, PANE_RIGHT as int))(pane[k]));
        }
    }
    assert(on_screen(volume_ops(s)));
}

/// A change of style forgets the history: the frame that follows, and what is
/// remembered of it, are those of a device that has drawn nothing yet. Either
/// way the style drawn is the one remembered.
pub proof fn lemma_style_change_forgets(s: DisplayState, now: u64, h: VizHistory)
    requires
        s.is_connected(now),
        s.menu == MenuView::Closed,
    ensures
        frame_history(s, now, h).last_viz == s.oled_viz,
        h.last_viz != s.oled_viz ==> {
            let fresh = blank_history(OledViz::Bars);
            &&& frame_history(s, now, h) == frame_history(s, now, fresh)
            &&& frame_ops(s, now, h) == frame_ops(s, now, fresh)
        },
{
}

/// A covered pane keeps its history: neither a lost host nor an open menu
/// changes what is remembered.
pub proof fn lemma_cover_keeps_history(s: DisplayState, now: u64, h: VizHistory)
    requires
        !s.is_connected(now) || s.menu != MenuView::Closed,
    ensures
        frame_history(s, now, h) == h,
{
}

/// Silence forgets the history: once the bands are stale the next frame with
/// fresh ones starts from nothing.
pub proof fn lemma_silence_forgets(s: DisplayState, now: u64, h: VizHistory)
    requires
        s.is_connected(now),
        s.menu == MenuView::Closed,
        !s.shows_oled_viz(now),
    ensures
        frame_history(s, now, h) == blank_history(s.oled_viz),
        frame_ops(s, now, h) == seq![DrawOp::Clear] + volume_ops(s),
{
}

/// The volume fill grows with the level, from nothing at 0 to the whole bar at
/// 100.
pub proof fn lemma_volume_height(a: u8, b: u8)
    requires
        a <= b,
    ensures
        0 <= volume_height(a) <= volume_height(b) <= 58,
        volume_height(0) == 0,
        volume_height(100) == 58,
{
}

/// The peak marker holds for eight frames, then falls by at most four a frame,
/// and is never more than three behind the needle.
pub proof fn lemma_peak_trails_energy(h: VizHistory, energy: int)
    requires
        0 <= energy <= 255,
    ensures
        peaked(h, energy).peak >= energy - 3,
        energy >= h.peak ==> peaked(h, energy).peak == energy,
        peaked(h, energy).peak >= h.peak - 4,
        energy < h.peak && h.peak_age < 8 ==> peaked(h, energy).peak == h.peak,
{
}

/// A pixel that a filled rectangle or a single dot switches on.
pub open spec fn fills(op: DrawOp, px: int, py: int) -> bool {
    match op {
        DrawOp::Fill { x, y, w, h } => x <= px < x + w && y <= py < y + h,
        DrawOp::Pixel { x, y } => x == px && y == py,
        _ => false,
    }
}

/// A pixel that some filled rectangle or dot of the list switches on.
pub open spec fn filled_in(ops: Seq<DrawOp>, px: int, py: int) -> bool {
    exists|k: int| 0 <= k < ops.len() && fills(#[trigger] ops[k], px, py)
}

/// The pixels of the parts are the pixels of the whole.
proof fn lemma_filled_concat(n: nat, part: spec_fn(int) -> Seq<DrawOp>, px: int, py: int)
    ensures
        filled_in(concat(n, part), px, py) <==> exists|i: int|
            0 <= i < n && filled_in(#[trigger] part(i), px, py),
    decreases n,
{
    if n > 0 {
        let head = concat((n - 1) as nat, part);
        let last = part(n - 1);
        let whole = concat(n, part);
        lemma_filled_concat((n - 1) as nat, part, px, py);
        assert(whole == head + last);
        if filled_in(whole, px, py) {
            let k = choose|k: int| 0 <= k < whole.len() && fills(#[trigger] whole[k], px, py);
            if k < head.len() {
                assert(fills(head[k], px, py));
            } else {
                assert(fills(last[k - head.len()], px, py));
            }
        }
        if filled_in(head, px, py) {
            let k = choose|k: int| 0 <= k < head.len() && fills(#[trigger] head[k], px, py);
            assert(fills(whole[k], px, py));
        }
        if filled_in(last, px, py) {
            let k = choose|k: int| 0 <= k < last.len() && fills(#[trigger] last[k], px, py);
            assert(fills(whole[head.len() + k], px, py));
        }
    }
}

/// A pixel of a waterfall column that shows `column`: in the slice of eight
/// rows of each band, bass in the lowest, the lowest rows are on, as many as the
/// band is loud.
pub open spec fn column_pixel(column: Seq<u8>, py: int) -> bool {
    0 <= py < SCREEN_H && py % 8 >= 8 - cell_fill(column[7 - py / 8])
}

/// The pixels of one cell.
proof fn lemma_cell_pixels(column: Seq<u8>, c: int, b: int, px: int, py: int)
    requires
        0 <= c < VIZ_W,
        0 <= b < 8,
    ensures
        filled_in(cell_ops(column, c, b), px, py) <==> px == BAR_LEFT + c && b == 7 - py / 8
            && column_pixel(column, py),
{
    let ops = cell_ops(column, c, b);
    let fill = cell_fill(column[b]);
    assert(0 <= fill <= 8);
    if fill > 0 {
        assert(filled_in(ops, px, py) <==> fills(ops[0], px, py));
    }
}

/// The pixels of the waterfall: screen column by screen column, that of the
/// history, from the left edge of the pane on; nothing beside them.
pub proof fn lemma_waterfall_pixels(columns: Seq<Seq<u8>>, px: int, py: int)
    ensures
        filled_in(waterfall_ops(columns), px, py) <==> BAR_LEFT <= px < BAR_LEFT + VIZ_W
            && column_pixel(columns[px - BAR_LEFT], py),
{
    let part = |c: int| column_ops(columns, c);
    lemma_filled_concat(VIZ_W as nat, part, px, py);
    assert forall|c: int| 0 <= c < VIZ_W implies (filled_in(#[trigger] part(c), px, py) <==> px
        == BAR_LEFT + c && column_pixel(columns[c], py)) by {
        let cells = |b: int| cell_ops(columns[c], c, b);
        lemma_filled_concat(8, cells, px, py);
        assert forall|b: int| 0 <= b < 8 implies (filled_in(#[trigger] cells(b), px, py) <==> px
            == BAR_LEFT + c && b == 7 - py / 8 && column_pixel(columns[c], py)) by {
            lemma_cell_pixels(columns[c], c, b, px, py);
        }
        if px == BAR_LEFT + c && column_pixel(columns[c], py) {
            assert(filled_in(cells(7 - py / 8), px, py));
        }
    }
    if BAR_LEFT <= px < BAR_LEFT + VIZ_W && column_pixel(columns[px - BAR_LEFT], py) {
        assert(filled_in(part(px - BAR_LEFT), px, py));
    }
}

/// The waterfall scrolls: with the next frame every screen column moves one to
/// the left, and the new bands show at the right edge of the pane; nothing is
/// drawn beside it.
pub proof fn lemma_waterfall_scrolls(h: VizHistory, bands: Seq<u8>, px: int, py: int)
    requires
        h.shaped(),
        bands.len() == 8,
    ensures
        scrolled(h, bands).shaped(),
        scrolled(h, bands).columns[VIZ_W - 1] == bands,
        forall|c: int|
            0 <= c < VIZ_W - 1 ==> #[trigger] scrolled(h, bands).columns[c] == h.columns[c + 1],
        ({
            let before = waterfall_ops(h.columns);
            let after = waterfall_ops(scrolled(h, bands).columns);
            let right = BAR_LEFT + VIZ_W - 1;
            &&& BAR_LEFT <= px < right ==> filled_in(after, px, py) == filled_in(
                before,
                px + 1,
                py,
            )
            &&& px == right ==> filled_in(after, px, py) == column_pixel(bands, py)
            &&& px < BAR_LEFT || px > right ==> !filled_in(after, px, py)
        }),
{
    let next = scrolled(h, bands);
    assert forall|c: int| 0 <= c < VIZ_W implies (#[trigger] next.columns[c]).len() == 8 by {
        if c < VIZ_W - 1 {
            assert(next.columns[c] == h.columns[c + 1]);
        }
    }
    lemma_waterfall_pixels(next.columns, px, py);
    lemma_waterfall_pixels(h.columns, px + 1, py);
    if BAR_LEFT <= px < BAR_LEFT + VIZ_W - 1 {
        assert(next.columns[px - BAR_LEFT] == h.columns[px - BAR_LEFT + 1]);
    }
}

/// The main menu after `n` clockwise detents.
pub open spec fn turned(s: DisplayState, n: nat) -> DisplayState
    decreases n,
{
    if n == 0 {
        s
    } else {
        encoder_applied(turned(s, (n - 1) as nat), 1)
    }
}

/// Some number of detents brings the highlight to `row`.
pub open spec fn row_reachable(s: DisplayState, row: int) -> bool {
    exists|n: nat| (#[trigger] turned(s, n)).main_selection == row
}

/// Detents move the highlight on, row by row, and nothing else.
proof fn lemma_turned(s: DisplayState, n: nat)
    requires
        s.main_selection < MENU_ITEM_COUNT,
        s.menu == MenuView::Main,
    ensures
        turned(s, n) == (DisplayState {
            main_selection: ((s.main_selection + n) % (MENU_ITEM_COUNT as int)) as u8,
            ..s
        }),
    decreases n,
{
    if n > 0 {
        lemma_turned(s, (n - 1) as nat);
    }
}

/// A cursor.
pub open spec fn is_cursor(op: DrawOp) -> bool {
    op matches DrawOp::Text { text, .. } && text@ == ">"@
}

/// The main menu marks what OK does: below the title stand as many rows as the
/// encoder walks, one of them with the cursor, the selected one; that row is
/// labelled as the bootloader exactly where OK reboots into it; and every row
/// can be reached by turning the encoder.
pub proof fn lemma_main_menu_marks_selection(s: DisplayState)
    requires
        s.main_selection < MENU_ITEM_COUNT,
        s.menu == MenuView::Main,
    ensures
        ({
            let ops = main_menu_ops(s);
            let at = 1 + 2 * s.main_selection;
            &&& ops.len() == 1 + 2 * MENU_ITEM_COUNT + 1
            &&& ops[at] == text_op(">", 4, 14 + 10 * s.main_selection)
            &&& forall|k: int| 0 <= k < ops.len() ==> (is_cursor(#[trigger] ops[k]) <==> k == at)
            &&& ops[at + 1] == text_op(
                main_row_label(s.main_selection as int),
                14,
                14 + 10 * s.main_selection,
            )
        }),
        main_row_label(s.main_selection as int)@ == "Bootloader"@ <==> ok_reboots(s),
        forall|row: int| 0 <= row < MENU_ITEM_COUNT ==> #[trigger] row_reachable(s, row),
{
    reveal_strlit(">");
    reveal_strlit("MENU");
    reveal_strlit("oled viz");
    reveal_strlit("glow viz");
    reveal_strlit("Bootloader");
    reveal_strlit("Go");
    reveal_strlit("bars");
    reveal_strlit("mirr");
    reveal_strlit("dots");
    reveal_strlit("off");
    reveal_strlit("wate");
    reveal_strlit("rad");
    reveal_strlit("vu");
    reveal_strlit("part");
    reveal_strlit("spec");
    reveal_strlit("bass");
    let part = |i: int| main_row_ops(s, i);
    let ops = main_menu_ops(s);
    reveal_with_fuel(concat, 4);
    assert(concat(3, part) == Seq::<DrawOp>::empty() + part(0) + part(1) + part(2));
    assert(">"@.len() == 1);
    assert(s.oled_viz.short_text()@.len() > 1);
    assert(s.glow_viz.short_text()@.len() > 1);
    assert("oled viz"@.len() == 8 && "glow viz"@.len() == 8 && "Bootloader"@.len() == 10);
    if s.main_selection == 0 {
        assert(ops =~= seq![
            text_op("MENU", 52, 2),
            text_op(">", 4, 14),
            text_op("oled viz", 14, 14),
            text_op(s.oled_viz.short_text(), 98, 14),
            text_op("glow viz", 14, 24),
            text_op(s.glow_viz.short_text(), 98, 24),
            text_op("Bootloader", 14, 34),
            text_op("Go", 98, 34),
        ]);
    } else if s.main_selection == 1 {
        assert(ops =~= seq![
            text_op("MENU", 52, 2),
            text_op("oled viz", 14, 14),
            text_op(s.oled_viz.short_text(), 98, 14),
            text_op(">", 4, 24),
            text_op("glow viz", 14, 24),
            text_op(s.glow_viz.short_text(), 98, 24),
            text_op("Bootloader", 14, 34),
            text_op("Go", 98, 34),
        ]);
    } else {
        assert(ops =~= seq![
            text_op("MENU", 52, 2),
            text_op("oled viz", 14, 14),
            text_op(s.oled_viz.short_text(), 98, 14),
            text_op("glow viz", 14, 24),
            text_op(s.glow_viz.short_text(), 98, 24),
            text_op(">", 4, 34),
            text_op("Bootloader", 14, 34),
            text_op("Go", 98, 34),
        ]);
    }
    assert forall|row: int| 0 <= row < MENU_ITEM_COUNT implies #[trigger] row_reachable(s, row) by {
        let n = ((row - s.main_selection) % (MENU_ITEM_COUNT as int)) as nat;
        lemma_turned(s, n);
        assert(turned(s, n).main_selection == row);
    }
}

/// A heat field in which no cell is hotter than `most`.
pub open spec fn heat_at_most(heat: Seq<Seq<u8>>, most: int) -> bool {
    forall|c: int, r: int| 0 <= c < 8 && 0 <= r < PART_ROWS ==> #[trigger] heat[c][r] <= most
}

/// Without sound the fire dies down: each frame takes the decay off the hottest
/// cell, until all are cold.
pub proof fn lemma_fire_dies_down(heat: Seq<Seq<u8>>, bands: Seq<u8>, most: int)
    requires
        heat_at_most(heat, most),
        0 <= most,
        forall|c: int| 0 <= c < 8 ==> #[trigger] bands[c] == 0,
    ensures
        heat_at_most(next_heat(heat, bands), cooled(most)),
{
    let next = next_heat(heat, bands);
    assert forall|c: int, r: int| 0 <= c < 8 && 0 <= r < PART_ROWS implies #[trigger] next[c][r]
        <= cooled(most) by {
        assert(next[c][r] == next_cell(heat, bands, c, r));
        if r == PART_ROWS - 1 {
            assert(heat[c][r] <= most);
            assert(bands[c] == 0);
        } else {
            assert(heat[c][r + 1] <= most);
            assert(heat[(c + 7) % 8][r + 1] <= most);
            assert(heat[(c + 1) % 8][r + 1] <= most);
        }
    }
}

/// Sound enters at the bottom: a cell of the bottom row is at least as hot as
/// its band is loud.
pub proof fn lemma_sound_feeds_fire(heat: Seq<Seq<u8>>, bands: Seq<u8>, c: int)
    requires
        0 <= c < 8,
    ensures
        next_heat(heat, bands)[c][PART_ROWS - 1] >= bands[c],
{
}

/// A cell at full heat is drawn solid, and a hotter cell lights every pixel
/// that a cooler one lights.
pub proof fn lemma_hot_cells_are_solid(cooler: u8, hotter: u8, x: int, y: int)
    requires
        cooler <= hotter,
        0 <= x,
        0 <= y,
    ensures
        255 > dither_threshold(x, y),
        cooler > dither_threshold(x, y) ==> hotter > dither_threshold(x, y),
{
    let a = y % 4;
    let b = x % 4;
    assert(0 <= a < 4 && 0 <= b < 4);
    assert(BAYER4@[a]@[b] <= 15);
}

// ─── Laws of what is drawn ──────────────────────────────────────────────────

/// The operations of the whole are those of its parts.
proof fn lemma_concat_contains(n: nat, part: spec_fn(int) -> Seq<DrawOp>, op: DrawOp)
    ensures
        concat(n, part).contains(op) <==> exists|i: int|
            0 <= i < n && (#[trigger] part(i)).contains(op),
    decreases n,
{
    if n > 0 {
        let head = concat((n - 1) as nat, part);
        let last = part(n - 1);
        let whole = concat(n, part);
        lemma_concat_contains((n - 1) as nat, part, op);
        assert(whole == head + last);
        if whole.contains(op) {
            let k = choose|k: int| 0 <= k < whole.len() && whole[k] == op;
            if k < head.len() {
                assert(head[k] == op);
            } else {
                assert(last[k - head.len()] == op);
            }
        }
        if head.contains(op) {
            let k = choose|k: int| 0 <= k < head.len() && head[k] == op;
            assert(whole[k] == op);
        }
        if last.contains(op) {
            let k = choose|k: int| 0 <= k < last.len() && last[k] == op;
            assert(whole[head.len() + k] == op);
        }
    }
}

/// Parts of one operation each stand in order.
proof fn lemma_concat_singles(n: nat, part: spec_fn(int) -> Seq<DrawOp>)
    requires
        forall|i: int| 0 <= i < n ==> (#[trigger] part(i)).len() == 1,
    ensures
        concat(n, part).len() == n,
        forall|i: int| 0 <= i < n ==> #[trigger] concat(n, part)[i] == part(i)[0],
    decreases n,
{
    if n > 0 {
        lemma_concat_singles((n - 1) as nat, part);
        assert(part(n - 1).len() == 1);
    }
}

/// `q` is `x` divided by `d`, rounded towards zero.
pub open spec fn is_truncated(q: int, x: int, d: int) -> bool {
    if x >= 0 {
        is_quotient(q, x, d)
    } else {
        is_quotient(-q, -x, d)
    }
}

/// Every band has its bar: eight columns 13 pixels wide, 14 apart, standing on
/// the bottom edge, each on for 60 pixels at full and in proportion below that;
/// nothing beside them.
pub proof fn lemma_bar_pixels(bands: Seq<u8>, px: int, py: int)
    requires
        bands.len() == 8,
    ensures
        filled_in(bars_ops(bands), px, py) <==> exists|i: int|
            {
                &&& 0 <= i < 8
                &&& 2 + 14 * i <= px < 2 + 14 * i + 13
                &&& 64 - #[trigger] bands[i] * 60 / 255 <= py < 64
            },
{
    let part = |i: int| bar_ops(bands, i);
    lemma_filled_concat(8, part, px, py);
    assert forall|i: int| 0 <= i < 8 implies (filled_in(#[trigger] part(i), px, py) <==> 2 + 14 * i
        <= px < 2 + 14 * i + 13 && 64 - bands[i] * 60 / 255 <= py < 64) by {
        let ops = bar_ops(bands, i);
        let h = bands[i] * 60 / 255;
        assert(0 <= h <= 60);
        if h > 0 {
            assert(ops.len() == 1);
            assert(filled_in(ops, px, py) <==> fills(ops[0], px, py));
        } else {
            assert(ops.len() == 0);
        }
    }
    if filled_in(bars_ops(bands), px, py) {
        let i = choose|i: int| 0 <= i < 8 && filled_in(#[trigger] part(i), px, py);
        assert(64 - bands[i] * 60 / 255 <= py < 64);
    }
    if exists|i: int|
        {
            &&& 0 <= i < 8
            &&& 2 + 14 * i <= px < 2 + 14 * i + 13
            &&& 64 - #[trigger] bands[i] * 60 / 255 <= py < 64
        } {
        let i = choose|i: int|
            {
                &&& 0 <= i < 8
                &&& 2 + 14 * i <= px < 2 + 14 * i + 13
                &&& 64 - #[trigger] bands[i] * 60 / 255 <= py < 64
            };
        assert(filled_in(part(i), px, py));
    }
}

/// A bar has the band's share of 60 pixels and a waterfall cell its share of
/// eight, rounded down.
pub proof fn lemma_heights_are_in_proportion(magnitude: u8)
    ensures
        is_quotient(bar_height(magnitude), magnitude * 60, 255),
        is_quotient(cell_fill(magnitude), magnitude * 8, 255),
{
}

/// Spokes point in eight directions 45 degrees apart: the first to the right,
/// the second up to the right, each the one two before it turned by 90 degrees.
pub proof fn lemma_spoke_directions(i: int)
    requires
        0 <= i < 6,
    ensures
        SPOKE_AT_MAX@[0] == (28i8, 0i8),
        SPOKE_AT_MAX@[1] == (20i8, -20i8),
        SPOKE_AT_MAX@[i + 2].0 == SPOKE_AT_MAX@[i].1,
        SPOKE_AT_MAX@[i + 2].1 == -SPOKE_AT_MAX@[i].0,
{
}

/// Every band that sounds has its spoke, a line from the centre of the pane in
/// its direction, as long as the band is loud.
pub proof fn lemma_spokes_are_drawn(bands: Seq<u8>, i: int, x1: i32, y1: i32)
    requires
        bands.len() == 8,
        0 <= i < 8,
        bands[i] > 0,
        is_truncated(x1 - 57, SPOKE_AT_MAX@[i].0 * bands[i], 255),
        is_truncated(y1 - 32, SPOKE_AT_MAX@[i].1 * bands[i], 255),
    ensures
        radial_ops(bands).contains(DrawOp::Line { x0: 57, y0: 32, x1, y1 }),
{
    let part = |i: int| spoke_ops(bands, i);
    let spokes = concat(8, part);
    let op = DrawOp::Line { x0: 57, y0: 32, x1, y1 };
    let m = bands[i] as int;
    lemma_spoke_reach(SPOKE_AT_MAX@[i].0 as int, m);
    lemma_spoke_reach(SPOKE_AT_MAX@[i].1 as int, m);
    lemma_concat_contains(8, part, op);
    assert(part(i)[0] == op);
    assert(part(i).contains(op));
    let k = choose|k: int| 0 <= k < spokes.len() && spokes[k] == op;
    assert(radial_ops(bands)[k] == op);
}

/// Nothing but such spokes, and a dot of nine pixels at the centre, is drawn.
pub proof fn lemma_only_spokes_are_drawn(bands: Seq<u8>, k: int)
    requires
        bands.len() == 8,
        0 <= k < radial_ops(bands).len(),
    ensures
        radial_ops(bands).last() == (DrawOp::Fill { x: 56, y: 31, w: 3, h: 3 }),
        k < radial_ops(bands).len() - 1 ==> exists|i: int|
            {
                &&& 0 <= i < 8
                &&& #[trigger] bands[i] > 0
                &&& radial_ops(bands)[k] matches DrawOp::Line { x0, y0, x1, y1 }
                &&& x0 == 57 && y0 == 32
                &&& is_truncated(x1 - 57, SPOKE_AT_MAX@[i].0 * bands[i], 255)
                &&& is_truncated(y1 - 32, SPOKE_AT_MAX@[i].1 * bands[i], 255)
            },
{
    let part = |i: int| spoke_ops(bands, i);
    let spokes = concat(8, part);
    if k < spokes.len() {
        let op = spokes[k];
        assert(radial_ops(bands)[k] == op);
        lemma_concat_contains(8, part, op);
        assert(spokes.contains(op));
        let i = choose|i: int| 0 <= i < 8 && (#[trigger] part(i)).contains(op);
        assert(part(i).contains(op));
        assert(bands[i] > 0);
        assert(op == part(i)[0]);
        let m = bands[i] as int;
        lemma_spoke_reach(SPOKE_AT_MAX@[i].0 as int, m);
        lemma_spoke_reach(SPOKE_AT_MAX@[i].1 as int, m);
    }
}

/// The arc of the needle: eight tips from the left to the top, and the same
/// mirrored to the right.
pub proof fn lemma_needle_arc(i: int)
    requires
        0 <= i < 8,
    ensures
        ({
            let left = seq![
                (-43i8, -25i8),
                (-39i8, -31i8),
                (-35i8, -36i8),
                (-29i8, -40i8),
                (-23i8, -44i8),
                (-17i8, -47i8),
                (-10i8, -49i8),
                (-3i8, -50i8),
            ];
            &&& NEEDLE_LUT@[i] == left[i]
            &&& NEEDLE_LUT@[15 - i].0 == -NEEDLE_LUT@[i].0
            &&& NEEDLE_LUT@[15 - i].1 == NEEDLE_LUT@[i].1
        }),
{
}

/// The needle and the peak marker point where their values stand on a sweep of
/// fifteen steps, rounded down; the dial is dotted along the tips, 31 steps from
/// the first to the last; the pivot is a small block.
pub proof fn lemma_needle_is_drawn(energy: int, peak: u8, e: int, p: int, i: int, d: int)
    requires
        0 <= energy <= 255,
        is_quotient(e, 15 * energy, 255),
        is_quotient(p, 15 * peak, 255),
        0 <= i < 32,
        0 <= d < 3,
    ensures
        ({
            let ops = needle_ops(energy, peak);
            let t = 15 * i / 31;
            let u = if t < 15 {
                t + 1
            } else {
                15
            };
            let frac = 15 * i - 31 * t;
            &&& ops.len() == 37
            &&& ops[35] == (DrawOp::Line {
                x0: 57,
                y0: 56,
                x1: (57 + NEEDLE_LUT@[e].0) as i32,
                y1: (56 + NEEDLE_LUT@[e].1) as i32,
            })
            &&& ops[36] == (DrawOp::Fill { x: 55, y: 55, w: 5, h: 3 })
            &&& ops[32 + d] == (DrawOp::Pixel {
                x: (57 + NEEDLE_LUT@[p].0 + d - 1) as i32,
                y: (56 + NEEDLE_LUT@[p].1) as i32,
            })
            &&& ops[i] matches DrawOp::Pixel { x, y } && {
                &&& is_truncated(
                    x - 57 - NEEDLE_LUT@[t].0,
                    (NEEDLE_LUT@[u].0 - NEEDLE_LUT@[t].0) * frac,
                    31,
                )
                &&& is_truncated(
                    y - 56 - NEEDLE_LUT@[t].1,
                    (NEEDLE_LUT@[u].1 - NEEDLE_LUT@[t].1) * frac,
                    31,
                )
            }
        }),
{
    let ops = needle_ops(energy, peak);
    let dial = |i: int| seq![dial_dot(i)];
    let marks = |d: int| seq![peak_dot(peak, d)];
    lemma_concat_singles(32, dial);
    lemma_concat_singles(3, marks);
    assert(ops[i] == concat(32, dial)[i]);
    assert(concat(32, dial)[i] == dial(i)[0]);
    assert(ops[32 + d] == concat(3, marks)[d]);
    assert(concat(3, marks)[d] == marks(d)[0]);
    assert(sweep(energy) == e);
    assert(sweep(peak as int) == p);
    let t = 15 * i / 31;
    let u = if t < 15 {
        t + 1
    } else {
        15
    };
    lemma_needle_lut(t);
    lemma_needle_lut(u);
    lemma_between(NEEDLE_LUT@[t].0, NEEDLE_LUT@[u].0, 15 * i - 31 * t);
    lemma_between(NEEDLE_LUT@[t].1, NEEDLE_LUT@[u].1, 15 * i - 31 * t);
}

/// The peak rises with the energy at once and starts to age; while the energy is
/// below it, it holds for eight frames and then falls by four a frame, down to
/// nothing. Nothing else is touched.
pub proof fn lemma_peak_holds_then_falls(h: VizHistory, energy: int)
    requires
        0 <= energy <= 255,
    ensures
        ({
            let n = peaked(h, energy);
            &&& energy >= h.peak ==> n.peak == energy && n.peak_age == 0
            &&& energy < h.peak && h.peak_age < 65535 ==> n.peak_age == h.peak_age + 1
            &&& energy < h.peak && h.peak_age == 65535 ==> n.peak_age == 65535
            &&& energy < h.peak && h.peak_age < 8 ==> n.peak == h.peak
            &&& energy < h.peak && h.peak_age >= 8 && h.peak >= 4 ==> n.peak == h.peak - 4
            &&& energy < h.peak && h.peak_age >= 8 && h.peak < 4 ==> n.peak == 0
            &&& n.columns == h.columns && n.head == h.head && n.heat == h.heat && n.last_viz
                == h.last_viz
        }),
{
}

/// Heat one frame later: the bottom row takes the louder of its band and what it
/// keeps, having lost three; every other cell takes, from the row below, the
/// mean of its own column twice and of its neighbours to either side, the outer
/// columns being neighbours, and loses three. Nothing else is touched.
pub proof fn lemma_heat_rises(h: VizHistory, bands: Seq<u8>, c: int, r: int)
    requires
        bands.len() == 8,
        0 <= c < 8,
        0 <= r < 32,
    ensures
        ({
            let n = burned(h, bands);
            let now = n.heat[c][r];
            let left = if c == 0 {
                7
            } else {
                c - 1
            };
            let right = if c == 7 {
                0
            } else {
                c + 1
            };
            let sum = 2 * h.heat[c][r + 1] + h.heat[left][r + 1] + h.heat[right][r + 1];
            &&& n.heat.len() == 8 && n.heat[c].len() == 32
            &&& r == 31 ==> {
                &&& now >= bands[c]
                &&& now >= h.heat[c][31] - 3
                &&& now == bands[c] || now == h.heat[c][31] - 3
            }
            &&& r < 31 && sum < 16 ==> now == 0
            &&& r < 31 && sum >= 16 ==> is_quotient(now + 3, sum, 4)
            &&& n.columns == h.columns && n.head == h.head && n.peak == h.peak && n.peak_age
                == h.peak_age && n.last_viz == h.last_viz
        }),
{
}

/// The heat that a pixel takes to light, by its place in a square of four by
/// four.
pub proof fn lemma_dither_thresholds(x: int, y: int)
    requires
        0 <= x,
        0 <= y,
    ensures
        dither_threshold(x, y) == seq![
            seq![16int, 144, 48, 176],
            seq![208int, 80, 240, 112],
            seq![64int, 192, 32, 160],
            seq![0int, 128, 224, 96],
        ][y % 4][x % 4],
{
    let a = y % 4;
    let b = x % 4;
    assert(0 <= a < 4 && 0 <= b < 4);
    assert(BAYER4@[0]@ =~= seq![0u8, 8, 2, 10]);
    assert(BAYER4@[1]@ =~= seq![12u8, 4, 14, 6]);
    assert(BAYER4@[2]@ =~= seq![3u8, 11, 1, 9]);
    assert(BAYER4@[3]@ =~= seq![15u8, 7, 13, 5]);
}

/// The pixels of the fire: cells of 14 by two pixels from the left edge of the
/// pane on, each pixel on where its cell is hotter than it takes; nothing
/// beside them.
pub proof fn lemma_fire_pixels(heat: Seq<Seq<u8>>, px: int, py: int)
    ensures
        filled_in(particles_ops(heat), px, py) <==> {
            &&& 2 <= px < 114
            &&& 0 <= py < 64
            &&& heat[(px - 2) / 14][py / 2] > dither_threshold(px, py)
        },
{
    let flames = |c: int| flame_ops(heat, c);
    lemma_filled_concat(8, flames, px, py);
    assert forall|c: int| 0 <= c < 8 implies (filled_in(#[trigger] flames(c), px, py) <==> 0 <= px
        - 2 - 14 * c < 14 && 0 <= py < 64 && heat[c][py / 2] > dither_threshold(px, py)) by {
        lemma_flame_pixels(heat, c, px, py);
    }
    if 2 <= px < 114 && 0 <= py < 64 && heat[(px - 2) / 14][py / 2] > dither_threshold(px, py) {
        assert(filled_in(flames((px - 2) / 14), px, py));
    }
}

/// The pixels of one column of cells.
proof fn lemma_flame_pixels(heat: Seq<Seq<u8>>, c: int, px: int, py: int)
    requires
        0 <= c < 8,
    ensures
        filled_in(flame_ops(heat, c), px, py) <==> 0 <= px - 2 - 14 * c < 14 && 0 <= py < 64
            && heat[c][py / 2] > dither_threshold(px, py),
{
    let embers = |r: int| ember_ops(heat[c][r], c, r);
    lemma_filled_concat(PART_ROWS as nat, embers, px, py);
    assert forall|r: int| 0 <= r < 32 implies (filled_in(#[trigger] embers(r), px, py) <==> 0 <= px
        - 2 - 14 * c < 14 && 0 <= py - 2 * r < 2 && heat[c][r] > dither_threshold(px, py)) by {
        lemma_ember_pixels(heat[c][r], c, r, px, py);
    }
    if 0 <= px - 2 - 14 * c < 14 && 0 <= py < 64 && heat[c][py / 2] > dither_threshold(px, py) {
        assert(filled_in(embers(py / 2), px, py));
    }
}

/// The pixels of one cell.
proof fn lemma_ember_pixels(heat: u8, c: int, r: int, px: int, py: int)
    requires
        0 <= c < 8,
        0 <= r < 32,
    ensures
        filled_in(ember_ops(heat, c, r), px, py) <==> 0 <= px - 2 - 14 * c < 14 && 0 <= py - 2 * r
            < 2 && heat > dither_threshold(px, py),
{
    let lines = |dy: int| spark_line_ops(heat, c, r, dy);
    if heat > 0 {
        lemma_filled_concat(PART_ROW_H as nat, lines, px, py);
        assert forall|dy: int| 0 <= dy < 2 implies (filled_in(#[trigger] lines(dy), px, py) <==> 0
            <= px - 2 - 14 * c < 14 && py == 2 * r + dy && heat > dither_threshold(px, py)) by {
            let sparks = |dx: int| spark_ops(heat, c, r, dy, dx);
            lemma_filled_concat(PART_COL_W as nat, sparks, px, py);
            assert forall|dx: int| 0 <= dx < 14 implies (filled_in(
                #[trigger] sparks(dx),
                px,
                py,
            ) <==> px == 2 + 14 * c + dx && py == 2 * r + dy && heat > dither_threshold(px, py)) by {
                let ops = spark_ops(heat, c, r, dy, dx);
                if ops.len() > 0 {
                    assert(filled_in(ops, px, py) <==> fills(ops[0], px, py));
                }
            }
            if 0 <= px - 2 - 14 * c < 14 && py == 2 * r + dy && heat > dither_threshold(px, py) {
                assert(filled_in(sparks(px - 2 - 14 * c), px, py));
            }
        }
        if 0 <= px - 2 - 14 * c < 14 && 0 <= py - 2 * r < 2 && heat > dither_threshold(px, py) {
            assert(filled_in(lines(py - 2 * r), px, py));
        }
    } else {
        if 0 <= px - 2 - 14 * c < 14 && 0 <= py - 2 * r < 2 {
            lemma_dither_thresholds(px, py);
            assert(dither_threshold(px, py) >= 0);
        }
    }
}

/// The volume bar: an outline at the right edge, and in it a fill on the bottom
/// in proportion to the level, 58 pixels at 100 and above, rounded to the
/// nearest; while muted a stripe across the middle instead.
pub proof fn lemma_volume_pixels(s: DisplayState, px: int, py: int)
    ensures
        volume_ops(s)[0] == (DrawOp::Outline { x: 118, y: 2, w: 8, h: 60 }),
        volume_ops(s).len() <= 2,
        s.volume.muted ==> (filled_in(volume_ops(s), px, py) <==> 118 <= px < 126 && 30 <= py < 34),
        !s.volume.muted ==> (filled_in(volume_ops(s), px, py) <==> {
            let level = if s.volume.level < 100 {
                s.volume.level as int
            } else {
                100
            };
            119 <= px < 125 && py < 61 && 100 * (61 - py) <= 58 * level + 50
        }),
{
    let ops = volume_ops(s);
    let h = volume_height(s.volume.level);
    assert(!fills(ops[0], px, py));
    if ops.len() == 2 {
        assert(filled_in(ops, px, py) <==> fills(ops[1], px, py));
        let level = if s.volume.level < 100 {
            s.volume.level as int
        } else {
            100
        };
        assert(is_quotient(h, 58 * level + 50, 100));
    }
}

/// What a frame shows: the screen is cleared first; without a host it says so;
/// an open menu covers the rest; else the pane of the chosen style comes before
/// the volume bar, which stands alone in silence.
pub proof fn lemma_frame_shows(s: DisplayState, now: u64, h: VizHistory)
    requires
        s.last_message <= now,
        s.last_visualizer <= now,
    ensures
        ({
            let ops = frame_ops(s, now, h);
            let connected = 0 < s.last_message && now < s.last_message + 5_000_000;
            let fresh = 0 < s.last_visualizer && now < s.last_visualizer + 500_000;
            &&& !connected ==> ops == seq![
                DrawOp::Clear,
                DrawOp::Text { text: "Disconnected", x: 28, y: 28 },
                DrawOp::Text { text: "(no host daemon)", x: 16, y: 42 },
            ]
            &&& connected && s.menu != MenuView::Closed ==> ops == seq![DrawOp::Clear] + menu_ops(s)
            &&& connected && s.menu == MenuView::Closed && fresh && s.oled_viz != OledViz::Off
                ==> ops == seq![DrawOp::Clear] + viz_ops(
                frame_history(s, now, h),
                s.oled_viz,
                s.bands@,
            ) + volume_ops(s)
            &&& connected && s.menu == MenuView::Closed && (!fresh || s.oled_viz == OledViz::Off)
                ==> ops == seq![DrawOp::Clear] + volume_ops(s)
        }),
{
    let ops = frame_ops(s, now, h);
    if !s.is_connected(now) {
        assert(ops =~= seq![
            DrawOp::Clear,
            DrawOp::Text { text: "Disconnected", x: 28, y: 28 },
            DrawOp::Text { text: "(no host daemon)", x: 16, y: 42 },
        ]);
    } else if s.menu == MenuView::Closed && s.shows_oled_viz(now) {
        let pane = viz_ops(frame_history(s, now, h), s.oled_viz, s.bands@);
        assert(ops =~= seq![DrawOp::Clear] + pane + volume_ops(s));
    }
}

/// Each style draws its own picture of the bands, and remembers only what that
/// picture needs: the waterfall the bands, the needle its peak, the fire its
/// heat.
pub proof fn lemma_styles_draw(h: VizHistory, bands: Seq<u8>)
    requires
        h.shaped(),
        bands.len() == 8,
    ensures
        viz_ops(h, OledViz::Bars, bands) == bars_ops(bands),
        viz_ops(h, OledViz::Waterfall, bands) == waterfall_ops(h.columns),
        viz_ops(h, OledViz::Radial, bands) == radial_ops(bands),
        viz_ops(h, OledViz::VuNeedle, bands) == needle_ops(mean_band(bands), h.peak),
        viz_ops(h, OledViz::Particles, bands) == particles_ops(h.heat),
        viz_advanced(h, OledViz::Bars, bands) == h,
        viz_advanced(h, OledViz::Radial, bands) == h,
        viz_advanced(h, OledViz::VuNeedle, bands) == peaked(h, mean_band(bands)),
        viz_advanced(h, OledViz::Particles, bands) == burned(h, bands),
        ({
            let n = viz_advanced(h, OledViz::Waterfall, bands);
            &&& n.columns == h.columns.drop_first().push(bands)
            &&& n.head == (if h.head == 109 {
                0
            } else {
                h.head + 1
            })
            &&& n.heat == h.heat && n.peak == h.peak && n.peak_age == h.peak_age && n.last_viz
                == h.last_viz
        }),
{
}

/// The history of a frame with fresh bands goes on from the last one of the same
/// style.
pub proof fn lemma_history_goes_on(s: DisplayState, now: u64, h: VizHistory)
    requires
        s.is_connected(now),
        s.menu == MenuView::Closed,
        s.shows_oled_viz(now),
        h.last_viz == s.oled_viz,
    ensures
        frame_history(s, now, h) == viz_advanced(h, s.oled_viz, s.bands@),
        frame_history(s, now, blank_history(s.oled_viz)).last_viz == s.oled_viz,
{
}

/// An empty history is dark: no bands, no heat, no peak, and of full size.
pub proof fn lemma_blank_is_dark(viz: OledViz, c: int, b: int, r: int)
    requires
        0 <= c < 110,
        0 <= b < 8,
        0 <= r < 32,
    ensures
        ({
            let h = blank_history(viz);
            &&& h.shaped()
            &&& h.columns[c][b] == 0
            &&& h.heat[b][r] == 0
            &&& h.head == 0 && h.peak == 0 && h.peak_age == 0 && h.last_viz == viz
        }),
{
}

/// The main menu lists, under its title, the two styles with their short labels
/// and the bootloader, ten pixels apart.
pub proof fn lemma_main_menu_lists(s: DisplayState)
    requires
        s.menu == MenuView::Main,
    ensures
        ({
            let ops = menu_ops(s);
            &&& ops.contains(DrawOp::Text { text: "MENU", x: 52, y: 2 })
            &&& ops.contains(DrawOp::Text { text: "oled viz", x: 14, y: 14 })
            &&& ops.contains(DrawOp::Text { text: s.oled_viz.short_text(), x: 98, y: 14 })
            &&& ops.contains(DrawOp::Text { text: "glow viz", x: 14, y: 24 })
            &&& ops.contains(DrawOp::Text { text: s.glow_viz.short_text(), x: 98, y: 24 })
            &&& ops.contains(DrawOp::Text { text: "Bootloader", x: 14, y: 34 })
            &&& ops.contains(DrawOp::Text { text: "Go", x: 98, y: 34 })
            &&& s.main_selection < 3 ==> ops.contains(
                DrawOp::Text { text: ">", x: 4, y: (14 + 10 * s.main_selection) as i32 },
            )
        }),
{
    assert(menu_ops(s)[0] == text_op("MENU", 52, 2));
    lemma_main_row_is_listed(s, 0);
    lemma_main_row_is_listed(s, 1);
    lemma_main_row_is_listed(s, 2);
}

/// A row of the main menu is part of it.
proof fn lemma_main_row_is_listed(s: DisplayState, i: int)
    requires
        s.menu == MenuView::Main,
        0 <= i < 3,
    ensures
        menu_ops(s).contains(text_op(main_row_label(i), 14, 14 + 10 * i)),
        menu_ops(s).contains(text_op(main_row_value(s, i), 98, 14 + 10 * i)),
        i == s.main_selection ==> menu_ops(s).contains(text_op(">", 4, 14 + 10 * i)),
{
    let part = |i: int| main_row_ops(s, i);
    let rows = concat(3, part);
    let ops = menu_ops(s);
    let label = text_op(main_row_label(i), 14, 14 + 10 * i);
    let value = text_op(main_row_value(s, i), 98, 14 + 10 * i);
    let mark = text_op(">", 4, 14 + 10 * i);
    let row = part(i);
    let n = row.len() as int;
    assert forall|op: DrawOp| #[trigger] row.contains(op) implies ops.contains(op) by {
        lemma_concat_contains(3, part, op);
        let k = choose|k: int| 0 <= k < rows.len() && rows[k] == op;
        assert(ops[k + 1] == op);
    }
    assert(row[n - 2] == label);
    assert(row[n - 1] == value);
    assert(row.contains(label) && row.contains(value));
    if i == s.main_selection {
        assert(row[0] == mark);
        assert(row.contains(mark));
    }
}

/// A list of options shows each by its full label, ten pixels apart from the top
/// on, and the cursor in front of the live one and no other.
pub proof fn lemma_submenus_list(s: DisplayState, i: int, y: i32)
    requires
        0 <= i < 4,
    ensures
        ({
            let ops = submenu_ops(s, Selector::OledViz);
            let options = seq![OledViz::Bars, OledViz::Mirror, OledViz::Dots, OledViz::Off];
            &&& s.menu == MenuView::Sub(Selector::OledViz) ==> menu_ops(s) == ops
            &&& ops.contains(
                DrawOp::Text { text: options[i].long_text(), x: 14, y: (2 + 10 * i) as i32 },
            )
            &&& ops.contains(DrawOp::Text { text: ">", x: 4, y: (2 + 10 * i) as i32 })
                <==> s.oled_viz == options[i]
            &&& ops.contains(DrawOp::Text { text: ">", x: 4, y }) ==> y == 2 || y == 12 || y == 22
                || y == 32
        }),
        ({
            let ops = submenu_ops(s, Selector::GlowViz);
            let options = seq![GlowViz::Spec, GlowViz::Vu, GlowViz::Bass, GlowViz::Off];
            &&& s.menu == MenuView::Sub(Selector::GlowViz) ==> menu_ops(s) == ops
            &&& ops.contains(
                DrawOp::Text { text: options[i].long_text(), x: 14, y: (2 + 10 * i) as i32 },
            )
            &&& ops.contains(DrawOp::Text { text: ">", x: 4, y: (2 + 10 * i) as i32 })
                <==> s.glow_viz == options[i]
            &&& ops.contains(DrawOp::Text { text: ">", x: 4, y }) ==> y == 2 || y == 12 || y == 22
                || y == 32
        }),
{
    lemma_options();
    let oled = |i: int|
        sub_row_ops(OledViz::ALL@[i].long_text(), OledViz::ALL@[i] == s.oled_viz, i);
    let glow = |i: int|
        sub_row_ops(GlowViz::ALL@[i].long_text(), GlowViz::ALL@[i] == s.glow_viz, i);
    lemma_sub_rows(
        4,
        oled,
        |i: int| OledViz::ALL@[i].long_text(),
        |i: int| OledViz::ALL@[i] == s.oled_viz,
        i,
        y,
    );
    lemma_sub_rows(
        4,
        glow,
        |i: int| GlowViz::ALL@[i].long_text(),
        |i: int| GlowViz::ALL@[i] == s.glow_viz,
        i,
        y,
    );
}

/// The rows of any list.
proof fn lemma_sub_rows(
    n: nat,
    rows: spec_fn(int) -> Seq<DrawOp>,
    label: spec_fn(int) -> &'static str,
    live: spec_fn(int) -> bool,
    i: int,
    y: i32,
)
    requires
        0 <= i < n <= 4,
        forall|j: int| 0 <= j < n ==> #[trigger] rows(j) == sub_row_ops(label(j), live(j), j),
    ensures
        concat(n, rows).contains(DrawOp::Text { text: label(i), x: 14, y: (2 + 10 * i) as i32 }),
        concat(n, rows).contains(DrawOp::Text { text: ">", x: 4, y: (2 + 10 * i) as i32 })
            <==> live(i),
        concat(n, rows).contains(DrawOp::Text { text: ">", x: 4, y }) ==> y == 2 || y == 12 || y
            == 22 || y == 32,
{
    let name = DrawOp::Text { text: label(i), x: 14, y: (2 + 10 * i) as i32 };
    let mark = DrawOp::Text { text: ">", x: 4, y: (2 + 10 * i) as i32 };
    let other = DrawOp::Text { text: ">", x: 4, y };
    lemma_concat_contains(n, rows, name);
    lemma_concat_contains(n, rows, mark);
    lemma_concat_contains(n, rows, other);
    let row = rows(i);
    assert(row == sub_row_ops(label(i), live(i), i));
    assert(row[row.len() - 1] == name);
    assert(row.contains(name));
    if live(i) {
        assert(row[0] == mark);
        assert(row.contains(mark));
    }
    assert forall|j: int| 0 <= j < n && (#[trigger] rows(j)).contains(mark) implies live(i) by {
        let r = rows(j);
        assert(r == sub_row_ops(label(j), live(j), j));
        let k = choose|k: int| 0 <= k < r.len() && r[k] == mark;
        assert(r[k] == mark);
    }
    assert forall|j: int| 0 <= j < n && (#[trigger] rows(j)).contains(other) implies y == 2 + 10
        * j by {
        let r = rows(j);
        assert(r == sub_row_ops(label(j), live(j), j));
        let k = choose|k: int| 0 <= k < r.len() && r[k] == other;
        assert(r[k] == other);
    }
}

/// The question whether to reboot names both answers.
pub proof fn lemma_question_is_asked(s: DisplayState)
    requires
        s.menu == MenuView::Confirm,
    ensures
        menu_ops(s) == seq![
            DrawOp::Text { text: "Reboot to", x: 37, y: 8 },
            DrawOp::Text { text: "bootloader?", x: 31, y: 20 },
            DrawOp::Text { text: "OK=confirm", x: 34, y: 40 },
            DrawOp::Text { text: "back=cancel", x: 31, y: 52 },
        ],
{
    assert(menu_ops(s) =~= seq![
        DrawOp::Text { text: "Reboot to", x: 37, y: 8 },
        DrawOp::Text { text: "bootloader?", x: 31, y: 20 },
        DrawOp::Text { text: "OK=confirm", x: 34, y: 40 },
        DrawOp::Text { text: "back=cancel", x: 31, y: 52 },
    ]);
}

/// Bars and the waterfall are made of filled rectangles and the fire of single
/// pixels, and of nothing else.
pub proof fn lemma_pictures_are_made_of(bands: Seq<u8>, columns: Seq<Seq<u8>>, heat: Seq<Seq<u8>>)
    requires
        bands.len() == 8,
    ensures
        all_ops(bars_ops(bands), |op: DrawOp| op is Fill),
        all_ops(waterfall_ops(columns), |op: DrawOp| op is Fill),
        all_ops(particles_ops(heat), |op: DrawOp| op is Pixel),
{
    let fill = |op: DrawOp| op is Fill;
    let pixel = |op: DrawOp| op is Pixel;
    lemma_concat_all(8, |i: int| bar_ops(bands, i), fill);
    let falls = |c: int| column_ops(columns, c);
    assert forall|c: int| 0 <= c < VIZ_W implies all_ops(#[trigger] falls(c), fill) by {
        lemma_concat_all(8, |b: int| cell_ops(columns[c], c, b), fill);
    }
    lemma_concat_all(VIZ_W as nat, falls, fill);
    let flames = |c: int| flame_ops(heat, c);
    assert forall|c: int| 0 <= c < 8 implies all_ops(#[trigger] flames(c), pixel) by {
        let embers = |r: int| ember_ops(heat[c][r], c, r);
        assert forall|r: int| 0 <= r < PART_ROWS implies all_ops(#[trigger] embers(r), pixel) by {
            let h = heat[c][r];
            let lines = |dy: int| spark_line_ops(h, c, r, dy);
            assert forall|dy: int| 0 <= dy < PART_ROW_H implies all_ops(
                #[trigger] lines(dy),
                pixel,
            ) by {
                lemma_concat_all(PART_COL_W as nat, |dx: int| spark_ops(h, c, r, dy, dx), pixel);
            }
            lemma_concat_all(PART_ROW_H as nat, lines, pixel);
        }
        lemma_concat_all(PART_ROWS as nat, embers, pixel);
    }
    lemma_concat_all(8, flames, pixel);
}

/// Menus hold their rows and a cursor, and nothing else.
pub proof fn lemma_menus_hold_their_rows(s: DisplayState)
    ensures
        main_menu_ops(s).len() == (if s.main_selection < 3 {
            8int
        } else {
            7
        }),
        submenu_ops(s, Selector::OledViz).len() == (if s.oled_viz.offered() {
            5int
        } else {
            4
        }),
        submenu_ops(s, Selector::GlowViz).len() == 5,
        submenu_ops(s, Selector::HueMode) == seq![
            DrawOp::Text { text: ">", x: 4, y: 2 },
            DrawOp::Text { text: "static", x: 14, y: 2 },
        ],
        s.menu == MenuView::Sub(Selector::HueMode) ==> menu_ops(s) == submenu_ops(
            s,
            Selector::HueMode,
        ),
        s.menu == MenuView::Closed ==> menu_ops(s) == Seq::<DrawOp>::empty(),
        s.volume.muted || s.volume.level > 0 ==> volume_ops(s).len() == 2,
        !s.volume.muted && s.volume.level == 0 ==> volume_ops(s).len() == 1,
{
    lemma_options();
    reveal_with_fuel(concat, 5);
    let rows = |i: int| main_row_ops(s, i);
    assert(concat(3, rows) == Seq::<DrawOp>::empty() + rows(0) + rows(1) + rows(2));
    let oled = |i: int|
        sub_row_ops(OledViz::ALL@[i].long_text(), OledViz::ALL@[i] == s.oled_viz, i);
    assert(concat(4, oled) == Seq::<DrawOp>::empty() + oled(0) + oled(1) + oled(2) + oled(3));
    let glow = |i: int|
        sub_row_ops(GlowViz::ALL@[i].long_text(), GlowViz::ALL@[i] == s.glow_viz, i);
    assert(concat(4, glow) == Seq::<DrawOp>::empty() + glow(0) + glow(1) + glow(2) + glow(3));
    let hue = |i: int|
        sub_row_ops(HueMode::ALL@[i].long_text(), HueMode::ALL@[i] == s.hue_mode, i);
    assert(concat(1, hue) == Seq::<DrawOp>::empty() + hue(0));
    assert(submenu_ops(s, Selector::HueMode) =~= seq![
        DrawOp::Text { text: ">", x: 4, y: 2 },
        DrawOp::Text { text: "static", x: 14, y: 2 },
    ]);
}

} // verus!
