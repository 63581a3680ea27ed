//! Live state of the device, and how messages and encoder turns change it.
//!
//! Points in time are clock ticks since boot, at [`TICK_HZ`] ticks per second.
//! Tick 0 stands for "never".
use vstd::prelude::*;
use vstd::std_specs::cmp::{PartialEqSpec, PartialEqSpecImpl};

use crate::proto::{DeviceToHost, HostToDevice, PROTO_VERSION};

verus! {

/// Clock ticks per second.
pub const TICK_HZ: u64 = 1_000_000;

/// Ticks of silence after which the host counts as gone: five seconds.
pub const CONNECTED_TICKS: u64 = 5_000_000;

/// Ticks after which spectrum bands are stale: half a second.
pub const FRESH_TICKS: u64 = 500_000;

/// Number of rows in the main menu: OLED style, underglow style and bootloader.
/// The encoder wraps around them.
pub const MENU_ITEM_COUNT: u8 = 3;

/// Keys of the USB HID Consumer Control page.
#[derive(Copy, Clone, Debug, PartialEq, Eq, Structural)]
pub enum ConsumerKey {
    Mute,
    VolumeUp,
    VolumeDown,
    PlayPause,
    Stop,
    NextTrack,
    PrevTrack,
}

impl ConsumerKey {
    /// Usage code on the consumer page.
    pub open spec fn usage_code(self) -> u16 {
        match self {
            ConsumerKey::Mute => 0x00E2,
            ConsumerKey::VolumeUp => 0x00E9,
            ConsumerKey::VolumeDown => 0x00EA,
            ConsumerKey::PlayPause => 0x00CD,
            ConsumerKey::Stop => 0x00B7,
            ConsumerKey::NextTrack => 0x00B5,
            ConsumerKey::PrevTrack => 0x00B6,
        }
    }

    /// Usage code on the consumer page (HID Usage Tables 1.4 §15).
    pub fn usage(self) -> (code: u16)
        ensures
            code == self.usage_code(),
    {
        match self {
            ConsumerKey::Mute => 0x00E2,
            ConsumerKey::VolumeUp => 0x00E9,
            ConsumerKey::VolumeDown => 0x00EA,
            ConsumerKey::PlayPause => 0x00CD,
            ConsumerKey::Stop => 0x00B7,
            ConsumerKey::NextTrack => 0x00B5,
            ConsumerKey::PrevTrack => 0x00B6,
        }
    }
}

/// Requests to the LED renderer.
#[derive(Copy, Clone, Debug, PartialEq, Eq, Structural)]
pub enum LedCommand {
    /// Flash the per-key LED at this index.
    KeyPress { led: u8 },
    /// Show the underglow ring as a volume gauge for a moment.
    VolumeChanged,
    /// Mute was just switched on: a red backdrop that fades to black.
    Muted,
}

/// Volume of the host's default sink.
#[derive(Copy, Clone, Debug, PartialEq, Eq, Structural)]
pub struct VolumeInfo {
    /// Percent, 0..=100.
    pub level: u8,
    pub muted: bool,
}

/// OLED visualizer style. The menu offers the styles in `ALL`.
#[derive(Copy, Clone, Debug)]
pub enum OledViz {
    Bars,
    Mirror,
    Dots,
    Off,
    Waterfall,
    Radial,
    VuNeedle,
    Particles,
}

/// Underglow visualizer style.
#[derive(Copy, Clone, Debug)]
pub enum GlowViz {
    Spec,
    Vu,
    Bass,
    Off,
}

/// How the hue of the LEDs evolves.
#[derive(Copy, Clone, Debug)]
pub enum HueMode {
    Static,
}

// ─── Stepping through a list of options ─────────────────────────────────────

/// Place of the first `x` in `all`.
pub open spec fn position<T>(all: Seq<T>, x: T) -> Option<int>
    decreases all.len(),
{
    if all.len() == 0 {
        None
    } else if all[0] == x {
        Some(0)
    } else {
        match position(all.drop_first(), x) {
            Some(i) => Some(i + 1),
            None => None,
        }
    }
}

/// The option `step` places after `current`, wrapping around at both ends; the
/// first option if `current` is none of them.
pub open spec fn cycled<T>(all: Seq<T>, current: T, step: int) -> T {
    match position(all, current) {
        Some(i) => all[(i + step) % (all.len() as int)],
        None => all[0],
    }
}

/// A first place is in range, holds `x`, and no earlier place does.
pub proof fn lemma_position<T>(all: Seq<T>, x: T)
    ensures
        position(all, x) matches Some(i) ==> 0 <= i < all.len() && all[i] == x && forall|j: int|
            0 <= j < i ==> all[j] != x,
        position(all, x) is None ==> !all.contains(x),
    decreases all.len(),
{
    if all.len() > 0 && all[0] != x {
        let rest = all.drop_first();
        lemma_position(rest, x);
        assert forall|j: int| 0 <= j < all.len() && all[j] == x implies rest.contains(x) by {
            assert(rest[j - 1] == x);
        }
        if let Some(i) = position(rest, x) {
            assert forall|j: int| 0 <= j < i + 1 implies all[j] != x by {
                if j > 0 {
                    assert(rest[j - 1] != x);
                }
            }
        }
    }
}

/// The place that holds `x` first is the one `position` names.
proof fn lemma_position_is<T>(all: Seq<T>, x: T, i: int)
    requires
        0 <= i < all.len(),
        all[i] == x,
        forall|j: int| 0 <= j < i ==> all[j] != x,
    ensures
        position(all, x) == Some(i),
{
    lemma_position(all, x);
}

/// Place reached from place `i` after `step` places on a ring of `len`.
fn wrap_step(i: usize, step: i32, len: usize) -> (r: usize)
    requires
        i < len,
    ensures
        r == (i + step) % (len as int),
{
    if step >= 0 {
        ((i as u128 + step as u128) % (len as u128)) as usize
    } else {
        let back: u128 = ((-(step as i64)) as u128) % (len as u128);
        let r: u128 = (i as u128 + len as u128 - back) % (len as u128);
        proof {
            let n = len as int;
            let m = -step as int;
            vstd::arithmetic::div_mod::lemma_fundamental_div_mod(m, n);
            let q = m / n;
            assert(i + n - back == (i + step) + n * (q + 1)) by (nonlinear_arith)
                requires
                    m == n * q + back,
                    m == -step,
            ;
            vstd::arithmetic::div_mod::lemma_mod_multiples_vanish(q + 1, i + step, n);
        }
        r as usize
    }
}

/// Wrap-around step through a list of options. Gives the first option if
/// `current` is none of them.
pub fn cycle<T: Copy + Eq>(all: &[T], current: T, step: i32) -> (r: T)
    requires
        all@.len() > 0,
        T::obeys_eq_spec(),
        forall|a: T, b: T| #[trigger] a.eq_spec(&b) == (a == b),
    ensures
        r == cycled(all@, current, step as int),
{
    let mut i: usize = 0;
    while i < all.len()
        invariant
            i <= all@.len(),
            all@.len() > 0,
            T::obeys_eq_spec(),
            forall|a: T, b: T| #[trigger] a.eq_spec(&b) == (a == b),
            forall|j: int| 0 <= j < i ==> all@[j] != current,
        decreases all@.len() - i,
    {
        if all[i] == current {
            proof {
                lemma_position_is(all@, current, i as int);
            }
            return all[wrap_step(i, step, all.len())];
        }
        i = i + 1;
    }
    proof {
        lemma_position(all@, current);
    }
    all[0]
}

// ─── OLED styles ────────────────────────────────────────────────────────────

impl PartialEq for OledViz {
    fn eq(&self, other: &OledViz) -> (r: bool) {
        self.variant() == other.variant()
    }
}

impl PartialEqSpecImpl for OledViz {
    open spec fn obeys_eq_spec() -> bool {
        true
    }

    open spec fn eq_spec(&self, other: &OledViz) -> bool {
        *self == *other
    }
}

impl Eq for OledViz {

}

impl OledViz {
    /// Every style that the menu offers, in menu order.
    pub const ALL: [OledViz; 4] = [OledViz::Bars, OledViz::Mirror, OledViz::Dots, OledViz::Off];

    /// Number of this variant.
    pub open spec fn variant_number(self) -> u8 {
        match self {
            OledViz::Bars => 0,
            OledViz::Mirror => 1,
            OledViz::Dots => 2,
            OledViz::Off => 3,
            OledViz::Waterfall => 4,
            OledViz::Radial => 5,
            OledViz::VuNeedle => 6,
            OledViz::Particles => 7,
        }
    }

    /// Number of this variant, as stored in flash.
    pub fn variant(self) -> (n: u8)
        ensures
            n == self.variant_number(),
    {
        match self {
            OledViz::Bars => 0,
            OledViz::Mirror => 1,
            OledViz::Dots => 2,
            OledViz::Off => 3,
            OledViz::Waterfall => 4,
            OledViz::Radial => 5,
            OledViz::VuNeedle => 6,
            OledViz::Particles => 7,
        }
    }

    /// The style of this number.
    pub open spec fn of_variant(n: nat) -> Option<OledViz> {
        if n == 0 {
            Some(OledViz::Bars)
        } else if n == 1 {
            Some(OledViz::Mirror)
        } else if n == 2 {
            Some(OledViz::Dots)
        } else if n == 3 {
            Some(OledViz::Off)
        } else if n == 4 {
            Some(OledViz::Waterfall)
        } else if n == 5 {
            Some(OledViz::Radial)
        } else if n == 6 {
            Some(OledViz::VuNeedle)
        } else if n == 7 {
            Some(OledViz::Particles)
        } else {
            None
        }
    }

    /// The style of this number.
    pub fn from_variant(n: u32) -> (r: Option<OledViz>)
        ensures
            r == OledViz::of_variant(n as nat),
    {
        match n {
            0 => Some(OledViz::Bars),
            1 => Some(OledViz::Mirror),
            2 => Some(OledViz::Dots),
            3 => Some(OledViz::Off),
            4 => Some(OledViz::Waterfall),
            5 => Some(OledViz::Radial),
            6 => Some(OledViz::VuNeedle),
            7 => Some(OledViz::Particles),
            _ => None,
        }
    }

    /// Short label for the right column of the main menu.
    pub open spec fn short_text(self) -> &'static str {
        match self {
            OledViz::Bars => "bars",
            OledViz::Mirror => "mirr",
            OledViz::Dots => "dots",
            OledViz::Off => "off",
            OledViz::Waterfall => "wate",
            OledViz::Radial => "rad",
            OledViz::VuNeedle => "vu",
            OledViz::Particles => "part",
        }
    }

    /// Full label for the submenu list.
    pub open spec fn long_text(self) -> &'static str {
        match self {
            OledViz::Bars => "bars",
            OledViz::Mirror => "mirror",
            OledViz::Dots => "dots",
            OledViz::Off => "off",
            OledViz::Waterfall => "waterfall",
            OledViz::Radial => "radial",
            OledViz::VuNeedle => "vu needle",
            OledViz::Particles => "particles",
        }
    }

    /// Short label (at most 4 characters) for the right column of the main
    /// menu.
    pub fn label(self) -> (text: &'static str)
        ensures
            text == self.short_text(),
            text@.len() <= 4,
    {
        proof {
            reveal_strlit("bars");
            reveal_strlit("mirr");
            reveal_strlit("dots");
            reveal_strlit("off");
            reveal_strlit("wate");
            reveal_strlit("rad");
            reveal_strlit("vu");
            reveal_strlit("part");
        }
        match self {
            OledViz::Bars => "bars",
            OledViz::Mirror => "mirr",
            OledViz::Dots => "dots",
            OledViz::Off => "off",
            OledViz::Waterfall => "wate",
            OledViz::Radial => "rad",
            OledViz::VuNeedle => "vu",
            OledViz::Particles => "part",
        }
    }

    /// Full label for the submenu list.
    pub fn long_label(self) -> (text: &'static str)
        ensures
            text == self.long_text(),
    {
        match self {
            OledViz::Bars => "bars",
            OledViz::Mirror => "mirror",
            OledViz::Dots => "dots",
            OledViz::Off => "off",
            OledViz::Waterfall => "waterfall",
            OledViz::Radial => "radial",
            OledViz::VuNeedle => "vu needle",
            OledViz::Particles => "particles",
        }
    }

    /// The style after this one in the menu.
    pub open spec fn after(self) -> OledViz {
        match self {
            OledViz::Bars => OledViz::Mirror,
            OledViz::Mirror => OledViz::Dots,
            OledViz::Dots => OledViz::Off,
            _ => OledViz::Bars,
        }
    }

    /// The style before this one in the menu.
    pub open spec fn before(self) -> OledViz {
        match self {
            OledViz::Bars => OledViz::Off,
            OledViz::Mirror => OledViz::Bars,
            OledViz::Dots => OledViz::Mirror,
            OledViz::Off => OledViz::Dots,
            _ => OledViz::Bars,
        }
    }

    /// The menu offers this style.
    pub open spec fn offered(self) -> bool {
        self == OledViz::Bars || self == OledViz::Mirror || self == OledViz::Dots || self
            == OledViz::Off
    }

    /// The style after this one in the menu, from the last back to the first.
    pub fn next(self) -> (r: OledViz)
        ensures
            r == self.after(),
    {
        proof {
            self.lemma_position();
        }
        cycle(OledViz::ALL.as_slice(), self, 1)
    }

    /// The style before this one in the menu, from the first to the last.
    pub fn prev(self) -> (r: OledViz)
        ensures
            r == self.before(),
    {
        proof {
            self.lemma_position();
        }
        cycle(OledViz::ALL.as_slice(), self, -1)
    }

    /// Place of each style in the menu.
    proof fn lemma_position(self)
        ensures
            self.offered() ==> position(OledViz::ALL@, self) == Some(self.variant_number() as int),
            !self.offered() ==> position(OledViz::ALL@, self) is None,
            OledViz::ALL@ == seq![OledViz::Bars, OledViz::Mirror, OledViz::Dots, OledViz::Off],
    {
        assert(OledViz::ALL@ =~= seq![OledViz::Bars, OledViz::Mirror, OledViz::Dots, OledViz::Off]);
        lemma_position(OledViz::ALL@, self);
        if self.offered() {
            let i = self.variant_number() as int;
            assert(OledViz::ALL@[i] == self);
            lemma_position_is(OledViz::ALL@, self, i);
        }
    }
}

// ─── Underglow styles ───────────────────────────────────────────────────────

impl PartialEq for GlowViz {
    fn eq(&self, other: &GlowViz) -> (r: bool) {
        self.variant() == other.variant()
    }
}

impl PartialEqSpecImpl for GlowViz {
    open spec fn obeys_eq_spec() -> bool {
        true
    }

    open spec fn eq_spec(&self, other: &GlowViz) -> bool {
        *self == *other
    }
}

impl Eq for GlowViz {

}

impl GlowViz {
    /// Every style, in menu order.
    pub const ALL: [GlowViz; 4] = [GlowViz::Spec, GlowViz::Vu, GlowViz::Bass, GlowViz::Off];

    /// Number of this variant.
    pub open spec fn variant_number(self) -> u8 {
        match self {
            GlowViz::Spec => 0,
            GlowViz::Vu => 1,
            GlowViz::Bass => 2,
            GlowViz::Off => 3,
        }
    }

    /// Number of this variant, as stored in flash.
    pub fn variant(self) -> (n: u8)
        ensures
            n == self.variant_number(),
    {
        match self {
            GlowViz::Spec => 0,
            GlowViz::Vu => 1,
            GlowViz::Bass => 2,
            GlowViz::Off => 3,
        }
    }

    /// The style of this number.
    pub open spec fn of_variant(n: nat) -> Option<GlowViz> {
        if n == 0 {
            Some(GlowViz::Spec)
        } else if n == 1 {
            Some(GlowViz::Vu)
        } else if n == 2 {
            Some(GlowViz::Bass)
        } else if n == 3 {
            Some(GlowViz::Off)
        } else {
            None
        }
    }

    /// The style of this number.
    pub fn from_variant(n: u32) -> (r: Option<GlowViz>)
        ensures
            r == GlowViz::of_variant(n as nat),
    {
        match n {
            0 => Some(GlowViz::Spec),
            1 => Some(GlowViz::Vu),
            2 => Some(GlowViz::Bass),
            3 => Some(GlowViz::Off),
            _ => None,
        }
    }

    /// Short label for the right column of the main menu.
    pub open spec fn short_text(self) -> &'static str {
        match self {
            GlowViz::Spec => "spec",
            GlowViz::Vu => "vu",
            GlowViz::Bass => "bass",
            GlowViz::Off => "off",
        }
    }

    /// Full label for the submenu list.
    pub open spec fn long_text(self) -> &'static str {
        match self {
            GlowViz::Spec => "spectrum",
            GlowViz::Vu => "vu",
            GlowViz::Bass => "bass",
            GlowViz::Off => "off",
        }
    }

    /// Short label (at most 4 characters) for the right column of the main
    /// menu.
    pub fn label(self) -> (text: &'static str)
        ensures
            text == self.short_text(),
            text@.len() <= 4,
    {
        proof {
            reveal_strlit("spec");
            reveal_strlit("vu");
            reveal_strlit("bass");
            reveal_strlit("off");
        }
        match self {
            GlowViz::Spec => "spec",
            GlowViz::Vu => "vu",
            GlowViz::Bass => "bass",
            GlowViz::Off => "off",
        }
    }

    /// Full label for the submenu list.
    pub fn long_label(self) -> (text: &'static str)
        ensures
            text == self.long_text(),
    {
        match self {
            GlowViz::Spec => "spectrum",
            GlowViz::Vu => "vu",
            GlowViz::Bass => "bass",
            GlowViz::Off => "off",
        }
    }

    /// The style after this one in the menu.
    pub open spec fn after(self) -> GlowViz {
        match self {
            GlowViz::Spec => GlowViz::Vu,
            GlowViz::Vu => GlowViz::Bass,
            GlowViz::Bass => GlowViz::Off,
            GlowViz::Off => GlowViz::Spec,
        }
    }

    /// The style before this one in the menu.
    pub open spec fn before(self) -> GlowViz {
        match self {
            GlowViz::Spec => GlowViz::Off,
            GlowViz::Vu => GlowViz::Spec,
            GlowViz::Bass => GlowViz::Vu,
            GlowViz::Off => GlowViz::Bass,
        }
    }

    /// The style after this one in the menu, from the last back to the first.
    pub fn next(self) -> (r: GlowViz)
        ensures
            r == self.after(),
    {
        proof {
            self.lemma_position();
        }
        cycle(GlowViz::ALL.as_slice(), self, 1)
    }

    /// The style before this one in the menu, from the first to the last.
    pub fn prev(self) -> (r: GlowViz)
        ensures
            r == self.before(),
    {
        proof {
            self.lemma_position();
        }
        cycle(GlowViz::ALL.as_slice(), self, -1)
    }

    /// Place of each style in the menu.
    proof fn lemma_position(self)
        ensures
            position(GlowViz::ALL@, self) == Some(self.variant_number() as int),
            GlowViz::ALL@ == seq![GlowViz::Spec, GlowViz::Vu, GlowViz::Bass, GlowViz::Off],
    {
        assert(GlowViz::ALL@ =~= seq![GlowViz::Spec, GlowViz::Vu, GlowViz::Bass, GlowViz::Off]);
        let i = self.variant_number() as int;
        assert(GlowViz::ALL@[i] == self);
        lemma_position_is(GlowViz::ALL@, self, i);
    }
}

// ─── Hue modes ──────────────────────────────────────────────────────────────

impl PartialEq for HueMode {
    fn eq(&self, other: &HueMode) -> (r: bool) {
        self.variant() == other.variant()
    }
}

impl PartialEqSpecImpl for HueMode {
    open spec fn obeys_eq_spec() -> bool {
        true
    }

    open spec fn eq_spec(&self, other: &HueMode) -> bool {
        *self == *other
    }
}

impl Eq for HueMode {

}

impl HueMode {
    /// Every mode, in menu order.
    pub const ALL: [HueMode; 1] = [HueMode::Static];

    /// Number of this variant.
    pub open spec fn variant_number(self) -> u8 {
        match self {
            HueMode::Static => 0,
        }
    }

    /// Number of this variant, as stored in flash.
    pub fn variant(self) -> (n: u8)
        ensures
            n == self.variant_number(),
    {
        match self {
            HueMode::Static => 0,
        }
    }

    /// The mode of this number.
    pub open spec fn of_variant(n: nat) -> Option<HueMode> {
        if n == 0 {
            Some(HueMode::Static)
        } else {
            None
        }
    }

    /// The mode of this number.
    pub fn from_variant(n: u32) -> (r: Option<HueMode>)
        ensures
            r == HueMode::of_variant(n as nat),
    {
        match n {
            0 => Some(HueMode::Static),
            _ => None,
        }
    }

    /// Short label for the right column of the main menu.
    pub open spec fn short_text(self) -> &'static str {
        match self {
            HueMode::Static => "stat",
        }
    }

    /// Full label for the submenu list.
    pub open spec fn long_text(self) -> &'static str {
        match self {
            HueMode::Static => "static",
        }
    }

    /// Short label (at most 4 characters) for the right column of the main
    /// menu.
    pub fn label(self) -> (text: &'static str)
        ensures
            text == self.short_text(),
            text@.len() <= 4,
    {
        proof {
            reveal_strlit("stat");
        }
        match self {
            HueMode::Static => "stat",
        }
    }

    /// Full label for the submenu list.
    pub fn long_label(self) -> (text: &'static str)
        ensures
            text == self.long_text(),
    {
        match self {
            HueMode::Static => "static",
        }
    }

    /// The mode after this one in the menu, from the last back to the first.
    pub fn next(self) -> (r: HueMode)
        ensures
            r == cycled(HueMode::ALL@, self, 1),
    {
        cycle(HueMode::ALL.as_slice(), self, 1)
    }

    /// The mode before this one in the menu, from the first to the last.
    pub fn prev(self) -> (r: HueMode)
        ensures
            r == cycled(HueMode::ALL@, self, -1),
    {
        cycle(HueMode::ALL.as_slice(), self, -1)
    }
}

// ─── The live state ─────────────────────────────────────────────────────────

/// On-device menu navigation.
#[derive(Copy, Clone, Debug, PartialEq, Eq, Structural)]
pub enum MenuView {
    /// No menu.
    Closed,
    /// Top-level list of selectors.
    Main,
    /// The list of one selector's options; the live value is the selection.
    Sub(Selector),
    /// The question whether to reboot into the bootloader.
    Confirm,
}

/// What a submenu selects.
#[derive(Copy, Clone, Debug, PartialEq, Eq, Structural)]
pub enum Selector {
    OledViz,
    GlowViz,
    HueMode,
}

/// Everything that the screen, the LEDs and the keys read.
#[derive(Copy, Clone, Debug, PartialEq, Eq)]
pub struct DisplayState {
    pub volume: VolumeInfo,
    /// When any frame from the host last arrived.
    pub last_message: u64,
    /// Latest spectrum bands from the host.
    pub bands: [u8; 8],
    /// When spectrum bands last arrived.
    pub last_visualizer: u64,
    /// Active OLED style.
    pub oled_viz: OledViz,
    /// Active underglow style.
    pub glow_viz: GlowViz,
    /// Active hue mode.
    pub hue_mode: HueMode,
    /// On-device menu.
    pub menu: MenuView,
    /// Highlighted row of the main menu.
    pub main_selection: u8,
}

/// What a host message asks of the rest of the device.
#[derive(Copy, Clone, Debug, PartialEq, Eq)]
pub struct HostReaction {
    /// Request to the LED renderer.
    pub led: Option<LedCommand>,
    /// Message to send back to the host.
    pub reply: Option<DeviceToHost>,
}

impl DisplayState {
    /// The highlighted row exists, and bands came with some message.
    pub open spec fn wf(self) -> bool {
        &&& self.main_selection < MENU_ITEM_COUNT
        &&& self.last_visualizer <= self.last_message
    }

    /// Nothing arrived later than `now`.
    pub open spec fn clocked(self, now: u64) -> bool {
        &&& self.last_message <= now
        &&& self.last_visualizer <= now
    }

    /// A host frame arrived within the last five seconds.
    pub open spec fn is_connected(self, now: u64) -> bool {
        self.last_message != 0 && now - self.last_message < CONNECTED_TICKS
    }

    /// Bands arrived within the last half second.
    pub open spec fn has_fresh_bands(self, now: u64) -> bool {
        self.last_visualizer != 0 && now - self.last_visualizer < FRESH_TICKS
    }

    /// The OLED pane shows a visualizer.
    pub open spec fn shows_oled_viz(self, now: u64) -> bool {
        self.oled_viz != OledViz::Off && self.has_fresh_bands(now)
    }

    /// The underglow ring shows a visualizer.
    pub open spec fn shows_glow_viz(self, now: u64) -> bool {
        self.glow_viz != GlowViz::Off && self.has_fresh_bands(now)
    }

    /// State at boot: silent, never connected, menu closed.
    pub open spec fn boot() -> DisplayState {
        DisplayState {
            volume: VolumeInfo { level: 0, muted: false },
            last_message: 0,
            bands: [0, 0, 0, 0, 0, 0, 0, 0],
            last_visualizer: 0,
            oled_viz: OledViz::Bars,
            glow_viz: GlowViz::Spec,
            hue_mode: HueMode::Static,
            menu: MenuView::Closed,
            main_selection: 0,
        }
    }

    /// State at boot: silent, never connected, menu closed.
    pub fn new() -> (s: DisplayState)
        ensures
            s == DisplayState::boot(),
            s.wf(),
    {
        DisplayState {
            volume: VolumeInfo { level: 0, muted: false },
            last_message: 0,
            bands: [0, 0, 0, 0, 0, 0, 0, 0],
            last_visualizer: 0,
            oled_viz: OledViz::Bars,
            glow_viz: GlowViz::Spec,
            hue_mode: HueMode::Static,
            menu: MenuView::Closed,
            main_selection: 0,
        }
    }

    /// Whether a host frame arrived within the last five seconds. A device
    /// that never saw one is not connected.
    pub fn connected(&self, now: u64) -> (r: bool)
        requires
            self.last_message <= now,
        ensures
            r == self.is_connected(now),
    {
        self.last_message != 0 && now - self.last_message < CONNECTED_TICKS
    }

    /// Whether bands arrived within the last half second.
    pub fn bands_fresh(&self, now: u64) -> (r: bool)
        requires
            self.last_visualizer <= now,
        ensures
            r == self.has_fresh_bands(now),
    {
        self.last_visualizer != 0 && now - self.last_visualizer < FRESH_TICKS
    }

    /// Whether the OLED pane shows a visualizer.
    pub fn oled_viz_active(&self, now: u64) -> (r: bool)
        requires
            self.last_visualizer <= now,
        ensures
            r == self.shows_oled_viz(now),
    {
        self.oled_viz != OledViz::Off && self.bands_fresh(now)
    }

    /// Whether the underglow ring shows a visualizer.
    pub fn glow_viz_active(&self, now: u64) -> (r: bool)
        requires
            self.last_visualizer <= now,
        ensures
            r == self.shows_glow_viz(now),
    {
        self.glow_viz != GlowViz::Off && self.bands_fresh(now)
    }

    /// Whether the menu covers the screen.
    pub fn menu_open(&self) -> (r: bool)
        ensures
            r == (self.menu != MenuView::Closed),
    {
        !matches!(self.menu, MenuView::Closed)
    }
}

/// The state after a host message that arrives at `now`.
pub open spec fn host_applied(s: DisplayState, msg: HostToDevice, now: u64) -> DisplayState {
    let heard = DisplayState { last_message: now, ..s };
    match msg {
        HostToDevice::Volume { level, muted } => DisplayState {
            volume: VolumeInfo { level, muted },
            ..heard
        },
        HostToDevice::Visualizer { bands } => DisplayState { bands, last_visualizer: now, ..heard },
        HostToDevice::Ping => heard,
        HostToDevice::Hello { proto_version } => heard,
    }
}

/// What a host message asks of the rest of the device: a volume message lights
/// the ring, in red if it switched mute on; a greeting is answered with the
/// device's own version, whatever the host's is.
pub open spec fn host_reaction(s: DisplayState, msg: HostToDevice) -> HostReaction {
    HostReaction {
        led: match msg {
            HostToDevice::Volume { level, muted } => Some(
                if muted && !s.volume.muted {
                    LedCommand::Muted
                } else {
                    LedCommand::VolumeChanged
                },
            ),
            _ => None,
        },
        reply: match msg {
            HostToDevice::Hello { proto_version } => Some(
                DeviceToHost::Hello { proto_version: PROTO_VERSION },
            ),
            _ => None,
        },
    }
}

/// Takes in a host message that arrives at `now`.
pub fn apply_host_message(s: &mut DisplayState, msg: HostToDevice, now: u64) -> (r: HostReaction)
    ensures
        *final(s) == host_applied(*old(s), msg, now),
        r == host_reaction(*old(s), msg),
        old(s).wf() && old(s).clocked(now) ==> final(s).wf() && final(s).clocked(now),
{
    s.last_message = now;
    match msg {
        HostToDevice::Volume { level, muted } => {
            let prev_muted = s.volume.muted;
            s.volume = VolumeInfo { level, muted };
            let event = if muted && !prev_muted {
                LedCommand::Muted
            } else {
                LedCommand::VolumeChanged
            };
            HostReaction { led: Some(event), reply: None }
        },
        HostToDevice::Ping => HostReaction { led: None, reply: None },
        HostToDevice::Visualizer { bands } => {
            s.bands = bands;
            s.last_visualizer = now;
            HostReaction { led: None, reply: None }
        },
        HostToDevice::Hello { proto_version: _ } => HostReaction {
            led: None,
            reply: Some(DeviceToHost::Hello { proto_version: PROTO_VERSION }),
        },
    }
}

/// The state after one encoder detent: on the main menu the highlighted row
/// moves, in a submenu the live value does, elsewhere nothing happens.
pub open spec fn encoder_applied(s: DisplayState, step: int) -> DisplayState {
    let dir = if step >= 0 {
        1int
    } else {
        -1
    };
    match s.menu {
        MenuView::Closed => s,
        MenuView::Main => DisplayState {
            main_selection: ((s.main_selection + dir) % (MENU_ITEM_COUNT as int)) as u8,
            ..s
        },
        MenuView::Sub(Selector::OledViz) => DisplayState {
            oled_viz: if step >= 0 {
                s.oled_viz.after()
            } else {
                s.oled_viz.before()
            },
            ..s
        },
        MenuView::Sub(Selector::GlowViz) => DisplayState {
            glow_viz: if step >= 0 {
                s.glow_viz.after()
            } else {
                s.glow_viz.before()
            },
            ..s
        },
        MenuView::Sub(Selector::HueMode) => DisplayState {
            hue_mode: cycled(HueMode::ALL@, s.hue_mode, dir),
            ..s
        },
        MenuView::Confirm => s,
    }
}

/// Takes in one encoder detent, clockwise for a `step` of zero or more. Gives
/// `true` if the menu consumed it, `false` if the menu is closed and the turn
/// is meant for the volume.
pub fn apply_encoder_step(s: &mut DisplayState, step: i8) -> (consumed: bool)
    ensures
        *final(s) == encoder_applied(*old(s), step as int),
        consumed == (old(s).menu != MenuView::Closed),
        old(s).wf() ==> final(s).wf(),
{
    match s.menu {
        MenuView::Closed => false,
        MenuView::Main => {
            let n: u16 = MENU_ITEM_COUNT as u16;
            let row: u16 = s.main_selection as u16;
            if step >= 0 {
                s.main_selection = ((row + 1) % n) as u8;
            } else {
                assert((row + 2) % 3 == (row - 1) % 3);
                s.main_selection = ((row + n - 1) % n) as u8;
            }
            true
        },
        MenuView::Sub(Selector::OledViz) => {
            s.oled_viz = if step >= 0 {
                s.oled_viz.next()
            } else {
                s.oled_viz.prev()
            };
            true
        },
        MenuView::Sub(Selector::GlowViz) => {
            s.glow_viz = if step >= 0 {
                s.glow_viz.next()
            } else {
                s.glow_viz.prev()
            };
            true
        },
        MenuView::Sub(Selector::HueMode) => {
            s.hue_mode = if step >= 0 {
                s.hue_mode.next()
            } else {
                s.hue_mode.prev()
            };
            true
        },
        MenuView::Confirm => true,
    }
}

// ─── Laws ───────────────────────────────────────────────────────────────────

/// Stepping forth and stepping back undo each other on a list of distinct
/// options, by any number of places.
pub proof fn lemma_cycled_undone<T>(all: Seq<T>, current: T, step: int)
    requires
        all.no_duplicates(),
        all.contains(current),
    ensures
        cycled(all, cycled(all, current, step), -step) == current,
{
    lemma_position(all, current);
    lemma_cycled_adds(all, current, step, -step);
    let i = position(all, current).unwrap();
    vstd::arithmetic::div_mod::lemma_small_mod(i as nat, all.len());
}

/// Stepping on is the same as stepping once by the sum of the places.
pub proof fn lemma_cycled_adds<T>(all: Seq<T>, current: T, a: int, b: int)
    requires
        all.no_duplicates(),
        all.contains(current),
    ensures
        cycled(all, cycled(all, current, a), b) == cycled(all, current, a + b),
{
    let n = all.len() as int;
    lemma_position(all, current);
    let i = position(all, current).unwrap();
    let k = (i + a) % n;
    lemma_position(all, all[k]);
    assert(position(all, all[k]) == Some(k));
    vstd::arithmetic::div_mod::lemma_add_mod_noop(i + a, b, n);
    vstd::arithmetic::div_mod::lemma_add_mod_noop(k, b, n);
    vstd::arithmetic::div_mod::lemma_mod_twice(i + a, n);
    assert((k + b) % n == (i + a + b) % n);
}

/// `next` and `prev` of a style are what stepping through the menu gives.
pub proof fn lemma_oled_viz_steps(v: OledViz)
    ensures
        v.after() == cycled(OledViz::ALL@, v, 1),
        v.before() == cycled(OledViz::ALL@, v, -1),
        v.after().offered(),
        v.before().offered(),
        v.offered() ==> v.after().before() == v && v.before().after() == v,
        v.offered() ==> v.after().after().after().after() == v,
{
    v.lemma_position();
}

/// The same for the underglow.
pub proof fn lemma_glow_viz_steps(v: GlowViz)
    ensures
        v.after() == cycled(GlowViz::ALL@, v, 1),
        v.before() == cycled(GlowViz::ALL@, v, -1),
        v.after().before() == v,
        v.before().after() == v,
        v.after().after().after().after() == v,
{
    v.lemma_position();
    assert(GlowViz::ALL@.len() == 4);
    assert(cycled(GlowViz::ALL@, v, 1) == GlowViz::ALL@[(v.variant_number() + 1) % 4]);
    assert(cycled(GlowViz::ALL@, v, -1) == GlowViz::ALL@[(v.variant_number() - 1) % 4]);
}

/// A short label is the beginning of the full one.
pub proof fn lemma_short_labels_abbreviate(oled: OledViz, glow: GlowViz, hue: HueMode)
    ensures
        oled.short_text()@.is_prefix_of(oled.long_text()@),
        glow.short_text()@.is_prefix_of(glow.long_text()@),
        hue.short_text()@.is_prefix_of(hue.long_text()@),
{
    reveal_strlit("bars");
    reveal_strlit("mirr");
    reveal_strlit("mirror");
    reveal_strlit("dots");
    reveal_strlit("off");
    reveal_strlit("wate");
    reveal_strlit("waterfall");
    reveal_strlit("rad");
    reveal_strlit("radial");
    reveal_strlit("vu");
    reveal_strlit("vu needle");
    reveal_strlit("part");
    reveal_strlit("particles");
    reveal_strlit("spec");
    reveal_strlit("spectrum");
    reveal_strlit("bass");
    reveal_strlit("stat");
    reveal_strlit("static");
    assert(oled.short_text()@ =~= oled.long_text()@.subrange(0, oled.short_text()@.len() as int));
    assert(glow.short_text()@ =~= glow.long_text()@.subrange(0, glow.short_text()@.len() as int));
    assert(hue.short_text()@ =~= hue.long_text()@.subrange(0, hue.short_text()@.len() as int));
}

/// A detent one way and a detent the other way leave the state as it was, from
/// a row that exists or a style that the menu offers.
pub proof fn lemma_encoder_undone(s: DisplayState, step: int)
    requires
        s.menu == MenuView::Main ==> s.main_selection < MENU_ITEM_COUNT,
        s.menu == MenuView::Sub(Selector::OledViz) ==> s.oled_viz.offered(),
    ensures
        encoder_applied(encoder_applied(s, step), if step >= 0 {
            -1int
        } else {
            1
        }) == s,
{
    lemma_oled_viz_steps(s.oled_viz);
    lemma_glow_viz_steps(s.glow_viz);
}

/// As many detents as the main menu has rows bring the highlight back.
pub proof fn lemma_main_menu_wraps(s: DisplayState)
    requires
        s.main_selection < MENU_ITEM_COUNT,
        s.menu == MenuView::Main,
    ensures
        encoder_applied(encoder_applied(encoder_applied(s, 1), 1), 1) == s,
{
}

/// The menu never moves by turning the encoder, and neither does what the host
/// sent.
pub proof fn lemma_encoder_frame(s: DisplayState, step: int)
    ensures
        ({
            let t = encoder_applied(s, step);
            &&& t.menu == s.menu
            &&& t.volume == s.volume
            &&& t.bands == s.bands
            &&& t.last_message == s.last_message
            &&& t.last_visualizer == s.last_visualizer
            &&& s.menu == MenuView::Closed ==> t == s
        }),
{
}

/// Every host message, of whatever kind, connects the device for five seconds
/// and no longer, unless another one arrives.
pub proof fn lemma_connected_after_message(s: DisplayState, msg: HostToDevice, at: u64, now: u64)
    requires
        at != 0,
        at <= now,
    ensures
        host_applied(s, msg, at).is_connected(now) <==> now - at < CONNECTED_TICKS,
{
}

/// Bands are fresh for half a second after a visualizer message and no longer,
/// unless another one arrives; no other message refreshes them.
pub proof fn lemma_bands_fresh_after_message(s: DisplayState, msg: HostToDevice, at: u64, now: u64)
    requires
        at != 0,
        at <= now,
    ensures
        msg is Visualizer ==> (host_applied(s, msg, at).has_fresh_bands(now) <==> now - at
            < FRESH_TICKS),
        !(msg is Visualizer) ==> host_applied(s, msg, at).has_fresh_bands(now)
            == s.has_fresh_bands(now),
{
}

/// Without a new message a device that lost its host stays without, and stale
/// bands stay stale.
pub proof fn lemma_silence_is_lasting(s: DisplayState, earlier: u64, later: u64)
    requires
        s.clocked(earlier),
        earlier <= later,
    ensures
        !s.is_connected(earlier) ==> !s.is_connected(later),
        !s.has_fresh_bands(earlier) ==> !s.has_fresh_bands(later),
{
}

/// A device that shows a visualizer is connected.
pub proof fn lemma_fresh_is_connected(s: DisplayState, now: u64)
    requires
        s.wf(),
        s.clocked(now),
        s.has_fresh_bands(now),
    ensures
        s.is_connected(now),
{
}

/// A host message never touches what the user chose on the device.
pub proof fn lemma_host_keeps_choices(s: DisplayState, msg: HostToDevice, now: u64)
    ensures
        ({
            let t = host_applied(s, msg, now);
            &&& t.oled_viz == s.oled_viz
            &&& t.glow_viz == s.glow_viz
            &&& t.hue_mode == s.hue_mode
            &&& t.menu == s.menu
            &&& t.main_selection == s.main_selection
        }),
{
}

/// A host message takes effect, each time: a spectrum replaces the bands, a
/// volume the volume, every message the time of the last one; and nothing else
/// changes.
pub proof fn lemma_message_takes_effect(s: DisplayState, msg: HostToDevice, now: u64)
    ensures
        ({
            let t = host_applied(s, msg, now);
            &&& t.last_message == now
            &&& match msg {
                HostToDevice::Visualizer { bands } => t.bands == bands && t.last_visualizer == now
                    && t.volume == s.volume,
                HostToDevice::Volume { level, muted } => t.volume.level == level && t.volume.muted
                    == muted && t.bands == s.bands && t.last_visualizer == s.last_visualizer,
                _ => t.volume == s.volume && t.bands == s.bands && t.last_visualizer
                    == s.last_visualizer,
            }
            &&& t.oled_viz == s.oled_viz
            &&& t.glow_viz == s.glow_viz
            &&& t.hue_mode == s.hue_mode
            &&& t.menu == s.menu
            &&& t.main_selection == s.main_selection
        }),
{
}

/// The later of two messages of a kind counts: a second spectrum or volume hides
/// the first, and messages of different kinds do not get in each other's way.
pub proof fn lemma_latest_message_counts(
    s: DisplayState,
    old_bands: [u8; 8],
    bands: [u8; 8],
    old_level: u8,
    level: u8,
    old_muted: bool,
    muted: bool,
    now: u64,
)
    ensures
        ({
            let a = host_applied(s, HostToDevice::Visualizer { bands: old_bands }, now);
            let b = host_applied(a, HostToDevice::Volume { level: old_level, muted: old_muted }, now);
            let c = host_applied(b, HostToDevice::Visualizer { bands }, now);
            let d = host_applied(c, HostToDevice::Volume { level, muted }, now);
            &&& b.bands == old_bands
            &&& c.volume.level == old_level && c.volume.muted == old_muted
            &&& c.bands == bands && d.bands == bands
            &&& d.volume.level == level && d.volume.muted == muted
        }),
{
}

/// The ring is asked to light up by volume messages alone: red where the message
/// switches mute on, the gauge otherwise. Greetings alone are answered, with
/// this side's version.
pub proof fn lemma_reactions(s: DisplayState, msg: HostToDevice)
    ensures
        host_reaction(s, msg).led is Some <==> msg is Volume,
        host_reaction(s, msg).led == Some(LedCommand::Muted) <==> (msg matches HostToDevice::Volume {
            muted,
            ..
        } && muted && !s.volume.muted),
        host_reaction(s, msg).led == Some(LedCommand::VolumeChanged) <==> (
        msg matches HostToDevice::Volume { muted, .. } && (!muted || s.volume.muted)),
        host_reaction(s, msg).reply is Some <==> msg is Hello,
        msg is Hello ==> host_reaction(s, msg).reply == Some(
            DeviceToHost::Hello { proto_version: PROTO_VERSION },
        ),
{
}

/// A device is connected for five seconds after the last message, and bands are
/// fresh for half a second after the last spectrum; where none ever came it is
/// not, and they are not. A style shows with fresh bands, unless it is `Off`.
pub proof fn lemma_times_and_styles(s: DisplayState, now: u64)
    requires
        s.last_message <= now,
        s.last_visualizer <= now,
    ensures
        s.is_connected(now) <==> 0 < s.last_message && now < s.last_message + 5_000_000,
        s.has_fresh_bands(now) <==> 0 < s.last_visualizer && now < s.last_visualizer + 500_000,
        match s.oled_viz {
            OledViz::Off => !s.shows_oled_viz(now),
            _ => s.shows_oled_viz(now) == s.has_fresh_bands(now),
        },
        match s.glow_viz {
            GlowViz::Off => !s.shows_glow_viz(now),
            _ => s.shows_glow_viz(now) == s.has_fresh_bands(now),
        },
        !DisplayState::boot().is_connected(now),
        !DisplayState::boot().has_fresh_bands(now),
        DisplayState::boot().menu == MenuView::Closed,
        DisplayState::boot().oled_viz == OledViz::Bars,
        DisplayState::boot().glow_viz == GlowViz::Spec,
        DisplayState::boot().hue_mode == HueMode::Static,
        DisplayState::boot().volume == (VolumeInfo { level: 0, muted: false }),
        DisplayState::boot().bands@ == seq![0u8, 0, 0, 0, 0, 0, 0, 0],
        DisplayState::boot().last_message == 0,
        DisplayState::boot().last_visualizer == 0,
        DisplayState::boot().main_selection == 0,
{
    assert(DisplayState::boot().bands@ =~= seq![0u8, 0, 0, 0, 0, 0, 0, 0]);

}

/// Stepping is by places: from the place of an option, `step` places on, around
/// the ends; from anything else, to the first option.
pub proof fn lemma_cycled_goes_by_places<T>(all: Seq<T>, i: int, stranger: T, step: int)
    requires
        0 <= i < all.len(),
        all.no_duplicates(),
        !all.contains(stranger),
    ensures
        forall|j: int|
            0 <= j < all.len() && (j - i - step) % (all.len() as int) == 0 ==> cycled(
                all,
                all[i],
                step,
            ) == #[trigger] all[j],
        cycled(all, stranger, step) == all[0],
{
    let n = all.len() as int;
    lemma_position_is(all, all[i], i);
    lemma_position(all, stranger);
    if let Some(k) = position(all, stranger) {
        assert(all.contains(all[k]));
    }
    assert forall|j: int| 0 <= j < n && (j - i - step) % n == 0 implies cycled(all, all[i], step)
        == #[trigger] all[j] by {
        vstd::arithmetic::div_mod::lemma_fundamental_div_mod(j - i - step, n);
        let q = (j - i - step) / n;
        assert(j == n * q + (i + step));
        vstd::arithmetic::div_mod::lemma_mod_multiples_vanish(q, i + step, n);
        vstd::arithmetic::div_mod::lemma_small_mod(j as nat, n as nat);
    }
}

/// The menus offer these options, in this order.
pub proof fn lemma_options()
    ensures
        OledViz::ALL@ == seq![OledViz::Bars, OledViz::Mirror, OledViz::Dots, OledViz::Off],
        GlowViz::ALL@ == seq![GlowViz::Spec, GlowViz::Vu, GlowViz::Bass, GlowViz::Off],
        HueMode::ALL@ == seq![HueMode::Static],
{
    assert(OledViz::ALL@ =~= seq![OledViz::Bars, OledViz::Mirror, OledViz::Dots, OledViz::Off]);
    assert(GlowViz::ALL@ =~= seq![GlowViz::Spec, GlowViz::Vu, GlowViz::Bass, GlowViz::Off]);
    assert(HueMode::ALL@ =~= seq![HueMode::Static]);
}

/// A detent moves what the open menu is about, by one: the row of the main menu
/// up or down among three, the option of a submenu to its neighbour in the list;
/// and nothing else. Where no list is open it moves nothing.
pub proof fn lemma_detent_moves_by_one(s: DisplayState, step: int, i: int)
    requires
        s.main_selection < 3,
        0 <= i < 4,
    ensures
        ({
            let t = encoder_applied(s, step);
            let to = if step >= 0 {
                if i == 3 {
                    0
                } else {
                    i + 1
                }
            } else {
                if i == 0 {
                    3
                } else {
                    i - 1
                }
            };
            &&& s.menu == MenuView::Main && step >= 0 ==> t.main_selection == (
            if s.main_selection == 2 {
                0
            } else {
                s.main_selection + 1
            })
            &&& s.menu == MenuView::Main && step < 0 ==> t.main_selection == (
            if s.main_selection == 0 {
                2
            } else {
                s.main_selection - 1
            })
            &&& s.menu == MenuView::Sub(Selector::OledViz) && s.oled_viz == OledViz::ALL@[i]
                ==> t.oled_viz == OledViz::ALL@[to]
            &&& s.menu == MenuView::Sub(Selector::GlowViz) && s.glow_viz == GlowViz::ALL@[i]
                ==> t.glow_viz == GlowViz::ALL@[to]
            &&& s.menu != MenuView::Main ==> t.main_selection == s.main_selection
            &&& s.menu != MenuView::Sub(Selector::OledViz) ==> t.oled_viz == s.oled_viz
            &&& s.menu != MenuView::Sub(Selector::GlowViz) ==> t.glow_viz == s.glow_viz
            &&& s.menu != MenuView::Sub(Selector::HueMode) ==> t.hue_mode == s.hue_mode
            &&& t.menu == s.menu
            &&& t.volume == s.volume && t.bands == s.bands
            &&& t.last_message == s.last_message && t.last_visualizer == s.last_visualizer
        }),
{
    lemma_options();
}

/// Numbers and options belong together one to one; the options of a menu are
/// numbered in menu order.
pub proof fn lemma_options_are_numbered(oled: OledViz, glow: GlowViz, hue: HueMode, n: nat)
    ensures
        OledViz::of_variant(n) == Some(oled) <==> n == oled.variant_number(),
        GlowViz::of_variant(n) == Some(glow) <==> n == glow.variant_number(),
        HueMode::of_variant(n) == Some(hue) <==> n == hue.variant_number(),
        OledViz::of_variant(n) is Some <==> n < 8,
        GlowViz::of_variant(n) is Some <==> n < 4,
        HueMode::of_variant(n) is Some <==> n < 1,
        n < 4 ==> OledViz::of_variant(n) == Some(OledViz::ALL@[n as int]),
        n < 4 ==> GlowViz::of_variant(n) == Some(GlowViz::ALL@[n as int]),
{
    lemma_options();
}

} // verus!
