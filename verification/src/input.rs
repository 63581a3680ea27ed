//! Key matrix and rotary encoder.
//!
//! The nine keys are numbered row by row. Key [`KEY_ENCODER`] is the encoder
//! click, [`KEY_OK`] opens the menu and confirms, [`KEY_BACK`] goes back.
use vstd::prelude::*;

use crate::proto::DeviceToHost;
use crate::state::{
    apply_encoder_step, encoder_applied, ConsumerKey, DisplayState, LedCommand, MenuView, Selector,
};
use crate::storage::{save, Settings};

verus! {

/// Number of keys.
pub const KEY_COUNT: usize = 9;

/// Ticks of one level by which a key changes state.
pub const DEBOUNCE_TICKS: u8 = 5;

/// The encoder click.
pub const KEY_ENCODER: usize = 2;

/// Opens the menu and confirms: the key below the encoder.
pub const KEY_OK: usize = 5;

/// Goes back one level and leaves the menu: the bottom right key.
pub const KEY_BACK: usize = 8;

// ─── Key tables ─────────────────────────────────────────────────────────────

/// Media key of each matrix key.
pub open spec fn media_key(key: int) -> Option<ConsumerKey> {
    if key == 0 {
        Some(ConsumerKey::PrevTrack)
    } else if key == 1 {
        Some(ConsumerKey::PlayPause)
    } else if key == 2 {
        Some(ConsumerKey::Mute)
    } else if key == 3 {
        Some(ConsumerKey::NextTrack)
    } else if key == 4 {
        Some(ConsumerKey::Stop)
    } else {
        None
    }
}

/// LED under each matrix key. The encoder has none.
pub open spec fn key_led(key: int) -> Option<u8> {
    if key == 0 {
        Some(1)
    } else if key == 1 {
        Some(0)
    } else if key == 3 {
        Some(2)
    } else if key == 4 {
        Some(3)
    } else if key == 5 {
        Some(4)
    } else if key == 6 {
        Some(7)
    } else if key == 7 {
        Some(6)
    } else if key == 8 {
        Some(5)
    } else {
        None
    }
}

/// Media key of a matrix key; `None` for an unbound one.
pub fn keymap(key: usize) -> (r: Option<ConsumerKey>)
    ensures
        r == media_key(key as int),
{
    match key {
        0 => Some(ConsumerKey::PrevTrack),
        1 => Some(ConsumerKey::PlayPause),
        2 => Some(ConsumerKey::Mute),
        3 => Some(ConsumerKey::NextTrack),
        4 => Some(ConsumerKey::Stop),
        _ => None,
    }
}

/// Place on the LED chain of the LED under a matrix key.
pub fn matrix_to_led(key: usize) -> (r: Option<u8>)
    ensures
        r == key_led(key as int),
{
    match key {
        0 => Some(1),
        1 => Some(0),
        3 => Some(2),
        4 => Some(3),
        5 => Some(4),
        6 => Some(7),
        7 => Some(6),
        8 => Some(5),
        _ => None,
    }
}

/// Some key has this LED under it.
pub open spec fn led_has_key(led: u8) -> bool {
    exists|key: int| 0 <= key < KEY_COUNT && #[trigger] key_led(key) == Some(led)
}

/// Each of the eight per-key LEDs belongs to exactly one key.
pub proof fn lemma_key_leds_are_a_bijection()
    ensures
        forall|led: u8| led < 8 ==> #[trigger] led_has_key(led),
        forall|a: int, b: int|
            key_led(a) is Some && #[trigger] key_led(a) == #[trigger] key_led(b) ==> a == b,
        forall|key: int| #[trigger] key_led(key) matches Some(led) ==> led < 8,
{
    assert forall|led: u8| led < 8 implies #[trigger] led_has_key(led) by {
        assert(key_led(0) == Some(1u8));
        assert(key_led(1) == Some(0u8));
        assert(key_led(3) == Some(2u8));
        assert(key_led(4) == Some(3u8));
        assert(key_led(5) == Some(4u8));
        assert(key_led(6) == Some(7u8));
        assert(key_led(7) == Some(6u8));
        assert(key_led(8) == Some(5u8));
    }
}

// ─── Debouncing ─────────────────────────────────────────────────────────────

/// Debounce state of one key: how far the level has settled towards "down",
/// and whether the key counts as pressed.
pub struct KeyLevel {
    pub counter: int,
    pub pressed: bool,
}

/// One tick of the integrator: the counter moves towards the level read, and
/// the key changes state only where the counter reaches an end.
pub open spec fn settled(k: KeyLevel, low: bool) -> KeyLevel {
    let counter = if low && k.counter < DEBOUNCE_TICKS {
        k.counter + 1
    } else if !low && k.counter > 0 {
        k.counter - 1
    } else {
        k.counter
    };
    KeyLevel {
        counter,
        pressed: if counter == DEBOUNCE_TICKS {
            true
        } else if counter == 0 {
            false
        } else {
            k.pressed
        },
    }
}

/// The counter is in range, and its ends agree with the key's state.
pub open spec fn key_wf(k: KeyLevel) -> bool {
    &&& 0 <= k.counter <= DEBOUNCE_TICKS
    &&& k.counter == DEBOUNCE_TICKS ==> k.pressed
    &&& k.counter == 0 ==> !k.pressed
}

/// Debounce state after a run of level readings.
pub open spec fn settled_over(k: KeyLevel, lows: Seq<bool>) -> KeyLevel
    decreases lows.len(),
{
    if lows.len() == 0 {
        k
    } else {
        settled_over(settled(k, lows[0]), lows.drop_first())
    }
}

/// Bounce is ignored: a released key stays released over fewer than
/// [`DEBOUNCE_TICKS`] ticks, whatever is read, and a pressed key at rest stays
/// pressed.
pub proof fn lemma_bounce_is_ignored(k: KeyLevel, lows: Seq<bool>)
    requires
        k.counter == 0 && !k.pressed || k.counter == DEBOUNCE_TICKS && k.pressed,
        lows.len() < DEBOUNCE_TICKS,
    ensures
        settled_over(k, lows).pressed == k.pressed,
{
    lemma_settling_takes_time(k, lows);
}

/// A key as far as `n` ticks from the other end keeps its state for fewer than
/// `n` ticks.
proof fn lemma_settling_takes_time(k: KeyLevel, lows: Seq<bool>)
    requires
        key_wf(k),
        k.pressed ==> k.counter > lows.len(),
        !k.pressed ==> k.counter + lows.len() < DEBOUNCE_TICKS,
    ensures
        settled_over(k, lows).pressed == k.pressed,
    decreases lows.len(),
{
    if lows.len() > 0 {
        lemma_settling_takes_time(settled(k, lows[0]), lows.drop_first());
    }
}

/// A level held for [`DEBOUNCE_TICKS`] ticks decides: down is a press, up is a
/// release, from any state.
pub proof fn lemma_steady_level_decides(k: KeyLevel, low: bool)
    requires
        key_wf(k),
    ensures
        settled_over(k, Seq::new(DEBOUNCE_TICKS as nat, |i: int| low)).pressed == low,
{
    let lows = Seq::new(DEBOUNCE_TICKS as nat, |i: int| low);
    lemma_steady_level(k, low, lows);
}

/// Each tick of a steady level brings the counter one closer to its end.
proof fn lemma_steady_level(k: KeyLevel, low: bool, lows: Seq<bool>)
    requires
        key_wf(k),
        forall|i: int| 0 <= i < lows.len() ==> lows[i] == low,
        low ==> k.counter + lows.len() >= DEBOUNCE_TICKS,
        !low ==> k.counter <= lows.len(),
    ensures
        settled_over(k, lows).pressed == low,
    decreases lows.len(),
{
    if lows.len() > 0 {
        lemma_steady_level(settled(k, lows[0]), low, lows.drop_first());
    }
}

/// Debounce state of the whole matrix.
#[derive(Copy, Clone, Debug)]
pub struct Matrix {
    counters: [u8; 9],
    pressed: [bool; 9],
}

impl Matrix {
    /// Debounce state of one key.
    pub closed spec fn key(self, i: int) -> KeyLevel {
        KeyLevel { counter: self.counters@[i] as int, pressed: self.pressed@[i] }
    }

    /// Every key is in range and at rest where its counter is at an end.
    pub open spec fn wf(self) -> bool {
        forall|i: int| 0 <= i < KEY_COUNT ==> key_wf(#[trigger] self.key(i))
    }

    /// All keys released.
    pub fn new() -> (m: Matrix)
        ensures
            m.wf(),
            forall|i: int|
                0 <= i < KEY_COUNT ==> #[trigger] m.key(i) == (KeyLevel {
                    counter: 0,
                    pressed: false,
                }),
    {
        Matrix {
            counters: [0, 0, 0, 0, 0, 0, 0, 0, 0],
            pressed: [false, false, false, false, false, false, false, false, false],
        }
    }

    /// Takes in one reading of key `i`, `low` being the level of a key held
    /// down. Gives `true` on the tick on which the key becomes pressed.
    pub fn debounce(&mut self, i: usize, low: bool) -> (hit: bool)
        requires
            old(self).wf(),
            i < KEY_COUNT,
        ensures
            final(self).wf(),
            final(self).key(i as int) == settled(old(self).key(i as int), low),
            forall|j: int|
                0 <= j < KEY_COUNT && j != i ==> #[trigger] final(self).key(j) == old(self).key(j),
            hit == (final(self).key(i as int).pressed && !old(self).key(i as int).pressed),
    {
        assert(key_wf(self.key(i as int)));
        if low && self.counters[i] < DEBOUNCE_TICKS {
            self.counters[i] = self.counters[i] + 1;
        } else if !low && self.counters[i] > 0 {
            self.counters[i] = self.counters[i] - 1;
        }
        let was_pressed = self.pressed[i];
        if self.counters[i] == DEBOUNCE_TICKS {
            self.pressed[i] = true;
        } else if self.counters[i] == 0 {
            self.pressed[i] = false;
        }
        assert(self.key(i as int) == settled(old(self).key(i as int), low));
        assert forall|j: int| 0 <= j < KEY_COUNT implies key_wf(#[trigger] self.key(j)) by {
            assert(key_wf(old(self).key(j)));
            if j != i {
                assert(self.key(j) == old(self).key(j));
            }
        }
        self.pressed[i] && !was_pressed
    }
}

// ─── Key presses ────────────────────────────────────────────────────────────

/// What a key press asks of the rest of the device.
#[derive(Copy, Clone, Debug, PartialEq, Eq)]
pub struct KeyActions {
    /// Media key to send.
    pub media: Option<ConsumerKey>,
    /// Request to the LED renderer.
    pub led: Option<LedCommand>,
    /// Message to the host.
    pub message: Option<DeviceToHost>,
    /// Settings to write to flash.
    pub save: Option<Settings>,
    /// Reboot into the USB bootloader. Nothing happens after it.
    pub bootloader: bool,
}

/// The state after a press of the OK key: from no menu to the first row of the
/// main menu, from a row to its submenu, from a submenu back to the main menu.
pub open spec fn ok_applied(s: DisplayState) -> DisplayState {
    match s.menu {
        MenuView::Closed => DisplayState { menu: MenuView::Main, main_selection: 0, ..s },
        MenuView::Main => if s.main_selection == 0 {
            DisplayState { menu: MenuView::Sub(Selector::OledViz), ..s }
        } else if s.main_selection == 1 {
            DisplayState { menu: MenuView::Sub(Selector::GlowViz), ..s }
        } else {
            s
        },
        MenuView::Sub(_) => DisplayState { menu: MenuView::Main, ..s },
        MenuView::Confirm => s,
    }
}

/// A press of the OK key that reboots into the bootloader: on the last row of
/// the main menu, and on the question whether to.
pub open spec fn ok_reboots(s: DisplayState) -> bool {
    s.menu == MenuView::Main && s.main_selection == 2 || s.menu == MenuView::Confirm
}

/// The state after a press of the back key with the menu open: from a submenu
/// to the main menu, from anywhere else out of the menu.
pub open spec fn back_applied(s: DisplayState) -> DisplayState {
    DisplayState {
        menu: match s.menu {
            MenuView::Sub(_) => MenuView::Main,
            _ => MenuView::Closed,
        },
        ..s
    }
}

/// The state after a press of any key.
pub open spec fn press_applied(s: DisplayState, key: int) -> DisplayState {
    if key == KEY_OK {
        ok_applied(s)
    } else if key == KEY_BACK && s.menu != MenuView::Closed {
        back_applied(s)
    } else {
        s
    }
}

/// What a press of any key asks of the rest of the device. An open menu
/// swallows the media keys, but for the encoder click. Leaving the menu saves
/// the choices made in it.
pub open spec fn press_actions(s: DisplayState, key: int) -> KeyActions {
    KeyActions {
        media: if s.menu == MenuView::Closed || key == KEY_ENCODER {
            media_key(key)
        } else {
            None
        },
        led: match key_led(key) {
            Some(led) => Some(LedCommand::KeyPress { led }),
            None => None,
        },
        message: if key == KEY_ENCODER {
            Some(DeviceToHost::EncoderClick)
        } else {
            None
        },
        save: if s.menu != MenuView::Closed && press_applied(s, key).menu == MenuView::Closed {
            Some(Settings::current(s.oled_viz, s.glow_viz, s.hue_mode))
        } else {
            None
        },
        bootloader: key == KEY_OK && ok_reboots(s),
    }
}

/// Takes in a press of the OK key. Gives `true` to reboot into the bootloader.
fn press_ok(s: &mut DisplayState) -> (reboot: bool)
    ensures
        *final(s) == ok_applied(*old(s)),
        reboot == ok_reboots(*old(s)),
{
    match s.menu {
        MenuView::Closed => {
            s.menu = MenuView::Main;
            s.main_selection = 0;
            false
        },
        MenuView::Main => {
            if s.main_selection == 0 {
                s.menu = MenuView::Sub(Selector::OledViz);
                false
            } else if s.main_selection == 1 {
                s.menu = MenuView::Sub(Selector::GlowViz);
                false
            } else {
                s.main_selection == 2
            }
        },
        MenuView::Sub(_) => {
            s.menu = MenuView::Main;
            false
        },
        MenuView::Confirm => true,
    }
}

/// Takes in a press of `key`.
pub fn press(s: &mut DisplayState, key: usize) -> (actions: KeyActions)
    ensures
        *final(s) == press_applied(*old(s), key as int),
        actions == press_actions(*old(s), key as int),
        old(s).wf() ==> final(s).wf(),
{
    let menu_open = s.menu_open();
    let media = if !menu_open || key == KEY_ENCODER {
        keymap(key)
    } else {
        None
    };
    let led = match matrix_to_led(key) {
        Some(led) => Some(LedCommand::KeyPress { led }),
        None => None,
    };
    let message = if key == KEY_ENCODER {
        Some(DeviceToHost::EncoderClick)
    } else {
        None
    };
    let mut bootloader = false;
    let mut stored: Option<Settings> = None;
    if key == KEY_OK {
        bootloader = press_ok(s);
    }
    if key == KEY_BACK && menu_open {
        s.menu = match s.menu {
            MenuView::Sub(_) => MenuView::Main,
            _ => MenuView::Closed,
        };
        if !s.menu_open() {
            stored = Some(save(s));
        }
    }
    KeyActions { media, led, message, save: stored, bootloader }
}

/// One scan of the keys from `i` on: the debounce states, the live state, and
/// what each key that became pressed asks for, in order. A reboot into the
/// bootloader ends the scan.
pub open spec fn scanned(levels: Seq<KeyLevel>, s: DisplayState, lows: Seq<bool>, i: int) -> (
    Seq<KeyLevel>,
    DisplayState,
    Seq<KeyActions>,
)
    decreases KEY_COUNT - i,
{
    if i >= KEY_COUNT {
        (levels, s, Seq::empty())
    } else {
        let next = levels.update(i, settled(levels[i], lows[i]));
        if next[i].pressed && !levels[i].pressed {
            let actions = press_actions(s, i);
            let t = press_applied(s, i);
            if actions.bootloader {
                (next, t, seq![actions])
            } else {
                let (l, u, rest) = scanned(next, t, lows, i + 1);
                (l, u, seq![actions] + rest)
            }
        } else {
            scanned(next, s, lows, i + 1)
        }
    }
}

impl Matrix {
    /// Debounce states of all keys.
    pub open spec fn levels(self) -> Seq<KeyLevel> {
        Seq::new(KEY_COUNT as nat, |i: int| self.key(i))
    }

    /// Scans all keys once, `lows` being which of them are held down, and
    /// hands out what the keys that became pressed ask for.
    pub fn scan(&mut self, s: &mut DisplayState, lows: &[bool; 9]) -> (out: Vec<KeyActions>)
        requires
            old(self).wf(),
        ensures
            final(self).wf(),
            (final(self).levels(), *final(s), out@) == scanned(
                old(self).levels(),
                *old(s),
                lows@,
                0,
            ),
            old(s).wf() ==> final(s).wf(),
    {
        let mut out: Vec<KeyActions> = Vec::new();
        let mut i: usize = 0;
        let ghost goal = scanned(self.levels(), *s, lows@, 0);
        assert(out@ + goal.2 =~= goal.2);
        while i < KEY_COUNT
            invariant
                i <= KEY_COUNT,
                self.wf(),
                old(s).wf() ==> s.wf(),
                goal == scanned(old(self).levels(), *old(s), lows@, 0),
                goal.0 == scanned(self.levels(), *s, lows@, i as int).0,
                goal.1 == scanned(self.levels(), *s, lows@, i as int).1,
                goal.2 == out@ + scanned(self.levels(), *s, lows@, i as int).2,
            decreases KEY_COUNT - i,
        {
            let ghost before = self.levels();
            let ghost s_before = *s;
            let ghost out_before = out@;
            let hit = self.debounce(i, lows[i]);
            assert(self.levels() =~= before.update(
                i as int,
                settled(before[i as int], lows@[i as int]),
            ));
            if hit {
                let actions = press(s, i);
                out.push(actions);
                if actions.bootloader {
                    assert(out@ =~= out_before + seq![actions]);
                    return out;
                }
                let ghost rest = scanned(self.levels(), *s, lows@, i + 1).2;
                assert(out_before + (seq![actions] + rest) =~= out@ + rest);
            }
            i = i + 1;
        }
        assert(out@ + Seq::<KeyActions>::empty() =~= out@);
        out
    }
}

// ─── Rotary encoder ─────────────────────────────────────────────────────────

/// Transitions that make one detent.
pub const DETENT: i8 = 4;

/// Step of each quadrature transition, by four times the old phase plus the
/// new one: 1 clockwise, -1 counter-clockwise, 0 for no change and for a
/// transition that skips a phase, which is what contact bounce looks like.
pub const QDEC: [i8; 16] = [0, -1, 1, 0, 1, 0, 0, -1, -1, 0, 0, 1, 0, 1, -1, 0];

/// The phase that follows `phase` clockwise; a phase is twice the level of pin
/// A plus the level of pin B.
pub open spec fn clockwise(phase: int) -> int {
    if phase == 0 {
        2
    } else if phase == 2 {
        3
    } else if phase == 3 {
        1
    } else {
        0
    }
}

/// Step that a transition between two phases stands for.
pub open spec fn quarter_step(from: int, to: int) -> int {
    if to == clockwise(from) {
        1
    } else if from == clockwise(to) {
        -1
    } else {
        0
    }
}

/// The table holds the steps.
proof fn lemma_qdec()
    ensures
        forall|from: int, to: int|
            0 <= from < 4 && 0 <= to < 4 ==> #[trigger] QDEC@[4 * from + to] == quarter_step(
                from,
                to,
            ),
{
}

/// Quadrature decoder.
#[derive(Copy, Clone, Debug, PartialEq, Eq)]
pub struct Encoder {
    /// Phase last seen.
    pub phase: u8,
    /// Transitions since the last detent, clockwise positive.
    pub travel: i8,
}

impl Encoder {
    /// The phase is one of four, and the travel is short of a detent.
    pub open spec fn wf(self) -> bool {
        &&& self.phase < 4
        &&& -DETENT < self.travel < DETENT
    }

    /// The decoder after it sees `phase`.
    pub open spec fn moved(self, phase: int) -> Encoder {
        let travel = self.travel + quarter_step(self.phase as int, phase);
        Encoder {
            phase: phase as u8,
            travel: if travel >= DETENT || travel <= -DETENT {
                0
            } else {
                travel as i8
            },
        }
    }

    /// The detent that `phase` completes: 1 clockwise, -1 counter-clockwise, 0
    /// for none.
    pub open spec fn detent(self, phase: int) -> int {
        let travel = self.travel + quarter_step(self.phase as int, phase);
        if travel >= DETENT {
            1
        } else if travel <= -DETENT {
            -1
        } else {
            0
        }
    }

    /// The phase for the levels of the two pins.
    pub fn read(a: bool, b: bool) -> (phase: u8)
        ensures
            phase == 2 * (if a {
                1int
            } else {
                0
            }) + (if b {
                1int
            } else {
                0
            }),
            phase < 4,
    {
        (if a {
            2
        } else {
            0
        }) + (if b {
            1
        } else {
            0
        })
    }

    /// A decoder at rest.
    pub fn new(phase: u8) -> (e: Encoder)
        requires
            phase < 4,
        ensures
            e.wf(),
            e == (Encoder { phase, travel: 0 }),
    {
        Encoder { phase, travel: 0 }
    }

    /// Takes in the phase read after an edge. Gives the detent that it
    /// completes: 1 clockwise, -1 counter-clockwise, 0 for none.
    pub fn update(&mut self, phase: u8) -> (step: i8)
        requires
            old(self).wf(),
            phase < 4,
        ensures
            final(self).wf(),
            *final(self) == old(self).moved(phase as int),
            step == old(self).detent(phase as int),
    {
        if phase == self.phase {
            return 0;
        }
        proof {
            lemma_qdec();
            assert(QDEC@[4 * (self.phase as int) + phase as int] == quarter_step(
                self.phase as int,
                phase as int,
            ));
        }
        let place: u8 = self.phase * 4 + phase;
        self.travel = self.travel + QDEC[place as usize];
        self.phase = phase;
        if self.travel >= DETENT {
            self.travel = 0;
            1
        } else if self.travel <= -DETENT {
            self.travel = 0;
            -1
        } else {
            0
        }
    }
}

/// Media key of a detent that no menu consumed.
pub open spec fn detent_key(step: int) -> Option<ConsumerKey> {
    if step > 0 {
        Some(ConsumerKey::VolumeUp)
    } else if step < 0 {
        Some(ConsumerKey::VolumeDown)
    } else {
        None
    }
}

/// Takes in the phase read after an edge: a detent turns the menu, or the
/// volume if no menu is open.
pub fn encoder_edge(e: &mut Encoder, s: &mut DisplayState, phase: u8) -> (media: Option<
    ConsumerKey,
>)
    requires
        old(e).wf(),
        phase < 4,
    ensures
        final(e).wf(),
        *final(e) == old(e).moved(phase as int),
        old(e).detent(phase as int) == 0 ==> *final(s) == *old(s) && media is None,
        old(e).detent(phase as int) != 0 ==> *final(s) == encoder_applied(
            *old(s),
            old(e).detent(phase as int),
        ),
        old(e).detent(phase as int) != 0 ==> media == (if old(s).menu == MenuView::Closed {
            detent_key(old(e).detent(phase as int))
        } else {
            None
        }),
        old(s).wf() ==> final(s).wf(),
{
    let step: i8 = e.update(phase);
    if step > 0 {
        if !apply_encoder_step(s, 1) {
            return Some(ConsumerKey::VolumeUp);
        }
    } else if step < 0 {
        if !apply_encoder_step(s, -1) {
            return Some(ConsumerKey::VolumeDown);
        }
    }
    None
}

// ─── Laws ───────────────────────────────────────────────────────────────────

/// A full turn through the four phases is one detent, clockwise or counter,
/// and leaves the decoder where it started.
pub proof fn lemma_full_turn_is_one_detent(e: Encoder)
    requires
        e.wf(),
        e.travel == 0,
    ensures
        ({
            let p1 = clockwise(e.phase as int);
            let p2 = clockwise(p1);
            let p3 = clockwise(p2);
            let p4 = clockwise(p3);
            let e1 = e.moved(p1);
            let e2 = e1.moved(p2);
            let e3 = e2.moved(p3);
            &&& p4 == e.phase
            &&& e.detent(p1) == 0 && e1.detent(p2) == 0 && e2.detent(p3) == 0
            &&& e3.detent(p4) == 1
            &&& e3.moved(p4) == e
        }),
        ({
            let p3 = clockwise(e.phase as int);
            let p2 = clockwise(p3);
            let p1 = clockwise(p2);
            let e1 = e.moved(p1);
            let e2 = e1.moved(p2);
            let e3 = e2.moved(p3);
            &&& e.detent(p1) == 0 && e1.detent(p2) == 0 && e2.detent(p3) == 0
            &&& e3.detent(e.phase as int) == -1
            &&& e3.moved(e.phase as int) == e
        }),
{
}

/// Bounce between two phases cancels out: away and back leaves the decoder as
/// it was, without a detent, unless the first transition completed one.
pub proof fn lemma_bounce_cancels(e: Encoder, phase: int)
    requires
        e.wf(),
        0 <= phase < 4,
        e.detent(phase) == 0,
    ensures
        e.moved(phase).moved(e.phase as int) == e,
        e.moved(phase).detent(e.phase as int) == 0,
{
}

/// A transition that skips a phase, or none at all, counts for nothing.
pub proof fn lemma_invalid_transition_is_ignored(e: Encoder, phase: int)
    requires
        e.wf(),
        0 <= phase < 4,
        phase == e.phase || phase + e.phase == 3,
    ensures
        e.detent(phase) == 0,
        e.moved(phase).travel == e.travel,
{
}

/// The back key always leads out of the menu: from anywhere, two presses close
/// it, and once closed it stays closed.
pub proof fn lemma_back_closes(s: DisplayState)
    ensures
        press_applied(press_applied(s, KEY_BACK as int), KEY_BACK as int).menu == MenuView::Closed,
        s.menu == MenuView::Closed ==> press_applied(s, KEY_BACK as int) == s,
{
}

/// OK on a row and OK again in its submenu come back to that row.
pub proof fn lemma_ok_enters_and_leaves(s: DisplayState)
    requires
        s.menu == MenuView::Main,
        s.main_selection < 2,
    ensures
        press_applied(s, KEY_OK as int).menu is Sub,
        press_applied(press_applied(s, KEY_OK as int), KEY_OK as int) == s,
{
}

/// With the menu open no key but the encoder click sends a media key.
pub proof fn lemma_menu_swallows_media_keys(s: DisplayState, key: int)
    requires
        s.menu != MenuView::Closed,
        key != KEY_ENCODER,
    ensures
        press_actions(s, key).media is None,
{
}

/// The encoder click always mutes and always tells the host, menu or not, and
/// never moves the menu.
pub proof fn lemma_encoder_click(s: DisplayState)
    ensures
        press_actions(s, KEY_ENCODER as int).media == Some(ConsumerKey::Mute),
        press_actions(s, KEY_ENCODER as int).message == Some(DeviceToHost::EncoderClick),
        press_applied(s, KEY_ENCODER as int) == s,
{
}

/// Settings are written exactly when a press leaves the menu, and hold the
/// choices in force.
pub proof fn lemma_saved_on_leaving(s: DisplayState, key: int)
    ensures
        press_actions(s, key).save is Some <==> s.menu != MenuView::Closed && press_applied(
            s,
            key,
        ).menu == MenuView::Closed,
        press_actions(s, key).save matches Some(saved) ==> saved.oled_viz == s.oled_viz
            && saved.glow_viz == s.glow_viz && saved.hue_mode == s.hue_mode,
{
}

/// Keys never change the visualizer choices or what the host sent.
pub proof fn lemma_press_frame(s: DisplayState, key: int)
    ensures
        ({
            let t = press_applied(s, key);
            &&& t.oled_viz == s.oled_viz
            &&& t.glow_viz == s.glow_viz
            &&& t.hue_mode == s.hue_mode
            &&& t.volume == s.volume
            &&& t.bands == s.bands
            &&& t.last_message == s.last_message
            &&& t.last_visualizer == s.last_visualizer
        }),
{
}

/// With the menu closed every key sends the media key that it is bound to: the
/// first five in order previous, play, mute, next and stop, the rest none.
pub proof fn lemma_keys_send_what_they_are_bound_to(s: DisplayState, key: int)
    requires
        s.menu == MenuView::Closed,
        0 <= key < 9,
    ensures
        ({
            let media = press_actions(s, key).media;
            let bound = seq![
                ConsumerKey::PrevTrack,
                ConsumerKey::PlayPause,
                ConsumerKey::Mute,
                ConsumerKey::NextTrack,
                ConsumerKey::Stop,
            ];
            if key < 5 {
                media == Some(bound[key])
            } else {
                media is None
            }
        }),
{
}

/// Every key flashes its LED, menu or not; the encoder click has none. Only the
/// encoder click tells the host. Only OK reboots: on the last of the three rows
/// of the main menu, and on the question.
pub proof fn lemma_press_asks(s: DisplayState, key: int)
    requires
        0 <= key < 9,
    ensures
        ({
            let a = press_actions(s, key);
            let leds = seq![1u8, 0, 0, 2, 3, 4, 7, 6, 5];
            &&& key == 2 ==> a.led is None
            &&& key != 2 ==> a.led == Some(LedCommand::KeyPress { led: leds[key] })
            &&& a.message == (if key == 2 {
                Some(DeviceToHost::EncoderClick)
            } else {
                None
            })
            &&& a.bootloader <==> key == 5 && (s.menu == MenuView::Confirm || s.menu
                == MenuView::Main && s.main_selection == 2)
        }),
{
}

/// Where the menu keys lead: OK opens the main menu on its first row, enters the
/// list of the first or second row, and comes back from a list to the same row;
/// back leaves a list for the main menu and anything else for no menu. No other
/// key moves the menu.
pub proof fn lemma_menu_keys_lead(s: DisplayState, key: int)
    requires
        0 <= key < 9,
    ensures
        ({
            let t = press_applied(s, key);
            &&& key != 5 && key != 8 ==> t == s
            &&& key == 5 ==> match s.menu {
                MenuView::Closed => t.menu == MenuView::Main && t.main_selection == 0,
                MenuView::Main => t.main_selection == s.main_selection && t.menu == (
                if s.main_selection == 0 {
                    MenuView::Sub(Selector::OledViz)
                } else if s.main_selection == 1 {
                    MenuView::Sub(Selector::GlowViz)
                } else {
                    MenuView::Main
                }),
                MenuView::Sub(_) => t.menu == MenuView::Main && t.main_selection
                    == s.main_selection,
                MenuView::Confirm => t == s,
            }
            &&& key == 8 ==> t.main_selection == s.main_selection && match s.menu {
                MenuView::Sub(_) => t.menu == MenuView::Main,
                _ => t.menu == MenuView::Closed,
            }
        }),
{
}

/// A run of `n` equal readings.
pub open spec fn steady(low: bool, n: nat) -> Seq<bool> {
    Seq::new(n, |i: int| low)
}

/// A key at rest changes on the fifth equal reading in a row, and not before.
pub proof fn lemma_fifth_reading_counts(n: nat)
    ensures
        settled_over(KeyLevel { counter: 0, pressed: false }, steady(true, n)).pressed <==> n >= 5,
        settled_over(KeyLevel { counter: 5, pressed: true }, steady(false, n)).pressed <==> n < 5,
{
    let up = KeyLevel { counter: 0, pressed: false };
    let down = KeyLevel { counter: 5, pressed: true };
    if n < 5 {
        lemma_bounce_is_ignored(up, steady(true, n));
        lemma_bounce_is_ignored(down, steady(false, n));
    } else {
        lemma_steady_level(up, true, steady(true, n));
        lemma_steady_level(down, false, steady(false, n));
    }
}

/// One reading moves the counter by at most one, towards the reading, and within
/// 0 and 5; the key changes only where the counter arrives at the end that it
/// stands for.
pub proof fn lemma_reading_moves_counter_by_one(k: KeyLevel, low: bool)
    requires
        0 <= k.counter <= 5,
    ensures
        ({
            let t = settled(k, low);
            &&& low && k.counter < 5 ==> t.counter == k.counter + 1
            &&& low && k.counter == 5 ==> t.counter == 5
            &&& !low && k.counter > 0 ==> t.counter == k.counter - 1
            &&& !low && k.counter == 0 ==> t.counter == 0
            &&& t.counter == 5 ==> t.pressed
            &&& t.counter == 0 ==> !t.pressed
            &&& 0 < t.counter < 5 ==> t.pressed == k.pressed
        }),
{
}

/// Key `i` becomes pressed with this reading.
pub open spec fn becomes_pressed(levels: Seq<KeyLevel>, lows: Seq<bool>, i: int) -> bool {
    settled(levels[i], lows[i]).pressed && !levels[i].pressed
}

/// A scan in which no key from `i` on becomes pressed changes no state and asks
/// for nothing; every key takes in its own reading.
pub proof fn lemma_quiet_scan(levels: Seq<KeyLevel>, s: DisplayState, lows: Seq<bool>, i: int)
    requires
        levels.len() == 9,
        lows.len() == 9,
        0 <= i <= 9,
        forall|j: int| i <= j < 9 ==> !#[trigger] becomes_pressed(levels, lows, j),
    ensures
        scanned(levels, s, lows, i).0.len() == 9,
        forall|j: int|
            0 <= j < 9 ==> #[trigger] scanned(levels, s, lows, i).0[j] == if j < i {
                levels[j]
            } else {
                settled(levels[j], lows[j])
            },
        scanned(levels, s, lows, i).1 == s,
        scanned(levels, s, lows, i).2 == Seq::<KeyActions>::empty(),
    decreases 9 - i,
{
    if i < 9 {
        let next = levels.update(i, settled(levels[i], lows[i]));
        assert(!becomes_pressed(levels, lows, i));
        assert forall|j: int| i + 1 <= j < 9 implies !#[trigger] becomes_pressed(next, lows, j) by {
            assert(!becomes_pressed(levels, lows, j));
        }
        lemma_quiet_scan(next, s, lows, i + 1);
        assert(scanned(levels, s, lows, i) == scanned(next, s, lows, i + 1));
    }
}

/// A scan serves the keys in order: the first key that becomes pressed has its
/// press applied and its requests listed first, and the keys behind it go on
/// from there, unless the press reboots.
pub proof fn lemma_scan_serves_in_order(
    levels: Seq<KeyLevel>,
    s: DisplayState,
    lows: Seq<bool>,
    i: int,
    k: int,
)
    requires
        levels.len() == 9,
        lows.len() == 9,
        0 <= i <= k < 9,
        becomes_pressed(levels, lows, k),
        forall|j: int| i <= j < k ==> !#[trigger] becomes_pressed(levels, lows, j),
    ensures
        ({
            let all = scanned(levels, s, lows, i);
            let read = Seq::new(
                9,
                |j: int|
                    if i <= j <= k {
                        settled(levels[j], lows[j])
                    } else {
                        levels[j]
                    },
            );
            let behind = scanned(read, press_applied(s, k), lows, k + 1);
            if press_actions(s, k).bootloader {
                &&& all.0 == read
                &&& all.1 == press_applied(s, k)
                &&& all.2 == seq![press_actions(s, k)]
            } else {
                &&& all.0 == behind.0
                &&& all.1 == behind.1
                &&& all.2 == seq![press_actions(s, k)] + behind.2
            }
        }),
    decreases k - i,
{
    let next = levels.update(i, settled(levels[i], lows[i]));
    let read = Seq::new(
        9,
        |j: int|
            if i <= j <= k {
                settled(levels[j], lows[j])
            } else {
                levels[j]
            },
    );
    if i == k {
        assert(read =~= next);
    } else {
        assert(!becomes_pressed(levels, lows, i));
        assert forall|j: int| i + 1 <= j < k implies !#[trigger] becomes_pressed(next, lows, j) by {
            assert(!becomes_pressed(levels, lows, j));
        }
        assert(becomes_pressed(next, lows, k));
        lemma_scan_serves_in_order(next, s, lows, i + 1, k);
        let later = Seq::new(
            9,
            |j: int|
                if i + 1 <= j <= k {
                    settled(next[j], lows[j])
                } else {
                    next[j]
                },
        );
        assert(later =~= read);
        assert(scanned(levels, s, lows, i) == scanned(next, s, lows, i + 1));
    }
}

/// Phases follow each other clockwise as 0, 2, 3, 1 and round again: each such
/// transition moves the decoder by one, its reverse by one back, any other not
/// at all; a fourth in one direction is a detent and starts the count afresh.
pub proof fn lemma_transitions_count(e: Encoder, place: int, to: int)
    requires
        -4 < e.travel < 4,
        0 <= place < 4,
        0 <= to < 4,
        e.phase == seq![0int, 2, 3, 1][place],
    ensures
        ({
            let round = seq![0int, 2, 3, 1];
            let phase = round[to];
            let moved = e.travel + (if (to - place) % 4 == 1 {
                1int
            } else if (to - place) % 4 == 3 {
                -1
            } else {
                0
            });
            &&& e.moved(phase).phase == phase
            &&& e.moved(phase).travel == (if moved == 4 || moved == -4 {
                0
            } else {
                moved
            })
            &&& e.detent(phase) == (if moved == 4 {
                1int
            } else if moved == -4 {
                -1
            } else {
                0
            })
        }),
{
}

/// A detent turns the volume the way the encoder turns: up clockwise, down
/// counter-clockwise.
pub proof fn lemma_detents_turn_volume(step: int)
    ensures
        step > 0 ==> detent_key(step) == Some(ConsumerKey::VolumeUp),
        step < 0 ==> detent_key(step) == Some(ConsumerKey::VolumeDown),
        step == 0 ==> detent_key(step) is None,
{
}

} // verus!
