//! Settings that survive a power cycle.
//!
//! One record holds all of them: the schema version, then the number of each
//! chosen option as a variable-length integer.
use vstd::prelude::*;

use crate::state::{DisplayState, GlowViz, HueMode, OledViz};
use crate::wire::{take_u32, varint};

verus! {

/// Bytes of flash on the board.
pub const FLASH_SIZE: usize = 4_194_304;

/// Schema of the record. A record of another schema is not read.
pub const SCHEMA_VERSION: u8 = 1;

/// Key of the record in the flash map.
pub const KEY_SETTINGS: u8 = 0;

/// Bytes of scratch space for a flash operation.
pub const SCRATCH_LEN: usize = 128;

/// The part of the live state that is kept in flash.
#[derive(Copy, Clone, Debug, PartialEq, Eq)]
pub struct Settings {
    /// Schema that the record was written under.
    pub version: u8,
    pub oled_viz: OledViz,
    pub glow_viz: GlowViz,
    pub hue_mode: HueMode,
}

/// Why a record could not be written or read.
#[derive(Copy, Clone, Debug, PartialEq, Eq, Structural)]
pub enum SettingsError {
    /// The record does not fit the buffer.
    BufferTooSmall,
    /// The bytes are no record.
    InvalidFormat,
}

/// The settings that the bytes of a record hold. Bytes behind the record are
/// ignored. `None` for missing bytes and for an unknown option.
pub open spec fn settings_of(bytes: Seq<u8>) -> Option<Settings> {
    if bytes.len() == 0 {
        None
    } else {
        match varint(bytes.drop_first(), 0) {
            None => None,
            Some((oled, after_oled)) => match (OledViz::of_variant(oled), varint(after_oled, 0)) {
                (Some(oled_viz), Some((glow, after_glow))) => match (
                    GlowViz::of_variant(glow),
                    varint(after_glow, 0),
                ) {
                    (Some(glow_viz), Some((hue, _))) => match HueMode::of_variant(hue) {
                        Some(hue_mode) => Some(
                            Settings { version: bytes[0], oled_viz, glow_viz, hue_mode },
                        ),
                        None => None,
                    },
                    _ => None,
                },
                _ => None,
            },
        }
    }
}

impl Settings {
    /// Settings of the current schema.
    pub open spec fn current(oled_viz: OledViz, glow_viz: GlowViz, hue_mode: HueMode) -> Settings {
        Settings { version: SCHEMA_VERSION, oled_viz, glow_viz, hue_mode }
    }

    /// What a device without a record starts from.
    pub open spec fn defaults() -> Settings {
        Settings::current(OledViz::Bars, GlowViz::Spec, HueMode::Static)
    }

    /// The bytes of the record.
    pub open spec fn record(self) -> Seq<u8> {
        seq![
            self.version,
            self.oled_viz.variant_number(),
            self.glow_viz.variant_number(),
            self.hue_mode.variant_number(),
        ]
    }

    /// Settings of the current schema.
    pub fn new(oled_viz: OledViz, glow_viz: GlowViz, hue_mode: HueMode) -> (s: Settings)
        ensures
            s == Settings::current(oled_viz, glow_viz, hue_mode),
    {
        Settings { version: SCHEMA_VERSION, oled_viz, glow_viz, hue_mode }
    }

    /// Writes the record to the head of `buffer` and gives its length.
    pub fn serialize_into(&self, buffer: &mut [u8]) -> (r: Result<usize, SettingsError>)
        ensures
            final(buffer)@.len() == old(buffer)@.len(),
            old(buffer)@.len() < 4 ==> r == Err::<usize, SettingsError>(
                SettingsError::BufferTooSmall,
            ),
            old(buffer)@.len() >= 4 ==> {
                &&& r == Ok::<usize, SettingsError>(4)
                &&& final(buffer)@ == self.record() + old(buffer)@.skip(4)
            },
    {
        if buffer.len() < 4 {
            return Err(SettingsError::BufferTooSmall);
        }
        buffer[0] = self.version;
        buffer[1] = self.oled_viz.variant();
        buffer[2] = self.glow_viz.variant();
        buffer[3] = self.hue_mode.variant();
        assert(buffer@ =~= self.record() + old(buffer)@.skip(4));
        Ok(4)
    }

    /// Reads the record at the head of `buffer`.
    pub fn deserialize_from(buffer: &[u8]) -> (r: Result<Settings, SettingsError>)
        ensures
            r == (match settings_of(buffer@) {
                Some(s) => Ok::<Settings, SettingsError>(s),
                None => Err::<Settings, SettingsError>(SettingsError::InvalidFormat),
            }),
    {
        if buffer.len() == 0 {
            return Err(SettingsError::InvalidFormat);
        }
        let options = vstd::slice::slice_subrange(buffer, 1, buffer.len());
        assert(options@ =~= buffer@.drop_first());
        if let Some((oled, after_oled)) = take_u32(options) {
            if let Some(oled_viz) = OledViz::from_variant(oled) {
                if let Some((glow, after_glow)) = take_u32(after_oled.as_slice()) {
                    if let Some(glow_viz) = GlowViz::from_variant(glow) {
                        if let Some((hue, _)) = take_u32(after_glow.as_slice()) {
                            if let Some(hue_mode) = HueMode::from_variant(hue) {
                                return Ok(
                                    Settings { version: buffer[0], oled_viz, glow_viz, hue_mode },
                                );
                            }
                        }
                    }
                }
            }
        }
        Err(SettingsError::InvalidFormat)
    }
}

impl Default for Settings {
    fn default() -> (s: Settings)
        ensures
            s == Settings::defaults(),
    {
        Settings::new(OledViz::Bars, GlowViz::Spec, HueMode::Static)
    }
}

/// The settings to start from, given what was read from flash: `None` stands
/// for no record, for a record that cannot be read and for a failed read. A
/// record of another schema counts for nothing.
pub fn load(stored: Option<Settings>) -> (s: Settings)
    ensures
        s == (match stored {
            Some(found) => if found.version == SCHEMA_VERSION {
                found
            } else {
                Settings::defaults()
            },
            None => Settings::defaults(),
        }),
        s.version == SCHEMA_VERSION,
{
    match stored {
        Some(found) => {
            if found.version == SCHEMA_VERSION {
                found
            } else {
                Settings::default()
            }
        },
        None => Settings::default(),
    }
}

/// The settings to write to flash for the live state.
pub fn save(s: &DisplayState) -> (settings: Settings)
    ensures
        settings == Settings::current(s.oled_viz, s.glow_viz, s.hue_mode),
{
    Settings::new(s.oled_viz, s.glow_viz, s.hue_mode)
}

/// The live state with the stored choices in force.
pub open spec fn restored(s: DisplayState, settings: Settings) -> DisplayState {
    DisplayState {
        oled_viz: settings.oled_viz,
        glow_viz: settings.glow_viz,
        hue_mode: settings.hue_mode,
        ..s
    }
}

/// Puts the stored choices in force.
pub fn restore(s: &mut DisplayState, settings: &Settings)
    ensures
        *final(s) == restored(*old(s), *settings),
        old(s).wf() ==> final(s).wf(),
{
    s.oled_viz = settings.oled_viz;
    s.glow_viz = settings.glow_viz;
    s.hue_mode = settings.hue_mode;
}

// ─── Laws ───────────────────────────────────────────────────────────────────

/// A record reads back as the settings that were written, whatever bytes
/// follow it.
pub proof fn lemma_record_round_trip(settings: Settings, behind: Seq<u8>)
    ensures
        settings_of(settings.record() + behind) == Some(settings),
{
    let bytes = settings.record() + behind;
    let a = bytes.drop_first();
    let b = a.drop_first();
    let c = b.drop_first();
    assert(varint(a, 0) == Some((settings.oled_viz.variant_number() as nat, b)));
    assert(varint(b, 0) == Some((settings.glow_viz.variant_number() as nat, c)));
    assert(varint(c, 0) == Some((settings.hue_mode.variant_number() as nat, c.drop_first())));
}

/// Choices survive a power cycle: saving the live state, and restoring what
/// was saved into a device that has just booted, puts the same choices in
/// force.
pub proof fn lemma_choices_survive(before: DisplayState, after: DisplayState)
    ensures
        ({
            let saved = Settings::current(before.oled_viz, before.glow_viz, before.hue_mode);
            let found = settings_of(saved.record());
            let booted = restored(after, found.unwrap());
            &&& found == Some(saved)
            &&& saved.version == SCHEMA_VERSION
            &&& booted.oled_viz == before.oled_viz
            &&& booted.glow_viz == before.glow_viz
            &&& booted.hue_mode == before.hue_mode
        }),
{
    let saved = Settings::current(before.oled_viz, before.glow_viz, before.hue_mode);
    lemma_record_round_trip(saved, Seq::empty());
    assert(saved.record() + Seq::<u8>::empty() =~= saved.record());
}

/// A record is the version and the number of each choice, one byte each, in this
/// order; the defaults are bars, spectrum and a static hue under the current
/// version.
pub proof fn lemma_record_layout(settings: Settings)
    ensures
        settings.record().len() == 4,
        settings.record()[0] == settings.version,
        OledViz::of_variant(settings.record()[1] as nat) == Some(settings.oled_viz),
        GlowViz::of_variant(settings.record()[2] as nat) == Some(settings.glow_viz),
        HueMode::of_variant(settings.record()[3] as nat) == Some(settings.hue_mode),
        Settings::defaults() == (Settings {
            version: 1,
            oled_viz: OledViz::Bars,
            glow_viz: GlowViz::Spec,
            hue_mode: HueMode::Static,
        }),
{
}

/// What reads as settings is their record: bytes whose choices are spelled in
/// one byte each begin with exactly the record that is written for them.
pub proof fn lemma_only_its_own_record_reads(bytes: Seq<u8>)
    requires
        bytes.len() >= 4,
        bytes[1] < 128 && bytes[2] < 128 && bytes[3] < 128,
    ensures
        settings_of(bytes) matches Some(s) ==> bytes.take(4) == s.record(),
        settings_of(bytes) is Some <==> bytes[1] < 8 && bytes[2] < 4 && bytes[3] < 1,
{
    let a = bytes.drop_first();
    let b = a.drop_first();
    let c = b.drop_first();
    assert(varint(a, 0) == Some((bytes[1] as nat, b)));
    assert(varint(b, 0) == Some((bytes[2] as nat, c)));
    assert(varint(c, 0) == Some((bytes[3] as nat, c.drop_first())));
    if let Some(s) = settings_of(bytes) {
        assert(bytes.take(4) =~= s.record());
    }
}

/// Too few bytes hold no settings.
pub proof fn lemma_short_records_are_refused(bytes: Seq<u8>)
    requires
        bytes.len() < 4,
    ensures
        settings_of(bytes) is None,
{
    if bytes.len() > 0 {
        let a = bytes.drop_first();
        lemma_varint_takes_a_byte(a, 0);
        if let Some((_, b)) = varint(a, 0) {
            lemma_varint_takes_a_byte(b, 0);
            if let Some((_, c)) = varint(b, 0) {
                lemma_varint_takes_a_byte(c, 0);
            }
        }
    }
}

/// An integer takes at least one byte.
proof fn lemma_varint_takes_a_byte(bytes: Seq<u8>, place: nat)
    ensures
        varint(bytes, place) matches Some((_, rest)) ==> rest.len() < bytes.len(),
    decreases bytes.len(),
{
    if bytes.len() > 0 && place < 5 {
        lemma_varint_takes_a_byte(bytes.drop_first(), place + 1);
    }
}

/// Restoring settings puts their choices in force and leaves the rest alone;
/// what is saved next holds them under the current version.
pub proof fn lemma_restored_choices(s: DisplayState, settings: Settings)
    ensures
        ({
            let t = restored(s, settings);
            let next = Settings::current(t.oled_viz, t.glow_viz, t.hue_mode);
            &&& t.oled_viz == settings.oled_viz
            &&& t.glow_viz == settings.glow_viz
            &&& t.hue_mode == settings.hue_mode
            &&& t.volume == s.volume && t.bands == s.bands
            &&& t.last_message == s.last_message && t.last_visualizer == s.last_visualizer
            &&& t.menu == s.menu && t.main_selection == s.main_selection
            &&& next.version == 1
            &&& next.oled_viz == settings.oled_viz
            &&& next.glow_viz == settings.glow_viz
            &&& next.hue_mode == settings.hue_mode
        }),
{
}

/// A record is read choice by choice, however its numbers are spelled: it holds
/// settings exactly where every number can be read and has an option, and then
/// those options under the version in its first byte.
pub proof fn lemma_records_are_read(bytes: Seq<u8>)
    requires
        bytes.len() > 0,
    ensures
        match varint(bytes.drop_first(), 0) {
            None => settings_of(bytes) is None,
            Some((oled, after_oled)) => match varint(after_oled, 0) {
                None => settings_of(bytes) is None,
                Some((glow, after_glow)) => match varint(after_glow, 0) {
                    None => settings_of(bytes) is None,
                    Some((hue, _)) => {
                        &&& settings_of(bytes) is Some <==> oled < 8 && glow < 4 && hue < 1
                        &&& settings_of(bytes) matches Some(s) ==> s.version == bytes[0]
                            && s.oled_viz.variant_number() == oled && s.glow_viz.variant_number()
                            == glow && s.hue_mode.variant_number() == hue
                    },
                },
            },
        },
{
}

/// Where and how settings are kept: the first schema, under key 0, on a board
/// with 4 MiB of flash.
pub proof fn lemma_storage_places()
    ensures
        SCHEMA_VERSION == 1,
        KEY_SETTINGS == 0,
        FLASH_SIZE == 4 * 1024 * 1024,
        SCRATCH_LEN == 128,
{
}

} // verus!
