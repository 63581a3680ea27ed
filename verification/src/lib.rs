//! Logic of a USB macropad that doubles as a media controller, and of the
//! daemon that feeds it.
//!
//! Shared by both ends:
//!
//! - [`wire`]: byte stuffing, frame delimiting and variable-length integers.
//! - [`proto`]: the messages exchanged over the serial link.
//!
//! The device:
//!
//! - [`state`]: what it knows, and how messages and the encoder change that.
//! - [`input`]: debouncing, key presses and decoding the encoder.
//! - [`led`]: the lights under the keys and around the case.
//! - [`display`]: the screen, as a list of drawing operations.
//! - [`storage`]: the settings that survive a power cycle.
//! - [`usb`]: media key reports and the device's end of the serial link.
//!
//! The host:
//!
//! - [`link`]: finding the device and keeping the connection up.
//! - [`volume`]: reading the mixer and reporting changes.
//! - [`audio`]: captured audio on its way to a spectrum.
//!
//! Times are readings of a microsecond clock. Nothing here performs input or
//! output: callers pass in what they read and carry out what they are told.

pub mod audio;
pub mod display;
pub mod input;
pub mod led;
pub mod link;
pub mod proto;
pub mod state;
pub mod storage;
pub mod usb;
pub mod volume;
pub mod wire;
