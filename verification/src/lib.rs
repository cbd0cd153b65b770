//! The logic of an audio file inspector: WAV reading and writing, metadata
//! editing, bulk renaming, file listing and playback bookkeeping.

pub mod actions;
pub mod audio;
pub mod batch;
pub mod bytes;
pub mod chunks;
pub mod document;
pub mod edit;
pub mod entries;
pub mod explorer;
pub mod layout;
pub mod levels;
pub mod lists;
pub mod marks;
pub mod meta;
pub mod numerals;
pub mod order;
pub mod panels;
pub mod path;
pub mod pattern;
pub mod playback;
pub mod probe;
pub mod readback;
pub mod reading;
pub mod rename;
pub mod rename_ui;
pub mod roundtrip;
pub mod save;
pub mod screen;
pub mod session;
pub mod sound;
pub mod spectrogram;
pub mod text;
pub mod times;
pub mod views;
pub mod wav;
pub mod xml;
