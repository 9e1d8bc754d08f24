//! A drum loop slicer and step sequencer: everything but files, terminal and audio device.

pub mod analysis;
pub mod audio;
pub mod banks;
pub mod commands;
pub mod config;
pub mod editor;
pub mod engine;
pub mod float;
pub mod number;
pub mod sequencer;
pub mod session;
pub mod text;
pub mod ui;
pub mod variables;
