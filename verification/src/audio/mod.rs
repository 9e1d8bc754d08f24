pub mod buffer;
pub mod playback;
