pub mod median;
pub mod onset;
pub mod slicer;
pub mod tempo;
