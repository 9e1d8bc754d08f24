pub mod app;
pub mod input;
