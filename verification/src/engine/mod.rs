pub mod effects;
pub mod state;
