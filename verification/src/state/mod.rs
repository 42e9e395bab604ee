pub mod app;
pub mod signal;
