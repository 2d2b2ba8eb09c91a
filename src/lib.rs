pub mod bots;
pub mod codec;
pub mod geometry;
pub mod interop;
pub mod interpolation;
pub mod level;
pub mod names;
pub mod server;
