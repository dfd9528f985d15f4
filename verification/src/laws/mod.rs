//! What the library's readings and lines are, in terms of what goes into them.
pub mod text;
pub mod number;
pub mod stats;
pub mod linux;
pub mod precision;
pub mod readable;
pub mod display;
pub mod macos;
pub mod session;
