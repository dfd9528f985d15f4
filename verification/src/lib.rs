//! Readings of a machine's resources, and the lines that show them.
pub mod text;
pub mod number;
pub mod binary;
pub mod percent;
pub mod readable;
pub mod single;
pub mod lossy;
pub mod stats;
pub mod linux;
pub mod macos;
pub mod paint;
pub mod options;
pub mod display;
pub mod line;
pub mod session;
pub mod laws;
