//! How events come in: framed bytes from a socket, and lines of a growing file.
pub mod watch;
pub mod wire;
