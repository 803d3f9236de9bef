//! macOS: the `route`, `ifconfig` and `networksetup` commands and utun.

pub mod detect;
pub mod dns;
pub mod route;
pub mod tun;
