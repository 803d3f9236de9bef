//! Windows: the `netsh` and `powershell` commands and Wintun.

pub mod detect;
pub mod dns;
pub mod route;
pub mod tun;
