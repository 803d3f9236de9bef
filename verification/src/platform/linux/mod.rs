//! Linux: netlink routes and `/etc/resolv.conf`.

pub mod detect;
pub mod dns;
pub mod route;
pub mod tun;
