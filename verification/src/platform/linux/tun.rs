//! The settings of the tunnel device.

use vstd::prelude::*;
use crate::addr;
use crate::addr::Ipv4Addr;
use crate::config::Config;

verus! {

pub const TUN_PEER_ADDR: &'static str = "10.0.0.2";
pub const TUN_NETMASK: &'static str = "255.255.255.0";

/// How the device is made.
pub struct TunSettings {
    pub name: String,
    pub address: Ipv4Addr,
    pub destination: Ipv4Addr,
    pub netmask: Ipv4Addr,
    pub mtu: u32,
}

/// What the device is created with.
pub fn tun_settings(cfg: &Config, mtu: u32) -> (r: TunSettings)
    requires
        addr::ipv4_value(cfg.tun_ip@) is Some,
    ensures
        r.name == cfg.tun_name,
        Some(r.address) == addr::ipv4_value(cfg.tun_ip@),
        r.destination.octets() == seq![10u8, 0, 0, 2],
        r.netmask.octets() == seq![255u8, 255, 255, 0],
        r.mtu == mtu,
{
    TunSettings {
        name: cfg.tun_name.clone(),
        address: cfg.tun_ipv4(),
        destination: Ipv4Addr::new(10, 0, 0, 2),
        netmask: Ipv4Addr::new(255, 255, 255, 0),
        mtu,
    }
}

} // verus!
