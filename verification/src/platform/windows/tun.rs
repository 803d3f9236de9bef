//! The interface of the tunnel, and packets that are taken piece by piece.

use vstd::prelude::*;
use vstd::slice::slice_subrange;
use crate::config::Config;
use crate::platform::output;
use crate::text;

verus! {

pub const RING_CAPACITY: u32 = 0x40_0000;
pub const CHANNEL_DEPTH: usize = 4096;

/// The arguments of `netsh` that give the interface its address.
pub open spec fn address_command(name: Seq<char>, cfg: Config) -> Seq<Seq<char>> {
    seq![
        "interface"@,
        "ipv4"@,
        "set"@,
        "address"@,
        "name="@ + name,
        "static"@,
        cfg.tun_ip@,
        "255.255.255.0"@,
    ]
}

/// The arguments of `netsh` that give the interface its unit size.
pub open spec fn mtu_command(name: Seq<char>, mtu: u32) -> Seq<Seq<char>> {
    seq![
        "interface"@,
        "ipv4"@,
        "set"@,
        "subinterface"@,
        name,
        "mtu="@ + text::dec_text(mtu as nat),
        "store=active"@,
    ]
}

/// The arguments of `netsh` that give the interface its address.
pub fn address_args(name: &str, cfg: &Config) -> (r: Vec<String>)
    ensures
        text::texts(r@) == address_command(name@, *cfg),
{
    let mut args: Vec<String> = Vec::new();
    output::push_arg(&mut args, "interface");
    output::push_arg(&mut args, "ipv4");
    output::push_arg(&mut args, "set");
    output::push_arg(&mut args, "address");
    let label = output::joined("name=", name);
    output::push_arg(&mut args, label.as_str());
    output::push_arg(&mut args, "static");
    output::push_arg(&mut args, cfg.tun_ip.as_str());
    output::push_arg(&mut args, "255.255.255.0");
    assert(text::texts(args@) =~= seq![
        "interface"@,
        "ipv4"@,
        "set"@,
        "address"@,
        "name="@ + name@,
        "static"@,
        cfg.tun_ip@,
        "255.255.255.0"@,
    ]);
    args
}

/// The arguments of `netsh` that give the interface its unit size.
pub fn mtu_args(name: &str, mtu: u32) -> (r: Vec<String>)
    ensures
        text::texts(r@) == mtu_command(name@, mtu),
{
    let mut args: Vec<String> = Vec::new();
    output::push_arg(&mut args, "interface");
    output::push_arg(&mut args, "ipv4");
    output::push_arg(&mut args, "set");
    output::push_arg(&mut args, "subinterface");
    output::push_arg(&mut args, name);
    let mut size = "mtu=".to_owned();
    text::push_decimal(&mut size, mtu as u64);
    output::push_arg(&mut args, size.as_str());
    output::push_arg(&mut args, "store=active");
    assert(text::texts(args@) =~= seq![
        "interface"@,
        "ipv4"@,
        "set"@,
        "subinterface"@,
        name@,
        "mtu="@ + text::dec_text(mtu as nat),
        "store=active"@,
    ]);
    args
}

/// A packet, and how much of it has been taken.
pub struct Pending {
    pub packet: Vec<u8>,
    pub taken: usize,
}

impl Pending {
    pub open spec fn wf(self) -> bool {
        self.taken <= self.packet@.len()
    }

    /// What is left of the packet.
    pub open spec fn left(self) -> Seq<u8> {
        self.packet@.skip(self.taken as int)
    }

    /// A packet of which nothing has been taken.
    pub fn new(packet: Vec<u8>) -> (r: Pending)
        ensures
            r.wf(),
            r.left() == packet@,
    {
        let r = Pending { packet, taken: 0 };
        assert(r.left() =~= packet@);
        r
    }

    /// Takes as much as there is room for, and keeps the rest, if any.
    pub fn take(self, room: usize) -> (r: (Vec<u8>, Option<Pending>))
        requires
            self.wf(),
        ensures
            r.0@.len() == (if self.left().len() < room {
                self.left().len() as int
            } else {
                room as int
            }),
            match r.1 {
                Some(rest) => rest.wf() && rest.left().len() > 0 && r.0@ + rest.left() == self.left(),
                None => r.0@ == self.left(),
            },
    {
        let n = self.packet.len();
        let left = n - self.taken;
        let size = if left < room {
            left
        } else {
            room
        };
        let part = text::copy_bytes(
            slice_subrange(self.packet.as_slice(), self.taken, self.taken + size),
        );
        let ghost whole = self.left();
        assert(part@ =~= whole.take(size as int));
        let end = self.taken + size;
        if end < n {
            let rest = Pending { packet: self.packet, taken: end };
            assert(part@ + rest.left() =~= whole);
            (part, Some(rest))
        } else {
            assert(part@ =~= whole);
            (part, None)
        }
    }
}

/// Whether a packet can be written to the adapter.
pub open spec fn fits_adapter(packet: Seq<u8>) -> bool {
    1 <= packet.len() <= u16::MAX
}

/// Whether a packet can be written to the adapter.
pub fn is_writable(packet: &[u8]) -> (r: bool)
    ensures
        r == fits_adapter(packet@),
{
    let n = packet.len();
    n != 0 && n <= 65535
}

/// The interface gets the address of the configuration and the unit size that is
/// asked for, as it reads back; and packets of up to 65535 octets are written to
/// it, but no empty one.
pub proof fn lemma_interface_commands(
    name: Seq<char>,
    cfg: Config,
    ip: crate::addr::Ipv4Addr,
    mtu: u32,
    packet: Seq<u8>,
)
    ensures
        ({
            let a = address_command(name, cfg);
            &&& a.len() == 8
            &&& a[4] == "name="@ + name
            &&& cfg.tun_ip@ == ip.text() ==> crate::addr::ipv4_value(a[6]) == Some(ip)
            &&& a[7] == "255.255.255.0"@
        }),
        ({
            let a = mtu_command(name, mtu);
            &&& a.len() == 7
            &&& a[4] == name
            &&& a[5].take(4) == "mtu="@
            &&& text::parse_digits(a[5].skip(4)) == Some(mtu as nat)
        }),
        fits_adapter(packet) <==> packet.len() > 0 && packet.len() < 65536,
{
    crate::addr::lemma_ipv4_round_trip(ip);
    text::lemma_unsigned_round_trip(mtu as nat);
    reveal_strlit("mtu=");
    let s = mtu_command(name, mtu)[5];
    assert(s.take(4) =~= "mtu="@);
    assert(s.skip(4) =~= text::dec_text(mtu as nat));
}

} // verus!
