//! The framing of packets on a utun device.

use vstd::prelude::*;
use vstd::slice::slice_subrange;
use crate::bytes;
use crate::config::Config;
use crate::platform::output;
use crate::text;

verus! {

pub const UTUN_PREFIX: usize = 4;
pub const MAX_PACKET: usize = 65_536;
/// The number of the IPv4 family on macOS.
pub const AF_INET: u32 = 2;
/// The number of the IPv6 family on macOS.
pub const AF_INET6: u32 = 30;

/// The number of the family of a packet, by the version in its first octet.
pub open spec fn packet_family(packet: Seq<u8>) -> u32 {
    if packet[0] / 16 == 6 {
        AF_INET6
    } else {
        AF_INET
    }
}

/// A packet as it is written to the device: behind the number of its family.
pub open spec fn framed(packet: Seq<u8>) -> Seq<u8> {
    bytes::be_bytes(packet_family(packet) as nat, 4) + packet
}

/// A packet as it is written to the device: behind the number of its family.
pub fn frame_packet(packet: &[u8]) -> (r: Vec<u8>)
    requires
        packet@.len() > 0,
    ensures
        r@ == framed(packet@),
{
    let family: u32 = if packet[0] / 16 == 6 {
        AF_INET6
    } else {
        AF_INET
    };
    let mut r: Vec<u8> = Vec::new();
    bytes::push_be(&mut r, family as u128, 4);
    text::append_bytes(&mut r, packet);
    assert(r@ =~= bytes::be_bytes(packet_family(packet@) as nat, 4) + packet@);
    r
}

/// What was read from the device without the number of its family, as far as
/// there is room for it.
pub open spec fn unframed(frame: Seq<u8>, room: usize) -> Seq<u8> {
    if frame.len() <= UTUN_PREFIX {
        Seq::empty()
    } else if frame.len() - UTUN_PREFIX <= room {
        frame.skip(UTUN_PREFIX as int)
    } else {
        frame.subrange(UTUN_PREFIX as int, UTUN_PREFIX + room)
    }
}

/// What was read from the device without the number of its family, as far as
/// there is room for it.
pub fn unframe_packet<'a>(frame: &'a [u8], room: usize) -> (r: &'a [u8])
    ensures
        r@ == unframed(frame@, room),
{
    if frame.len() <= UTUN_PREFIX {
        let r = slice_subrange(frame, 0, 0);
        assert(r@ =~= Seq::<u8>::empty());
        return r;
    }
    if frame.len() - UTUN_PREFIX <= room {
        let r = slice_subrange(frame, UTUN_PREFIX, frame.len());
        assert(r@ =~= frame@.skip(UTUN_PREFIX as int));
        r
    } else {
        slice_subrange(frame, UTUN_PREFIX, UTUN_PREFIX + room)
    }
}

/// A packet that was framed is read back unchanged, where there is room.
pub proof fn lemma_packet_round_trip(packet: Seq<u8>)
    requires
        packet.len() > 0,
    ensures
        (bytes::be_bytes(packet_family(packet) as nat, 4) + packet).skip(UTUN_PREFIX as int)
            == packet,
{
    bytes::lemma_be_bytes_len(packet_family(packet) as nat, 4);
    assert((bytes::be_bytes(packet_family(packet) as nat, 4) + packet).skip(4) =~= packet);
}

/// The position of the first zero octet, or `None`.
pub open spec fn first_zero(b: Seq<u8>, i: int) -> Option<int>
    decreases b.len() - i,
{
    if !(0 <= i < b.len()) {
        None
    } else if b[i] == 0 {
        Some(i)
    } else {
        first_zero(b, i + 1)
    }
}

/// How many octets of a buffer are the name of an interface: those before the
/// first zero, or as many as were written.
pub open spec fn name_size(buffer: Seq<u8>, written: usize) -> int {
    match first_zero(buffer, 0) {
        Some(i) => i,
        None => written as int,
    }
}

/// How many octets of a buffer are the name of an interface: those before the
/// first zero, or as many as were written.
pub fn name_length(buffer: &[u8], written: usize) -> (r: usize)
    ensures
        r as int == name_size(buffer@, written),
{
    for i in 0..buffer.len()
        invariant
            first_zero(buffer@, 0) == first_zero(buffer@, i as int),
    {
        if buffer[i] == 0 {
            return i;
        }
    }
    written
}

/// The arguments of `ifconfig` that give the device its address.
pub open spec fn address_command(name: Seq<char>, cfg: Config) -> Seq<Seq<char>> {
    seq![name, cfg.tun_ip@, cfg.tun_ip@, "up"@]
}

/// The arguments of `ifconfig` that give the device its unit size.
pub open spec fn mtu_command(name: Seq<char>, mtu: u32) -> Seq<Seq<char>> {
    seq![name, "mtu"@, text::dec_text(mtu as nat)]
}

/// The arguments of `ifconfig` that give the device its address.
pub fn address_args(name: &str, cfg: &Config) -> (r: Vec<String>)
    ensures
        text::texts(r@) == address_command(name@, *cfg),
{
    let mut args: Vec<String> = Vec::new();
    output::push_arg(&mut args, name);
    output::push_arg(&mut args, cfg.tun_ip.as_str());
    output::push_arg(&mut args, cfg.tun_ip.as_str());
    output::push_arg(&mut args, "up");
    assert(text::texts(args@) =~= seq![name@, cfg.tun_ip@, cfg.tun_ip@, "up"@]);
    args
}

/// The arguments of `ifconfig` that give the device its unit size.
pub fn mtu_args(name: &str, mtu: u32) -> (r: Vec<String>)
    ensures
        text::texts(r@) == mtu_command(name@, mtu),
{
    let mut args: Vec<String> = Vec::new();
    output::push_arg(&mut args, name);
    output::push_arg(&mut args, "mtu");
    let mut number = String::new();
    text::push_decimal(&mut number, mtu as u64);
    output::push_arg(&mut args, number.as_str());
    assert(number@ =~= text::dec_text(mtu as nat));
    assert(text::texts(args@) =~= seq![name@, "mtu"@, text::dec_text(mtu as nat)]);
    args
}

/// A packet goes to the device behind four octets, the last of which tells its
/// family: 30 where its version is six, and 2 in any other case. What is read is
/// given without them, as much as there is room for, so that a packet comes back
/// as it went.
pub proof fn lemma_packets_keep_their_octets(packet: Seq<u8>, head: Seq<u8>, room: usize)
    requires
        packet.len() > 0,
        head.len() == 4,
    ensures
        0x60 <= packet[0] <= 0x6f ==> framed(packet) == seq![0u8, 0, 0, 30] + packet,
        !(0x60 <= packet[0] <= 0x6f) ==> framed(packet) == seq![0u8, 0, 0, 2] + packet,
        packet.len() <= room ==> unframed(head + packet, room) == packet,
        packet.len() > room ==> unframed(head + packet, room) == packet.take(room as int),
        unframed(head, room).len() == 0,
        packet.len() <= room ==> unframed(framed(packet), room) == packet,
{
    bytes::lemma_be_bytes_digits(packet_family(packet) as nat);
    assert((head + packet).skip(4) =~= packet);
    if packet.len() > room {
        assert((head + packet).subrange(4, 4 + room) =~= packet.take(room as int));
    }
    bytes::lemma_be_bytes_len(packet_family(packet) as nat, 4);
    assert(framed(packet).skip(4) =~= packet);
}

proof fn lemma_first_zero_is(b: Seq<u8>, i: int, n: int)
    requires
        0 <= i <= n <= b.len(),
        forall|j: int| i <= j < n ==> b[j] != 0,
        n < b.len() ==> b[n] == 0,
    ensures
        first_zero(b, i) == (if n < b.len() {
            Some(n)
        } else {
            None
        }),
    decreases n - i,
{
    if i < n {
        lemma_first_zero_is(b, i + 1, n);
    }
}

/// A name ends before the first zero, and where there is none it is as long as
/// what was written.
pub proof fn lemma_name_ends_at_zero(name: Seq<u8>, rest: Seq<u8>, written: usize)
    requires
        forall|i: int| 0 <= i < name.len() ==> name[i] != 0,
    ensures
        name_size(name + seq![0u8] + rest, written) == name.len(),
        name_size(name, written) == written,
{
    let b = name + seq![0u8] + rest;
    assert forall|j: int| 0 <= j < name.len() implies b[j] != 0 by {
        assert(b[j] == name[j]);
    }
    lemma_first_zero_is(b, 0, name.len() as int);
    lemma_first_zero_is(name, 0, name.len() as int);
}

/// The device gets the address of the configuration on both its ends, and the
/// unit size that is asked for, as it reads back.
pub proof fn lemma_device_commands(name: Seq<char>, cfg: Config, ip: crate::addr::Ipv4Addr, mtu: u32)
    ensures
        ({
            let a = address_command(name, cfg);
            &&& a.len() == 4 && a[0] == name && a[1] == a[2] && a[3] == "up"@
            &&& cfg.tun_ip@ == ip.text() ==> crate::addr::ipv4_value(a[1]) == Some(ip)
        }),
        ({
            let a = mtu_command(name, mtu);
            &&& a.len() == 3 && a[0] == name && a[1] == "mtu"@
            &&& text::parse_digits(a[2]) == Some(mtu as nat)
        }),
{
    crate::addr::lemma_ipv4_round_trip(ip);
    text::lemma_unsigned_round_trip(mtu as nat);
}

} // verus!
