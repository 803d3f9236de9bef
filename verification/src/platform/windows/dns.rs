//! The name server of the tunnel's interface.

use vstd::prelude::*;
use crate::addr::IpAddr;
use crate::platform::output;
use crate::reload;
use crate::text;

verus! {

pub open spec fn family_word(v6: bool) -> Seq<char> {
    if v6 {
        "ipv6"@
    } else {
        "ipv4"@
    }
}

fn push_family(args: &mut Vec<String>, v6: bool)
    ensures
        text::texts(final(args)@) == text::texts(old(args)@).push(family_word(v6)),
{
    if v6 {
        output::push_arg(args, "ipv6");
    } else {
        output::push_arg(args, "ipv4");
    }
}

/// The arguments of `netsh` that set a name server.
pub open spec fn static_args(interface: Seq<char>, dns: IpAddr) -> Seq<Seq<char>> {
    seq![
        "interface"@,
        family_word(dns is V6),
        "set"@,
        "dnsservers"@,
        "name="@ + interface,
        "static"@,
        dns.text(),
        "primary"@,
    ]
}

/// The arguments of `netsh` that set a name server.
pub fn set_static(interface: &str, dns: IpAddr) -> (r: Vec<String>)
    ensures
        text::texts(r@) == static_args(interface@, dns),
{
    let mut args: Vec<String> = Vec::new();
    output::push_arg(&mut args, "interface");
    push_family(&mut args, dns.is_ipv6());
    output::push_arg(&mut args, "set");
    output::push_arg(&mut args, "dnsservers");
    let name = output::joined("name=", interface);
    output::push_arg(&mut args, name.as_str());
    output::push_arg(&mut args, "static");
    let server = dns.to_text();
    output::push_arg(&mut args, server.as_str());
    output::push_arg(&mut args, "primary");
    assert(text::texts(args@) =~= static_args(interface@, dns));
    args
}

/// The arguments of `netsh` that leave the name servers to DHCP.
pub open spec fn dhcp_args(interface: Seq<char>, v6: bool) -> Seq<Seq<char>> {
    seq!["interface"@, family_word(v6), "set"@, "dnsservers"@, "name="@ + interface, "dhcp"@]
}

/// The arguments of `netsh` that leave the name servers of a family to DHCP.
pub fn set_dhcp(interface: &str, v6: bool) -> (r: Vec<String>)
    ensures
        text::texts(r@) == dhcp_args(interface@, v6),
{
    let mut args: Vec<String> = Vec::new();
    output::push_arg(&mut args, "interface");
    push_family(&mut args, v6);
    output::push_arg(&mut args, "set");
    output::push_arg(&mut args, "dnsservers");
    let name = output::joined("name=", interface);
    output::push_arg(&mut args, name.as_str());
    output::push_arg(&mut args, "dhcp");
    assert(text::texts(args@) =~= dhcp_args(interface@, v6));
    args
}

pub struct NetshDns {
    pub interface: String,
    pub current: Option<IpAddr>,
    pub configured: bool,
}

/// What to do about the name server.
#[derive(Clone, Copy, PartialEq, Eq, Debug, Structural)]
pub enum DnsAction {
    Nothing,
    /// Set this server; where that fails, nothing further is done.
    SetStatic(IpAddr),
    /// Leave both families to DHCP.
    ResetToDhcp,
}

impl NetshDns {
    /// A server is to be taken off at the end exactly where one is set.
    pub open spec fn wf(self) -> bool {
        self.configured == self.current is Some
    }

    pub fn new(interface: String) -> (r: NetshDns)
        ensures
            r == (NetshDns { interface, current: None, configured: false }),
            r.wf(),
    {
        NetshDns { interface, current: None, configured: false }
    }

    /// What a first server asks for.
    pub open spec fn apply_action(self, server: Option<IpAddr>) -> DnsAction {
        match server {
            Some(dns) => DnsAction::SetStatic(dns),
            None => DnsAction::Nothing,
        }
    }

    /// What another server asks for, or none any more.
    pub open spec fn reload_action(self, server: Option<IpAddr>) -> DnsAction {
        if server == self.current {
            DnsAction::Nothing
        } else {
            match server {
                Some(dns) => DnsAction::SetStatic(dns),
                None => DnsAction::ResetToDhcp,
            }
        }
    }

    /// What is to be done at the end.
    pub open spec fn restore_action(self) -> DnsAction {
        if self.configured {
            DnsAction::ResetToDhcp
        } else {
            DnsAction::Nothing
        }
    }

    /// What is known after an action that went through.
    pub open spec fn after(self, action: DnsAction) -> NetshDns {
        match action {
            DnsAction::Nothing => self,
            DnsAction::SetStatic(dns) => NetshDns { current: Some(dns), configured: true, ..self },
            DnsAction::ResetToDhcp => NetshDns { current: None, configured: false, ..self },
        }
    }

    /// What a first server asks for.
    pub fn apply(&self, server: Option<IpAddr>) -> (r: DnsAction)
        ensures
            r == self.apply_action(server),
    {
        match server {
            Some(dns) => DnsAction::SetStatic(dns),
            None => DnsAction::Nothing,
        }
    }

    /// What another server asks for, or none any more.
    pub fn reload(&self, server: Option<IpAddr>) -> (r: DnsAction)
        ensures
            r == self.reload_action(server),
    {
        if reload::same_server(server, self.current) {
            return DnsAction::Nothing;
        }
        match server {
            Some(dns) => DnsAction::SetStatic(dns),
            None => DnsAction::ResetToDhcp,
        }
    }

    /// Takes note of an action that went through.
    pub fn finish(&mut self, action: DnsAction)
        ensures
            *final(self) == old(self).after(action),
            old(self).wf() ==> final(self).wf(),
    {
        match action {
            DnsAction::Nothing => {},
            DnsAction::SetStatic(dns) => {
                self.current = Some(dns);
                self.configured = true;
            },
            DnsAction::ResetToDhcp => {
                self.current = None;
                self.configured = false;
            },
        }
    }

    /// What is to be done at the end: a server that was set is taken off.
    pub fn restore(&mut self) -> (r: DnsAction)
        ensures
            r == old(self).restore_action(),
            *final(self) == old(self).after(old(self).restore_action()),
            old(self).wf() ==> final(self).wf() && final(self).current is None && (r is ResetToDhcp
                <==> old(self).current is Some),
    {
        if !self.configured {
            return DnsAction::Nothing;
        }
        self.configured = false;
        self.current = None;
        DnsAction::ResetToDhcp
    }
}

/// A server that is asked for is set, and one that is set is set no second time;
/// what is known afterwards is what was asked for. At the end a server that was
/// set is taken off, and nothing is done where none was.
pub proof fn lemma_server_follows_the_configuration(d: NetshDns, server: Option<IpAddr>, dns: IpAddr)
    requires
        d.wf(),
    ensures
        d.apply_action(Some(dns)) == DnsAction::SetStatic(dns),
        d.apply_action(None) is Nothing,
        d.after(d.reload_action(server)).current == server,
        d.reload_action(server) is Nothing <==> d.current == server,
        d.reload_action(Some(dns)) matches DnsAction::SetStatic(x) ==> x == dns,
        !(d.reload_action(Some(dns)) is ResetToDhcp),
        d.after(d.restore_action()).current is None,
        d.restore_action() is ResetToDhcp <==> d.current is Some,
        !(d.restore_action() is SetStatic),
        d.after(d.reload_action(server)).wf(),
        d.after(d.restore_action()).wf(),
        d.after(d.reload_action(server)).interface == d.interface,
{
}

/// The command names the family of the server, the interface and the server, as
/// it reads back; or that the servers of a family come over DHCP.
pub proof fn lemma_commands_name_the_server(interface: Seq<char>, dns: IpAddr, v6: bool)
    ensures
        ({
            let a = static_args(interface, dns);
            &&& a.len() == 8
            &&& a[0] == "interface"@
            &&& dns is V4 ==> a[1] == "ipv4"@
            &&& dns is V6 ==> a[1] == "ipv6"@
            &&& a[2] == "set"@ && a[3] == "dnsservers"@
            &&& a[4] == "name="@ + interface
            &&& a[5] == "static"@
            &&& crate::addr::ip_value(a[6]) == Some(dns)
            &&& a[7] == "primary"@
        }),
        ({
            let a = dhcp_args(interface, v6);
            &&& a.len() == 6
            &&& a[0] == "interface"@
            &&& !v6 ==> a[1] == "ipv4"@
            &&& v6 ==> a[1] == "ipv6"@
            &&& a[2] == "set"@ && a[3] == "dnsservers"@
            &&& a[4] == "name="@ + interface
            &&& a[5] == "dhcp"@
        }),
{
    crate::addr::lemma_ip_round_trip(dns);
}

} // verus!
