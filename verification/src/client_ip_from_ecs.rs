//! Taking the client's address from the client subnet of its request.
//!
//! A forwarder in front of the engine hides the client's own address. Where it says in an EDNS
//! client subnet option on whose behalf it asks, that address takes the place of the forwarder's,
//! for all that looks at the client's address afterwards.

use vstd::prelude::*;

use crate::addr::{normalize_ipv4_mapped_ip, normalized, IpAddr, SocketAddr};
use crate::error::DnsError;
use crate::proto::{first_subnet, ClientSubnet, EdnsOption, Message};

verus! {

/// A request on its way through the engine.
#[derive(Clone, Debug, PartialEq, Eq)]
pub struct DnsContext {
    pub request: Message,
    /// Where the request comes from.
    pub peer_addr: SocketAddr,
}

/// What the engine does after a plugin has run.
#[derive(Clone, Copy, Debug, PartialEq, Eq, Structural)]
pub enum ExecStep {
    /// Go on with the next plugin.
    Next,
}

/// A plugin that is not set up yet.
#[derive(Clone, Debug, PartialEq, Eq)]
pub enum UninitializedPlugin {
    Executor(ClientIpFromEcs),
}

/// The part of a plugin's configuration that is read here.
#[derive(Clone, Debug, PartialEq, Eq)]
pub struct PluginConfig {
    /// The name of the plugin in the configuration.
    pub tag: String,
}

/// The address that a request says it is made for: that of its first client subnet, unless no part
/// of that address counts.
pub open spec fn subnet_address(request: Message) -> Option<IpAddr> {
    match request.edns {
        Some(edns) => match first_subnet(edns.options@) {
            Some(subnet) => if subnet.source_prefix != 0 {
                Some(subnet.addr)
            } else {
                None
            },
            None => None,
        },
        None => None,
    }
}

/// `new` is where a request comes from, once the client subnet is taken into account.
pub open spec fn client_address(request: Message, peer: SocketAddr, new: SocketAddr) -> bool {
    match subnet_address(request) {
        Some(ip) => {
            &&& normalized(ip, new.ip)
            &&& new.port == peer.port
            &&& new.flowinfo == 0
            &&& new.scope_id == 0
        },
        None => new == peer,
    }
}

/// The plugin.
#[derive(Clone, Debug, PartialEq, Eq)]
pub struct ClientIpFromEcs {
    pub tag: String,
}

impl ClientIpFromEcs {
    /// The name of the plugin in the configuration.
    pub fn tag(&self) -> (r: &str)
        ensures
            r@ == self.tag@,
    {
        self.tag.as_str()
    }

    /// Sets the plugin up: there is nothing to do.
    pub fn init(&mut self) -> (r: Result<(), DnsError>)
        ensures
            r == Ok::<(), DnsError>(()),
            *final(self) == *old(self),
    {
        Ok(())
    }

    /// Takes the plugin down: there is nothing to do.
    pub fn destroy(&self) -> (r: Result<(), DnsError>)
        ensures
            r == Ok::<(), DnsError>(()),
    {
        Ok(())
    }

    /// Replaces the client's address by that of the client subnet, if there is one.
    pub fn execute(&self, context: &mut DnsContext) -> (r: Result<ExecStep, DnsError>)
        ensures
            r == Ok::<ExecStep, DnsError>(ExecStep::Next),
            final(context).request == old(context).request,
            client_address(
                old(context).request,
                old(context).peer_addr,
                final(context).peer_addr,
            ),
    {
        let subnet = match &context.request.edns {
            Some(edns) => edns.subnet(),
            None => None,
        };
        if let Some(subnet) = subnet {
            // A prefix of no length means that the client's address is withheld.
            if subnet.source_prefix != 0 {
                let ip = normalize_ipv4_mapped_ip(subnet.addr);
                let port: u16 = context.peer_addr.port;
                context.peer_addr = SocketAddr::new(ip, port);
            }
        }
        Ok(ExecStep::Next)
    }
}

/// Makes the plugin.
#[derive(Clone, Debug)]
pub struct ClientIpFromEcsFactory;

impl ClientIpFromEcsFactory {
    /// The plugin for its entry in the configuration.
    pub fn create(&self, plugin_config: &PluginConfig) -> (r: Result<UninitializedPlugin, DnsError>)
        ensures
            r matches Ok(UninitializedPlugin::Executor(plugin)) && plugin.tag@
                == plugin_config.tag@,
    {
        Ok(UninitializedPlugin::Executor(ClientIpFromEcs { tag: plugin_config.tag.clone() }))
    }

    /// The plugin where it is named in passing. It takes no parameter; one that is given does not
    /// count.
    pub fn quick_setup(&self, tag: &str, _param: Option<String>) -> (r: Result<
        UninitializedPlugin,
        DnsError,
    >)
        ensures
            r matches Ok(UninitializedPlugin::Executor(plugin)) && plugin.tag@ == tag@,
    {
        Ok(UninitializedPlugin::Executor(ClientIpFromEcs { tag: tag.to_owned() }))
    }
}

/// The port stays what it was.
pub proof fn law_port_is_preserved(request: Message, peer: SocketAddr, new: SocketAddr)
    requires
        client_address(request, peer, new),
    ensures
        new.port == peer.port,
{
}

/// The address is never the IPv6 form of an IPv4 address, where it was taken from the request.
pub proof fn law_address_is_normalized(request: Message, peer: SocketAddr, new: SocketAddr)
    requires
        client_address(request, peer, new),
        subnet_address(request) is Some,
    ensures
        new.ip matches IpAddr::V6(o) ==> !crate::addr::ipv4_mapped(o@),
{
}

/// Running the plugin again changes nothing.
pub proof fn law_second_run_changes_nothing(
    request: Message,
    peer: SocketAddr,
    once: SocketAddr,
    twice: SocketAddr,
)
    requires
        client_address(request, peer, once),
        client_address(request, once, twice),
    ensures
        twice == once,
{
    if let Some(ip) = subnet_address(request) {
        crate::addr::lemma_normalized_once(ip, once.ip, twice.ip);
    }
}

/// Whatever options come before it, the first client subnet of a request counts: where any part of
/// its address counts, the client's address becomes the normal form of it.
pub proof fn law_first_subnet_gives_the_address(
    request: Message,
    peer: SocketAddr,
    new: SocketAddr,
    options: Seq<EdnsOption>,
    i: int,
    subnet: ClientSubnet,
)
    requires
        request.edns matches Some(edns) && edns.options@ == options,
        0 <= i < options.len(),
        options[i] == EdnsOption::Subnet(subnet),
        forall|j: int| 0 <= j < i ==> (#[trigger] options[j]) is Other,
        client_address(request, peer, new),
    ensures
        subnet.source_prefix == 0 ==> new == peer,
        subnet.source_prefix != 0 ==> new.port == peer.port && new.flowinfo == 0 && new.scope_id
            == 0 && match subnet.addr {
            IpAddr::V4(octets) => new.ip == IpAddr::V4(octets),
            IpAddr::V6(octets) => if (forall|k: int| 0 <= k < 10 ==> octets@[k] == 0) && octets@[10]
                == 0xFF && octets@[11] == 0xFF {
                new.ip matches IpAddr::V4(short) && short@ == seq![
                    octets@[12],
                    octets@[13],
                    octets@[14],
                    octets@[15],
                ]
            } else {
                new.ip == IpAddr::V6(octets)
            },
        },
{
    lemma_first_subnet(options, i, subnet);
    if let IpAddr::V6(octets) = subnet.addr {
        assert(octets@.subrange(12, 16) =~= seq![
            octets@[12],
            octets@[13],
            octets@[14],
            octets@[15],
        ]);
    }
}

proof fn lemma_first_subnet(options: Seq<EdnsOption>, i: int, subnet: ClientSubnet)
    requires
        0 <= i < options.len(),
        options[i] == EdnsOption::Subnet(subnet),
        forall|j: int| 0 <= j < i ==> (#[trigger] options[j]) is Other,
    ensures
        first_subnet(options) == Some(subnet),
    decreases i,
{
    if i > 0 {
        let rest = options.drop_first();
        assert(options[0] is Other);
        assert forall|j: int| 0 <= j < i - 1 implies (#[trigger] rest[j]) is Other by {
            assert(rest[j] == options[j + 1]);
        }
        lemma_first_subnet(rest, i - 1, subnet);
    }
}

/// The client's address stays where the request has no EDNS part, and where no option of it is a
/// client subnet.
pub proof fn law_address_stays_without_subnet(
    request: Message,
    peer: SocketAddr,
    new: SocketAddr,
)
    requires
        request.edns matches Some(edns) ==> forall|j: int|
            0 <= j < edns.options@.len() ==> (#[trigger] edns.options@[j]) is Other,
        client_address(request, peer, new),
    ensures
        new == peer,
{
    if let Some(edns) = request.edns {
        lemma_no_subnet(edns.options@);
    }
}

proof fn lemma_no_subnet(options: Seq<EdnsOption>)
    requires
        forall|j: int| 0 <= j < options.len() ==> (#[trigger] options[j]) is Other,
    ensures
        first_subnet(options) is None,
    decreases options.len(),
{
    if options.len() > 0 {
        let rest = options.drop_first();
        assert(options[0] is Other);
        assert forall|j: int| 0 <= j < rest.len() implies (#[trigger] rest[j]) is Other by {
            assert(rest[j] == options[j + 1]);
        }
        lemma_no_subnet(rest);
    }
}

} // verus!
