use crate::cidr::{cidr_network, inet_or_zero, HostAddress, IPv4NetworkAddress};
use crate::error::MatchError;
use crate::roameo::{selects, Roameo};
use crate::text::{ends_with_zero_port, has_zero_port};
use vstd::prelude::*;
use vstd::string::StringExecFns;

verus! {

/// One address record of an interface, as the system lists it.
pub struct InterfaceAddress {
    /// The interface's name.
    pub interface: String,
    /// The address, where the record has one.
    pub address: Option<HostAddress>,
    /// The netmask, where the record has one.
    pub netmask: Option<HostAddress>,
}

/// The IPv4 address that nix's socket-address parser reads from the text.
pub uninterp spec fn sockaddr_in_ip(s: Seq<char>) -> Option<u32>;

/// Relies on nix's `SockaddrIn::from_str`, which reads "a.b.c.d:port" with
/// std's `SocketAddrV4` parser, and on `SockaddrIn::ip`, which gives the
/// address with the first octet in the highest byte; the result depends on
/// the text alone.
#[verifier::external_body]
fn parse_sockaddr_in(s: &str) -> (r: Option<u32>)
    ensures
        r == sockaddr_in_ip(s@),
{
    match <nix::sys::socket::SockaddrIn as std::str::FromStr>::from_str(s) {
        Ok(a) => Some(a.ip()),
        Err(_) => None,
    }
}

/// The address text with a port: ":0" is added unless it is there.
pub open spec fn with_zero_port(s: Seq<char>) -> Seq<char> {
    if has_zero_port(s) {
        s
    } else {
        s + seq![':', '0']
    }
}

/// The address to match on as a number: what the socket-address parser
/// reads from the text with a port, or zero where it reads nothing.
pub open spec fn target_ip(address: Seq<char>) -> u32 {
    match sockaddr_in_ip(with_zero_port(address)) {
        Some(ip) => ip,
        None => 0,
    }
}

/// The record has an IPv4 address, on an interface that the filter lets
/// through, that equals `target` where an address is to be matched, or
/// lies, under the record's netmask, in the network `net` where a subnet is.
pub open spec fn record_matches(
    filter: Seq<char>,
    address: Seq<char>,
    subnet: Seq<char>,
    rec: InterfaceAddress,
    target: u32,
    net: u32,
) -> bool {
    selects(filter, rec.interface@) && match rec.address {
        Some(HostAddress::Inet(a)) => (address.len() > 0 && a == target) || (subnet.len() > 0
            && rec.netmask is Some && (a & inet_or_zero(rec.netmask->Some_0)) == net),
        _ => false,
    }
}

impl Roameo {
    /// The network of the subnet to match, or zero where it is not one.
    pub open spec fn subnet_network(&self) -> u32 {
        match cidr_network(self.subnet_spec()) {
            Some(n) => n,
            None => 0,
        }
    }

    /// The outcome of matching the address records against the address
    /// `target` and the subnet.
    pub open spec fn inet_outcome(&self, records: Seq<InterfaceAddress>, target: u32) -> Result<
        (),
        MatchError,
    > {
        if self.subnet_spec().len() > 0 && cidr_network(self.subnet_spec()) is None {
            Err(MatchError::InvalidCidr)
        } else if exists|i: int|
            0 <= i < records.len() && record_matches(
                self.interface_spec(),
                self.address_spec(),
                self.subnet_spec(),
                #[trigger] records[i],
                target,
                self.subnet_network(),
            ) {
            Ok(())
        } else {
            Err(MatchError::NotFound)
        }
    }

    /// Matches the address records against the address `target` (where an
    /// address is to be matched) and the subnet (where one is), on the
    /// interfaces that the filter lets through. A subnet that is not
    /// "a.b.c.d/n" is refused; records of other families are passed over.
    pub fn match_inet_addrs(&self, records: &Vec<InterfaceAddress>, target: u32) -> (r: Result<
        (),
        MatchError,
    >)
        ensures
            r == self.inet_outcome(records@, target),
    {
        let has_address = !self.address().is_empty();
        let has_subnet = !self.subnet().is_empty();
        let mut net: u32 = 0;
        if has_subnet {
            match IPv4NetworkAddress::from_cidr(self.subnet()) {
                Ok(n) => {
                    net = n.network();
                },
                Err(e) => {
                    return Err(e);
                },
            }
        }
        let mut i: usize = 0;
        while i < records.len()
            invariant
                i <= records@.len(),
                has_address == (self.address_spec().len() > 0),
                has_subnet == (self.subnet_spec().len() > 0),
                has_subnet ==> net == self.subnet_network(),
                has_subnet ==> cidr_network(self.subnet_spec()) is Some,
                forall|j: int|
                    0 <= j < i ==> !record_matches(
                        self.interface_spec(),
                        self.address_spec(),
                        self.subnet_spec(),
                        #[trigger] records@[j],
                        target,
                        self.subnet_network(),
                    ),
            decreases records.len() - i,
        {
            let rec = &records[i];
            if self.selects(rec.interface.as_str()) {
                if let Some(HostAddress::Inet(a)) = rec.address {
                    if has_address && a == target {
                        return Ok(());
                    } else if has_subnet {
                        if let Some(m) = &rec.netmask {
                            let here = IPv4NetworkAddress::from_sockaddr(
                                &HostAddress::Inet(a),
                                m,
                            );
                            if let Ok(here) = here {
                                if here.network() == net {
                                    return Ok(());
                                }
                            }
                        }
                    }
                }
            }
            i = i + 1;
        }
        Err(MatchError::NotFound)
    }

    /// Matches the address records against the address and subnet to match:
    /// the address text, with ":0" added unless it ends so, is read as an
    /// IPv4 socket address, and counts as 0.0.0.0 where it cannot be.
    pub fn get_inet_addrs(&self, records: &Vec<InterfaceAddress>) -> (r: Result<(), MatchError>)
        ensures
            r == self.inet_outcome(records@, target_ip(self.address_spec())),
    {
        proof {
            reveal_strlit(":0");
        }
        let mut text = String::from_str(self.address());
        if !ends_with_zero_port(self.address()) {
            text.append(":0");
        }
        assert(text@ =~= with_zero_port(self.address_spec()));
        let target = match parse_sockaddr_in(text.as_str()) {
            Some(ip) => ip,
            None => 0,
        };
        self.match_inet_addrs(records, target)
    }
}

} // verus!
