//! IP addresses and networks as plain numbers.
use vstd::arithmetic::power2::pow2;
use vstd::prelude::*;

use crate::text::{decimal, lemma_decimal_is_digits};

verus! {

/// An IPv4 or IPv6 address.
#[derive(Clone, Copy, PartialEq, Eq, PartialOrd, Ord, Hash, Structural, Debug)]
pub enum Ip {
    V4(u32),
    V6(u128),
}

/// An IPv4 address with the length of its network prefix.
#[derive(Clone, Copy, PartialEq, Eq, Structural, Debug)]
pub struct Ipv4Net {
    pub addr: u32,
    pub prefix: u8,
}

/// An IPv6 address with the length of its network prefix.
#[derive(Clone, Copy, PartialEq, Eq, Structural, Debug)]
pub struct Ipv6Net {
    pub addr: u128,
    pub prefix: u8,
}

/// A network of either family.
#[derive(Clone, Copy, PartialEq, Eq, Structural, Debug)]
pub enum Network {
    V4(Ipv4Net),
    V6(Ipv6Net),
}

/// IPv4 addresses stand before IPv6 addresses, each in numeric order.
pub open spec fn ip_lt(a: Ip, b: Ip) -> bool {
    match (a, b) {
        (Ip::V4(x), Ip::V4(y)) => x < y,
        (Ip::V4(_), Ip::V6(_)) => true,
        (Ip::V6(_), Ip::V4(_)) => false,
        (Ip::V6(x), Ip::V6(y)) => x < y,
    }
}

/// `a` with its lowest `bits` bits cleared.
pub open spec fn block_start(a: int, bits: nat) -> int {
    a - a % (pow2(bits) as int)
}

impl Ipv4Net {
    pub open spec fn wf(self) -> bool {
        self.prefix <= 32
    }

    /// The number of addresses in the network.
    pub open spec fn size(self) -> nat {
        pow2((32 - self.prefix) as nat)
    }

    /// The lowest address in the network.
    pub open spec fn first(self) -> int {
        block_start(self.addr as int, (32 - self.prefix) as nat)
    }
}

impl Ipv6Net {
    pub open spec fn wf(self) -> bool {
        self.prefix <= 128
    }

    /// The number of addresses in the network.
    pub open spec fn size(self) -> nat {
        pow2((128 - self.prefix) as nat)
    }

    /// The lowest address in the network.
    pub open spec fn first(self) -> int {
        block_start(self.addr as int, (128 - self.prefix) as nat)
    }
}

impl Network {
    pub open spec fn wf(self) -> bool {
        match self {
            Network::V4(net) => net.wf(),
            Network::V6(net) => net.wf(),
        }
    }
}

/// An IPv4 address in dotted decimal notation.
pub open spec fn dotted(a: u32) -> Seq<char> {
    decimal((a / 0x100_0000) as nat) + "."@ + decimal((a / 0x1_0000 % 0x100) as nat) + "."@
        + decimal((a / 0x100 % 0x100) as nat) + "."@ + decimal((a % 0x100) as nat)
}

/// What `Display` writes for the IPv6 address `a`.
pub uninterp spec fn ipv6_text(a: u128) -> Seq<char>;

/// What `FromStr` reads from `text` as an IP address.
pub uninterp spec fn parsed_ip(text: Seq<char>) -> Option<Ip>;

/// What `ipnetwork::IpNetwork::from_str` reads from `text`.
pub uninterp spec fn parsed_network(text: Seq<char>) -> Option<Network>;

/// An address as text.
pub open spec fn ip_text(ip: Ip) -> Seq<char> {
    match ip {
        Ip::V4(a) => dotted(a),
        Ip::V6(a) => ipv6_text(a),
    }
}

/// The network that holds one address only.
pub open spec fn host_network(ip: Ip) -> Network {
    match ip {
        Ip::V4(a) => Network::V4(Ipv4Net { addr: a, prefix: 32 }),
        Ip::V6(a) => Network::V6(Ipv6Net { addr: a, prefix: 128 }),
    }
}

/// The network that holds one address only, as text.
pub open spec fn host_prefix(ip: Ip) -> Seq<char> {
    match ip {
        Ip::V4(a) => ip_text(ip) + "/32"@,
        Ip::V6(a) => ip_text(ip) + "/128"@,
    }
}

/// A character of the text of an address: a hexadecimal digit, a colon or a dot.
pub open spec fn is_address_char(c: char) -> bool {
    '0' <= c <= '9' || 'a' <= c <= 'f' || c == ':' || c == '.'
}

/// Nothing but characters of the text of an address.
pub open spec fn in_address_chars(text: Seq<char>) -> bool {
    forall|i: int| 0 <= i < text.len() ==> is_address_char(#[trigger] text[i])
}

/// The text of an address holds neither a blank nor a comma.
pub proof fn lemma_address_chars(text: Seq<char>)
    requires
        in_address_chars(text),
    ensures
        !text.contains(' '),
        !text.contains(','),
{
}

/// Dotted decimal notation has dots in it and no colon.
pub proof fn lemma_dotted(a: u32)
    ensures
        !dotted(a).contains(':'),
        in_address_chars(dotted(a)),
{
    reveal_strlit(".");
    lemma_decimal_is_digits((a / 0x100_0000) as nat);
    lemma_decimal_is_digits((a / 0x1_0000 % 0x100) as nat);
    lemma_decimal_is_digits((a / 0x100 % 0x100) as nat);
    lemma_decimal_is_digits((a % 0x100) as nat);
    assert forall|i: int| 0 <= i < dotted(a).len() implies dotted(a)[i] != ':' by {}
}

/// Calls `Display` of the address that `ipnetwork` holds for `ip`. An IPv4
/// address is written in dotted decimal notation; the text of an IPv6 address
/// has a name: it is hexadecimal digits in lower case, colons, and dots where an
/// IPv4 address is part of it, and there is a colon in it. `FromStr` reads the
/// address back from its text.
#[verifier::external_body]
fn ip_to_text(ip: Ip) -> (r: String)
    ensures
        ip matches Ip::V4(a) ==> r@ == dotted(a),
        ip matches Ip::V6(a) ==> r@ == ipv6_text(a) && r@.contains(':') && in_address_chars(r@),
        parsed_ip(r@) == Some(ip),
{
    match ip {
        Ip::V4(a) => ipnetwork::Ipv4Network::new(a.into(), 32).unwrap().ip().to_string(),
        Ip::V6(a) => ipnetwork::Ipv6Network::new(a.into(), 128).unwrap().ip().to_string(),
    }
}

/// Writes an address. A colon tells the families apart, and the address is read
/// back from its text.
pub(crate) fn address_text(ip: Ip) -> (r: String)
    ensures
        r@ == ip_text(ip),
        r@.contains(':') <==> ip is V6,
        in_address_chars(r@),
        parsed_ip(r@) == Some(ip),
{
    proof {
        if let Ip::V4(a) = ip {
            lemma_dotted(a);
        }
    }
    ip_to_text(ip)
}

/// Calls `FromStr` of an IP address of either family; the address is handed to
/// `ipnetwork::IpNetwork::new` and taken out again as a number. What is read
/// from a text has a name; without a colon in it, it is no IPv6 address.
#[verifier::external_body]
pub(crate) fn parse_ip(text: &str) -> (r: Option<Ip>)
    ensures
        r == parsed_ip(text@),
        !text@.contains(':') ==> (r matches Some(ip) ==> ip is V4),
{
    match text.parse().map(|ip| ipnetwork::IpNetwork::new(ip, 0)) {
        Ok(Ok(ipnetwork::IpNetwork::V4(net))) => Some(Ip::V4(net.ip().into())),
        Ok(Ok(ipnetwork::IpNetwork::V6(net))) => Some(Ip::V6(net.ip().into())),
        _ => None,
    }
}

/// Calls `ipnetwork::IpNetwork::from_str`. What is read from a text has a name;
/// a prefix length is never longer than an address of its family. From the
/// text of an address with the full prefix length behind it, that address is
/// read. The error says which text it was that is no network.
#[verifier::external_body]
pub(crate) fn parse_network(text: &str) -> (r: Result<Network, String>)
    ensures
        r is Ok <==> parsed_network(text@) is Some,
        r matches Ok(net) ==> parsed_network(text@) == Some(net) && net.wf(),
        r matches Err(e) ==> e@ == "invalid address: "@ + text@,
        forall|ip: Ip|
            text@ == #[trigger] host_prefix(ip) ==> r is Ok && r->Ok_0 == host_network(ip),
{
    match text.parse::<ipnetwork::IpNetwork>() {
        Ok(ipnetwork::IpNetwork::V4(net)) => Ok(
            Network::V4(Ipv4Net { addr: net.ip().into(), prefix: net.prefix() }),
        ),
        Ok(ipnetwork::IpNetwork::V6(net)) => Ok(
            Network::V6(Ipv6Net { addr: net.ip().into(), prefix: net.prefix() }),
        ),
        Err(e) => Err(e.to_string()),
    }
}

/// Calls `ipnetwork::Ipv4Network::iter`, which gives every address of the
/// network in ascending order. (The size of the whole address space does not
/// fit the number that it counts with.)
#[verifier::external_body]
pub(crate) fn addresses_of(net: Ipv4Net) -> (r: Vec<u32>)
    requires
        1 <= net.prefix <= 32,
    ensures
        r@ == Seq::new(net.size(), |i: int| (net.first() + i) as u32),
{
    let net = ipnetwork::Ipv4Network::new(net.addr.into(), net.prefix).unwrap();
    net.iter().map(u32::from).collect()
}

/// Calls `ipnetwork::Ipv6Network::network`, which gives the lowest address of
/// the network.
#[verifier::external_body]
pub(crate) fn first_address_of(net: Ipv6Net) -> (r: u128)
    requires
        net.wf(),
    ensures
        r == net.first(),
{
    let net = ipnetwork::Ipv6Network::new(net.addr.into(), net.prefix).unwrap();
    net.network().into()
}

} // verus!
