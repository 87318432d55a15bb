//! Keeping the crawler away from private and internal addresses.
use vstd::prelude::*;

verus! {

/// An IP address as a number.
#[derive(Clone, Copy, PartialEq, Eq, Structural, Debug)]
pub enum IpValue {
    V4(u32),
    V6(u128),
}

/// A socket address: an IP address and a port.
#[derive(Clone, Copy, PartialEq, Eq, Structural, Debug)]
pub struct SocketValue {
    pub ip: IpValue,
    pub port: u16,
}

/// An IP network: an address and a prefix length.
#[allow(inconsistent_fields)]
#[derive(Clone, Copy, PartialEq, Eq, Structural, Debug)]
pub enum NetValue {
    V4 { addr: u32, prefix: u8 },
    V6 { addr: u128, prefix: u8 },
}

/// The host mask of an IPv4 network (`ipnet::Ipv4Net::hostmask`).
pub open spec fn v4_hostmask(prefix: u8) -> u32 {
    if prefix >= 32 {
        0
    } else {
        u32::MAX >> prefix
    }
}

/// The network mask of an IPv4 network (`ipnet::Ipv4Net::netmask`).
pub open spec fn v4_netmask(prefix: u8) -> u32 {
    if prefix == 0 || prefix > 32 {
        0
    } else {
        u32::MAX << ((32 - prefix) as u32)
    }
}

/// The host mask of an IPv6 network.
pub open spec fn v6_hostmask(prefix: u8) -> u128 {
    if prefix >= 128 {
        0
    } else {
        u128::MAX >> prefix
    }
}

/// The network mask of an IPv6 network.
pub open spec fn v6_netmask(prefix: u8) -> u128 {
    if prefix == 0 || prefix > 128 {
        0
    } else {
        u128::MAX << ((128 - prefix) as u128)
    }
}

/// The network holds the address (`ipnet::IpNet::contains`): same family, and the
/// address lies between the network address and the broadcast address.
pub open spec fn net_contains(net: NetValue, ip: IpValue) -> bool {
    match (net, ip) {
        (NetValue::V4 { addr, prefix }, IpValue::V4(a)) => (addr & v4_netmask(prefix)) <= a && a <= (
        addr | v4_hostmask(prefix)),
        (NetValue::V6 { addr, prefix }, IpValue::V6(a)) => (addr & v6_netmask(prefix)) <= a && a <= (
        addr | v6_hostmask(prefix)),
        _ => false,
    }
}

/// Whether a network holds an address.
pub fn contains_ip(net: &NetValue, ip: &IpValue) -> (r: bool)
    ensures
        r == net_contains(*net, *ip),
{
    match (net, ip) {
        (NetValue::V4 { addr, prefix }, IpValue::V4(a)) => {
            let host: u32 = if *prefix >= 32 { 0 } else { u32::MAX >> *prefix };
            let mask: u32 = if *prefix == 0 || *prefix > 32 { 0 } else { u32::MAX << ((32 - *prefix) as u32) };
            (*addr & mask) <= *a && *a <= (*addr | host)
        },
        (NetValue::V6 { addr, prefix }, IpValue::V6(a)) => {
            let host: u128 = if *prefix >= 128 { 0 } else { u128::MAX >> *prefix };
            let mask: u128 = if *prefix == 0 || *prefix > 128 { 0 } else { u128::MAX << ((128 - *prefix) as u128) };
            (*addr & mask) <= *a && *a <= (*addr | host)
        },
        _ => false,
    }
}

/// Some network of the list holds the address.
pub open spec fn in_some_net(nets: Seq<NetValue>, ip: IpValue) -> bool {
    exists|i: int| 0 <= i < nets.len() && net_contains(#[trigger] nets[i], ip)
}

/// The IPv4 address that an IPv4-mapped IPv6 address (`::ffff:a.b.c.d`) stands
/// for; `None` for any other address.
pub open spec fn mapped_v4(ip: IpValue) -> Option<IpValue> {
    match ip {
        IpValue::V6(a) => if a / 0x1_0000_0000 == 0xffff {
            Some(IpValue::V4((a % 0x1_0000_0000) as u32))
        } else {
            None
        },
        IpValue::V4(_) => None,
    }
}

/// An address is forbidden when a network of the list holds it, or, for an
/// IPv4-mapped IPv6 address, holds the IPv4 address it stands for (a connection to
/// `::ffff:127.0.0.1` reaches 127.0.0.1).
pub open spec fn forbidden_ip(forbidden: Seq<NetValue>, ip: IpValue) -> bool {
    ||| in_some_net(forbidden, ip)
    ||| (mapped_v4(ip) matches Some(v4) && in_some_net(forbidden, v4))
}

/// The IPv4 address an IPv4-mapped IPv6 address stands for.
pub fn ipv4_mapped(ip: &IpValue) -> (r: Option<IpValue>)
    ensures
        r == mapped_v4(*ip),
{
    match ip {
        IpValue::V6(a) => {
            if *a / 0x1_0000_0000u128 == 0xffffu128 {
                let low: u128 = *a % 0x1_0000_0000u128;
                Some(IpValue::V4(low as u32))
            } else {
                None
            }
        },
        IpValue::V4(_) => None,
    }
}

/// Whether some network of the list holds the address.
fn in_any_net(nets: &Vec<NetValue>, ip: &IpValue) -> (r: bool)
    ensures
        r == in_some_net(nets@, *ip),
{
    let mut i: usize = 0;
    while i < nets.len()
        invariant
            i <= nets.len(),
            forall|j: int| 0 <= j < i ==> !net_contains(#[trigger] nets@[j], *ip),
        decreases nets.len() - i,
    {
        if contains_ip(&nets[i], ip) {
            return true;
        }
        i = i + 1;
    }
    false
}

/// Whether the address is forbidden (see [`forbidden_ip`]).
pub fn is_forbidden(forbidden: &Vec<NetValue>, ip: &IpValue) -> (r: bool)
    ensures
        r == forbidden_ip(forbidden@, *ip),
{
    if in_any_net(forbidden, ip) {
        return true;
    }
    match ipv4_mapped(ip) {
        Some(v4) => in_any_net(forbidden, &v4),
        None => false,
    }
}

/// The addresses of the list that no forbidden network holds, in order.
pub open spec fn permitted_addrs(addrs: Seq<SocketValue>, forbidden: Seq<NetValue>) -> Seq<SocketValue>
    decreases addrs.len(),
{
    if addrs.len() == 0 {
        addrs
    } else if forbidden_ip(forbidden, addrs.last().ip) {
        permitted_addrs(addrs.drop_last(), forbidden)
    } else {
        permitted_addrs(addrs.drop_last(), forbidden).push(addrs.last())
    }
}

/// A host name resolved only to forbidden addresses.
#[derive(Clone, Copy, PartialEq, Eq, Structural, Debug)]
pub enum ResolveError {
    AccessDenied,
}

/// The addresses a host name resolved to, less the forbidden ones; an error when
/// none is left.
pub fn filter_resolved(addrs: &Vec<SocketValue>, forbidden: &Vec<NetValue>) -> (r: Result<Vec<SocketValue>, ResolveError>)
    ensures
        permitted_addrs(addrs@, forbidden@).len() == 0 ==> r == Err::<Vec<SocketValue>, ResolveError>(ResolveError::AccessDenied),
        permitted_addrs(addrs@, forbidden@).len() > 0 ==> (r matches Ok(v) && v@ == permitted_addrs(addrs@, forbidden@)),
{
    let mut out: Vec<SocketValue> = Vec::new();
    let mut i: usize = 0;
    while i < addrs.len()
        invariant
            i <= addrs.len(),
            out@ =~= permitted_addrs(addrs@.take(i as int), forbidden@),
        decreases addrs.len() - i,
    {
        assert(addrs@.take(i + 1).drop_last() =~= addrs@.take(i as int));
        let a = addrs[i];
        if !is_forbidden(forbidden, &a.ip) {
            out.push(a);
        }
        i = i + 1;
    }
    assert(addrs@.take(addrs.len() as int) =~= addrs@);
    if out.len() == 0 {
        Err(ResolveError::AccessDenied)
    } else {
        Ok(out)
    }
}

/// No address handed back lies in a forbidden network, and every address that lies
/// in none is handed back.
pub proof fn law_no_forbidden_address_passes(addrs: Seq<SocketValue>, forbidden: Seq<NetValue>)
    ensures
        forall|k: int| 0 <= k < permitted_addrs(addrs, forbidden).len() ==>
            !forbidden_ip(forbidden, #[trigger] permitted_addrs(addrs, forbidden)[k].ip),
        forall|k: int| 0 <= k < addrs.len() && !forbidden_ip(forbidden, #[trigger] addrs[k].ip)
            ==> permitted_addrs(addrs, forbidden).contains(addrs[k]),
    decreases addrs.len(),
{
    if addrs.len() > 0 {
        law_no_forbidden_address_passes(addrs.drop_last(), forbidden);
        let rest = permitted_addrs(addrs.drop_last(), forbidden);
        assert forall|k: int| 0 <= k < addrs.len() && !forbidden_ip(forbidden, #[trigger] addrs[k].ip)
            implies permitted_addrs(addrs, forbidden).contains(addrs[k]) by {
            if k < addrs.len() - 1 {
                assert(addrs.drop_last()[k] == addrs[k]);
                let j = choose|j: int| 0 <= j < rest.len() && rest[j] == addrs[k];
                if !forbidden_ip(forbidden, addrs.last().ip) {
                    assert(rest.push(addrs.last())[j] == addrs[k]);
                }
            } else {
                assert(rest.push(addrs.last())[rest.len() as int] == addrs[k]);
            }
        }
    }
}

/// An IPv4-mapped IPv6 address is refused whenever the IPv4 address it stands for
/// is: `::ffff:127.0.0.1` is as forbidden as 127.0.0.1.
pub proof fn law_mapped_addresses_count_as_ipv4(forbidden: Seq<NetValue>, a: u32)
    ensures
        in_some_net(forbidden, IpValue::V4(a)) ==> forbidden_ip(
            forbidden,
            IpValue::V6((0xffff * 0x1_0000_0000 + a) as u128),
        ),
{
    let x: int = 0xffff * 0x1_0000_0000 + a;
    assert(x / 0x1_0000_0000 == 0xffff && x % 0x1_0000_0000 == a) by (nonlinear_arith)
        requires
            x == 0xffff * 0x1_0000_0000 + a,
            0 <= a < 0x1_0000_0000,
    ;
    assert(mapped_v4(IpValue::V6(x as u128)) == Some(IpValue::V4(a)));
}

/// What `"..".parse::<ipnet::IpNet>()` gives for a text, as plain values.
pub uninterp spec fn parsed_ip_net(text: Seq<char>) -> Option<NetValue>;

/// Calls `ipnet::IpNet`'s `FromStr` (CIDR notation such as `10.0.0.0/8`). Claims
/// that the result is the one `parsed_ip_net` names, and that its prefix length is
/// within the family's bits, as `ipnet` checks on construction.
#[verifier::external_body]
fn parse_ip_net(text: &str) -> (r: Option<NetValue>)
    ensures
        r == parsed_ip_net(text@),
        r matches Some(NetValue::V4 { prefix, .. }) ==> prefix <= 32,
        r matches Some(NetValue::V6 { prefix, .. }) ==> prefix <= 128,
{
    match text.parse::<ipnet::IpNet>() {
        Ok(ipnet::IpNet::V4(n)) => Some(NetValue::V4 { addr: u32::from(n.addr()), prefix: n.prefix_len() }),
        Ok(ipnet::IpNet::V6(n)) => Some(NetValue::V6 { addr: u128::from(n.addr()), prefix: n.prefix_len() }),
        Err(_) => None,
    }
}

/// The private and internal ranges the crawler never connects to, in CIDR text.
pub open spec fn forbidden_range_text(i: int) -> Seq<char> {
    if i == 0 { "127.0.0.0/8"@ }
    else if i == 1 { "10.0.0.0/8"@ }
    else if i == 2 { "172.16.0.0/12"@ }
    else if i == 3 { "192.168.0.0/16"@ }
    else if i == 4 { "169.254.0.0/16"@ }
    else if i == 5 { "::1/128"@ }
    else if i == 6 { "fc00::/7"@ }
    else { "fe80::/10"@ }
}

fn forbidden_range_at(i: usize) -> (r: &'static str)
    requires
        i < 8,
    ensures
        r@ == forbidden_range_text(i as int),
{
    if i == 0 { "127.0.0.0/8" }
    else if i == 1 { "10.0.0.0/8" }
    else if i == 2 { "172.16.0.0/12" }
    else if i == 3 { "192.168.0.0/16" }
    else if i == 4 { "169.254.0.0/16" }
    else if i == 5 { "::1/128" }
    else if i == 6 { "fc00::/7" }
    else { "fe80::/10" }
}

/// The forbidden networks: the eight ranges parsed, or `None` if one does not parse.
pub fn forbidden_ranges() -> (r: Option<Vec<NetValue>>)
    ensures
        (forall|i: int| 0 <= i < 8 ==> #[trigger] parsed_ip_net(forbidden_range_text(i)) is Some)
            ==> (r matches Some(v) && v.len() == 8 && forall|i: int| 0 <= i < 8 ==> Some(
            #[trigger] v@[i]) == parsed_ip_net(forbidden_range_text(i))),
        !(forall|i: int| 0 <= i < 8 ==> #[trigger] parsed_ip_net(forbidden_range_text(i)) is Some)
            ==> r is None,
        r matches Some(v) ==> {
            &&& v.len() == 8
            &&& Some(v@[0]) == parsed_ip_net("127.0.0.0/8"@)
            &&& Some(v@[1]) == parsed_ip_net("10.0.0.0/8"@)
            &&& Some(v@[2]) == parsed_ip_net("172.16.0.0/12"@)
            &&& Some(v@[3]) == parsed_ip_net("192.168.0.0/16"@)
            &&& Some(v@[4]) == parsed_ip_net("169.254.0.0/16"@)
            &&& Some(v@[5]) == parsed_ip_net("::1/128"@)
            &&& Some(v@[6]) == parsed_ip_net("fc00::/7"@)
            &&& Some(v@[7]) == parsed_ip_net("fe80::/10"@)
        },
{
    let mut out: Vec<NetValue> = Vec::new();
    let mut i: usize = 0;
    while i < 8
        invariant
            i <= 8,
            out.len() == i,
            forall|j: int| 0 <= j < i ==> Some(#[trigger] out@[j]) == parsed_ip_net(forbidden_range_text(j)),
        decreases 8 - i,
    {
        match parse_ip_net(forbidden_range_at(i)) {
            Some(n) => out.push(n),
            None => {
                return None;
            },
        }
        i = i + 1;
    }
    assert forall|i: int| 0 <= i < 8 implies #[trigger] parsed_ip_net(forbidden_range_text(i)) is Some by {
        assert(Some(out@[i]) == parsed_ip_net(forbidden_range_text(i)));
    }
    assert(Some(out@[0]) == parsed_ip_net(forbidden_range_text(0)));
    assert(Some(out@[1]) == parsed_ip_net(forbidden_range_text(1)));
    assert(Some(out@[2]) == parsed_ip_net(forbidden_range_text(2)));
    assert(Some(out@[3]) == parsed_ip_net(forbidden_range_text(3)));
    assert(Some(out@[4]) == parsed_ip_net(forbidden_range_text(4)));
    assert(Some(out@[5]) == parsed_ip_net(forbidden_range_text(5)));
    assert(Some(out@[6]) == parsed_ip_net(forbidden_range_text(6)));
    assert(Some(out@[7]) == parsed_ip_net(forbidden_range_text(7)));
    Some(out)
}

/// The forbidden ranges are the loopback, private, link-local and unique-local
/// networks, in CIDR text: `127.0.0.0/8`, `10.0.0.0/8`, `172.16.0.0/12`,
/// `192.168.0.0/16`, `169.254.0.0/16`, `::1/128`, `fc00::/7` and `fe80::/10`.
pub proof fn law_forbidden_ranges_are_the_private_ranges()
    ensures
        Seq::new(8, |i: int| forbidden_range_text(i)) == seq![
            "127.0.0.0/8"@,
            "10.0.0.0/8"@,
            "172.16.0.0/12"@,
            "192.168.0.0/16"@,
            "169.254.0.0/16"@,
            "::1/128"@,
            "fc00::/7"@,
            "fe80::/10"@,
        ],
{
    assert(Seq::new(8, |i: int| forbidden_range_text(i)) =~= seq![
        "127.0.0.0/8"@,
        "10.0.0.0/8"@,
        "172.16.0.0/12"@,
        "192.168.0.0/16"@,
        "169.254.0.0/16"@,
        "::1/128"@,
        "fc00::/7"@,
        "fe80::/10"@,
    ]);
}

/// A network holds exactly the addresses that share its first `prefix` bits: the
/// unique-local network `fc00::/7` holds the IPv6 addresses whose top seven bits
/// are `1111110` (such as `fd00::1`), and `127.0.0.0/8` the IPv4 addresses whose
/// first byte is 127.
pub proof fn law_networks_hold_their_prefix(a6: u128, a4: u32)
    ensures
        net_contains(NetValue::V6 { addr: 0xfc00_0000_0000_0000_0000_0000_0000_0000, prefix: 7 }, IpValue::V6(a6))
            <==> (a6 >> 121u128) == 0x7e,
        net_contains(NetValue::V4 { addr: 0x7f00_0000, prefix: 8 }, IpValue::V4(a4)) <==> (a4 >> 24u32) == 0x7f,
{
    assert(v6_netmask(7) == u128::MAX << 121u128);
    assert(v6_hostmask(7) == u128::MAX >> 7u8);
    assert(v4_netmask(8) == u32::MAX << 24u32);
    assert(v4_hostmask(8) == u32::MAX >> 8u8);
    assert(((0xfc00_0000_0000_0000_0000_0000_0000_0000u128 & (u128::MAX << 121u128)) <= a6 && a6 <= (
    0xfc00_0000_0000_0000_0000_0000_0000_0000u128 | (u128::MAX >> 7u8))) <==> (a6 >> 121u128) == 0x7e)
        by (bit_vector);
    assert(((0x7f00_0000u32 & (u32::MAX << 24u32)) <= a4 && a4 <= (0x7f00_0000u32 | (u32::MAX >> 8u8)))
        <==> (a4 >> 24u32) == 0x7f) by (bit_vector);
}

} // verus!
