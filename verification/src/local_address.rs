//! Choosing the local address of a daemon among the network interfaces of
//! the machine.

use vstd::prelude::*;

use crate::api::Address;
use crate::error::{ApiErrorType, Error, InternalError, InternalResult};

verus! {

/// A network interface of the machine: its name and the IP addresses on it
/// (4 bytes for IPv4, 16 for IPv6).
pub struct NetworkInterface {
    /// The name of the interface.
    pub name: String,
    /// The IP addresses on the interface.
    pub ips: Vec<Vec<u8>>,
}

/// The view of an interface: its name and its IP addresses.
pub type InterfaceView = (Seq<char>, Seq<Seq<u8>>);

/// The views of a sequence of interfaces.
pub open spec fn interface_views(s: Seq<NetworkInterface>) -> Seq<InterfaceView> {
    s.map_values(|i: NetworkInterface| (i.name@, i.ips@.map_values(|ip: Vec<u8>| ip@)))
}

/// The IPv6 addresses of `ips`, in order.
pub open spec fn ipv6_only(ips: Seq<Seq<u8>>) -> Seq<Seq<u8>>
    decreases ips.len(),
{
    if ips.len() == 0 {
        ips
    } else {
        let rest = ipv6_only(ips.drop_last());
        if ips.last().len() == 16 {
            rest.push(ips.last())
        } else {
            rest
        }
    }
}

/// Whether an interface is passed over: the loopback interface when no
/// interface is named, an interface with no address, or one other than the
/// interface named.
pub open spec fn interface_skipped(interface_name: Option<Seq<char>>, i: InterfaceView) -> bool {
    ||| (interface_name is None && i.0 == "lo"@)
    ||| i.1.len() == 0
    ||| (interface_name matches Some(n) && i.0 != n)
}

/// The addresses of an interface that may be chosen: all of them, or only the
/// IPv6 ones when IPv6 is forced.
pub open spec fn usable_ips(i: InterfaceView, force_ipv6: bool) -> Seq<Seq<u8>> {
    if force_ipv6 {
        ipv6_only(i.1)
    } else {
        i.1
    }
}

/// Whether interface `k` of `s` is the first one not passed over.
pub open spec fn is_chosen_interface(s: Seq<InterfaceView>, interface_name: Option<Seq<char>>, k: int) -> bool {
    &&& 0 <= k < s.len()
    &&& !interface_skipped(interface_name, s[k])
    &&& forall|j: int| 0 <= j < k ==> interface_skipped(interface_name, #[trigger] s[j])
}

/// The message of the error for a chosen interface with no usable address.
pub open spec fn no_ip_message(name: Seq<char>) -> Seq<char> {
    "Could not find any IP address on interface "@ + name + ", found: []"@
}

/// The message of the error when no interface is chosen.
pub open spec fn no_interface_message() -> Seq<char> {
    "Could not find matching interface name"@
}

/// The parameters from which the local address of a daemon is made.
pub struct LocalAddressParams {
    port: u16,
    interface_name: Option<String>,
    force_ipv6: bool,
}

/// Keeping the IPv6 addresses among one more address of `ips` adds that
/// address exactly when it is an IPv6 one.
proof fn lemma_ipv6_only_step(ips: Seq<Seq<u8>>, i: int)
    requires
        0 <= i < ips.len(),
    ensures
        ipv6_only(ips.take(i + 1)) == if ips[i].len() == 16 {
            ipv6_only(ips.take(i)).push(ips[i])
        } else {
            ipv6_only(ips.take(i))
        },
{
    assert(ips.take(i + 1).drop_last() =~= ips.take(i));
}

/// Whether `r` is the local address chosen among the interfaces `s` (see
/// `LocalAddressParams::create_address`): the first usable address of the
/// first interface not passed over, with `port`; or the error for that
/// interface having no usable address; or the error for no interface being
/// left.
pub open spec fn is_local_address_result(
    s: Seq<InterfaceView>,
    interface_name: Option<Seq<char>>,
    force_ipv6: bool,
    port: u16,
    r: InternalResult<Address>,
) -> bool {
    match r {
        Ok(a) => exists|k: int|
            #[trigger] is_chosen_interface(s, interface_name, k) && usable_ips(s[k], force_ipv6).len() > 0
                && a.ip_data@ == usable_ips(s[k], force_ipv6)[0] && a.port == port,
        Err(InternalError::PrivateError(Error::IpAddressError(m))) => exists|k: int|
            #[trigger] is_chosen_interface(s, interface_name, k) && usable_ips(s[k], force_ipv6).len() == 0
                && m@ == no_ip_message(s[k].0),
        Err(InternalError::PublicError(e, None)) => (forall|k: int|
            0 <= k < s.len() ==> interface_skipped(interface_name, #[trigger] s[k])) && e.message@
            == no_interface_message() && e.error_type == ApiErrorType::External,
        _ => false,
    }
}

/// The first IPv6 address of `ips` is the first of its IPv6 addresses.
proof fn lemma_ipv6_only_first(ips: Seq<Seq<u8>>, j: int)
    requires
        0 <= j < ips.len(),
        ips[j].len() == 16,
        forall|m: int| 0 <= m < j ==> #[trigger] ips[m].len() != 16,
    ensures
        ipv6_only(ips).len() > 0,
        ipv6_only(ips)[0] == ips[j],
    decreases ips.len(),
{
    if j < ips.len() - 1 {
        lemma_ipv6_only_first(ips.drop_last(), j);
    } else {
        lemma_ipv6_only_none(ips.drop_last());
    }
}

/// Addresses none of which is an IPv6 one have no IPv6 address.
proof fn lemma_ipv6_only_none(ips: Seq<Seq<u8>>)
    requires
        forall|m: int| 0 <= m < ips.len() ==> #[trigger] ips[m].len() != 16,
    ensures
        ipv6_only(ips).len() == 0,
    decreases ips.len(),
{
    if ips.len() > 0 {
        lemma_ipv6_only_none(ips.drop_last());
    }
}

/// The local address is taken from the first interface not passed over (an
/// interface passed over has at least one address): without forcing IPv6 it
/// is that interface's first address, IPv4 or IPv6; with IPv6 forced it is
/// the interface's first IPv6 address, and there is none when the interface
/// has no IPv6 address. In every case the port is the one given.
pub proof fn lemma_local_address_is_first_usable(
    s: Seq<InterfaceView>,
    interface_name: Option<Seq<char>>,
    force_ipv6: bool,
    port: u16,
    k: int,
    r: InternalResult<Address>,
)
    requires
        is_chosen_interface(s, interface_name, k),
        is_local_address_result(s, interface_name, force_ipv6, port, r),
    ensures
        !force_ipv6 ==> (r matches Ok(a) && a.ip_data@ == s[k].1[0] && a.port == port),
        forall|j: int|
            force_ipv6 && 0 <= j < s[k].1.len() && #[trigger] s[k].1[j].len() == 16 && (forall|m: int|
                0 <= m < j ==> s[k].1[m].len() != 16) ==> (r matches Ok(a) && a.ip_data@ == s[k].1[j]
                && a.port == port),
        force_ipv6 && (forall|j: int| 0 <= j < s[k].1.len() ==> #[trigger] s[k].1[j].len() != 16)
            ==> (r matches Err(InternalError::PrivateError(Error::IpAddressError(m))) && m@ == no_ip_message(
            s[k].0,
        )),
{
    assert forall|k2: int| #[trigger] is_chosen_interface(s, interface_name, k2) implies k2 == k by {
        if k2 < k {
            assert(interface_skipped(interface_name, s[k2]));
        } else if k2 > k {
            assert(interface_skipped(interface_name, s[k]));
        }
    }
    assert(!interface_skipped(interface_name, s[k]));
    assert(s[k].1.len() > 0);
    if !force_ipv6 {
        assert(usable_ips(s[k], force_ipv6).len() > 0);
    }
    assert forall|j: int|
        force_ipv6 && 0 <= j < s[k].1.len() && #[trigger] s[k].1[j].len() == 16 && (forall|m: int|
            0 <= m < j ==> s[k].1[m].len() != 16) implies (r matches Ok(a) && a.ip_data@ == s[k].1[j]
            && a.port == port) by {
        lemma_ipv6_only_first(s[k].1, j);
    }
    if force_ipv6 && (forall|j: int| 0 <= j < s[k].1.len() ==> #[trigger] s[k].1[j].len() != 16) {
        lemma_ipv6_only_none(s[k].1);
    }
}

/// The IPv6 addresses kept are addresses of `ips`, each of sixteen bytes.
proof fn lemma_ipv6_only_members(ips: Seq<Seq<u8>>)
    ensures
        forall|i: int|
            0 <= i < ipv6_only(ips).len() ==> #[trigger] ipv6_only(ips)[i].len() == 16 && ips.contains(
                ipv6_only(ips)[i],
            ),
    decreases ips.len(),
{
    if ips.len() > 0 {
        lemma_ipv6_only_members(ips.drop_last());
        let rest = ipv6_only(ips.drop_last());
        assert forall|i: int| 0 <= i < ipv6_only(ips).len() implies #[trigger] ipv6_only(ips)[i].len() == 16
            && ips.contains(ipv6_only(ips)[i]) by {
            if i < rest.len() {
                assert(ipv6_only(ips)[i] == rest[i]);
                let m = choose|m: int| 0 <= m < ips.drop_last().len() && ips.drop_last()[m] == rest[i];
                assert(ips[m] == rest[i]);
            } else {
                assert(ips[ips.len() - 1] == ips.last());
            }
        }
    }
}

/// Where the local address comes from: an address of one of the
/// interfaces, never of the loopback interface `lo` unless an interface is
/// named, and of the named interface when one is; an IPv6 address when IPv6
/// is forced; with the port given. No interface is found only when each is
/// the loopback interface (with none named), has no address, or is not the
/// one named.
pub proof fn lemma_local_address_source(
    s: Seq<InterfaceView>,
    interface_name: Option<Seq<char>>,
    force_ipv6: bool,
    port: u16,
    r: InternalResult<Address>,
)
    requires
        is_local_address_result(s, interface_name, force_ipv6, port, r),
    ensures
        r matches Ok(a) ==> a.port == port && (force_ipv6 ==> a.ip_data@.len() == 16) && exists|k: int|
            {
                &&& 0 <= k < s.len()
                &&& #[trigger] s[k].1.contains(a.ip_data@)
                &&& interface_name is None ==> s[k].0 != "lo"@
                &&& interface_name matches Some(n) ==> s[k].0 == n
            },
        r matches Err(InternalError::PublicError(_, _)) ==> forall|k: int|
            0 <= k < s.len() ==> {
                ||| interface_name is None && #[trigger] s[k].0 == "lo"@
                ||| s[k].1.len() == 0
                ||| interface_name matches Some(n) && s[k].0 != n
            },
{
    if let Ok(a) = r {
        let k = choose|k: int|
            #[trigger] is_chosen_interface(s, interface_name, k) && usable_ips(s[k], force_ipv6).len() > 0
                && a.ip_data@ == usable_ips(s[k], force_ipv6)[0] && a.port == port;
        if force_ipv6 {
            lemma_ipv6_only_members(s[k].1);
            assert(ipv6_only(s[k].1)[0] == a.ip_data@);
            assert(ipv6_only(s[k].1)[0].len() == 16);
        } else {
            assert(s[k].1[0] == a.ip_data@);
        }
        assert(s[k].1.contains(a.ip_data@));
    }
}

impl LocalAddressParams {
    /// The port of the address.
    pub closed spec fn port(&self) -> u16 {
        self.port
    }

    /// The name of the interface to take the address from, if one is named.
    pub closed spec fn interface_name(&self) -> Option<Seq<char>> {
        match self.interface_name {
            Some(n) => Some(n@),
            None => None,
        }
    }

    /// Whether the address must be an IPv6 one.
    pub closed spec fn force_ipv6(&self) -> bool {
        self.force_ipv6
    }

    /// Creates the parameters.
    pub fn new(port: u16, interface_name: Option<String>, force_ipv6: bool) -> (r: LocalAddressParams)
        ensures
            r.port() == port,
            r.interface_name() == match interface_name {
                Some(n) => Some(n@),
                None => None::<Seq<char>>,
            },
            r.force_ipv6() == force_ipv6,
    {
        LocalAddressParams { port, interface_name, force_ipv6 }
    }

    /// Chooses the local address among the machine's `interfaces`, in order:
    /// the first usable address (see `usable_ips`) of the first interface not
    /// passed over (see `interface_skipped`), with the parameters' port.
    /// When that interface has no usable address, or no interface is left,
    /// the address cannot be made.
    pub fn create_address(self, interfaces: Vec<NetworkInterface>) -> (r: InternalResult<Address>)
        ensures
            is_local_address_result(
                interface_views(interfaces@),
                self.interface_name(),
                self.force_ipv6(),
                self.port(),
                r,
            ),
    {
        let ghost s = interface_views(interfaces@);
        let ghost name = self.interface_name();
        let mut i: usize = 0;
        while i < interfaces.len()
            invariant
                i <= interfaces@.len(),
                s == interface_views(interfaces@),
                name == self.interface_name(),
                forall|j: int| 0 <= j < i ==> interface_skipped(name, #[trigger] s[j]),
            decreases interfaces@.len() - i,
        {
            let iface = &interfaces[i];
            let ghost v = s[i as int];
            proof {
                assert(v.0 == iface.name@);
                assert(v.1 =~= iface.ips@.map_values(|ip: Vec<u8>| ip@));
                reveal_strlit("lo");
            }
            let lo = String::from_str("lo");
            let is_lo = iface.name == lo;
            let skip = match &self.interface_name {
                None => is_lo || iface.ips.len() == 0,
                Some(n) => iface.ips.len() == 0 || iface.name != *n,
            };
            if skip {
                i = i + 1;
                continue;
            }
            let mut ips: Vec<Vec<u8>> = Vec::new();
            let mut j: usize = 0;
            proof {
                assert(v.1.take(0) =~= Seq::<Seq<u8>>::empty());
                assert(ips@.map_values(|ip: Vec<u8>| ip@) =~= Seq::<Seq<u8>>::empty());
            }
            while j < iface.ips.len()
                invariant
                    j <= iface.ips@.len(),
                    v.1 == iface.ips@.map_values(|ip: Vec<u8>| ip@),
                    ips@.map_values(|ip: Vec<u8>| ip@) == if self.force_ipv6 {
                        ipv6_only(v.1.take(j as int))
                    } else {
                        v.1.take(j as int)
                    },
                decreases iface.ips@.len() - j,
            {
                let ghost before = ips@.map_values(|ip: Vec<u8>| ip@);
                proof {
                    lemma_ipv6_only_step(v.1, j as int);
                    assert(v.1.take(j + 1) =~= v.1.take(j as int).push(v.1[j as int]));
                }
                if !self.force_ipv6 || iface.ips[j].len() == 16 {
                    ips.push(iface.ips[j].clone());
                    assert(ips@.map_values(|ip: Vec<u8>| ip@) =~= before.push(v.1[j as int]));
                }
                j = j + 1;
            }
            proof {
                assert(v.1.take(v.1.len() as int) =~= v.1);
                assert(is_chosen_interface(s, name, i as int));
            }
            if ips.len() == 0 {
                let mut m = String::from_str("Could not find any IP address on interface ");
                m.append(iface.name.as_str());
                m.append(", found: []");
                proof {
                    reveal_strlit("Could not find any IP address on interface ");
                    reveal_strlit(", found: []");
                }
                return Err(InternalError::private(Error::IpAddressError(m)));
            }
            let ip_data = ips[0].clone();
            proof {
                assert(ips@.map_values(|ip: Vec<u8>| ip@)[0] == ips@[0]@);
            }
            return Ok(Address { ip_data, port: self.port });
        }
        proof {
            reveal_strlit("Could not find matching interface name");
        }
        Err(InternalError::public("Could not find matching interface name", ApiErrorType::External))
    }
}

} // verus!
