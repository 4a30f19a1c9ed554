use vstd::prelude::*;
use vstd::arithmetic::power2::pow2;
use crate::error::KernelResult;

use crate::net::types::{Ipv4Address, Ipv6Address, MacAddress};

verus! {

/// The netmask value of a prefix length: the top `p` bits set.
pub open spec fn mask_value(p: nat) -> nat {
    (0x1_0000_0000 - pow2((32 - p) as nat)) as nat
}

proof fn lemma_mask(p: u8, m: u32)
    requires
        0 < p < 32,
        m == 0xFFFF_FFFFu32 << ((32 - p) as u32),
    ensures
        m == mask_value(p as nat),
{
    let s: u32 = (32 - p) as u32;
    assert(m == 0xFFFF_FFFFu32 - ((1u32 << s) - 1)) by (bit_vector)
        requires s < 32, m == 0xFFFF_FFFFu32 << s;
    vstd::bits::lemma_u32_pow2_no_overflow(s as nat);
    vstd::bits::lemma_u32_shl_is_mul(1, s);
}

/// IPv4 configuration of an interface.
#[derive(Debug, Clone, Copy)]
pub struct Ipv4InterfaceConfig {
    /// Address.
    pub addr: Ipv4Address,
    /// Prefix length.
    pub prefix_len: u8,
    /// Default gateway.
    pub gateway: Ipv4Address,
}

impl Ipv4InterfaceConfig {
    /// Configuration with the given address, prefix length and gateway.
    pub fn new(addr: Ipv4Address, prefix_len: u8, gateway: Ipv4Address) -> (r: Self)
        ensures
            r.addr == addr,
            r.prefix_len == prefix_len,
            r.gateway == gateway,
    {
        Ipv4InterfaceConfig { addr, prefix_len, gateway }
    }

    /// Netmask: the top `prefix_len` bits set.
    pub fn netmask(&self) -> (r: Ipv4Address)
        requires
            self.prefix_len <= 32,
        ensures
            r.value() == mask_value(self.prefix_len as nat),
    {
        if self.prefix_len == 0 {
            proof {
                vstd::arithmetic::power2::lemma2_to64();
            }
            Ipv4Address::from_u32(0)
        } else if self.prefix_len == 32 {
            proof {
                vstd::arithmetic::power2::lemma2_to64();
            }
            Ipv4Address::from_u32(0xFFFF_FFFF)
        } else {
            let s: u32 = (32 - self.prefix_len) as u32;
            let mask: u32 = 0xFFFF_FFFFu32 << s;
            proof {
                lemma_mask(self.prefix_len, mask);
            }
            Ipv4Address::from_u32(mask)
        }
    }

    /// Network address: the address with the host bits cleared.
    pub fn network_addr(&self) -> (r: Ipv4Address)
        requires
            self.prefix_len <= 32,
        ensures
            r.value() == (self.addr.value() as u32 & mask_value(self.prefix_len as nat) as u32),
    {
        let a = self.addr.as_u32();
        let m = self.netmask().as_u32();
        Ipv4Address::from_u32(a & m)
    }

    /// Broadcast address: the address with the host bits set.
    pub fn broadcast_addr(&self) -> (r: Ipv4Address)
        requires
            self.prefix_len <= 32,
        ensures
            r.value() == (self.addr.value() as u32 | !(mask_value(self.prefix_len as nat) as u32)),
    {
        let a = self.addr.as_u32();
        let m = self.netmask().as_u32();
        Ipv4Address::from_u32(a | !m)
    }

    /// Whether `ip` lies in the interface's network.
    pub fn is_on_same_subnet(&self, ip: Ipv4Address) -> (r: bool)
        requires
            self.prefix_len <= 32,
        ensures
            r == ((self.addr.value() as u32 & mask_value(self.prefix_len as nat) as u32)
                == (ip.value() as u32 & mask_value(self.prefix_len as nat) as u32)),
    {
        let m = self.netmask().as_u32();
        let net = self.network_addr().as_u32();
        net == (ip.as_u32() & m)
    }
}

/// A network interface.
#[derive(Debug, Clone)]
pub struct NetworkInterface {
    /// Name.
    pub name: String,
    /// MAC address.
    pub mac: MacAddress,
    /// IPv4 configuration, if any.
    pub ipv4_config: Option<Ipv4InterfaceConfig>,
    /// IPv6 addresses.
    pub ipv6_addrs: Vec<Ipv6Address>,
    /// Whether the interface is up.
    pub enabled: bool,
    /// MTU.
    pub mtu: u16,
}

impl NetworkInterface {
    /// Enabled interface `name` with `mac`, MTU 1500, no addresses.
    pub fn new(name: String, mac: MacAddress) -> (r: Self)
        ensures
            r.name@ == name@,
            r.mac == mac,
            r.ipv4_config is None,
            r.ipv6_addrs@.len() == 0,
            r.enabled,
            r.mtu == 1500,
    {
        NetworkInterface { name, mac, ipv4_config: None, ipv6_addrs: Vec::new(), enabled: true, mtu: 1500 }
    }

    /// Sets the IPv4 configuration.
    pub fn set_ipv4(&mut self, config: Ipv4InterfaceConfig)
        ensures
            final(self).ipv4_config == Some(config),
            final(self).name@ == old(self).name@,
            final(self).mac == old(self).mac,
            final(self).enabled == old(self).enabled,
            final(self).mtu == old(self).mtu,
    {
        self.ipv4_config = Some(config);
    }

    /// IPv4 address, if configured.
    pub fn ipv4_addr(&self) -> (r: Option<Ipv4Address>)
        ensures
            r == (match self.ipv4_config {
                Some(c) => Some(c.addr),
                None => None,
            }),
    {
        match self.ipv4_config {
            Some(c) => Some(c.addr),
            None => None,
        }
    }
}

/// Whether every configured prefix length in `ifaces` is at most 32.
pub open spec fn prefixes_ok(ifaces: Seq<NetworkInterface>) -> bool {
    forall|i: int| 0 <= i < ifaces.len() && (#[trigger] ifaces[i]).ipv4_config is Some
        ==> ifaces[i].ipv4_config->Some_0.prefix_len <= 32
}

/// Adds the virtual NIC `vnic0` with `mac` and address 192.168.1.10/24,
/// gateway 192.168.1.1.
pub fn init_interfaces(interfaces: &mut Vec<NetworkInterface>, mac: [u8; 6]) -> (r: KernelResult<()>)
    ensures
        r is Ok,
        final(interfaces)@.len() == old(interfaces)@.len() + 1,
        final(interfaces)@.subrange(0, old(interfaces)@.len() as int) == old(interfaces)@,
        ({
            let n = final(interfaces)@.last();
            &&& n.name@ == "vnic0"@
            &&& n.mac.0@ == mac@
            &&& n.enabled
            &&& n.mtu == 1500
            &&& n.ipv4_config is Some
            &&& n.ipv4_config->Some_0.addr.0@ == seq![192u8, 168, 1, 10]
            &&& n.ipv4_config->Some_0.prefix_len == 24
            &&& n.ipv4_config->Some_0.gateway.0@ == seq![192u8, 168, 1, 1]
        }),
{
    let name = "vnic0".to_owned();
    let mut iface = NetworkInterface::new(name, MacAddress::from_bytes(mac));
    let cfg = Ipv4InterfaceConfig::new(
        Ipv4Address::from_parts(192, 168, 1, 10),
        24,
        Ipv4Address::from_parts(192, 168, 1, 1),
    );
    iface.set_ipv4(cfg);
    let ghost before = interfaces@;
    interfaces.push(iface);
    assert(interfaces@.subrange(0, before.len() as int) =~= before);
    Ok(())
}

/// IPv4 address of the first interface, if it has one.
pub fn get_default_ipv4_addr(interfaces: &Vec<NetworkInterface>) -> (r: Option<Ipv4Address>)
    ensures
        interfaces@.len() == 0 ==> r is None,
        interfaces@.len() > 0 ==> r == (match interfaces@[0].ipv4_config {
            Some(c) => Some(c.addr),
            None => None,
        }),
{
    if interfaces.len() == 0 {
        None
    } else {
        interfaces[0].ipv4_addr()
    }
}

/// Whether `dest` lies in the IPv4 network of interface `i`.
pub open spec fn on_link(i: NetworkInterface, dest: Ipv4Address) -> bool {
    &&& i.enabled
    &&& i.ipv4_config is Some
    &&& ({
        let c = i.ipv4_config->Some_0;
        (c.addr.value() as u32 & mask_value(c.prefix_len as nat) as u32)
            == (dest.value() as u32 & mask_value(c.prefix_len as nat) as u32)
    })
}

/// The interface to send to `dest_ip` by and the next hop: the first
/// enabled interface whose network holds `dest_ip`, with `dest_ip` itself;
/// otherwise the first interface with its gateway, if it is configured.
pub fn find_outgoing_interface(interfaces: &Vec<NetworkInterface>, dest_ip: Ipv4Address) -> (r: Option<(usize, Ipv4Address)>)
    requires
        prefixes_ok(interfaces@),
    ensures
        (exists|i: int| 0 <= i < interfaces@.len() && on_link(#[trigger] interfaces@[i], dest_ip)) ==> ({
            &&& r is Some
            &&& 0 <= r->Some_0.0 < interfaces@.len()
            &&& on_link(interfaces@[r->Some_0.0 as int], dest_ip)
            &&& forall|j: int| 0 <= j < r->Some_0.0 ==> !on_link(#[trigger] interfaces@[j], dest_ip)
            &&& r->Some_0.1 == dest_ip
        }),
        !(exists|i: int| 0 <= i < interfaces@.len() && on_link(#[trigger] interfaces@[i], dest_ip)) ==> ({
            if interfaces@.len() > 0 && interfaces@[0].ipv4_config is Some {
                r == Some((0usize, interfaces@[0].ipv4_config->Some_0.gateway))
            } else {
                r is None
            }
        }),
{
    let mut idx: usize = 0;
    while idx < interfaces.len()
        invariant
            prefixes_ok(interfaces@),
            idx <= interfaces@.len(),
            forall|j: int| 0 <= j < idx ==> !on_link(#[trigger] interfaces@[j], dest_ip),
        decreases interfaces@.len() - idx,
    {
        let iface = &interfaces[idx];
        if iface.enabled {
            match iface.ipv4_config {
                Some(cfg) => {
                    assert(interfaces@[idx as int].ipv4_config is Some);
                    if cfg.is_on_same_subnet(dest_ip) {
                        return Some((idx, dest_ip));
                    }
                },
                None => {},
            }
        }
        idx = idx + 1;
    }
    if interfaces.len() > 0 {
        match interfaces[0].ipv4_config {
            Some(cfg) => {
                return Some((0, cfg.gateway));
            },
            None => {},
        }
    }
    None
}

/// MAC address of interface `iface_idx`, if it exists.
pub fn get_interface_mac(interfaces: &Vec<NetworkInterface>, iface_idx: usize) -> (r: Option<MacAddress>)
    ensures
        iface_idx < interfaces@.len() ==> r == Some(interfaces@[iface_idx as int].mac),
        iface_idx >= interfaces@.len() ==> r is None,
{
    if iface_idx < interfaces.len() {
        Some(interfaces[iface_idx].mac)
    } else {
        None
    }
}

} // verus!
