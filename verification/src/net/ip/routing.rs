use vstd::prelude::*;
use vstd::arithmetic::power2::pow2;
use crate::error::{KernelError, KernelResult};
use crate::net::types::Ipv4Address;

verus! {

/// Largest number of routes a table holds.
pub const ROUTING_TABLE_MAX_ENTRIES: usize = 256;

/// A route: destination network, prefix length, gateway, metric, interface.
#[derive(Debug, Clone, Copy)]
pub struct RouteEntry {
    /// Destination network address.
    pub destination: Ipv4Address,
    /// Prefix length (0 = default route).
    pub prefix_len: u8,
    /// Next hop.
    pub gateway: Ipv4Address,
    /// Metric (lower is preferred).
    pub metric: u32,
    /// Outgoing interface index.
    pub interface: u32,
}

/// Whether the first `p` bits of the 32-bit values `a` and `b` agree.
pub open spec fn same_prefix(a: nat, b: nat, p: nat) -> bool {
    p == 0 || a / pow2((32 - p) as nat) == b / pow2((32 - p) as nat)
}

/// Whether route `e` covers the address whose value is `ip`.
pub open spec fn route_matches(e: RouteEntry, ip: nat) -> bool {
    same_prefix(e.destination.value(), ip, e.prefix_len as nat)
}

impl RouteEntry {
    /// Route with the given fields.
    pub fn new(destination: Ipv4Address, prefix_len: u8, gateway: Ipv4Address, metric: u32, interface: u32) -> (r: Self)
        ensures
            r.destination == destination,
            r.prefix_len == prefix_len,
            r.gateway == gateway,
            r.metric == metric,
            r.interface == interface,
    {
        RouteEntry { destination, prefix_len, gateway, metric, interface }
    }

    /// Whether the route covers `ip`: the default route covers every
    /// address, another route those whose first `prefix_len` bits equal the
    /// destination's.
    pub fn matches(&self, ip: Ipv4Address) -> (r: bool)
        requires
            self.prefix_len <= 32,
        ensures
            r == route_matches(*self, ip.value()),
    {
        if self.prefix_len == 0 {
            return true;
        }
        let d = self.destination.as_u32();
        let a = ip.as_u32();
        let s: u32 = (32 - self.prefix_len) as u32;
        let mask: u32 = if self.prefix_len == 32 { 0xFFFF_FFFF } else { 0xFFFF_FFFFu32 << s };
        let r = (d & mask) == (a & mask);
        proof {
            assert(s < 32);
            assert(((d & mask) == (a & mask)) == ((d >> s) == (a >> s))) by (bit_vector)
                requires
                    s < 32,
                    mask == (if s == 0 { 0xFFFF_FFFFu32 } else { 0xFFFF_FFFFu32 << s });
            vstd::bits::lemma_u32_shr_is_div(d, s);
            vstd::bits::lemma_u32_shr_is_div(a, s);
        }
        r
    }
}

/// Whether `s` is ordered by prefix length, longest first.
pub open spec fn sorted_by_prefix(s: Seq<RouteEntry>) -> bool {
    forall|i: int, j: int| 0 <= i < j < s.len() ==> s[i].prefix_len >= s[j].prefix_len
}

/// Number of leading routes of `s` whose prefix is at least `p`.
pub open spec fn insert_pos(s: Seq<RouteEntry>, p: u8) -> int
    decreases s.len(),
{
    if s.len() == 0 || s[0].prefix_len < p {
        0
    } else {
        1 + insert_pos(s.drop_first(), p)
    }
}

/// The routes of `s` that are not for `destination`/`prefix_len`, in order.
pub open spec fn without_route(s: Seq<RouteEntry>, destination: nat, prefix_len: u8) -> Seq<RouteEntry>
    decreases s.len(),
{
    if s.len() == 0 {
        s
    } else {
        let rest = without_route(s.drop_last(), destination, prefix_len);
        let e = s.last();
        if e.destination.value() == destination && e.prefix_len == prefix_len {
            rest
        } else {
            rest.push(e)
        }
    }
}

/// Routing table, ordered by prefix length, longest first; among equal
/// prefixes, older routes first.
pub struct RoutingTable {
    entries: Vec<RouteEntry>,
}

impl View for RoutingTable {
    type V = Seq<RouteEntry>;

    closed spec fn view(&self) -> Seq<RouteEntry> {
        self.entries@
    }
}

impl RoutingTable {
    /// The table's invariant: ordered, prefixes of at most 32 bits, at most
    /// 256 routes.
    pub open spec fn wf(&self) -> bool {
        &&& sorted_by_prefix(self@)
        &&& forall|i: int| 0 <= i < self@.len() ==> #[trigger] self@[i].prefix_len <= 32
        &&& self@.len() <= ROUTING_TABLE_MAX_ENTRIES
    }

    /// Empty table.
    pub fn new() -> (r: Self)
        ensures
            r.wf(),
            r@ == Seq::<RouteEntry>::empty(),
    {
        RoutingTable { entries: Vec::new() }
    }

    /// Adds `entry` after every route with a prefix at least as long;
    /// `OutOfMemory` when the table is full.
    pub fn add_route(&mut self, entry: RouteEntry) -> (r: KernelResult<()>)
        requires
            old(self).wf(),
            entry.prefix_len <= 32,
        ensures
            final(self).wf(),
            old(self)@.len() >= ROUTING_TABLE_MAX_ENTRIES ==> r == Err::<(), KernelError>(KernelError::OutOfMemory)
                && final(self)@ == old(self)@,
            old(self)@.len() < ROUTING_TABLE_MAX_ENTRIES ==> r == Ok::<(), KernelError>(())
                && final(self)@ == old(self)@.insert(insert_pos(old(self)@, entry.prefix_len), entry),
    {
        if self.entries.len() >= ROUTING_TABLE_MAX_ENTRIES {
            return Err(KernelError::OutOfMemory);
        }
        let mut k: usize = 0;
        while k < self.entries.len() && self.entries[k].prefix_len >= entry.prefix_len
            invariant
                self.wf(),
                k <= self@.len(),
                forall|i: int| 0 <= i < k ==> (#[trigger] self@[i]).prefix_len >= entry.prefix_len,
            decreases self@.len() - k,
        {
            k = k + 1;
        }
        proof {
            lemma_insert_pos(self@, entry.prefix_len, k as int);
        }
        let ghost before = self@;
        self.entries.insert(k, entry);
        assert(self@ =~= before.insert(k as int, entry));
        assert forall|i: int, j: int| 0 <= i < j < self@.len() implies self@[i].prefix_len >= self@[j].prefix_len by {
            if j > k as int {
                assert(self@[j] == before[j - 1]);
                assert(before[k as int].prefix_len >= before[j - 1].prefix_len);
                if i > k as int {
                    assert(self@[i] == before[i - 1]);
                }
            }
        }
        Ok(())
    }

    /// The first route covering `dest_ip`, which has the longest prefix of
    /// all routes covering it; `None` when no route covers it.
    pub fn lookup(&self, dest_ip: Ipv4Address) -> (r: Option<&RouteEntry>)
        requires
            self.wf(),
        ensures
            r is None <==> (forall|i: int| 0 <= i < self@.len() ==> !route_matches(#[trigger] self@[i], dest_ip.value())),
            r is Some ==> exists|i: int| 0 <= i < self@.len() && self@[i] == *r->Some_0
                && route_matches(self@[i], dest_ip.value())
                && (forall|j: int| 0 <= j < i ==> !route_matches(#[trigger] self@[j], dest_ip.value())),
            r is Some ==> forall|j: int| 0 <= j < self@.len() && route_matches(#[trigger] self@[j], dest_ip.value())
                ==> self@[j].prefix_len <= r->Some_0.prefix_len,
    {
        let mut i: usize = 0;
        while i < self.entries.len()
            invariant
                self.wf(),
                i <= self@.len(),
                forall|j: int| 0 <= j < i ==> !route_matches(#[trigger] self@[j], dest_ip.value()),
            decreases self@.len() - i,
        {
            let e = &self.entries[i];
            if e.matches(dest_ip) {
                return Some(e);
            }
            i = i + 1;
        }
        None
    }

    /// Removes every route for `destination`/`prefix_len`, keeping the
    /// order of the rest; `NotFound` when there was none.
    pub fn remove_route(&mut self, destination: Ipv4Address, prefix_len: u8) -> (r: KernelResult<()>)
        requires
            old(self).wf(),
        ensures
            final(self).wf(),
            final(self)@ == without_route(old(self)@, destination.value(), prefix_len),
            r == (if final(self)@.len() == old(self)@.len() {
                Err::<(), KernelError>(KernelError::NotFound)
            } else {
                Ok::<(), KernelError>(())
            }),
    {
        let ghost old_seq = self@;
        let target = destination.as_u32();
        let mut kept: Vec<RouteEntry> = Vec::new();
        let mut i: usize = 0;
        while i < self.entries.len()
            invariant
                self@ == old_seq,
                i <= old_seq.len(),
                target == destination.value(),
                kept@ == without_route(old_seq.subrange(0, i as int), destination.value(), prefix_len),
            decreases old_seq.len() - i,
        {
            let e = self.entries[i];
            assert(old_seq.subrange(0, i + 1).drop_last() =~= old_seq.subrange(0, i as int));
            if !(e.destination.as_u32() == target && e.prefix_len == prefix_len) {
                kept.push(e);
            }
            i = i + 1;
        }
        assert(old_seq.subrange(0, i as int) =~= old_seq);
        proof {
            lemma_without_route_sorted(old_seq, destination.value(), prefix_len);
        }
        let removed = kept.len() != self.entries.len();
        self.entries = kept;
        if removed { Ok(()) } else { Err(KernelError::NotFound) }
    }

    /// Number of routes.
    pub fn len(&self) -> (r: usize)
        ensures
            r == self@.len(),
    {
        self.entries.len()
    }

    /// Whether the table holds no route.
    pub fn is_empty(&self) -> (r: bool)
        ensures
            r == (self@.len() == 0),
    {
        self.entries.len() == 0
    }

    /// Removes every route.
    pub fn clear(&mut self)
        ensures
            final(self)@ == Seq::<RouteEntry>::empty(),
            final(self).wf(),
    {
        self.entries.clear();
    }
}

proof fn lemma_insert_pos(s: Seq<RouteEntry>, p: u8, k: int)
    requires
        sorted_by_prefix(s),
        0 <= k <= s.len(),
        forall|i: int| 0 <= i < k ==> (#[trigger] s[i]).prefix_len >= p,
        k == s.len() || s[k].prefix_len < p,
    ensures
        insert_pos(s, p) == k,
    decreases s.len(),
{
    if s.len() == 0 || s[0].prefix_len < p {
        if k > 0 {
            assert(s[0].prefix_len >= p);
        }
    } else {
        let t = s.drop_first();
        assert forall|i: int| 0 <= i < k - 1 implies (#[trigger] t[i]).prefix_len >= p by {
            assert(t[i] == s[i + 1]);
        }
        assert(k >= 1);
        lemma_insert_pos(t, p, k - 1);
    }
}

/// Removing routes keeps the rest in order, so the result is still ordered,
/// no longer, and holds only routes of the input.
proof fn lemma_without_route_sorted(s: Seq<RouteEntry>, d: nat, p: u8)
    requires
        sorted_by_prefix(s),
        forall|i: int| 0 <= i < s.len() ==> #[trigger] s[i].prefix_len <= 32,
    ensures
        ({
            let w = without_route(s, d, p);
            &&& sorted_by_prefix(w)
            &&& w.len() <= s.len()
            &&& forall|i: int| 0 <= i < w.len() ==> #[trigger] w[i].prefix_len <= 32
            &&& forall|i: int| 0 <= i < w.len() ==> exists|j: int| 0 <= j < s.len() && #[trigger] w[i] == s[j]
            &&& w.len() > 0 ==> s.len() > 0 && w.last().prefix_len >= s.last().prefix_len
        }),
    decreases s.len(),
{
    if s.len() > 0 {
        let t = s.drop_last();
        assert forall|i: int, j: int| 0 <= i < j < t.len() implies t[i].prefix_len >= t[j].prefix_len by {
            assert(t[i] == s[i] && t[j] == s[j]);
        }
        assert forall|i: int| 0 <= i < t.len() implies #[trigger] t[i].prefix_len <= 32 by {
            assert(t[i] == s[i]);
        }
        lemma_without_route_sorted(t, d, p);
        let rest = without_route(t, d, p);
        assert forall|i: int| 0 <= i < rest.len() implies exists|j: int| 0 <= j < s.len() && #[trigger] rest[i] == s[j] by {
            let j = choose|j: int| 0 <= j < t.len() && rest[i] == t[j];
            assert(rest[i] == s[j]);
        }
        let e = s.last();
        if !(e.destination.value() == d && e.prefix_len == p) {
            let w = rest.push(e);
            assert forall|i: int, j: int| 0 <= i < j < w.len() implies w[i].prefix_len >= w[j].prefix_len by {
                if j == w.len() - 1 {
                    let k = choose|k: int| 0 <= k < s.len() && #[trigger] rest[i] == s[k];
                    if k < s.len() - 1 {
                        assert(s[k].prefix_len >= s[s.len() - 1].prefix_len);
                    }
                } else {
                    assert(w[i] == rest[i] && w[j] == rest[j]);
                }
            }
            assert forall|i: int| 0 <= i < w.len() implies exists|j: int| 0 <= j < s.len() && #[trigger] w[i] == s[j] by {
                if i == w.len() - 1 {
                    assert(w[i] == s[s.len() - 1]);
                } else {
                    assert(w[i] == rest[i]);
                }
            }
        } else {
            if rest.len() > 0 {
                assert(t.len() > 0);
                assert(t.last() == s[s.len() - 2]);
            }
        }
    }
}

/// Builds a table with a default route and a /8 route, and checks which
/// route each of two addresses takes; always passes.
pub fn selftest() -> (r: bool)
    ensures
        r,
{
    let mut table = RoutingTable::new();
    let default_route = RouteEntry::new(
        Ipv4Address::from_parts(0, 0, 0, 0),
        0,
        Ipv4Address::from_parts(192, 168, 1, 1),
        100,
        0,
    );
    if table.add_route(default_route).is_err() {
        return false;
    }
    let network_route = RouteEntry::new(
        Ipv4Address::from_parts(10, 0, 0, 0),
        8,
        Ipv4Address::from_parts(192, 168, 1, 2),
        10,
        1,
    );
    if table.add_route(network_route).is_err() {
        return false;
    }
    let test_ip = Ipv4Address::from_parts(10, 1, 2, 3);
    let other_ip = Ipv4Address::from_parts(8, 8, 8, 8);
    proof {
        vstd::arithmetic::power2::lemma2_to64();
        assert(table@.len() == 2);
        assert(table@[0] == network_route);
        assert(table@[1] == default_route);
        assert(test_ip.0@ == seq![10u8, 1, 2, 3]);
        assert(network_route.destination.0@ == seq![10u8, 0, 0, 0]);
        assert(test_ip.0[0] == 10 && test_ip.0[1] == 1 && test_ip.0[2] == 2 && test_ip.0[3] == 3);
        assert(test_ip.value() == 167838211);
        assert(network_route.destination.0[0] == 10 && network_route.destination.0[1] == 0);
        assert(network_route.destination.0[2] == 0 && network_route.destination.0[3] == 0);
        assert(network_route.destination.value() == 167772160);
        assert(pow2(24) == 16777216);
        assert(167838211nat / 16777216nat == 10);
        assert(167772160nat / 16777216nat == 10);
        assert(route_matches(table@[0], test_ip.value()));
        assert(other_ip.0@ == seq![8u8, 8, 8, 8]);
        assert(other_ip.0[0] == 8 && other_ip.0[1] == 8 && other_ip.0[2] == 8 && other_ip.0[3] == 8);
        assert(other_ip.value() == 134744072);
        assert(134744072nat / 16777216nat == 8);
        assert(!route_matches(table@[0], other_ip.value()));
        assert(route_matches(table@[1], other_ip.value()));
    }
    let first = match table.lookup(test_ip) {
        Some(route) => route.prefix_len,
        None => {
            return false;
        },
    };
    if first != 8 {
        return false;
    }
    let second = match table.lookup(other_ip) {
        Some(route) => route.prefix_len,
        None => {
            return false;
        },
    };
    second == 0 && table.len() == 2
}

} // verus!
