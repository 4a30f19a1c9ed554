use vstd::prelude::*;
use vstd::std_specs::slice::into_iter_elts;

verus! {

/// Largest number of NUMA nodes.
pub const MAX_NODES: usize = 8;
/// Largest number of zones per node.
pub const MAX_ZONES_PER_NODE: usize = 4;

/// A NUMA node and the zones it owns.
#[derive(Debug, Clone, Copy)]
pub struct NumaNode {
    /// Node id.
    pub id: u32,
    /// Indices of the node's zones.
    pub zone_ids: &'static [usize],
}

impl NumaNode {
    /// Whether the node owns no memory.
    pub fn is_memoryless(&self) -> (r: bool)
        ensures
            r == (self.zone_ids@.len() == 0),
    {
        self.zone_ids.len() == 0
    }

    /// The node's first zone, if any.
    pub fn first_zone(&self) -> (r: Option<usize>)
        ensures
            self.zone_ids@.len() == 0 ==> r is None,
            self.zone_ids@.len() > 0 ==> r == Some(self.zone_ids@[0]),
    {
        if self.zone_ids.len() == 0 {
            None
        } else {
            Some(self.zone_ids[0])
        }
    }

    /// The node's zones, in order.
    pub fn iter_zones(&self) -> (r: std::slice::Iter<'static, usize>)
        ensures
            into_iter_elts(r) == self.zone_ids@,
    {
        broadcast use vstd::std_specs::slice::axiom_spec_slice_iter;
        let r = self.zone_ids.iter();
        assert(self.zone_ids@.as_ref().unref() =~= self.zone_ids@);
        r
    }
}

/// Node-to-node distances (1 = local).
#[derive(Debug, Clone, Copy)]
pub struct DistanceMatrix {
    /// Number of nodes the matrix covers.
    pub n: usize,
    /// Distances.
    pub dist: [[u8; 8]; 8],
}

impl DistanceMatrix {
    /// Matrix for `n` nodes, every distance 1.
    pub fn uniform(n: usize) -> (r: Self)
        ensures
            r.n == n,
            forall|a: int, b: int| 0 <= a < 8 && 0 <= b < 8 ==> #[trigger] r.dist[a][b] == 1,
    {
        let row = [1u8, 1, 1, 1, 1, 1, 1, 1];
        let r = DistanceMatrix { n, dist: [row, row, row, row, row, row, row, row] };
        assert forall|a: int, b: int| 0 <= a < 8 && 0 <= b < 8 implies #[trigger] r.dist[a][b] == 1 by {
            assert(r.dist[a] == row);
        }
        r
    }

    /// Distance from `a` to `b`; 255 when either is not a node.
    pub fn distance(&self, a: usize, b: usize) -> (r: u8)
        requires
            self.n <= 8,
        ensures
            a < self.n && b < self.n ==> r == self.dist[a as int][b as int],
            !(a < self.n && b < self.n) ==> r == 255,
    {
        if a < self.n && b < self.n {
            self.dist[a][b]
        } else {
            255
        }
    }
}

/// NUMA topology: up to 8 nodes, of which the first `count` exist.
#[derive(Debug, Clone, Copy)]
pub struct NumaTopology {
    /// Node table.
    pub nodes: [NumaNode; 8],
    /// Number of nodes.
    pub count: usize,
    /// Distances.
    pub distances: DistanceMatrix,
}

/// A node with no zones.
pub open spec fn empty_node(n: NumaNode) -> bool {
    n.id == 0 && n.zone_ids@.len() == 0
}

impl NumaTopology {
    /// One node (id 0) owning `zone_ids`; the other slots empty.
    pub fn single_node(zone_ids: &'static [usize]) -> (r: Self)
        ensures
            r.count == 1,
            r.nodes[0].id == 0,
            r.nodes[0].zone_ids@ == zone_ids@,
            forall|i: int| 1 <= i < 8 ==> empty_node(#[trigger] r.nodes[i]),
            r.distances.n == 1,
            forall|a: int, b: int| 0 <= a < 8 && 0 <= b < 8 ==> #[trigger] r.distances.dist[a][b] == 1,
    {
        let none: &'static [usize] = &[];
        let e = NumaNode { id: 0, zone_ids: none };
        let r = NumaTopology {
            nodes: [NumaNode { id: 0, zone_ids }, e, e, e, e, e, e, e],
            count: 1,
            distances: DistanceMatrix::uniform(1),
        };
        assert forall|i: int| 1 <= i < 8 implies empty_node(#[trigger] r.nodes[i]) by {
            assert(r.nodes[i] == e);
        }
        r
    }

    /// Number of nodes.
    pub fn node_count(&self) -> (r: usize)
        ensures
            r == self.count,
    {
        self.count
    }

    /// Whether there is at most one node.
    pub fn is_uniform(&self) -> (r: bool)
        ensures
            r == (self.count <= 1),
    {
        self.count <= 1
    }

    /// Node slot `id`, if it is within the table.
    pub fn node(&self, id: usize) -> (r: Option<&NumaNode>)
        ensures
            id < 8 ==> r == Some(&self.nodes[id as int]),
            id >= 8 ==> r is None,
    {
        if id < MAX_NODES {
            Some(&self.nodes[id])
        } else {
            None
        }
    }

    /// The existing nodes, in order.
    pub fn iter(&self) -> (r: std::slice::Iter<'_, NumaNode>)
        requires
            self.count <= 8,
        ensures
            into_iter_elts(r) == self.nodes@.subrange(0, self.count as int),
    {
        broadcast use vstd::std_specs::slice::axiom_spec_slice_iter;
        let all = self.nodes.as_slice();
        let sub = vstd::slice::slice_subrange(all, 0, self.count);
        let r = sub.iter();
        assert(sub@.as_ref().unref() =~= sub@);
        r
    }
}

/// Node selection policy.
#[derive(Debug, Clone, Copy, PartialEq, Eq, Structural)]
pub enum NodePolicy {
    /// Allocate on the local node.
    Local,
    /// Spread allocations over the nodes.
    Interleave,
    /// Always use the given node.
    Fixed(usize),
}

impl Default for NodePolicy {
    fn default() -> (r: Self)
        ensures
            r == NodePolicy::Local,
    {
        NodePolicy::Local
    }
}

} // verus!
