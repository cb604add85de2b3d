//! Routing table: maps (measurement, region) to data node addresses.
//!
//! Query nodes cache this locally to route writes and queries to the correct
//! data node without asking the metadata group on every request.
use vstd::prelude::*;

use crate::duplicate::Duplicate;
use crate::meta::types::{DataNodeInfo, KeyRange, NodeId, RegionId, RegionInfo, RegionState};
#[allow(unused_imports)]
use crate::meta::types::{NodeModel, RegionModel};
use crate::sorted_map::SortedMap;

verus! {

/// What a [`RouteEntry`] says, in mathematical terms.
#[verifier::ext_equal]
pub struct RouteModel {
    pub region_id: RegionId,
    pub measurement: Seq<char>,
    pub leader_node_id: NodeId,
    pub leader_addr: Seq<char>,
    pub replica_addrs: Seq<(NodeId, Seq<char>)>,
    pub key_range: Option<KeyRange>,
    pub region_state: RegionState,
}

/// A routing entry for a single region.
#[derive(Debug)]
pub struct RouteEntry {
    /// Region ID.
    pub region_id: RegionId,
    /// Measurement this region serves.
    pub measurement: String,
    /// Leader node ID.
    pub leader_node_id: NodeId,
    /// gRPC address of the leader.
    pub leader_addr: String,
    /// All replica addresses (leader + followers).
    pub replica_addrs: Vec<(NodeId, String)>,
    /// Hash-key range this region owns (`None` for modulo routing).
    pub key_range: Option<KeyRange>,
    /// Region lifecycle state; the write path checks this to reject writes
    /// to frozen or migrating regions.
    pub region_state: RegionState,
}

impl DeepView for RouteEntry {
    type V = RouteModel;

    open spec fn deep_view(&self) -> RouteModel {
        RouteModel {
            region_id: self.region_id,
            measurement: self.measurement@,
            leader_node_id: self.leader_node_id,
            leader_addr: self.leader_addr@,
            replica_addrs: self.replica_addrs.deep_view(),
            key_range: self.key_range,
            region_state: self.region_state,
        }
    }
}

impl Duplicate for RouteEntry {
    fn duplicate(&self) -> (r: Self) {
        RouteEntry {
            region_id: self.region_id,
            measurement: self.measurement.clone(),
            leader_node_id: self.leader_node_id,
            leader_addr: self.leader_addr.clone(),
            replica_addrs: self.replica_addrs.duplicate(),
            key_range: self.key_range,
            region_state: self.region_state,
        }
    }
}

impl Clone for RouteEntry {
    fn clone(&self) -> (r: Self)
        ensures
            r.deep_view() == self.deep_view(),
    {
        self.duplicate()
    }
}

/// The state of a route whose stored form does not name one.
pub fn default_region_state() -> (r: RegionState)
    ensures
        r == RegionState::Active,
{
    RegionState::Active
}

// ---------------------------------------------------------------------------
// What the table holds
// ---------------------------------------------------------------------------

/// The addresses of those replicas that are registered, in replica order.
pub open spec fn known_addresses(
    replicas: Seq<NodeId>,
    nodes: Map<NodeId, NodeModel>,
) -> Seq<(NodeId, Seq<char>)>
    decreases replicas.len(),
{
    if replicas.len() == 0 {
        Seq::<(NodeId, Seq<char>)>::empty()
    } else {
        let rest = known_addresses(replicas.drop_last(), nodes);
        let last = replicas.last();
        if nodes.contains_key(last) {
            rest.push((last, nodes[last].grpc_addr))
        } else {
            rest
        }
    }
}

/// The route to a region. An unregistered leader has no address.
pub open spec fn route_of(region: RegionModel, nodes: Map<NodeId, NodeModel>) -> RouteModel {
    RouteModel {
        region_id: region.region_id,
        measurement: region.measurement,
        leader_node_id: region.leader_node_id,
        leader_addr: if nodes.contains_key(region.leader_node_id) {
            nodes[region.leader_node_id].grpc_addr
        } else {
            Seq::<char>::empty()
        },
        replica_addrs: known_addresses(region.replica_node_ids, nodes),
        key_range: region.key_range,
        region_state: region.state,
    }
}

/// Where a route stands in the order of key ranges: routes without a range
/// come first.
pub open spec fn start_rank(route: RouteModel) -> int {
    match route.key_range {
        None => -1,
        Some(range) => range.start as int,
    }
}

/// The routes lie in the order of their key ranges.
pub open spec fn in_range_order(routes: Seq<RouteModel>) -> bool {
    forall|i: int, j: int|
        0 <= i <= j < routes.len() ==> start_rank(#[trigger] routes[i]) <= start_rank(
            #[trigger] routes[j],
        )
}

/// Every route has a key range.
pub open spec fn all_ranged(routes: Seq<RouteModel>) -> bool {
    forall|i: int| 0 <= i < routes.len() ==> (#[trigger] routes[i]).key_range is Some
}

/// `routes` with `route` put behind every route that does not come after it.
pub open spec fn placed(routes: Seq<RouteModel>, route: RouteModel) -> Seq<RouteModel>
    decreases routes.len(),
{
    if routes.len() > 0 && start_rank(routes.last()) > start_rank(route) {
        placed(routes.drop_last(), route).push(routes.last())
    } else {
        routes.push(route)
    }
}

/// The routes of one measurement, in the order of their key ranges; routes of
/// equal rank stay in the order of the region ids.
pub open spec fn routes_of(
    regions: Seq<(RegionId, RegionModel)>,
    nodes: Map<NodeId, NodeModel>,
    measurement: Seq<char>,
) -> Seq<RouteModel>
    decreases regions.len(),
{
    if regions.len() == 0 {
        Seq::<RouteModel>::empty()
    } else {
        let rest = routes_of(regions.drop_last(), nodes, measurement);
        let last = regions.last().1;
        if last.measurement == measurement {
            placed(rest, route_of(last, nodes))
        } else {
            rest
        }
    }
}

/// Some region belongs to the measurement.
pub open spec fn has_region(regions: Seq<(RegionId, RegionModel)>, measurement: Seq<char>) -> bool {
    exists|i: int| 0 <= i < regions.len() && (#[trigger] regions[i]).1.measurement == measurement
}

/// The routing table of a cluster: the routes of each measurement that has a
/// region.
pub open spec fn table_of(
    regions: Seq<(RegionId, RegionModel)>,
    nodes: Map<NodeId, NodeModel>,
) -> Map<Seq<char>, Seq<RouteModel>> {
    Map::new(
        |m: Seq<char>| has_region(regions, m),
        |m: Seq<char>| routes_of(regions, nodes, m),
    )
}

proof fn lemma_placed_order(routes: Seq<RouteModel>, route: RouteModel)
    requires
        in_range_order(routes),
    ensures
        in_range_order(placed(routes, route)),
        placed(routes, route).len() == routes.len() + 1,
        forall|i: int|
            0 <= i < placed(routes, route).len() ==> start_rank(
                #[trigger] placed(routes, route)[i],
            ) <= start_rank(route) || (routes.len() > 0 && start_rank(placed(routes, route)[i])
                <= start_rank(routes.last())),
    decreases routes.len(),
{
    if routes.len() > 0 && start_rank(routes.last()) > start_rank(route) {
        let init = routes.drop_last();
        assert(in_range_order(init)) by {
            assert forall|i: int, j: int| 0 <= i <= j < init.len() implies start_rank(
                #[trigger] init[i],
            ) <= start_rank(#[trigger] init[j]) by {
                assert(init[i] == routes[i] && init[j] == routes[j]);
            }
        }
        lemma_placed_order(init, route);
        let p = placed(init, route);
        assert forall|i: int| 0 <= i < p.len() implies start_rank(#[trigger] p[i]) <= start_rank(
            routes.last(),
        ) by {
            if init.len() > 0 {
                assert(start_rank(routes[init.len() - 1]) <= start_rank(routes[routes.len() - 1]));
            }
        }
    } else {
        assert forall|i: int, j: int|
            0 <= i <= j < placed(routes, route).len() implies start_rank(
            #[trigger] placed(routes, route)[i],
        ) <= start_rank(#[trigger] placed(routes, route)[j]) by {
            if i < routes.len() {
                assert(start_rank(routes[i]) <= start_rank(routes[routes.len() - 1]));
            }
        }
    }
}

/// The routes of every measurement lie in the order of their key ranges, and
/// there are as many of them as the measurement has regions.
pub proof fn routes_are_in_range_order(
    regions: Seq<(RegionId, RegionModel)>,
    nodes: Map<NodeId, NodeModel>,
    measurement: Seq<char>,
)
    ensures
        in_range_order(routes_of(regions, nodes, measurement)),
        routes_of(regions, nodes, measurement).len() == regions.filter(
            |e: (RegionId, RegionModel)| e.1.measurement == measurement,
        ).len(),
    decreases regions.len(),
{
    reveal(Seq::filter);
    if regions.len() > 0 {
        let rest = regions.drop_last();
        routes_are_in_range_order(rest, nodes, measurement);
        let last = regions.last().1;
        if last.measurement == measurement {
            lemma_placed_order(routes_of(rest, nodes, measurement), route_of(last, nodes));
        }
    }
}

/// The routing table depends on the nodes only through their addresses.
pub proof fn routes_depend_on_addresses(
    regions: Seq<(RegionId, RegionModel)>,
    a: Map<NodeId, NodeModel>,
    b: Map<NodeId, NodeModel>,
)
    requires
        a.dom() == b.dom(),
        forall|n: NodeId| #[trigger] a.contains_key(n) ==> a[n].grpc_addr == b[n].grpc_addr,
    ensures
        table_of(regions, a) == table_of(regions, b),
{
    assert forall|m: Seq<char>| routes_of(regions, a, m) == routes_of(regions, b, m) by {
        lemma_same_routes(regions, a, b, m);
    }
    assert(table_of(regions, a) =~= table_of(regions, b));
}

proof fn lemma_same_routes(
    regions: Seq<(RegionId, RegionModel)>,
    a: Map<NodeId, NodeModel>,
    b: Map<NodeId, NodeModel>,
    m: Seq<char>,
)
    requires
        a.dom() == b.dom(),
        forall|n: NodeId| #[trigger] a.contains_key(n) ==> a[n].grpc_addr == b[n].grpc_addr,
    ensures
        routes_of(regions, a, m) == routes_of(regions, b, m),
    decreases regions.len(),
{
    if regions.len() > 0 {
        lemma_same_routes(regions.drop_last(), a, b, m);
        let last = regions.last().1;
        lemma_same_addresses(last.replica_node_ids, a, b);
        assert(a.contains_key(last.leader_node_id) == a.dom().contains(last.leader_node_id));
        assert(b.contains_key(last.leader_node_id) == b.dom().contains(last.leader_node_id));
        assert(route_of(last, a) =~= route_of(last, b));
    }
}

proof fn lemma_same_addresses(
    replicas: Seq<NodeId>,
    a: Map<NodeId, NodeModel>,
    b: Map<NodeId, NodeModel>,
)
    requires
        a.dom() == b.dom(),
        forall|n: NodeId| #[trigger] a.contains_key(n) ==> a[n].grpc_addr == b[n].grpc_addr,
    ensures
        known_addresses(replicas, a) == known_addresses(replicas, b),
    decreases replicas.len(),
{
    if replicas.len() > 0 {
        lemma_same_addresses(replicas.drop_last(), a, b);
        assert(a.contains_key(replicas.last()) == a.dom().contains(replicas.last()));
        assert(b.contains_key(replicas.last()) == b.dom().contains(replicas.last()));
    }
}

// ---------------------------------------------------------------------------
// Choosing a route
// ---------------------------------------------------------------------------

/// The `i`-th route is the last one that starts at or below `hash`, or the
/// first one when none does.
pub open spec fn is_owner(routes: Seq<RouteModel>, hash: u64, i: int) -> bool {
    &&& 0 <= i < routes.len()
    &&& i > 0 ==> start_rank(routes[i]) <= hash
    &&& forall|j: int| i < j < routes.len() ==> start_rank(#[trigger] routes[j]) > hash
}

/// The route that a series with this hash takes: the owner of the hash where
/// every route has a key range, otherwise one picked by the remainder.
pub open spec fn is_route_for(routes: Seq<RouteModel>, hash: u64, route: RouteModel) -> bool {
    if all_ranged(routes) {
        exists|i: int| #[trigger] is_owner(routes, hash, i) && route == routes[i]
    } else {
        route == routes[hash as int % routes.len() as int]
    }
}

/// A series has one route: whatever meets the routing rule is that route.
pub proof fn the_route_is_unique(
    routes: Seq<RouteModel>,
    hash: u64,
    a: RouteModel,
    b: RouteModel,
)
    requires
        is_route_for(routes, hash, a),
        is_route_for(routes, hash, b),
    ensures
        a == b,
{
    if all_ranged(routes) {
        let i = choose|i: int| #[trigger] is_owner(routes, hash, i) && a == routes[i];
        let j = choose|j: int| #[trigger] is_owner(routes, hash, j) && b == routes[j];
        assert(i == j) by {
            if i < j {
                assert(start_rank(routes[j]) > hash);
            } else if j < i {
                assert(start_rank(routes[i]) > hash);
            }
        }
    }
}

/// No route's range reaches into the next one's.
pub open spec fn disjoint_ranges(routes: Seq<RouteModel>) -> bool {
    forall|i: int, j: int|
        0 <= i < j < routes.len() ==> (#[trigger] routes[i]).key_range->0.end
            <= (#[trigger] routes[j]).key_range->0.start
}

/// Where the key ranges are disjoint, a hash that lies in some region's range
/// is routed to that region.
pub proof fn ranged_routing_finds_the_holder(
    routes: Seq<RouteModel>,
    hash: u64,
    holder: int,
    route: RouteModel,
)
    requires
        all_ranged(routes),
        disjoint_ranges(routes),
        0 <= holder < routes.len(),
        routes[holder].key_range->0.holds(hash),
        is_route_for(routes, hash, route),
    ensures
        route == routes[holder],
{
    assert(is_owner(routes, hash, holder)) by {
        assert forall|j: int| holder < j < routes.len() implies start_rank(#[trigger] routes[j])
            > hash by {
            assert(routes[j].key_range is Some);
            assert(routes[holder].key_range->0.end <= routes[j].key_range->0.start);
        }
    }
    the_route_is_unique(routes, hash, route, routes[holder]);
}

/// Replacing one region by two that share its key range reroutes only the
/// hashes of the upper part: every other hash keeps its region.
pub proof fn a_split_moves_only_its_own_hashes(
    routes: Seq<RouteModel>,
    at: int,
    upper: RouteModel,
    hash: u64,
    before: RouteModel,
    after: RouteModel,
)
    requires
        all_ranged(routes),
        in_range_order(routes),
        0 <= at < routes.len(),
        upper.key_range is Some,
        start_rank(routes[at]) <= start_rank(upper),
        forall|j: int| at < j < routes.len() ==> start_rank(upper) <= start_rank(#[trigger] routes[j]),
        hash < start_rank(upper) || (at + 1 < routes.len() && start_rank(routes[at + 1]) <= hash),
        is_route_for(routes, hash, before),
        is_route_for(routes.insert(at + 1, upper), hash, after),
    ensures
        before == after,
{
    let more = routes.insert(at + 1, upper);
    assert(all_ranged(more)) by {
        assert forall|i: int| 0 <= i < more.len() implies (#[trigger] more[i]).key_range is Some by {
            if i <= at {
                assert(more[i] == routes[i]);
            } else if i > at + 1 {
                assert(more[i] == routes[i - 1]);
            }
        }
    }
    let i = choose|i: int| #[trigger] is_owner(routes, hash, i) && before == routes[i];
    let k = if i <= at {
        i
    } else {
        i + 1
    };
    assert(more[k] == routes[i]);
    assert(is_owner(more, hash, k)) by {
        assert forall|j: int| k < j < more.len() implies start_rank(#[trigger] more[j]) > hash by {
            if j <= at {
                assert(more[j] == routes[j]);
            } else if j == at + 1 {
                assert(i <= at);
                if at + 1 < routes.len() {
                    assert(start_rank(routes[at + 1]) > hash);
                }
            } else {
                assert(more[j] == routes[j - 1]);
            }
        }
    }
    the_route_is_unique(more, hash, after, more[k]);
}

// ---------------------------------------------------------------------------
// The table
// ---------------------------------------------------------------------------

/// Routing table with version tracking.
///
/// Query nodes use this to route requests. The version increases on every
/// mutation so stale-routing detection is cheap.
#[derive(Debug)]
pub struct RoutingTable {
    /// Version counter, incremented on every mutation.
    version: u64,
    /// `measurement -> routes` (one entry per region of that measurement).
    entries: SortedMap<String, Vec<RouteEntry>>,
}

/// Number of routes in all.
pub open spec fn route_total(groups: Seq<(Seq<char>, Seq<RouteModel>)>) -> nat
    decreases groups.len(),
{
    if groups.len() == 0 {
        0
    } else {
        route_total(groups.drop_last()) + groups.last().1.len()
    }
}

impl View for RoutingTable {
    type V = Map<Seq<char>, Seq<RouteModel>>;

    closed spec fn view(&self) -> Map<Seq<char>, Seq<RouteModel>> {
        self.entries@
    }
}

impl RoutingTable {
    /// The version number.
    pub closed spec fn version_number(&self) -> u64 {
        self.version
    }

    /// The routes by measurement, in the order of the measurements.
    pub closed spec fn groups(&self) -> Seq<(Seq<char>, Seq<RouteModel>)> {
        self.entries.pairs()
    }

    /// The routes of a measurement; none where the measurement is unknown.
    pub open spec fn routes(&self, measurement: Seq<char>) -> Seq<RouteModel> {
        if self@.contains_key(measurement) {
            self@[measurement]
        } else {
            Seq::<RouteModel>::empty()
        }
    }

    /// Create an empty routing table.
    pub fn new() -> (r: Self)
        ensures
            r.version_number() == 0,
            r@ == Map::<Seq<char>, Seq<RouteModel>>::empty(),
            r.groups().len() == 0,
    {
        RoutingTable { version: 0, entries: SortedMap::new() }
    }

    /// Current version.
    pub fn version(&self) -> (r: u64)
        ensures
            r == self.version_number(),
    {
        self.version
    }

    /// Rebuild the routing table from region and node information.
    pub fn rebuild(
        &mut self,
        regions: &SortedMap<RegionId, RegionInfo>,
        nodes: &SortedMap<NodeId, DataNodeInfo>,
    )
        ensures
            final(self)@ == table_of(regions.pairs(), nodes@),
            final(self).version_number() == if old(self).version_number() < u64::MAX {
                (old(self).version_number() + 1) as u64
            } else {
                0u64
            },
    {
        let mut table: SortedMap<String, Vec<RouteEntry>> = SortedMap::new();
        let count: usize = regions.len();
        let ghost all = regions.pairs();
        let mut i: usize = 0;
        assert(all.take(0) =~= Seq::empty());
        assert(table@ =~= table_of(all.take(0), nodes@));
        while i < count
            invariant
                i <= count,
                count == all.len(),
                all == regions.pairs(),
                table@ == table_of(all.take(i as int), nodes@),
            decreases count - i,
        {
            let region = regions.value_at(i);
            let entry = route_to(region, nodes);
            let ghost m = region.measurement@;
            let mut routes: Vec<RouteEntry> = match table.remove(&region.measurement) {
                Some(found) => found,
                None => Vec::new(),
            };
            let ghost prefix = all.take(i as int);
            let ghost longer = all.take(i + 1);
            proof {
                assert(longer.drop_last() =~= prefix);
                assert(longer.last() == all[i as int]);
                if !has_region(prefix, m) {
                    lemma_no_region(prefix, nodes@, m);
                    assert(routes.deep_view() =~= routes_of(prefix, nodes@, m));
                }
                assert(routes.deep_view() == routes_of(prefix, nodes@, m));
            }
            place(&mut routes, entry);
            table.insert(region.measurement.clone(), routes);
            proof {
                assert(longer[i as int].1.measurement == m);
                assert forall|x: Seq<char>| has_region(longer, x) <==> (has_region(prefix, x) || x
                    == m) by {
                    if has_region(prefix, x) {
                        let j = choose|j: int|
                            0 <= j < prefix.len() && (#[trigger] prefix[j]).1.measurement == x;
                        assert(longer[j] == prefix[j]);
                    }
                    if has_region(longer, x) {
                        let j = choose|j: int|
                            0 <= j < longer.len() && (#[trigger] longer[j]).1.measurement == x;
                        if j < i {
                            assert(prefix[j] == longer[j]);
                        }
                    }
                }
                assert(table@ =~= table_of(longer, nodes@));
            }
            i = i + 1;
        }
        assert(all.take(count as int) =~= all);
        self.entries = table;
        self.version = if self.version < u64::MAX {
            self.version + 1
        } else {
            0
        };
    }

    /// Look up routes for a measurement.
    pub fn routes_for_measurement(&self, measurement: &str) -> (r: Vec<RouteEntry>)
        ensures
            r.deep_view() == self.routes(measurement@),
    {
        match self.entries.get(&measurement.to_owned()) {
            Some(routes) => routes.duplicate(),
            None => {
                let none: Vec<RouteEntry> = Vec::new();
                assert(none.deep_view() =~= Seq::<RouteModel>::empty());
                none
            },
        }
    }

    /// Look up the route for a specific region: the first one with the
    /// region's id, in the order of the measurements.
    pub fn route_for_region(&self, region_id: RegionId) -> (r: Option<RouteEntry>)
        ensures
            r is None <==> forall|a: int, b: int|
                0 <= a < self.groups().len() && 0 <= b < self.groups()[a].1.len()
                    ==> (#[trigger] self.groups()[a].1[b]).region_id != region_id,
            r matches Some(route) ==> exists|a: int, b: int|
                {
                    &&& 0 <= a < self.groups().len()
                    &&& 0 <= b < self.groups()[a].1.len()
                    &&& route.deep_view() == #[trigger] self.groups()[a].1[b]
                    &&& route.region_id == region_id
                    &&& forall|c: int, d: int|
                        0 <= c < self.groups().len() && 0 <= d < self.groups()[c].1.len() && (c < a
                            || (c == a && d < b)) ==> (#[trigger] self.groups()[c].1[d]).region_id
                            != region_id
                },
    {
        let count: usize = self.entries.len();
        let mut i: usize = 0;
        while i < count
            invariant
                i <= count,
                count == self.groups().len(),
                self.groups() == self.entries.pairs(),
                forall|c: int, d: int|
                    0 <= c < i && 0 <= d < self.groups()[c].1.len() ==> (
                    #[trigger] self.groups()[c].1[d]).region_id != region_id,
            decreases count - i,
        {
            let routes = self.entries.value_at(i);
            let mut j: usize = 0;
            assert(routes.deep_view() == self.groups()[i as int].1);
            while j < routes.len()
                invariant
                    i < count,
                    count == self.groups().len(),
                    j <= routes.len(),
                    routes.deep_view() == self.groups()[i as int].1,
                    forall|c: int, d: int|
                        0 <= c < i && 0 <= d < self.groups()[c].1.len() ==> (
                        #[trigger] self.groups()[c].1[d]).region_id != region_id,
                    forall|d: int|
                        0 <= d < j ==> (#[trigger] self.groups()[i as int].1[d]).region_id
                            != region_id,
                decreases routes.len() - j,
            {
                assert(self.groups()[i as int].1[j as int] == routes@[j as int].deep_view());
                if routes[j].region_id == region_id {
                    return Some(routes[j].duplicate());
                }
                j = j + 1;
            }
            i = i + 1;
        }
        None
    }

    /// Determine which region a series key hash should be routed to.
    ///
    /// **Range-based partitioning** (preferred): when all regions for a
    /// measurement carry a `key_range`, routes are sorted by range start and
    /// a binary search finds the owning region. Adding or removing regions
    /// only affects the adjacent ranges.
    ///
    /// **Modulo fallback**: when any region lacks a `key_range`, falls back to
    /// `hash % region_count`.
    pub fn route_series(&self, measurement: &str, series_hash: u64) -> (r: Option<RouteEntry>)
        requires
            all_ranged(self.routes(measurement@)) ==> in_range_order(self.routes(measurement@)),
        ensures
            r is Some <==> self.routes(measurement@).len() > 0,
            r matches Some(route) ==> is_route_for(
                self.routes(measurement@),
                series_hash,
                route.deep_view(),
            ),
    {
        let routes = match self.entries.get(&measurement.to_owned()) {
            Some(found) => found,
            None => return None,
        };
        let ghost model = routes.deep_view();
        assert(model == self.routes(measurement@));
        if routes.len() == 0 {
            return None;
        }
        if every_route_ranged(routes) {
            let at: usize = owner_index(routes, series_hash);
            assert(is_owner(model, series_hash, at as int));
            return Some(routes[at].duplicate());
        }
        let at: usize = (series_hash % (routes.len() as u64)) as usize;
        Some(routes[at].duplicate())
    }

    /// Number of measurements with routes.
    pub fn measurement_count(&self) -> (r: usize)
        ensures
            r == self.groups().len(),
    {
        self.entries.len()
    }

    /// Total number of region routes.
    pub fn region_count(&self) -> (r: usize)
        requires
            route_total(self.groups()) <= usize::MAX,
        ensures
            r == route_total(self.groups()),
    {
        let count: usize = self.entries.len();
        let ghost groups = self.groups();
        let mut total: usize = 0;
        let mut i: usize = 0;
        assert(groups.take(0) =~= Seq::empty());
        while i < count
            invariant
                i <= count,
                count == groups.len(),
                groups == self.entries.pairs(),
                route_total(groups) <= usize::MAX,
                total == route_total(groups.take(i as int)),
            decreases count - i,
        {
            let routes = self.entries.value_at(i);
            proof {
                assert(groups.take(i + 1).drop_last() =~= groups.take(i as int));
                assert(routes.deep_view().len() == routes@.len());
                lemma_route_total_prefix(groups, i + 1);
            }
            total = total + routes.len();
            i = i + 1;
        }
        assert(groups.take(count as int) =~= groups);
        total
    }

    /// Export the full routing table.
    pub fn snapshot(&self) -> (r: RoutingSnapshot)
        ensures
            r.version == self.version_number(),
            r.entries@ == self@,
            r.entries.pairs() == self.groups(),
    {
        RoutingSnapshot { version: self.version, entries: self.entries.duplicate() }
    }

    /// Restore from a snapshot.
    pub fn restore(&mut self, snapshot: RoutingSnapshot)
        ensures
            final(self).version_number() == snapshot.version,
            final(self)@ == snapshot.entries@,
            final(self).groups() == snapshot.entries.pairs(),
    {
        self.entries = snapshot.entries;
        self.version = snapshot.version;
    }
}

impl Default for RoutingTable {
    fn default() -> (r: Self)
        ensures
            r.version_number() == 0,
            r@ == Map::<Seq<char>, Seq<RouteModel>>::empty(),
    {
        RoutingTable::new()
    }
}

proof fn lemma_no_region(
    regions: Seq<(RegionId, RegionModel)>,
    nodes: Map<NodeId, NodeModel>,
    m: Seq<char>,
)
    requires
        !has_region(regions, m),
    ensures
        routes_of(regions, nodes, m).len() == 0,
    decreases regions.len(),
{
    if regions.len() > 0 {
        let rest = regions.drop_last();
        assert(!has_region(rest, m)) by {
            assert forall|i: int| 0 <= i < rest.len() implies (#[trigger] rest[i]).1.measurement
                != m by {
                assert(rest[i] == regions[i]);
            }
        }
        assert(regions[regions.len() - 1].1.measurement != m);
        lemma_no_region(rest, nodes, m);
    }
}

proof fn lemma_route_total_prefix(groups: Seq<(Seq<char>, Seq<RouteModel>)>, n: int)
    requires
        0 <= n <= groups.len(),
    ensures
        route_total(groups.take(n)) <= route_total(groups),
    decreases groups.len(),
{
    if n == groups.len() {
        assert(groups.take(n) =~= groups);
    } else {
        lemma_route_total_prefix(groups.drop_last(), n);
        assert(groups.drop_last().take(n) =~= groups.take(n));
    }
}

/// The route to a region, by the registered nodes' addresses.
fn route_to(region: &RegionInfo, nodes: &SortedMap<NodeId, DataNodeInfo>) -> (r: RouteEntry)
    ensures
        r.deep_view() == route_of(region.deep_view(), nodes@),
{
    let leader_addr = match nodes.get(&region.leader_node_id) {
        Some(node) => node.grpc_addr.clone(),
        None => String::new(),
    };
    let mut replica_addrs: Vec<(NodeId, String)> = Vec::new();
    let ghost replicas = region.replica_node_ids@;
    let mut i: usize = 0;
    assert(replica_addrs.deep_view() =~= known_addresses(replicas.take(0), nodes@));
    while i < region.replica_node_ids.len()
        invariant
            i <= region.replica_node_ids.len(),
            replicas == region.replica_node_ids@,
            replica_addrs.deep_view() == known_addresses(replicas.take(i as int), nodes@),
        decreases region.replica_node_ids.len() - i,
    {
        let id: NodeId = region.replica_node_ids[i];
        let ghost so_far = replica_addrs.deep_view();
        assert(replicas.take(i + 1).drop_last() =~= replicas.take(i as int));
        if let Some(node) = nodes.get(&id) {
            replica_addrs.push((id, node.grpc_addr.clone()));
            assert(replica_addrs.deep_view() =~= so_far.push((id, nodes@[id].grpc_addr)));
        }
        i = i + 1;
    }
    assert(replicas.take(replicas.len() as int) =~= replicas);
    RouteEntry {
        region_id: region.region_id,
        measurement: region.measurement.clone(),
        leader_node_id: region.leader_node_id,
        leader_addr,
        replica_addrs,
        key_range: region.key_range,
        region_state: region.state,
    }
}

/// Whether the start of `a`'s range lies beyond that of `b`'s.
fn starts_after(a: &RouteEntry, b: &RouteEntry) -> (r: bool)
    ensures
        r == (start_rank(a.deep_view()) > start_rank(b.deep_view())),
{
    match a.key_range {
        None => false,
        Some(x) => match b.key_range {
            None => true,
            Some(y) => x.start > y.start,
        },
    }
}

/// Put `entry` behind every route that does not come after it.
fn place(routes: &mut Vec<RouteEntry>, entry: RouteEntry)
    ensures
        final(routes).deep_view() == placed(old(routes).deep_view(), entry.deep_view()),
{
    let ghost model = routes.deep_view();
    let mut at: usize = routes.len();
    assert(model.take(at as int) =~= model);
    assert(placed(model, entry.deep_view()) =~= placed(model.take(at as int), entry.deep_view())
        + model.skip(at as int));
    while at > 0 && starts_after(&routes[at - 1], &entry)
        invariant
            at <= routes.len(),
            routes.deep_view() == model,
            placed(model, entry.deep_view()) == placed(model.take(at as int), entry.deep_view())
                + model.skip(at as int),
        decreases at,
    {
        proof {
            let head = model.take(at as int);
            assert(head.last() == model[at - 1]);
            assert(model[at - 1] == routes@[at - 1].deep_view());
            assert(head.drop_last() =~= model.take(at - 1));
            assert(placed(head, entry.deep_view()) == placed(
                model.take(at - 1),
                entry.deep_view(),
            ).push(model[at - 1]));
            assert(placed(model.take(at - 1), entry.deep_view()).push(model[at - 1]) + model.skip(
                at as int,
            ) =~= placed(model.take(at - 1), entry.deep_view()) + model.skip(at - 1));
        }
        at = at - 1;
    }
    proof {
        let head = model.take(at as int);
        if at > 0 {
            assert(head.last() == model[at - 1]);
            assert(model[at - 1] == routes@[at - 1].deep_view());
        }
        assert(placed(head, entry.deep_view()) == head.push(entry.deep_view()));
    }
    let ghost e = entry.deep_view();
    routes.insert(at, entry);
    assert(routes.deep_view() =~= model.take(at as int).push(e) + model.skip(at as int));
}

/// Whether every route has a key range.
fn every_route_ranged(routes: &Vec<RouteEntry>) -> (r: bool)
    ensures
        r == all_ranged(routes.deep_view()),
{
    let mut i: usize = 0;
    while i < routes.len()
        invariant
            i <= routes.len(),
            forall|j: int|
                0 <= j < i ==> (#[trigger] routes.deep_view()[j]).key_range is Some,
        decreases routes.len() - i,
    {
        assert(routes.deep_view()[i as int] == routes@[i as int].deep_view());
        if routes[i].key_range.is_none() {
            return false;
        }
        i = i + 1;
    }
    true
}

/// The index of the last route that starts at or below `hash`, or zero.
fn owner_index(routes: &Vec<RouteEntry>, hash: u64) -> (r: usize)
    requires
        routes.len() > 0,
        all_ranged(routes.deep_view()),
        in_range_order(routes.deep_view()),
    ensures
        is_owner(routes.deep_view(), hash, r as int),
{
    let ghost model = routes.deep_view();
    let mut lo: usize = 0;
    let mut hi: usize = routes.len();
    while lo < hi
        invariant
            lo <= hi <= routes.len(),
            model == routes.deep_view(),
            model.len() == routes.len(),
            all_ranged(model),
            in_range_order(model),
            forall|j: int| 0 <= j < lo ==> start_rank(#[trigger] model[j]) <= hash,
            forall|j: int| hi <= j < model.len() ==> start_rank(#[trigger] model[j]) > hash,
        decreases hi - lo,
    {
        let mid: usize = lo + (hi - lo) / 2;
        assert(model[mid as int] == routes@[mid as int].deep_view());
        let starts_below: bool = match routes[mid].key_range {
            None => false,
            Some(range) => range.start <= hash,
        };
        if starts_below {
            lo = mid + 1;
        } else {
            hi = mid;
        }
    }
    if lo == 0 {
        0
    } else {
        lo - 1
    }
}

/// Routing table snapshot.
#[derive(Debug)]
pub struct RoutingSnapshot {
    /// Version at snapshot time.
    pub version: u64,
    /// All routing entries grouped by measurement.
    pub entries: SortedMap<String, Vec<RouteEntry>>,
}

impl RoutingSnapshot {
    /// Create an empty snapshot at version 0.
    pub fn empty() -> (r: Self)
        ensures
            r.version == 0,
            r.entries@ == Map::<Seq<char>, Seq<RouteModel>>::empty(),
    {
        RoutingSnapshot { version: 0, entries: SortedMap::new() }
    }
}

impl Clone for RoutingSnapshot {
    fn clone(&self) -> (r: Self)
        ensures
            r.version == self.version,
            r.entries@ == self.entries@,
            r.entries.pairs() == self.entries.pairs(),
    {
        RoutingSnapshot { version: self.version, entries: self.entries.duplicate() }
    }
}

} // verus!
