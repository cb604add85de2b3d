//! What the routing table holds, and which way a series goes.
use vstd::prelude::*;

#[allow(unused_imports)]
use crate::meta::routing::{
    all_ranged, in_range_order, is_owner, is_route_for, known_addresses, placed, route_of,
    route_total, routes_are_in_range_order, routes_of, start_rank, table_of, RouteModel,
};
#[allow(unused_imports)]
use crate::meta::types::{NodeId, NodeModel, RegionId, RegionModel};

verus! {

/// A route tells the region's id, measurement, leader, key range and state, the
/// address of the leader, and that of each replica that is registered, in the
/// order of the replicas.
pub proof fn a_route_tells_where_its_region_is(
    region: RegionModel,
    nodes: Map<NodeId, NodeModel>,
)
    ensures
        ({
            let route = route_of(region, nodes);
            &&& route.region_id == region.region_id
            &&& route.measurement == region.measurement
            &&& route.leader_node_id == region.leader_node_id
            &&& route.key_range == region.key_range
            &&& route.region_state == region.state
            &&& nodes.contains_key(region.leader_node_id) ==> route.leader_addr
                == nodes[region.leader_node_id].grpc_addr
            &&& !nodes.contains_key(region.leader_node_id) ==> route.leader_addr.len() == 0
            &&& route.replica_addrs == region.replica_node_ids.filter(
                |n: NodeId| nodes.contains_key(n),
            ).map_values(|n: NodeId| (n, nodes[n].grpc_addr))
        }),
{
    lemma_addresses(region.replica_node_ids, nodes);
}

proof fn lemma_addresses(replicas: Seq<NodeId>, nodes: Map<NodeId, NodeModel>)
    ensures
        known_addresses(replicas, nodes) == replicas.filter(
            |n: NodeId| nodes.contains_key(n),
        ).map_values(|n: NodeId| (n, nodes[n].grpc_addr)),
    decreases replicas.len(),
{
    reveal(Seq::filter);
    let known = |n: NodeId| nodes.contains_key(n);
    let told = |n: NodeId| (n, nodes[n].grpc_addr);
    if replicas.len() > 0 {
        let rest = replicas.drop_last();
        lemma_addresses(rest, nodes);
        if known(replicas.last()) {
            assert(rest.filter(known).push(replicas.last()).map_values(told) =~= rest.filter(
                known,
            ).map_values(told).push(told(replicas.last())));
        }
    } else {
        assert(known_addresses(replicas, nodes) =~= replicas.filter(known).map_values(told));
    }
}

/// The routes to the regions of a measurement, in the order of the regions.
pub open spec fn routes_to(
    regions: Seq<(RegionId, RegionModel)>,
    nodes: Map<NodeId, NodeModel>,
    measurement: Seq<char>,
) -> Seq<RouteModel> {
    regions.filter(|e: (RegionId, RegionModel)| e.1.measurement == measurement).map_values(
        |e: (RegionId, RegionModel)| route_of(e.1, nodes),
    )
}

proof fn lemma_placed(routes: Seq<RouteModel>, route: RouteModel)
    ensures
        placed(routes, route).to_multiset() == routes.to_multiset().insert(route),
    decreases routes.len(),
{
    vstd::seq_lib::to_multiset_build(routes, route);
    if routes.len() > 0 && start_rank(routes.last()) > start_rank(route) {
        let rest = routes.drop_last();
        lemma_placed(rest, route);
        vstd::seq_lib::to_multiset_build(placed(rest, route), routes.last());
        vstd::seq_lib::to_multiset_build(rest, routes.last());
        assert(rest.push(routes.last()) =~= routes);
        assert(rest.to_multiset().insert(route).insert(routes.last()) =~= rest.to_multiset().insert(
            routes.last(),
        ).insert(route));
    }
}

proof fn lemma_routes_to(
    regions: Seq<(RegionId, RegionModel)>,
    nodes: Map<NodeId, NodeModel>,
    measurement: Seq<char>,
)
    ensures
        routes_of(regions, nodes, measurement).to_multiset() == routes_to(
            regions,
            nodes,
            measurement,
        ).to_multiset(),
    decreases regions.len(),
{
    reveal(Seq::filter);
    let of_it = |e: (RegionId, RegionModel)| e.1.measurement == measurement;
    let route = |e: (RegionId, RegionModel)| route_of(e.1, nodes);
    if regions.len() > 0 {
        let rest = regions.drop_last();
        let before = routes_to(rest, nodes, measurement);
        lemma_routes_to(rest, nodes, measurement);
        if of_it(regions.last()) {
            lemma_placed(routes_of(rest, nodes, measurement), route_of(regions.last().1, nodes));
            assert(routes_to(regions, nodes, measurement) =~= before.push(
                route_of(regions.last().1, nodes),
            ));
            vstd::seq_lib::to_multiset_build(before, route_of(regions.last().1, nodes));
        }
    } else {
        assert(routes_of(regions, nodes, measurement) =~= routes_to(regions, nodes, measurement));
    }
}

/// The table has an entry for just the measurements that have a region. Under
/// each are the routes to its regions, each once, those that start further up
/// behind those that start below.
pub proof fn the_table_has_a_route_for_each_region(
    regions: Seq<(RegionId, RegionModel)>,
    nodes: Map<NodeId, NodeModel>,
    measurement: Seq<char>,
)
    ensures
        table_of(regions, nodes).contains_key(measurement) <==> exists|i: int|
            0 <= i < regions.len() && (#[trigger] regions[i]).1.measurement == measurement,
        table_of(regions, nodes).contains_key(measurement) ==> {
            let routes = table_of(regions, nodes)[measurement];
            &&& routes.to_multiset() == routes_to(regions, nodes, measurement).to_multiset()
            &&& forall|i: int, j: int|
                #![trigger routes[i], routes[j]]
                0 <= i < j < routes.len() ==> match (routes[i].key_range, routes[j].key_range) {
                    (Some(a), Some(b)) => a.start <= b.start,
                    (Some(_), None) => false,
                    (None, _) => true,
                }
        },
{
    lemma_routes_to(regions, nodes, measurement);
    routes_are_in_range_order(regions, nodes, measurement);
    if table_of(regions, nodes).contains_key(measurement) {
        let routes = table_of(regions, nodes)[measurement];
        assert forall|i: int, j: int|
            #![trigger routes[i], routes[j]]
            0 <= i < j < routes.len() implies match (routes[i].key_range, routes[j].key_range) {
            (Some(a), Some(b)) => a.start <= b.start,
            (Some(_), None) => false,
            (None, _) => true,
        } by {
            assert(start_rank(routes[i]) <= start_rank(routes[j]));
        }
    }
}

/// Routes to regions without a key range stay in the order of the regions.
pub proof fn unranged_routes_stay_in_order(
    regions: Seq<(RegionId, RegionModel)>,
    nodes: Map<NodeId, NodeModel>,
    measurement: Seq<char>,
)
    requires
        forall|i: int|
            0 <= i < regions.len() && (#[trigger] regions[i]).1.measurement == measurement
                ==> regions[i].1.key_range is None,
    ensures
        routes_of(regions, nodes, measurement) == routes_to(regions, nodes, measurement),
        forall|i: int|
            0 <= i < routes_of(regions, nodes, measurement).len() ==> (#[trigger] routes_of(
                regions,
                nodes,
                measurement,
            )[i]).key_range is None,
    decreases regions.len(),
{
    reveal(Seq::filter);
    let of_it = |e: (RegionId, RegionModel)| e.1.measurement == measurement;
    if regions.len() > 0 {
        let rest = regions.drop_last();
        assert forall|i: int|
            0 <= i < rest.len() && (#[trigger] rest[i]).1.measurement
                == measurement implies rest[i].1.key_range is None by {
            assert(regions[i] == rest[i]);
        }
        unranged_routes_stay_in_order(rest, nodes, measurement);
        let before = routes_of(rest, nodes, measurement);
        let n = regions.len() - 1;
        if of_it(regions.last()) {
            assert(regions[n].1.key_range is None);
            assert(routes_to(regions, nodes, measurement) =~= routes_to(
                rest,
                nodes,
                measurement,
            ).push(route_of(regions.last().1, nodes)));
            let route = route_of(regions.last().1, nodes);
            if before.len() > 0 {
                assert(before[before.len() - 1].key_range is None);
            }
            assert(routes_of(regions, nodes, measurement) == before.push(route));
            assert forall|i: int| 0 <= i < before.push(route).len() implies (
            #[trigger] before.push(route)[i]).key_range is None by {
                if i < before.len() {
                    assert(before[i].key_range is None);
                }
            }
        }
    } else {
        assert(routes_of(regions, nodes, measurement) =~= routes_to(regions, nodes, measurement));
    }
}

/// A series goes to the region that starts at its hash or the nearest below it;
/// to the first one where all start above it.
pub proof fn a_series_goes_to_the_nearest_start_below(
    routes: Seq<RouteModel>,
    hash: u64,
    route: RouteModel,
)
    requires
        all_ranged(routes),
        in_range_order(routes),
        is_route_for(routes, hash, route),
    ensures
        routes.contains(route),
        forall|j: int|
            0 <= j < routes.len() && (#[trigger] routes[j]).key_range->0.start <= hash
                ==> routes[j].key_range->0.start <= route.key_range->0.start <= hash,
        (forall|j: int|
            0 <= j < routes.len() ==> (#[trigger] routes[j]).key_range->0.start > hash) ==> route
            == routes[0],
{
    let i = choose|i: int| #[trigger] is_owner(routes, hash, i) && route == routes[i];
    assert(routes[i].key_range is Some);
    assert forall|j: int|
        0 <= j < routes.len() && (
        #[trigger] routes[j]).key_range->0.start <= hash implies routes[j].key_range->0.start
        <= route.key_range->0.start <= hash by {
        assert(routes[j].key_range is Some);
        if j > i {
            assert(start_rank(routes[j]) > hash);
        } else {
            assert(start_rank(routes[j]) <= start_rank(routes[i]));
        }
    }
    if forall|j: int| 0 <= j < routes.len() ==> (#[trigger] routes[j]).key_range->0.start > hash {
        assert(routes[i].key_range->0.start > hash);
    }
}

/// Where a region has no key range, series are spread evenly: of as many
/// consecutive hashes as there are routes, each takes another route, and they
/// take them in order.
pub proof fn series_are_spread_over_the_routes(
    routes: Seq<RouteModel>,
    hash: u64,
    round: nat,
    route: RouteModel,
    i: int,
)
    requires
        !all_ranged(routes),
        is_route_for(routes, hash, route),
        0 <= i < routes.len(),
        hash == round * routes.len() + i,
    ensures
        route == routes[i],
{
    vstd::arithmetic::div_mod::lemma_fundamental_div_mod_converse(
        hash as int,
        routes.len() as int,
        round as int,
        i,
    );
}

/// The number of routes is that of all measurements together.
pub proof fn all_routes_are_counted(groups: Seq<(Seq<char>, Seq<RouteModel>)>)
    ensures
        route_total(groups) == groups.fold_left(
            0int,
            |sum: int, g: (Seq<char>, Seq<RouteModel>)| sum + g.1.len(),
        ),
    decreases groups.len(),
{
    if groups.len() > 0 {
        all_routes_are_counted(groups.drop_last());
    }
}

} // verus!
