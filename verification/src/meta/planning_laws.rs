//! How the regions of a new measurement are spread over the nodes.
use vstd::prelude::*;

#[allow(unused_imports)]
use crate::meta::model::{
    active_replicas, after_creating, have_an_id_order, in_id_order, is_under_replicated, live_nodes,
    planned_regions, selected, step, MetaModel,
};
#[allow(unused_imports)]
use crate::meta::types::{CommandModel, NodeId, NodeModel, RegionModel, SchemaModel};
#[allow(unused_imports)]
use crate::sorted_map::lemma_map_of_ascending;

verus! {

/// Nodes are stored under their own ids.
pub open spec fn nodes_are_keyed(m: MetaModel) -> bool {
    forall|k: NodeId| #[trigger] m.nodes.contains_key(k) ==> m.nodes[k].node_id == k
}

proof fn lemma_selected<B>(pairs: Seq<(u64, B)>, wanted: spec_fn(B) -> bool) -> (picks: Seq<int>)
    ensures
        picks.len() == selected(pairs, wanted).len(),
        forall|i: int, j: int| 0 <= i < j < picks.len() ==> picks[i] < picks[j],
        forall|i: int|
            0 <= i < picks.len() ==> 0 <= #[trigger] picks[i] < pairs.len() && wanted(
                pairs[picks[i]].1,
            ) && selected(pairs, wanted)[i] == pairs[picks[i]].1,
        forall|k: int|
            0 <= k < pairs.len() && wanted((#[trigger] pairs[k]).1) ==> picks.contains(k),
    decreases pairs.len(),
{
    if pairs.len() == 0 {
        Seq::empty()
    } else {
        let rest = pairs.drop_last();
        let n = pairs.len() - 1;
        let before = lemma_selected(rest, wanted);
        let picks = if wanted(pairs[n].1) {
            before.push(n)
        } else {
            before
        };
        assert forall|i: int| 0 <= i < picks.len() implies 0 <= #[trigger] picks[i] < pairs.len()
            && wanted(pairs[picks[i]].1) && selected(pairs, wanted)[i] == pairs[picks[i]].1 by {
            if i < before.len() {
                assert(picks[i] == before[i]);
                assert(rest[before[i]] == pairs[before[i]]);
            }
        }
        assert forall|k: int| 0 <= k < pairs.len() && wanted((#[trigger] pairs[k]).1) implies
            picks.contains(k) by {
            if k < n {
                assert(rest[k] == pairs[k]);
                let i = choose|i: int| 0 <= i < before.len() && before[i] == k;
                assert(picks[i] == k);
            } else {
                assert(picks[picks.len() - 1] == k);
            }
        }
        picks
    }
}

/// The live nodes are all registered nodes that are not dead, each once, in
/// ascending order of their ids.
pub proof fn live_nodes_are_those_not_dead(m: MetaModel)
    requires
        have_an_id_order(m.nodes),
        nodes_are_keyed(m),
    ensures
        forall|i: int|
            0 <= i < live_nodes(m).len() ==> {
                let n = #[trigger] live_nodes(m)[i];
                m.nodes.contains_key(n.node_id) && m.nodes[n.node_id] == n && !(n.state is Dead)
            },
        forall|i: int, j: int|
            0 <= i < j < live_nodes(m).len() ==> (#[trigger] live_nodes(m)[i]).node_id < (
            #[trigger] live_nodes(m)[j]).node_id,
        forall|k: NodeId| #[trigger]
            m.nodes.contains_key(k) && !(m.nodes[k].state is Dead) ==> live_nodes(m).contains(
                m.nodes[k],
            ),
{
    let pairs = in_id_order(m.nodes);
    let wanted = |n: NodeModel| !(n.state is Dead);
    let picks = lemma_selected(pairs, wanted);
    let live = live_nodes(m);
    lemma_map_of_ascending::<u64, NodeModel>(pairs);
    assert forall|i: int| 0 <= i < live.len() implies {
        let n = #[trigger] live[i];
        m.nodes.contains_key(n.node_id) && m.nodes[n.node_id] == n && !(n.state is Dead)
            && n.node_id == pairs[picks[i]].0
    } by {
        let k = picks[i];
        assert(m.nodes.contains_key(pairs[k].0));
        assert(m.nodes[pairs[k].0] == pairs[k].1);
    }
    assert forall|i: int, j: int| 0 <= i < j < live.len() implies (#[trigger] live[i]).node_id < (
    #[trigger] live[j]).node_id by {
        assert(picks[i] < picks[j]);
        assert(pairs[picks[i]].0 < pairs[picks[j]].0);
        assert(live[i].node_id == pairs[picks[i]].0);
        assert(live[j].node_id == pairs[picks[j]].0);
    }
    assert forall|k: NodeId| #[trigger]
        m.nodes.contains_key(k) && !(m.nodes[k].state is Dead) implies live.contains(m.nodes[k]) by {
        let c = choose|c: int| 0 <= c < pairs.len() && (#[trigger] pairs[c]).0 == k;
        assert(pairs[c].1 == m.nodes[k]);
        assert(wanted(pairs[c].1));
        let i = choose|i: int| 0 <= i < picks.len() && picks[i] == c;
        assert(live[i] == pairs[picks[i]].1);
    }
}

/// As many regions are planned as the schema asks for, each of the measurement,
/// active, without a key range, with an id from the next free one on, and with
/// the replication factor that it has replicas for.
pub proof fn as_many_regions_are_planned_as_asked_for(m: MetaModel, schema: SchemaModel, i: int)
    requires
        m.next_region_id + schema.region_count <= u64::MAX,
        0 <= i < schema.region_count,
        0 < live_nodes(m).len() <= u32::MAX,
    ensures
        planned_regions(m, schema).len() == schema.region_count,
        ({
            let r = planned_regions(m, schema)[i];
            &&& r.region_id == m.next_region_id + i
            &&& r.measurement == schema.name
            &&& r.state is Active
            &&& r.key_range is None
            &&& r.replica_node_ids.len() > 0 ==> r.replication_factor == r.replica_node_ids.len()
            &&& r.replica_node_ids.len() == 0 ==> r.replication_factor == 1
        }),
{
}

proof fn lemma_round(live: Seq<NodeModel>, from: int, j: int, k: int)
    requires
        0 <= from < live.len(),
        0 <= j < live.len(),
        0 <= k < live.len(),
        j != k,
    ensures
        (from + j) % (live.len() as int) != (from + k) % (live.len() as int),
{
    let n = live.len() as int;
    lemma_round_at(n, from, j);
    lemma_round_at(n, from, k);
}

proof fn lemma_round_at(n: int, from: int, j: int)
    requires
        0 <= from < n,
        0 <= j < n,
    ensures
        from + j < n ==> (from + j) % n == from + j,
        from + j >= n ==> (from + j) % n == from + j - n,
{
    if from + j < n {
        vstd::arithmetic::div_mod::lemma_small_mod((from + j) as nat, n as nat);
    } else {
        vstd::arithmetic::div_mod::lemma_small_mod((from + j - n) as nat, n as nat);
        vstd::arithmetic::div_mod::lemma_mod_add_multiples_vanish(from + j - n, n);
    }
}

/// The replicas of a planned region are distinct live nodes: as many as the
/// schema asks for, or all there are. So a region has no two copies on one
/// node.
pub proof fn planned_replicas_are_on_distinct_live_nodes(
    m: MetaModel,
    schema: SchemaModel,
    i: int,
)
    requires
        have_an_id_order(m.nodes),
        nodes_are_keyed(m),
        0 <= i < schema.region_count,
        0 < live_nodes(m).len() <= u32::MAX,
    ensures
        ({
            let replicas = planned_regions(m, schema)[i].replica_node_ids;
            &&& replicas.no_duplicates()
            &&& replicas.len() == if schema.replication_factor < live_nodes(m).len() {
                schema.replication_factor as nat
            } else {
                live_nodes(m).len()
            }
            &&& forall|j: int|
                0 <= j < replicas.len() ==> m.nodes.contains_key(#[trigger] replicas[j]) && !(
                m.nodes[replicas[j]].state is Dead)
        }),
{
    let live = live_nodes(m);
    let n = live.len() as int;
    let from = i % n;
    let replicas = planned_regions(m, schema)[i].replica_node_ids;
    live_nodes_are_those_not_dead(m);
    assert forall|j: int| 0 <= j < replicas.len() implies {
        let at = (from + j) % n;
        0 <= at < n && #[trigger] replicas[j] == live[at].node_id
    } by {
        lemma_round_at(n, from, j);
    }
    assert forall|j: int, k: int|
        0 <= j < replicas.len() && 0 <= k < replicas.len() && j != k implies replicas[j]
        != replicas[k] by {
        lemma_round(live, from, j, k);
        let a = (from + j) % n;
        let b = (from + k) % n;
        assert(replicas[j] == live[a].node_id);
        assert(replicas[k] == live[b].node_id);
        if a < b {
            assert(live[a].node_id < live[b].node_id);
        } else {
            assert(live[b].node_id < live[a].node_id);
        }
    }
    assert forall|j: int| 0 <= j < replicas.len() implies m.nodes.contains_key(
        #[trigger] replicas[j],
    ) && !(m.nodes[replicas[j]].state is Dead) by {
        let at = (from + j) % n;
        assert(replicas[j] == live[at].node_id);
    }
}

/// Leaders go round the live nodes: each is a live node, and regions in a row
/// are led by nodes in a row, so that any so many regions as there are live
/// nodes have as many leaders.
pub proof fn leaders_go_round_the_live_nodes(m: MetaModel, schema: SchemaModel, i: int, j: int)
    requires
        have_an_id_order(m.nodes),
        nodes_are_keyed(m),
        0 <= i < j < schema.region_count,
        0 < live_nodes(m).len() <= u32::MAX,
    ensures
        ({
            let regions = planned_regions(m, schema);
            &&& m.nodes.contains_key(regions[i].leader_node_id) && !(
            m.nodes[regions[i].leader_node_id].state is Dead)
            &&& j - i < live_nodes(m).len() ==> regions[i].leader_node_id
                != regions[j].leader_node_id
            &&& j - i == live_nodes(m).len() ==> regions[i].leader_node_id
                == regions[j].leader_node_id
        }),
{
    let live = live_nodes(m);
    let n = live.len() as int;
    live_nodes_are_those_not_dead(m);
    vstd::arithmetic::div_mod::lemma_mod_bound(i, n);
    vstd::arithmetic::div_mod::lemma_mod_bound(j, n);
    let a = i % n;
    let b = j % n;
    assert(!(live[a].state is Dead));
    if j - i == n {
        vstd::arithmetic::div_mod::lemma_mod_add_multiples_vanish(i, n);
        assert(n + i == j);
    } else if j - i < n {
        vstd::arithmetic::div_mod::lemma_fundamental_div_mod(i, n);
        vstd::arithmetic::div_mod::lemma_fundamental_div_mod(j, n);
        if a == b {
            let x = i / n;
            let y = j / n;
            assert(n * y - n * x == n * (y - x)) by (nonlinear_arith);
            assert(j - i == n * (y - x));
            assert(false) by (nonlinear_arith)
                requires
                    0 < n * (y - x) < n,
                    n > 0,
            ;
        }
        if a < b {
            assert(live[a].node_id < live[b].node_id);
        } else {
            assert(live[b].node_id < live[a].node_id);
        }
    }
}

/// A region is under-replicated just if fewer of its replicas are on registered,
/// active nodes than it should have.
pub proof fn under_replication_counts_active_replicas(m: MetaModel, r: RegionModel)
    ensures
        is_under_replicated(m.nodes, r) <==> r.replica_node_ids.filter(
            |id: NodeId| m.nodes.contains_key(id) && m.nodes[id].state is Active,
        ).len() < r.replication_factor,
{
    lemma_active(m, r.replica_node_ids);
}

proof fn lemma_active(m: MetaModel, ids: Seq<NodeId>)
    ensures
        active_replicas(m.nodes, ids) == ids.filter(
            |id: NodeId| m.nodes.contains_key(id) && m.nodes[id].state is Active,
        ).len(),
    decreases ids.len(),
{
    reveal(Seq::filter);
    if ids.len() > 0 {
        lemma_active(m, ids.drop_last());
    }
}

/// Creating planned regions is what the commands that create them one by one do.
pub proof fn creating_regions_is_applying_the_commands(m: MetaModel, regions: Seq<RegionModel>)
    ensures
        regions.len() == 0 ==> after_creating(m, regions) == m,
        regions.len() > 0 ==> after_creating(m, regions) == step(
            after_creating(m, regions.drop_last()),
            CommandModel::CreateRegion(regions.last()),
        ).0,
{
}

/// What is selected are the entries that meet the condition, in the order of
/// their ids: every one of them, once, and no other.
pub proof fn just_the_wanted_entries_are_selected<B>(
    entries: Map<u64, B>,
    wanted: spec_fn(B) -> bool,
)
    requires
        have_an_id_order(entries),
    ensures
        exists|ids: Seq<u64>|
            {
                &&& #[trigger] are_ascending(ids)
                &&& ids.len() == selected(in_id_order(entries), wanted).len()
                &&& forall|i: int|
                    0 <= i < ids.len() ==> entries.contains_key(#[trigger] ids[i]) && wanted(
                        entries[ids[i]],
                    ) && selected(in_id_order(entries), wanted)[i] == entries[ids[i]]
                &&& forall|k: u64| #[trigger]
                    entries.contains_key(k) && wanted(entries[k]) ==> ids.contains(k)
            },
{
    let pairs = in_id_order(entries);
    let picks = lemma_selected(pairs, wanted);
    lemma_map_of_ascending::<u64, B>(pairs);
    let ids = Seq::new(picks.len(), |i: int| pairs[picks[i]].0);
    assert forall|i: int| 0 <= i < ids.len() implies entries.contains_key(#[trigger] ids[i])
        && wanted(entries[ids[i]]) && selected(pairs, wanted)[i] == entries[ids[i]] by {
        let k = picks[i];
        assert(entries.contains_key(pairs[k].0));
        assert(entries[pairs[k].0] == pairs[k].1);
    }
    assert forall|k: u64| #[trigger] entries.contains_key(k) && wanted(entries[k]) implies
        ids.contains(k) by {
        let c = choose|c: int| 0 <= c < pairs.len() && (#[trigger] pairs[c]).0 == k;
        assert(pairs[c].1 == entries[k]);
        assert(wanted(pairs[c].1));
        let i = choose|i: int| 0 <= i < picks.len() && picks[i] == c;
        assert(ids[i] == k);
    }
    assert forall|i: int, j: int| 0 <= i < j < ids.len() implies ids[i] < ids[j] by {
        assert(picks[i] < picks[j]);
        assert(pairs[picks[i]].0 < pairs[picks[j]].0);
    }
    assert(are_ascending(ids));
}

/// Ids in strictly ascending order.
pub open spec fn are_ascending(ids: Seq<u64>) -> bool {
    forall|i: int, j: int| 0 <= i < j < ids.len() ==> ids[i] < ids[j]
}

} // verus!
