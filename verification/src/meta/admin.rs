//! What the admin service and its client decide: how requests become
//! commands, which membership changes are safe, and which metadata node to
//! try next.
use vstd::prelude::*;
use vstd::string::*;

use crate::meta::types::{
    DataNodeInfo, MetaCommand, MetaResponse, NodeId, NodeMode, RegionId, RegionInfo, RegionState,
};
#[allow(unused_imports)]
use crate::meta::types::{fresh_node, CommandModel, NodeModel, RegionModel, Reply};
#[allow(unused_imports)]
use crate::text::decimal;
use crate::text::{joined_text, push_decimal, same_text};

verus! {

broadcast use vstd::string::group_string_axioms;

// ---------------------------------------------------------------------------
// Requests
// ---------------------------------------------------------------------------

/// The mode with this name, if there is one.
pub open spec fn mode_named(name: Seq<char>) -> Option<NodeMode> {
    if name == "data"@ {
        Some(NodeMode::Data)
    } else if name == "query"@ {
        Some(NodeMode::Query)
    } else if name == "meta"@ {
        Some(NodeMode::Meta)
    } else {
        None
    }
}

/// Find a mode by its name.
pub fn parse_mode(name: &str) -> (r: Option<NodeMode>)
    ensures
        r == mode_named(name@),
{
    if same_text(name, "data") {
        Some(NodeMode::Data)
    } else if same_text(name, "query") {
        Some(NodeMode::Query)
    } else if same_text(name, "meta") {
        Some(NodeMode::Meta)
    } else {
        None
    }
}

/// A mode that is written out and read back is the same mode.
pub proof fn modes_read_back(mode: NodeMode)
    ensures
        mode_named(mode.name()) == Some(mode),
{
    reveal_strlit("data");
    reveal_strlit("query");
    reveal_strlit("meta");
    assert("data"@[0] != "query"@[0]);
    assert("data"@[0] != "meta"@[0]);
    assert("query"@[0] != "meta"@[0]);
}

/// A node as a request announces it.
pub open spec fn announced_node(
    node_id: NodeId,
    grpc_addr: Seq<char>,
    mode: NodeMode,
    disk_bytes: u64,
    memory_bytes: u64,
    cpu_cores: u32,
    now_secs: u64,
) -> NodeModel {
    NodeModel {
        mode,
        disk_bytes,
        memory_bytes,
        cpu_cores,
        ..fresh_node(node_id, grpc_addr, now_secs)
    }
}

/// The command for a request to register a node. An unknown mode is refused.
pub fn register_node_command(
    node_id: NodeId,
    grpc_addr: &str,
    mode: &str,
    disk_bytes: u64,
    memory_bytes: u64,
    cpu_cores: u32,
) -> (r: Result<MetaCommand, String>)
    ensures
        match mode_named(mode@) {
            None => r matches Err(reason) && reason@ == "unknown mode: "@ + mode@ + ""@,
            Some(known) => r matches Ok(command) && (command@ matches CommandModel::RegisterNode(
                info,
            ) && info == announced_node(
                node_id,
                grpc_addr@,
                known,
                disk_bytes,
                memory_bytes,
                cpu_cores,
                info.last_heartbeat_secs,
            )),
        },
{
    match parse_mode(mode) {
        None => Err(joined_text("unknown mode: ", mode, "")),
        Some(known) => {
            let info = DataNodeInfo::new(node_id, grpc_addr).with_mode(known).with_capacity(
                disk_bytes,
                memory_bytes,
                cpu_cores as u64,
            );
            Ok(MetaCommand::RegisterNode(info))
        },
    }
}

/// A node as the client reads it from a reply. An unknown mode counts as data.
pub fn listed_node(
    node_id: NodeId,
    grpc_addr: &str,
    mode: &str,
    disk_bytes: u64,
    memory_bytes: u64,
    cpu_cores: u32,
) -> (r: DataNodeInfo)
    ensures
        r.deep_view() == announced_node(
            node_id,
            grpc_addr@,
            match mode_named(mode@) {
                Some(known) => known,
                None => NodeMode::Data,
            },
            disk_bytes,
            memory_bytes,
            cpu_cores,
            r.last_heartbeat_secs,
        ),
{
    let known: NodeMode = match parse_mode(mode) {
        Some(known) => known,
        None => NodeMode::Data,
    };
    DataNodeInfo::new(node_id, grpc_addr).with_mode(known).with_capacity(
        disk_bytes,
        memory_bytes,
        cpu_cores as u64,
    )
}

/// The command for a request to create a region: active and without a key
/// range.
pub fn create_region_command(
    region_id: RegionId,
    measurement: &str,
    leader_node_id: NodeId,
    replica_node_ids: Vec<NodeId>,
    replication_factor: u32,
) -> (r: MetaCommand)
    ensures
        r@ == CommandModel::CreateRegion(
            RegionModel {
                region_id,
                measurement: measurement@,
                leader_node_id,
                replica_node_ids: replica_node_ids@,
                state: RegionState::Active,
                replication_factor,
                key_range: None,
            },
        ),
{
    MetaCommand::CreateRegion(
        RegionInfo {
            region_id,
            measurement: measurement.to_owned(),
            leader_node_id,
            replica_node_ids,
            state: RegionState::Active,
            replication_factor,
            key_range: None,
        },
    )
}

/// Whether a command went through; if not, why.
pub fn check(response: MetaResponse) -> (r: Result<(), String>)
    ensures
        match response@ {
            Reply::Refused(message) => r matches Err(reason) && reason@ == message,
            _ => r is Ok,
        },
{
    match response {
        MetaResponse::Done => Ok(()),
        MetaResponse::Created { .. } => Ok(()),
        MetaResponse::Error { message } => Err(message),
    }
}

/// A heartbeat interval in the width of the reply. One beyond what the field
/// holds is shown as the greatest value that it holds.
pub fn interval_for_reply(seconds: u64) -> (r: u32)
    ensures
        r == if seconds <= u32::MAX {
            seconds as int
        } else {
            u32::MAX as int
        },
{
    if seconds <= u32::MAX as u64 {
        seconds as u32
    } else {
        u32::MAX
    }
}

// ---------------------------------------------------------------------------
// Membership
// ---------------------------------------------------------------------------

/// The voters of the group with one more, unless it votes already.
pub fn voters_with(voters: &Vec<NodeId>, node_id: NodeId) -> (r: Vec<NodeId>)
    ensures
        r@ == crate::meta::model::including(voters@, node_id),
{
    let mut out = voters.clone();
    assert(out@ =~= voters@);
    let mut i: usize = 0;
    while i < voters.len()
        invariant
            i <= voters.len(),
            out@ == voters@,
            forall|j: int| 0 <= j < i ==> voters@[j] != node_id,
        decreases voters.len() - i,
    {
        if voters[i] == node_id {
            assert(voters@.contains(node_id));
            return out;
        }
        i = i + 1;
    }
    out.push(node_id);
    out
}

/// Why a voter is not removed.
#[derive(Debug)]
pub enum RemovalRefusal {
    /// No voter would remain.
    LastVoter,
    /// Too few voters would remain for one more failure.
    BelowQuorum {
        /// Node that was to be removed.
        node_id: NodeId,
        /// Voters before.
        before: usize,
        /// Voters that would remain.
        after: usize,
    },
}

impl RemovalRefusal {
    /// The message under which the refusal is shown.
    pub open spec fn message(self) -> Seq<char> {
        match self {
            RemovalRefusal::LastVoter => "cannot remove last voter from cluster"@,
            RemovalRefusal::BelowQuorum { node_id, before, after } => "removing node "@ + decimal(
                node_id as nat,
            ) + " would reduce voters from "@ + decimal(before as nat) + " to "@ + decimal(
                after as nat,
            ) + " — below quorum safety threshold (need > "@ + decimal(before as nat / 2)
                + " voters). Add a replacement node first, or use joint consensus."@,
        }
    }

    /// The refusal in words.
    pub fn to_text(&self) -> (r: String)
        ensures
            r@ == self.message(),
    {
        match self {
            RemovalRefusal::LastVoter => "cannot remove last voter from cluster".to_owned(),
            RemovalRefusal::BelowQuorum { node_id, before, after } => {
                let mut out = "removing node ".to_owned();
                push_decimal(&mut out, *node_id as u128);
                out.append(" would reduce voters from ");
                push_decimal(&mut out, *before as u128);
                out.append(" to ");
                push_decimal(&mut out, *after as u128);
                out.append(" — below quorum safety threshold (need > ");
                push_decimal(&mut out, (*before / 2) as u128);
                out.append(" voters). Add a replacement node first, or use joint consensus.");
                out
            },
        }
    }
}

/// The voters that remain when a node is removed, where that is safe: more
/// than half of the voters, and at least one, remain.
pub fn voters_without(voters: &Vec<NodeId>, node_id: NodeId) -> (r: Result<
    Vec<NodeId>,
    RemovalRefusal,
>)
    requires
        voters@.no_duplicates(),
    ensures
        ({
            let rest = crate::meta::model::without(voters@, node_id);
            if rest.len() == 0 {
                r matches Err(RemovalRefusal::LastVoter)
            } else if rest.len() <= voters@.len() / 2 {
                r matches Err(RemovalRefusal::BelowQuorum { node_id: id, before, after }) && id
                    == node_id && before == voters@.len() && after == rest.len()
            } else {
                r matches Ok(remaining) && remaining@ == rest
            }
        }),
{
    let mut rest: Vec<NodeId> = Vec::new();
    let mut i: usize = 0;
    while i < voters.len()
        invariant
            i <= voters.len(),
            rest@ == crate::meta::model::without(voters@.take(i as int), node_id),
        decreases voters.len() - i,
    {
        assert(voters@.take(i + 1).drop_last() =~= voters@.take(i as int));
        if voters[i] != node_id {
            rest.push(voters[i]);
        }
        i = i + 1;
    }
    assert(voters@.take(voters@.len() as int) =~= voters@);
    if rest.len() == 0 {
        return Err(RemovalRefusal::LastVoter);
    }
    if rest.len() <= voters.len() / 2 {
        return Err(
            RemovalRefusal::BelowQuorum { node_id, before: voters.len(), after: rest.len() },
        );
    }
    Ok(rest)
}

/// A removal that is allowed leaves a majority of the voters that there were:
/// any majority of the old group and the new group have a member in common.
pub proof fn allowed_removals_keep_a_majority(voters: Seq<NodeId>, node_id: NodeId)
    requires
        crate::meta::model::without(voters, node_id).len() > voters.len() / 2,
    ensures
        2 * crate::meta::model::without(voters, node_id).len() > voters.len(),
        !crate::meta::model::without(voters, node_id).contains(node_id),
        forall|other: NodeId|
            other != node_id ==> (#[trigger] crate::meta::model::without(voters, node_id).contains(
                other,
            ) <==> voters.contains(other)),
{
    crate::meta::model::lemma_outside_members(voters, set![node_id], node_id);
    assert forall|other: NodeId| other != node_id implies (
    #[trigger] crate::meta::model::without(voters, node_id).contains(other) <==> voters.contains(
        other,
    )) by {
        crate::meta::model::lemma_outside_members(voters, set![node_id], other);
    }
}

// ---------------------------------------------------------------------------
// The client's choice of a metadata node
// ---------------------------------------------------------------------------

/// Which metadata nodes a client knows, and in which order it tries them.
///
/// The first address is tried initially; on failure the client rotates
/// through the list. With stale reads allowed, reads go round all addresses
/// instead of staying with the preferred one.
#[derive(Debug)]
pub struct GrpcMetaClient {
    /// Known metadata node addresses for failover.
    pub addrs: Vec<String>,
    /// Index of the currently preferred address.
    pub current: usize,
    /// Round-robin counter for distributing stale reads across replicas.
    pub read_counter: usize,
    /// Connection timeout in milliseconds.
    pub timeout_millis: u64,
    /// Whether connections are encrypted.
    pub secure: bool,
    /// Whether reads may be served by any replica.
    pub allow_stale_reads: bool,
    /// Age in milliseconds at which a cached connection is given up.
    pub channel_ttl_millis: u64,
}

/// One try to reach a metadata node: the address to try, and how many were
/// tried before it in this round.
#[derive(Debug, Clone, Copy, PartialEq, Eq, Structural)]
pub struct Attempt {
    /// Where the round started.
    pub start: usize,
    /// Addresses tried before.
    pub tried: usize,
    /// Index of the address to try.
    pub index: usize,
    /// Whether a success makes the address the preferred one.
    pub prefer: bool,
}

/// The index of the `tried`-th address of a round.
pub open spec fn address_index(start: usize, tried: usize, len: nat) -> int {
    (start + tried) % (len as int)
}

impl Attempt {
    /// The attempt is one of a round through `len` addresses.
    pub open spec fn fits(self, len: nat) -> bool {
        &&& self.tried < len
        &&& self.index == address_index(self.start, self.tried, len)
    }
}

/// The index of the `tried`-th address of a round.
fn index_in_round(start: usize, tried: usize, len: usize) -> (r: usize)
    requires
        tried < len,
    ensures
        r == address_index(start, tried, len as nat),
{
    let first: usize = start % len;
    let ahead: usize = len - first;
    proof {
        vstd::arithmetic::div_mod::lemma_add_mod_noop(start as int, tried as int, len as int);
        vstd::arithmetic::div_mod::lemma_small_mod(tried as nat, len as nat);
        assert((start + tried) % (len as int) == (first + tried) % (len as int));
    }
    if tried < ahead {
        proof {
            vstd::arithmetic::div_mod::lemma_small_mod((first + tried) as nat, len as nat);
        }
        first + tried
    } else {
        proof {
            let at = tried - ahead;
            vstd::arithmetic::div_mod::lemma_mod_add_multiples_vanish(at, len as int);
            vstd::arithmetic::div_mod::lemma_small_mod(at as nat, len as nat);
        }
        tried - ahead
    }
}

impl GrpcMetaClient {
    /// Create a client with the given metadata node addresses.
    pub fn new(addrs: Vec<String>) -> (r: Self)
        ensures
            r.addrs == addrs,
            r.current == 0,
            r.read_counter == 0,
            r.timeout_millis == 5000,
            !r.secure,
            !r.allow_stale_reads,
            r.channel_ttl_millis == 300000,
    {
        GrpcMetaClient {
            addrs,
            current: 0,
            read_counter: 0,
            timeout_millis: 5000,
            secure: false,
            allow_stale_reads: false,
            channel_ttl_millis: 300000,
        }
    }

    /// Encrypt all connections.
    pub fn with_tls(self) -> (r: Self)
        ensures
            r == (GrpcMetaClient { secure: true, ..self }),
    {
        let mut r = self;
        r.secure = true;
        r
    }

    /// Set the connection timeout.
    pub fn with_timeout(self, timeout_millis: u64) -> (r: Self)
        ensures
            r == (GrpcMetaClient { timeout_millis, ..self }),
    {
        let mut r = self;
        r.timeout_millis = timeout_millis;
        r
    }

    /// Allow reads to be served by any replica.
    pub fn with_stale_reads(self, allow: bool) -> (r: Self)
        ensures
            r == (GrpcMetaClient { allow_stale_reads: allow, ..self }),
    {
        let mut r = self;
        r.allow_stale_reads = allow;
        r
    }

    /// Update the known addresses. The first one is preferred again. Cached
    /// connections are to be dropped with this.
    pub fn update_addrs(&mut self, addrs: Vec<String>)
        ensures
            *final(self) == (GrpcMetaClient { addrs, current: 0, ..*old(self) }),
    {
        self.addrs = addrs;
        self.current = 0;
    }

    /// Start a round of attempts at the preferred address. Fails when no
    /// address is known.
    pub fn connect(&self) -> (r: Result<Attempt, String>)
        ensures
            self.addrs@.len() == 0 ==> (r matches Err(reason) && reason@
                == "no meta node addresses configured"@),
            self.addrs@.len() > 0 ==> (r matches Ok(attempt) && attempt.fits(self.addrs@.len())
                && attempt.start == self.current && attempt.tried == 0 && attempt.prefer),
    {
        if self.addrs.len() == 0 {
            return Err("no meta node addresses configured".to_owned());
        }
        Ok(
            Attempt {
                start: self.current,
                tried: 0,
                index: index_in_round(self.current, 0, self.addrs.len()),
                prefer: true,
            },
        )
    }

    /// Start a round of attempts for a read: at the preferred address, or,
    /// with stale reads allowed, at the next address in turn.
    pub fn connect_for_read(&mut self) -> (r: Result<Attempt, String>)
        ensures
            old(self).addrs@.len() == 0 ==> {
                &&& r matches Err(reason)
                &&& reason@ == "no meta node addresses configured"@
                &&& *final(self) == *old(self)
            },
            old(self).addrs@.len() > 0 && !old(self).allow_stale_reads ==> {
                &&& r matches Ok(attempt)
                &&& attempt.fits(old(self).addrs@.len())
                &&& attempt.start == old(self).current
                &&& attempt.tried == 0
                &&& attempt.prefer
                &&& *final(self) == *old(self)
            },
            old(self).addrs@.len() > 0 && old(self).allow_stale_reads ==> {
                &&& r matches Ok(attempt)
                &&& attempt.fits(old(self).addrs@.len())
                &&& attempt.start == old(self).read_counter as int % (
                old(self).addrs@.len() as int)
                &&& attempt.tried == 0
                &&& !attempt.prefer
                &&& *final(self) == (GrpcMetaClient {
                    read_counter: if old(self).read_counter < usize::MAX {
                        (old(self).read_counter + 1) as usize
                    } else {
                        0
                    },
                    ..*old(self)
                })
            },
    {
        if !self.allow_stale_reads {
            return self.connect();
        }
        if self.addrs.len() == 0 {
            return Err("no meta node addresses configured".to_owned());
        }
        let start: usize = self.read_counter % self.addrs.len();
        self.read_counter = if self.read_counter < usize::MAX {
            self.read_counter + 1
        } else {
            0
        };
        Ok(
            Attempt {
                start,
                tried: 0,
                index: index_in_round(start, 0, self.addrs.len()),
                prefer: false,
            },
        )
    }

    /// The URL of the address to try.
    pub fn endpoint(&self, attempt: &Attempt) -> (r: String)
        requires
            attempt.fits(self.addrs@.len()),
        ensures
            r@ == (if self.secure {
                "https"@
            } else {
                "http"@
            }) + "://"@ + self.addrs@[attempt.index as int]@,
    {
        let scheme: &str = if self.secure {
            "https"
        } else {
            "http"
        };
        joined_text(scheme, "://", self.addrs[attempt.index].as_str())
    }

    /// Whether a cached connection of this age may still be used.
    pub fn may_reuse(&self, age_millis: u64) -> (r: bool)
        ensures
            r == (age_millis < self.channel_ttl_millis),
    {
        age_millis < self.channel_ttl_millis
    }

    /// The address was reached. It is preferred from now on, unless the round
    /// was one of a stale read.
    pub fn reached(&mut self, attempt: &Attempt)
        ensures
            *final(self) == if attempt.prefer {
                GrpcMetaClient { current: attempt.index, ..*old(self) }
            } else {
                *old(self)
            },
    {
        if attempt.prefer {
            self.current = attempt.index;
        }
    }

    /// The address was not reached: try the next one, unless all were tried.
    pub fn failed(&self, attempt: &Attempt) -> (r: Result<Attempt, String>)
        requires
            attempt.fits(self.addrs@.len()),
        ensures
            attempt.tried + 1 < self.addrs@.len() ==> (r matches Ok(next) && next.fits(
                self.addrs@.len(),
            ) && next.start == attempt.start && next.tried == attempt.tried + 1 && next.prefer
                == attempt.prefer),
            attempt.tried + 1 >= self.addrs@.len() ==> (r matches Err(reason) && reason@
                == "all meta node addresses unreachable"@),
    {
        let len: usize = self.addrs.len();
        if attempt.tried < len - 1 {
            let tried: usize = attempt.tried + 1;
            Ok(
                Attempt {
                    start: attempt.start,
                    tried,
                    index: index_in_round(attempt.start, tried, self.addrs.len()),
                    prefer: attempt.prefer,
                },
            )
        } else {
            Err("all meta node addresses unreachable".to_owned())
        }
    }
}

/// A round of attempts tries every address, and none twice.
pub proof fn a_round_tries_every_address_once(start: usize, len: nat, target: int)
    requires
        len > 0,
        0 <= target < len,
        len <= usize::MAX,
    ensures
        exists|tried: usize|
            tried < len && #[trigger] address_index(start, tried, len) == target,
        forall|a: usize, b: usize|
            a < len && b < len && #[trigger] address_index(start, a, len)
                == #[trigger] address_index(start, b, len) ==> a == b,
{
    let n = len as int;
    let first = start as int % n;
    let tried = if target >= first {
        target - first
    } else {
        target - first + n
    };
    vstd::arithmetic::div_mod::lemma_add_mod_noop(start as int, tried, n);
    vstd::arithmetic::div_mod::lemma_small_mod(tried as nat, len);
    if target >= first {
        vstd::arithmetic::div_mod::lemma_small_mod(target as nat, len);
    } else {
        vstd::arithmetic::div_mod::lemma_mod_add_multiples_vanish(target, n);
        vstd::arithmetic::div_mod::lemma_small_mod(target as nat, len);
    }
    assert(address_index(start, tried as usize, len) == target);
    assert forall|a: usize, b: usize|
        a < len && b < len && #[trigger] address_index(start, a, len)
            == #[trigger] address_index(start, b, len) implies a == b by {
        let x = start + a;
        let y = start + b;
        vstd::arithmetic::div_mod::lemma_fundamental_div_mod(x, n);
        vstd::arithmetic::div_mod::lemma_fundamental_div_mod(y, n);
        let p = x / n;
        let q = y / n;
        assert(x - y == n * p - n * q);
        assert(n * p - n * q == n * (p - q)) by (nonlinear_arith);
        assert(-n < n * (p - q) < n);
        assert(p == q) by (nonlinear_arith)
            requires
                n > 0,
                -n < n * (p - q) < n,
        ;
    }
}

} // verus!
