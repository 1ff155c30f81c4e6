//! Choosing the server a client should play on: the one it asked for, then
//! the nearest, then the least loaded.
use crate::ids::{RealmId, RegionId, ServerId, UserAgentId};
use rand::Rng;
use vstd::prelude::*;

verus! {

/// A server a client may be sent to.
#[derive(Debug)]
pub struct ServerPickerItem {
    pub server_id: ServerId,
    pub datacenter: String,
    pub region_id: RegionId,
    /// Total load (all arenas).
    pub player_count: u32,
}

/// A client's question about the servers.
#[derive(Debug)]
pub struct SystemRequest {
    /// The server the client asked for, if any.
    pub server_id: Option<ServerId>,
    /// The realm of the arena the client asked for (the public realm when
    /// none).
    pub realm_id: Option<RealmId>,
    /// Region preference.
    pub region_id: Option<RegionId>,
    pub user_agent_id: Option<UserAgentId>,
}

/// How suitable a server is; lower is better, compared field by field.
#[derive(Copy, Clone, Debug, PartialEq, Eq, Structural)]
pub struct ServerPriority {
    /// The client asked for a specific server, but not this one.
    pub wrong_server_id: bool,
    pub distance: u8,
    pub load: u32,
}

/// Whether `a` is strictly better than `b` (field by field, `false` before
/// `true`).
pub open spec fn better(a: ServerPriority, b: ServerPriority) -> bool {
    if a.wrong_server_id != b.wrong_server_id {
        !a.wrong_server_id
    } else if a.distance != b.distance {
        a.distance < b.distance
    } else {
        a.load < b.load
    }
}

fn is_better(a: ServerPriority, b: ServerPriority) -> (r: bool)
    ensures
        r == better(a, b),
{
    if a.wrong_server_id != b.wrong_server_id {
        !a.wrong_server_id
    } else if a.distance != b.distance {
        a.distance < b.distance
    } else {
        a.load < b.load
    }
}

/// A random extra load below 5, to spread clients. Trusted:
/// `Rng::gen_range` over `0..5` returns a value in that range.
#[verifier::external_body]
fn load_jitter() -> (r: u32)
    ensures
        r < 5,
{
    rand::thread_rng().gen_range(0..5u32)
}

/// The datacenter of server `id` among the servers (the first listing it).
pub open spec fn datacenter_of(servers: Seq<ServerPickerItem>, id: ServerId) -> Option<Seq<char>> {
    if exists|i: int| 0 <= i < servers.len() && servers[i].server_id == id {
        Some(
            servers[choose|i: int|
                #![trigger servers[i]]
                0 <= i < servers.len() && servers[i].server_id == id && forall|j: int|
                    0 <= j < i ==> servers[j].server_id != id].datacenter@,
        )
    } else {
        None
    }
}

/// Whether `p` is the priority the server gets with `jitter` added to its
/// load: wrong unless asked for, the distance from the datacenters (with
/// GeoDNS, whether the datacenter differs from this server's) or from the
/// regions (0 without a preference), and the load plus the jitter (held
/// within `u32`).
pub open spec fn priority_given<D: Fn(RegionId, RegionId) -> u8>(
    server: ServerPickerItem,
    request_server: Option<ServerId>,
    request_region: Option<RegionId>,
    self_datacenter: Option<Seq<char>>,
    geodns_enabled: bool,
    distance: D,
    jitter: u32,
    p: ServerPriority,
) -> bool {
    &&& p.wrong_server_id == (Some(server.server_id) != request_server)
    &&& if geodns_enabled {
        p.distance == (if self_datacenter == Some(server.datacenter@) {
            0u8
        } else {
            1u8
        })
    } else {
        match request_region {
            Some(r) => distance.ensures((r, server.region_id), p.distance),
            None => p.distance == 0,
        }
    }
    &&& p.load == jittered(server.player_count, jitter)
}

/// Whether `p` is a priority the server may get: the one it gets with some
/// jitter below 5.
pub open spec fn priority_of<D: Fn(RegionId, RegionId) -> u8>(
    server: ServerPickerItem,
    request_server: Option<ServerId>,
    request_region: Option<RegionId>,
    self_datacenter: Option<Seq<char>>,
    geodns_enabled: bool,
    distance: D,
    p: ServerPriority,
) -> bool {
    exists|j: u32|
        j < 5 && #[trigger] priority_given(
            server,
            request_server,
            request_region,
            self_datacenter,
            geodns_enabled,
            distance,
            j,
            p,
        )
}

/// The text of a datacenter name, if there is one.
pub open spec fn text_of(d: Option<&String>) -> Option<Seq<char>> {
    match d {
        Some(t) => Some(t@),
        None => None,
    }
}

/// A load with a jitter added, held within `u32`.
pub open spec fn jittered(count: u32, j: u32) -> int {
    if count + j > u32::MAX {
        u32::MAX as int
    } else {
        count + j
    }
}

/// The servers that pass a filter (all when none), in order.
pub open spec fn passing(servers: Seq<ServerPickerItem>, filter: Option<ServerId>) -> Seq<ServerPickerItem> {
    servers.filter(|s: ServerPickerItem| filter is None || Some(s.server_id) == filter)
}

/// Whether `p` gives each passing server, in order, a priority it may get.
pub open spec fn priorities_for<D: Fn(RegionId, RegionId) -> u8>(
    servers: Seq<ServerPickerItem>,
    request_server: Option<ServerId>,
    request_region: Option<RegionId>,
    filter: Option<ServerId>,
    self_server_id: ServerId,
    geodns_enabled: bool,
    distance: D,
    p: Seq<(ServerId, ServerPriority)>,
) -> bool {
    &&& p.len() == passing(servers, filter).len()
    &&& forall|k: int|
        0 <= k < p.len() ==> {
            let s = passing(servers, filter)[k];
            &&& (#[trigger] p[k]).0 == s.server_id
            &&& priority_of(
                s,
                request_server,
                request_region,
                datacenter_of(servers, self_server_id),
                geodns_enabled,
                distance,
                p[k].1,
            )
        }
}

fn same_text(a: &String, b: &String) -> (r: bool)
    ensures
        r == (a@ == b@),
{
    *a == *b
}

/// The datacenter of server `id` (see `datacenter_of`).
fn find_datacenter(servers: &Vec<ServerPickerItem>, id: ServerId) -> (r: Option<&String>)
    ensures
        match r {
            Some(d) => datacenter_of(servers@, id) == Some(d@),
            None => datacenter_of(servers@, id) is None,
        },
{
    let mut i: usize = 0;
    while i < servers.len()
        invariant
            i <= servers@.len(),
            forall|j: int| 0 <= j < i ==> servers@[j].server_id != id,
        decreases servers@.len() - i,
    {
        if servers[i].server_id == id {
            proof {
                let s = servers@;
                let c = choose|c: int|
                    #![trigger s[c]]
                    0 <= c < s.len() && s[c].server_id == id && forall|j: int| 0 <= j < c ==> s[j].server_id != id;
                assert(0 <= i < s.len() && s[i as int].server_id == id && forall|j: int|
                    0 <= j < i ==> s[j].server_id != id);
                if c > i {
                    assert(s[i as int].server_id != id);
                }
            }
            return Some(&servers[i].datacenter);
        }
        i = i + 1;
    }
    None
}

/// The priority of a server for a request, with `jitter` added to its load
/// (see `priority_given`).
pub fn server_priority<D: Fn(RegionId, RegionId) -> u8>(
    server: &ServerPickerItem,
    request: &SystemRequest,
    self_datacenter: Option<&String>,
    geodns_enabled: bool,
    distance: &D,
    jitter: u32,
) -> (p: ServerPriority)
    requires
        forall|a: RegionId, b: RegionId| #[trigger] distance.requires((a, b)),
    ensures
        priority_given(
            *server,
            request.server_id,
            request.region_id,
            text_of(self_datacenter),
            geodns_enabled,
            *distance,
            jitter,
            p,
        ),
{
    let wrong_server_id = match request.server_id {
        Some(id) => id != server.server_id,
        None => true,
    };
    let dist: u8 = if geodns_enabled {
        match self_datacenter {
            Some(d) => if same_text(d, &server.datacenter) {
                0
            } else {
                1
            },
            None => 1,
        }
    } else {
        match request.region_id {
            Some(r) => distance(r, server.region_id),
            None => 0,
        }
    };
    let load = if server.player_count > u32::MAX - jitter {
        u32::MAX
    } else {
        server.player_count + jitter
    };
    ServerPriority { wrong_server_id, distance: dist, load }
}

/// The servers that pass `filter` (all when none), in order, each with a
/// priority (see `priority_of`).
pub fn server_priorities<D: Fn(RegionId, RegionId) -> u8>(
    servers: &Vec<ServerPickerItem>,
    request: &SystemRequest,
    filter: Option<ServerId>,
    self_server_id: ServerId,
    geodns_enabled: bool,
    distance: &D,
) -> (r: Vec<(ServerId, ServerPriority)>)
    requires
        forall|a: RegionId, b: RegionId| #[trigger] distance.requires((a, b)),
    ensures
        priorities_for(
            servers@,
            request.server_id,
            request.region_id,
            filter,
            self_server_id,
            geodns_enabled,
            *distance,
            r@,
        ),
{
    let self_datacenter = find_datacenter(servers, self_server_id);
    let ghost sel = servers@.filter(|s: ServerPickerItem| filter is None || Some(s.server_id) == filter);
    let mut out: Vec<(ServerId, ServerPriority)> = Vec::new();
    let mut i: usize = 0;
    proof {
        reveal(Seq::filter);
        assert(servers@.take(0).filter(|s: ServerPickerItem| filter is None || Some(s.server_id) == filter)
            =~= Seq::<ServerPickerItem>::empty());
    }
    while i < servers.len()
        invariant
            i <= servers@.len(),
            forall|a: RegionId, b: RegionId| #[trigger] distance.requires((a, b)),
            match self_datacenter {
                Some(d) => datacenter_of(servers@, self_server_id) == Some(d@),
                None => datacenter_of(servers@, self_server_id) is None,
            },
            out@.len() == servers@.take(i as int).filter(
                |s: ServerPickerItem| filter is None || Some(s.server_id) == filter,
            ).len(),
            forall|k: int|
                0 <= k < out@.len() ==> {
                    let s = servers@.take(i as int).filter(
                        |s: ServerPickerItem| filter is None || Some(s.server_id) == filter,
                    )[k];
                    &&& (#[trigger] out@[k]).0 == s.server_id
                    &&& priority_of(
                        s,
                        request.server_id,
                        request.region_id,
                        datacenter_of(servers@, self_server_id),
                        geodns_enabled,
                        *distance,
                        out@[k].1,
                    )
                },
        decreases servers@.len() - i,
    {
        let server = &servers[i];
        let ghost prefix = servers@.take(i as int);
        let ghost next = servers@.take(i + 1);
        proof {
            reveal(Seq::filter);
            assert(next.drop_last() =~= prefix);
            assert(next.last() == servers@[i as int]);
        }
        let passes = match filter {
            Some(f) => server.server_id == f,
            None => true,
        };
        if passes {
            let jitter = load_jitter();
            let p = server_priority(server, request, self_datacenter, geodns_enabled, distance, jitter);
            proof {
                assert(priority_given(
                    *server,
                    request.server_id,
                    request.region_id,
                    datacenter_of(servers@, self_server_id),
                    geodns_enabled,
                    *distance,
                    jitter,
                    p,
                ));
            }
            out.push((server.server_id, p));
        }
        i = i + 1;
    }
    proof {
        assert(servers@.take(servers@.len() as int) =~= servers@);
    }
    out
}

/// The index of the best priority (the first of equally good ones), if any.
pub open spec fn best_index(p: Seq<(ServerId, ServerPriority)>) -> Option<int> {
    if p.len() == 0 {
        None
    } else {
        Some(
            choose|i: int|
                #![trigger p[i]]
                0 <= i < p.len() && (forall|j: int| 0 <= j < p.len() ==> !better(p[j].1, p[i].1)) && (forall|j: int|
                    0 <= j < i ==> better(p[i].1, p[j].1)),
        )
    }
}

proof fn lemma_better_order(a: ServerPriority, b: ServerPriority, c: ServerPriority)
    ensures
        !better(a, a),
        better(a, b) ==> !better(b, a),
        better(a, b) && better(b, c) ==> better(a, c),
        !better(a, b) && !better(b, a) ==> a == b,
{
}

/// The server with the best priority (the first of equally good ones), or
/// `fallback` when there is none.
pub fn pick_best(priorities: &Vec<(ServerId, ServerPriority)>, fallback: ServerId) -> (r: ServerId)
    ensures
        r == match best_index(priorities@) {
            Some(i) => priorities@[i].0,
            None => fallback,
        },
{
    if priorities.len() == 0 {
        return fallback;
    }
    let mut best: usize = 0;
    let mut i: usize = 1;
    while i < priorities.len()
        invariant
            1 <= i <= priorities@.len(),
            best < i,
            forall|j: int| 0 <= j < i ==> !better(#[trigger] priorities@[j].1, priorities@[best as int].1),
            forall|j: int| 0 <= j < best ==> better(priorities@[best as int].1, #[trigger] priorities@[j].1),
        decreases priorities@.len() - i,
    {
        if is_better(priorities[i].1, priorities[best].1) {
            proof {
                assert forall|j: int| 0 <= j < i implies better(priorities@[i as int].1, #[trigger] priorities@[j].1) by {
                    lemma_better_order(priorities@[i as int].1, priorities@[best as int].1, priorities@[j].1);
                    lemma_better_order(priorities@[j].1, priorities@[best as int].1, priorities@[i as int].1);
                    if !better(priorities@[best as int].1, priorities@[j].1) {
                        lemma_better_order(priorities@[best as int].1, priorities@[j].1, priorities@[j].1);
                    }
                }
                assert forall|j: int| 0 <= j < i + 1 implies !better(#[trigger] priorities@[j].1, priorities@[i as int].1) by {
                    lemma_better_order(priorities@[j].1, priorities@[i as int].1, priorities@[best as int].1);
                    lemma_better_order(priorities@[i as int].1, priorities@[j].1, priorities@[j].1);
                }
            }
            best = i;
        }
        i = i + 1;
    }
    proof {
        let p = priorities@;
        let c = choose|c: int|
            #![trigger p[c]]
            0 <= c < p.len() && (forall|j: int| 0 <= j < p.len() ==> !better(p[j].1, p[c].1)) && (forall|j: int|
                0 <= j < c ==> better(p[c].1, p[j].1));
        assert(0 <= best < p.len() && (forall|j: int| 0 <= j < p.len() ==> !better(p[j].1, p[best as int].1)) && (
        forall|j: int| 0 <= j < best ==> better(p[best as int].1, p[j].1)));
        if c < best {
            assert(better(p[best as int].1, p[c].1));
        } else if c > best {
            assert(better(p[c].1, p[best as int].1));
        }
    }
    priorities[best].0
}

/// The server a client should use: for the public realm, the best of the
/// servers' priorities (this server when there is none); for another realm,
/// the server the client asked for, else this one.
pub fn ideal_server_id<D: Fn(RegionId, RegionId) -> u8>(
    servers: &Vec<ServerPickerItem>,
    request: &SystemRequest,
    filter: Option<ServerId>,
    self_server_id: ServerId,
    geodns_enabled: bool,
    distance: &D,
) -> (r: ServerId)
    requires
        forall|a: RegionId, b: RegionId| #[trigger] distance.requires((a, b)),
    ensures
        !(request.realm_id matches Some(RealmId::Temporary(_))) ==> exists|p: Seq<(ServerId, ServerPriority)>|
            #[trigger] priorities_for(
                servers@,
                request.server_id,
                request.region_id,
                filter,
                self_server_id,
                geodns_enabled,
                *distance,
                p,
            ) && r == match best_index(p) {
                Some(i) => p[i].0,
                None => self_server_id,
            },
        request.realm_id matches Some(RealmId::Temporary(_)) ==> r == match request.server_id {
            Some(id) => id,
            None => self_server_id,
        },
{
    match request.realm_id {
        Some(RealmId::Temporary(_)) => match request.server_id {
            Some(id) => id,
            None => self_server_id,
        },
        _ => {
            let priorities = server_priorities(servers, request, filter, self_server_id, geodns_enabled, distance);
            pick_best(&priorities, self_server_id)
        },
    }
}

} // verus!
