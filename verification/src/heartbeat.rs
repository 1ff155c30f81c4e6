//! When the server reports to the infrastructure: heartbeats spaced by how
//! healthy the connection to it seems, a fail-open when it has gone quiet,
//! and uploads of buffered logs and quest samples. Times are in
//! milliseconds.
use crate::ids::{InstanceNumber, RealmId, RegionId, SceneId, ServerId};
use crate::service::topology::{RealmUseTopology, SceneUseTopology, ServerUseTopology};
use vstd::prelude::*;

verus! {

/// Time counted for an event that never happened.
pub const NEVER_MILLIS: u64 = 3_600_000;

/// Silence after which the connection is considered to hiccup.
pub const HICCUP_MILLIS: u64 = 67_000;

/// How long a hiccup counts as recent.
pub const RECENT_HICCUP_MILLIS: u64 = 180_000;

/// Silence after which the server fails open: it unlists itself and trusts
/// only its own topology.
pub const FAIL_OPEN_MILLIS: u64 = 130_000;

/// Logs buffered up to this many are uploaded at once.
pub const LOG_FLUSH_COUNT: usize = 512;

/// Quest samples buffered up to this many are uploaded at once.
pub const QUEST_FLUSH_COUNT: usize = 20;

/// How long ago `t` was at `now` (`NEVER_MILLIS` if it never was; a time
/// after `now` counts as no time at all).
pub open spec fn since(t: Option<u64>, now: u64) -> int {
    match t {
        Some(x) => if now >= x {
            now - x
        } else {
            0
        },
        None => NEVER_MILLIS as int,
    }
}

fn elapsed(t: Option<u64>, now: u64) -> (r: u64)
    ensures
        r == since(t, now),
{
    match t {
        Some(x) => now.saturating_sub(x),
        None => NEVER_MILLIS,
    }
}

/// The times the heartbeat schedule depends on.
#[derive(Clone, Copy, Debug, PartialEq, Eq, Structural)]
pub struct HeartbeatClock {
    /// The last heartbeat sent.
    pub last_heartbeat: Option<u64>,
    /// The last heartbeat the infrastructure acknowledged.
    pub last_acknowledged: Option<u64>,
    /// The last time the connection was seen to hiccup, while recent.
    pub last_hiccup: Option<u64>,
}

/// What a heartbeat check decided.
#[derive(Clone, Copy, Debug, PartialEq, Eq, Structural)]
pub struct HeartbeatPlan {
    /// Send a heartbeat now.
    pub send: bool,
    /// Fail open first (only when sending).
    pub fail_open: bool,
    /// The connection hiccuped recently.
    pub recent_hiccup: bool,
}

/// The least time between heartbeats: 15 s while the connection hiccups,
/// 30 s after a recent hiccup, 45 s in regions prone to disconnects, and
/// 60 s otherwise.
pub open spec fn heartbeat_interval(hiccup: bool, recent_hiccup: bool, region_id: RegionId) -> int {
    if hiccup {
        15_000
    } else if recent_hiccup {
        30_000
    } else if region_id is Asia || region_id is SouthAmerica {
        45_000
    } else {
        60_000
    }
}

/// A heartbeat check at `now`: the clock after it and the plan.
pub open spec fn heartbeat_step(c: HeartbeatClock, now: u64, region_id: RegionId) -> (HeartbeatClock, HeartbeatPlan) {
    let hiccup = since(c.last_acknowledged, now) > HICCUP_MILLIS;
    let last_hiccup = if hiccup {
        Some(now)
    } else {
        c.last_hiccup
    };
    let recent = since(last_hiccup, now) < RECENT_HICCUP_MILLIS;
    let last_hiccup = if recent {
        last_hiccup
    } else {
        None
    };
    if since(c.last_heartbeat, now) < heartbeat_interval(hiccup, recent, region_id) {
        (
            HeartbeatClock { last_heartbeat: c.last_heartbeat, last_acknowledged: c.last_acknowledged, last_hiccup },
            HeartbeatPlan { send: false, fail_open: false, recent_hiccup: recent },
        )
    } else {
        (
            HeartbeatClock { last_heartbeat: Some(now), last_acknowledged: c.last_acknowledged, last_hiccup },
            HeartbeatPlan {
                send: true,
                fail_open: since(c.last_acknowledged, now) > FAIL_OPEN_MILLIS,
                recent_hiccup: recent,
            },
        )
    }
}

impl HeartbeatClock {
    /// Nothing has happened yet.
    pub fn new() -> (r: Self)
        ensures
            r.last_heartbeat is None,
            r.last_acknowledged is None,
            r.last_hiccup is None,
    {
        HeartbeatClock { last_heartbeat: None, last_acknowledged: None, last_hiccup: None }
    }

    /// The infrastructure acknowledged a heartbeat at `now`.
    pub fn acknowledge(&mut self, now: u64)
        ensures
            *final(self) == (HeartbeatClock { last_acknowledged: Some(now), ..*old(self) }),
    {
        self.last_acknowledged = Some(now);
    }

    /// Checks at `now` whether to send a heartbeat (see `heartbeat_step`).
    pub fn check(&mut self, now: u64, region_id: RegionId) -> (r: HeartbeatPlan)
        ensures
            (*final(self), r) == heartbeat_step(*old(self), now, region_id),
            r.fail_open ==> r.send && match old(self).last_acknowledged {
                Some(t) => now >= t && now - t > 130_000,
                None => true,
            },
    {
        let since_heartbeat = elapsed(self.last_heartbeat, now);
        let since_message = elapsed(self.last_acknowledged, now);
        let hiccup = since_message > HICCUP_MILLIS;
        if hiccup {
            self.last_hiccup = Some(now);
        }
        let recent = elapsed(self.last_hiccup, now) < RECENT_HICCUP_MILLIS;
        if !recent {
            self.last_hiccup = None;
        }
        let interval: u64 = if hiccup {
            15_000
        } else if recent {
            30_000
        } else if matches!(region_id, RegionId::Asia | RegionId::SouthAmerica) {
            45_000
        } else {
            60_000
        };
        if since_heartbeat < interval {
            return HeartbeatPlan { send: false, fail_open: false, recent_hiccup: recent };
        }
        self.last_heartbeat = Some(now);
        proof {
            law_fail_open_needs_long_silence(*old(self), now, region_id);
        }
        HeartbeatPlan { send: true, fail_open: since_message > FAIL_OPEN_MILLIS, recent_hiccup: recent }
    }
}

/// Whether a buffer of `len` items is uploaded at `now`: when it holds
/// `count` items, or holds some and the last upload was never or more than
/// `max_delay` ago.
pub open spec fn flush_due(len: usize, count: usize, last: Option<u64>, now: u64, max_delay: u64) -> bool {
    len >= count || (len > 0 && (last is None || since(last, now) > max_delay))
}

/// Which buffers are uploaded with a heartbeat at `now`: only while the
/// server is closing or the connection has not hiccuped recently; the
/// logs and the quest samples each by `flush_due`, waiting at most 110
/// seconds while closing and an hour otherwise.
pub open spec fn uploads(
    closing: bool,
    recent_hiccup: bool,
    logs: usize,
    last_log: Option<u64>,
    quests: usize,
    last_quests: Option<u64>,
    now: u64,
) -> (bool, bool) {
    if closing || !recent_hiccup {
        let max_delay: u64 = if closing {
            110_000
        } else {
            3_600_000
        };
        (
            flush_due(logs, LOG_FLUSH_COUNT, last_log, now, max_delay),
            flush_due(quests, QUEST_FLUSH_COUNT, last_quests, now, max_delay),
        )
    } else {
        (false, false)
    }
}

/// Which buffers to upload (see `uploads`): the logs, the quest samples.
pub fn plan_uploads(
    closing: bool,
    recent_hiccup: bool,
    logs: usize,
    last_log: Option<u64>,
    quests: usize,
    last_quests: Option<u64>,
    now: u64,
) -> (r: (bool, bool))
    ensures
        r == uploads(closing, recent_hiccup, logs, last_log, quests, last_quests, now),
{
    if !(closing || !recent_hiccup) {
        return (false, false);
    }
    let max_delay: u64 = if closing {
        110_000
    } else {
        3_600_000
    };
    let log_due = logs >= LOG_FLUSH_COUNT || (logs > 0 && (last_log.is_none() || elapsed(last_log, now) > max_delay));
    let quest_due = quests >= QUEST_FLUSH_COUNT || (quests > 0 && (last_quests.is_none() || elapsed(last_quests, now)
        > max_delay));
    (log_due, quest_due)
}

/// Heartbeats are at least 15 seconds apart: after one is sent at `t`, a
/// check less than 15 seconds later sends none.
pub proof fn law_heartbeats_spaced(c: HeartbeatClock, t: u64, later: u64, region_id: RegionId, region_later: RegionId)
    requires
        heartbeat_step(c, t, region_id).1.send,
        t <= later,
        later - t < 15_000,
    ensures
        !heartbeat_step(heartbeat_step(c, t, region_id).0, later, region_later).1.send,
{
}

/// A server that has heard nothing for over 130 seconds sends a heartbeat
/// once 15 seconds have passed since the last, and fails open with it.
pub proof fn law_silence_fails_open(c: HeartbeatClock, now: u64, region_id: RegionId)
    requires
        since(c.last_acknowledged, now) > FAIL_OPEN_MILLIS,
        since(c.last_heartbeat, now) >= 15_000,
    ensures
        heartbeat_step(c, now, region_id).1.send,
        heartbeat_step(c, now, region_id).1.fail_open,
{
}

/// A check fails open only after more than 130 s without an
/// acknowledgement (an hour counting as never), and only when it sends a
/// heartbeat: a shorter hiccup never unlists the server.
pub proof fn law_fail_open_needs_long_silence(c: HeartbeatClock, now: u64, region_id: RegionId)
    ensures
        heartbeat_step(c, now, region_id).1.fail_open ==> heartbeat_step(c, now, region_id).1.send,
        heartbeat_step(c, now, region_id).1.fail_open ==> match c.last_acknowledged {
            Some(t) => now >= t && now - t > 130_000,
            None => true,
        },
        (match c.last_acknowledged {
            Some(t) => now < t || now - t <= 130_000,
            None => false,
        }) ==> !heartbeat_step(c, now, region_id).1.fail_open,
{
}

/// A request sent to the infrastructure with a heartbeat.
#[derive(Clone, Copy, Debug, PartialEq, Eq, Structural)]
pub enum HeartbeatRequest {
    /// Register the server again (after failing open).
    RegisterServer,
    /// The heartbeat itself.
    Heartbeat,
}

/// The requests a heartbeat sends, in order: after failing open the server
/// registers again before the heartbeat.
pub fn heartbeat_requests(fail_open: bool) -> (r: Vec<HeartbeatRequest>)
    ensures
        r@ == if fail_open {
            seq![HeartbeatRequest::RegisterServer, HeartbeatRequest::Heartbeat]
        } else {
            seq![HeartbeatRequest::Heartbeat]
        },
{
    let mut r: Vec<HeartbeatRequest> = Vec::new();
    if fail_open {
        r.push(HeartbeatRequest::RegisterServer);
    }
    r.push(HeartbeatRequest::Heartbeat);
    proof {
        if fail_open {
            assert(r@ =~= seq![HeartbeatRequest::RegisterServer, HeartbeatRequest::Heartbeat]);
        } else {
            assert(r@ =~= seq![HeartbeatRequest::Heartbeat]);
        }
    }
    r
}

/// The base scene: the base tier's first instance.
pub open spec fn base_scene() -> SceneId {
    SceneId { tier_number: None, instance_number: InstanceNumber(0) }
}

/// The servers' reports a server falls back to when it fails open (the
/// server also becomes unlisted): itself alone, in its region, hosting the
/// public realm's base scene with `live_players` players.
pub fn fail_open_servers(server_id: ServerId, region_id: RegionId, live_players: u16) -> (r: Vec<
    (ServerId, ServerUseTopology),
>)
    ensures
        r@.len() == 1,
        r@[0].0 == server_id,
        r@[0].1.region_id == region_id,
        r@[0].1.realms@.len() == 1,
        r@[0].1.realms@[0].0 == RealmId::Public,
        r@[0].1.realms@[0].1.scenes@.len() == 1,
        r@[0].1.realms@[0].1.scenes@[0].0 == base_scene(),
        r@[0].1.realms@[0].1.scenes@[0].1.player_count == live_players,
{
    let mut scenes: Vec<(SceneId, SceneUseTopology)> = Vec::new();
    scenes.push((SceneId { tier_number: None, instance_number: InstanceNumber(0) }, SceneUseTopology { player_count: live_players }));
    let mut realms: Vec<(RealmId, RealmUseTopology)> = Vec::new();
    realms.push((RealmId::Public, RealmUseTopology { scenes }));
    let mut servers: Vec<(ServerId, ServerUseTopology)> = Vec::new();
    servers.push((server_id, ServerUseTopology { region_id, realms }));
    servers
}

} // verus!
