//! The realms a server keeps, and their periodic collection: a scene stays
//! while it is provisioned, was provisioned lately, or has players still
//! taking part; a realm stays while it has a scene.
use crate::ids::{ArenaId, InvitationId, RealmId, SceneId, ServerId};
use crate::service::invitation::{Invitation, InvitationRepo};
use crate::service::placement::{is_sanctioned, reports_well_formed, sanctioned};
use crate::service::players::{dead_for, Liveness};
use crate::service::topology::ServerUseTopology;
use vstd::prelude::*;

verus! {

/// How long a scene is kept after it was last provisioned.
pub const SANCTION_GRACE_MILLIS: u64 = 120_000;

/// How long a dead client keeps a scene of a public realm open.
pub const DEAD_CLIENT_MILLIS: u64 = 60_000;

/// What the collection reads of a player in a scene.
#[derive(Clone, Copy, Debug)]
pub struct Presence {
    /// The player is a client, not a bot.
    pub is_client: bool,
    pub liveness: Liveness,
}

/// A scene of a realm: when it was last provisioned, and its players.
#[derive(Debug)]
pub struct SceneState {
    pub scene_id: SceneId,
    /// In milliseconds.
    pub last_sanctioned: u64,
    pub players: Vec<Presence>,
}

/// The mathematical value of a `SceneState`.
pub type SceneStateView = (SceneId, u64, Seq<Presence>);

impl View for SceneState {
    type V = SceneStateView;

    open spec fn view(&self) -> SceneStateView {
        (self.scene_id, self.last_sanctioned, self.players@)
    }
}

/// A realm kept by the server, and its scenes.
#[derive(Debug)]
pub struct RealmState {
    pub realm_id: RealmId,
    pub scenes: Vec<SceneState>,
}

/// The mathematical value of a `RealmState`.
pub type RealmStateView = (RealmId, Seq<SceneStateView>);

impl View for RealmState {
    type V = RealmStateView;

    open spec fn view(&self) -> RealmStateView {
        (self.realm_id, self.scenes@.map_values(|s: SceneState| s@))
    }
}

/// The realms' value.
pub open spec fn realms_view(v: Seq<RealmState>) -> Seq<RealmStateView> {
    v.map_values(|r: RealmState| r@)
}

/// A player that keeps its scene open: a client that is alive, or dead
/// for under a minute, or in a temporary realm (which a refreshed browser
/// can come back to).
pub open spec fn keeps_open(temporary: bool, p: Presence, now: u64) -> bool {
    p.is_client && match dead_for(p.liveness, now) {
        Some(d) => temporary || d < DEAD_CLIENT_MILLIS,
        None => true,
    }
}

/// Some player keeps the scene open.
pub open spec fn scene_active(temporary: bool, players: Seq<Presence>, now: u64) -> bool {
    exists|i: int| 0 <= i < players.len() && keeps_open(temporary, #[trigger] players[i], now)
}

/// The scene was provisioned less than the grace period before `now`.
pub open spec fn recently_sanctioned(last: u64, now: u64) -> bool {
    (if now >= last {
        now - last
    } else {
        0
    }) < SANCTION_GRACE_MILLIS
}

/// Whether a collection keeps the scene.
pub open spec fn keeps(
    servers: Seq<(ServerId, ServerUseTopology)>,
    realms_role: bool,
    server_id: ServerId,
    realm_id: RealmId,
    s: SceneStateView,
    now: u64,
) -> bool {
    ||| sanctioned(servers, realms_role, server_id, ArenaId { realm_id, scene_id: s.0 })
    ||| recently_sanctioned(s.1, now)
    ||| scene_active(realm_id is Temporary, s.2, now)
}

/// A kept scene, marked provisioned at `now` when it is.
pub open spec fn refreshed(
    servers: Seq<(ServerId, ServerUseTopology)>,
    realms_role: bool,
    server_id: ServerId,
    realm_id: RealmId,
    s: SceneStateView,
    now: u64,
) -> SceneStateView {
    if sanctioned(servers, realms_role, server_id, ArenaId { realm_id, scene_id: s.0 }) {
        (s.0, now, s.2)
    } else {
        s
    }
}

/// The scenes of a realm that a collection keeps, in order, refreshed.
pub open spec fn collect_scenes(
    servers: Seq<(ServerId, ServerUseTopology)>,
    realms_role: bool,
    server_id: ServerId,
    realm_id: RealmId,
    scenes: Seq<SceneStateView>,
    now: u64,
) -> Seq<SceneStateView>
    decreases scenes.len(),
{
    if scenes.len() == 0 {
        Seq::empty()
    } else {
        let rest = collect_scenes(servers, realms_role, server_id, realm_id, scenes.drop_last(), now);
        if keeps(servers, realms_role, server_id, realm_id, scenes.last(), now) {
            rest.push(refreshed(servers, realms_role, server_id, realm_id, scenes.last(), now))
        } else {
            rest
        }
    }
}

/// The arenas of a realm whose scenes a collection drops.
pub open spec fn dropped_scenes(
    servers: Seq<(ServerId, ServerUseTopology)>,
    realms_role: bool,
    server_id: ServerId,
    realm_id: RealmId,
    scenes: Seq<SceneStateView>,
    now: u64,
) -> Set<ArenaId>
    decreases scenes.len(),
{
    if scenes.len() == 0 {
        Set::empty()
    } else {
        let rest = dropped_scenes(servers, realms_role, server_id, realm_id, scenes.drop_last(), now);
        if keeps(servers, realms_role, server_id, realm_id, scenes.last(), now) {
            rest
        } else {
            rest.insert(ArenaId { realm_id, scene_id: scenes.last().0 })
        }
    }
}

/// The realms after a collection: each realm with the scenes it keeps, in
/// order, and without the realms left with no scene.
pub open spec fn collect(
    servers: Seq<(ServerId, ServerUseTopology)>,
    realms_role: bool,
    server_id: ServerId,
    realms: Seq<RealmStateView>,
    now: u64,
) -> Seq<RealmStateView>
    decreases realms.len(),
{
    if realms.len() == 0 {
        Seq::empty()
    } else {
        let rest = collect(servers, realms_role, server_id, realms.drop_last(), now);
        let r = realms.last();
        let kept = collect_scenes(servers, realms_role, server_id, r.0, r.1, now);
        if kept.len() > 0 {
            rest.push((r.0, kept))
        } else {
            rest
        }
    }
}

/// The arenas whose scenes a collection drops.
pub open spec fn dropped(
    servers: Seq<(ServerId, ServerUseTopology)>,
    realms_role: bool,
    server_id: ServerId,
    realms: Seq<RealmStateView>,
    now: u64,
) -> Set<ArenaId>
    decreases realms.len(),
{
    if realms.len() == 0 {
        Set::empty()
    } else {
        dropped(servers, realms_role, server_id, realms.drop_last(), now).union(
            dropped_scenes(servers, realms_role, server_id, realms.last().0, realms.last().1, now),
        )
    }
}

/// The invitations that remain when those to the arenas `gone` are
/// forgotten.
pub open spec fn without_arenas(m: Map<InvitationId, Invitation>, gone: Set<ArenaId>) -> Map<InvitationId, Invitation> {
    m.restrict(m.dom().filter(|id: InvitationId| !gone.contains(m[id].arena_id)))
}

proof fn lemma_without_arenas_step(m: Map<InvitationId, Invitation>, gone: Set<ArenaId>, a: ArenaId)
    ensures
        ({
            let w = without_arenas(m, gone);
            w.restrict(w.dom().filter(|id: InvitationId| w[id].arena_id != a))
        }) == without_arenas(m, gone.insert(a)),
{
    let w = without_arenas(m, gone);
    assert(w.restrict(w.dom().filter(|id: InvitationId| w[id].arena_id != a)) =~= without_arenas(
        m,
        gone.insert(a),
    ));
}

proof fn lemma_without_arenas_empty(m: Map<InvitationId, Invitation>)
    ensures
        without_arenas(m, Set::empty()) == m,
{
    assert(without_arenas(m, Set::empty()) =~= m);
}

proof fn lemma_collect_scenes_again(
    servers: Seq<(ServerId, ServerUseTopology)>,
    realms_role: bool,
    server_id: ServerId,
    realm_id: RealmId,
    scenes: Seq<SceneStateView>,
    now: u64,
)
    ensures
        ({
            let c = collect_scenes(servers, realms_role, server_id, realm_id, scenes, now);
            &&& collect_scenes(servers, realms_role, server_id, realm_id, c, now) == c
            &&& dropped_scenes(servers, realms_role, server_id, realm_id, c, now) == Set::<ArenaId>::empty()
        }),
    decreases scenes.len(),
{
    if scenes.len() > 0 {
        let prefix = scenes.drop_last();
        lemma_collect_scenes_again(servers, realms_role, server_id, realm_id, prefix, now);
        let c = collect_scenes(servers, realms_role, server_id, realm_id, scenes, now);
        let x = scenes.last();
        if keeps(servers, realms_role, server_id, realm_id, x, now) {
            let y = refreshed(servers, realms_role, server_id, realm_id, x, now);
            assert(c.drop_last() =~= collect_scenes(servers, realms_role, server_id, realm_id, prefix, now));
            assert(c.last() == y);
            assert(keeps(servers, realms_role, server_id, realm_id, y, now));
            assert(refreshed(servers, realms_role, server_id, realm_id, y, now) == y);
        }
    }
}

/// Collecting is idempotent: a second collection at the same moment keeps
/// every realm and scene as the first left them and forgets no invitation.
pub proof fn law_collect_idempotent(
    servers: Seq<(ServerId, ServerUseTopology)>,
    realms_role: bool,
    server_id: ServerId,
    realms: Seq<RealmStateView>,
    now: u64,
)
    ensures
        ({
            let c = collect(servers, realms_role, server_id, realms, now);
            &&& collect(servers, realms_role, server_id, c, now) == c
            &&& dropped(servers, realms_role, server_id, c, now) == Set::<ArenaId>::empty()
        }),
    decreases realms.len(),
{
    if realms.len() > 0 {
        let prefix = realms.drop_last();
        law_collect_idempotent(servers, realms_role, server_id, prefix, now);
        let r = realms.last();
        let kept = collect_scenes(servers, realms_role, server_id, r.0, r.1, now);
        lemma_collect_scenes_again(servers, realms_role, server_id, r.0, r.1, now);
        let c = collect(servers, realms_role, server_id, realms, now);
        let cp = collect(servers, realms_role, server_id, prefix, now);
        if kept.len() > 0 {
            assert(c.drop_last() =~= cp);
            assert(c.last() == (r.0, kept));
            assert(dropped(servers, realms_role, server_id, c, now) =~= Set::<ArenaId>::empty());
        }
    }
}

proof fn lemma_dropped_scenes_unprovisioned(
    servers: Seq<(ServerId, ServerUseTopology)>,
    realms_role: bool,
    server_id: ServerId,
    realm_id: RealmId,
    scenes: Seq<SceneStateView>,
    now: u64,
    a: ArenaId,
)
    requires
        dropped_scenes(servers, realms_role, server_id, realm_id, scenes, now).contains(a),
    ensures
        !sanctioned(servers, realms_role, server_id, a),
    decreases scenes.len(),
{
    let prefix = scenes.drop_last();
    if dropped_scenes(servers, realms_role, server_id, realm_id, prefix, now).contains(a) {
        lemma_dropped_scenes_unprovisioned(servers, realms_role, server_id, realm_id, prefix, now, a);
    }
}

/// A collection never drops a provisioned arena: every arena whose
/// invitations it forgets is one the servers' reports do not sanction.
pub proof fn law_provisioned_arenas_stay(
    servers: Seq<(ServerId, ServerUseTopology)>,
    realms_role: bool,
    server_id: ServerId,
    realms: Seq<RealmStateView>,
    now: u64,
    a: ArenaId,
)
    requires
        dropped(servers, realms_role, server_id, realms, now).contains(a),
    ensures
        !sanctioned(servers, realms_role, server_id, a),
    decreases realms.len(),
{
    let prefix = realms.drop_last();
    if dropped(servers, realms_role, server_id, prefix, now).contains(a) {
        law_provisioned_arenas_stay(servers, realms_role, server_id, prefix, now, a);
    } else {
        lemma_dropped_scenes_unprovisioned(servers, realms_role, server_id, realms.last().0, realms.last().1, now, a);
    }
}

/// Only clients keep a scene open: a bot, alive or not, never does.
pub proof fn law_bots_never_keep_scenes_open(temporary: bool, p: Presence, now: u64)
    requires
        !p.is_client,
    ensures
        !keeps_open(temporary, p, now),
{
}

proof fn lemma_dropped_scenes_has(
    servers: Seq<(ServerId, ServerUseTopology)>,
    realms_role: bool,
    server_id: ServerId,
    realm_id: RealmId,
    scenes: Seq<SceneStateView>,
    now: u64,
    k: int,
)
    requires
        0 <= k < scenes.len(),
        !keeps(servers, realms_role, server_id, realm_id, scenes[k], now),
    ensures
        dropped_scenes(servers, realms_role, server_id, realm_id, scenes, now).contains(
            ArenaId { realm_id, scene_id: scenes[k].0 },
        ),
    decreases scenes.len(),
{
    if k < scenes.len() - 1 {
        lemma_dropped_scenes_has(servers, realms_role, server_id, realm_id, scenes.drop_last(), now, k);
    }
}

proof fn lemma_dropped_has(
    servers: Seq<(ServerId, ServerUseTopology)>,
    realms_role: bool,
    server_id: ServerId,
    realms: Seq<RealmStateView>,
    now: u64,
    i: int,
    k: int,
)
    requires
        0 <= i < realms.len(),
        0 <= k < realms[i].1.len(),
        !keeps(servers, realms_role, server_id, realms[i].0, realms[i].1[k], now),
    ensures
        dropped(servers, realms_role, server_id, realms, now).contains(
            ArenaId { realm_id: realms[i].0, scene_id: realms[i].1[k].0 },
        ),
    decreases realms.len(),
{
    if i < realms.len() - 1 {
        lemma_dropped_has(servers, realms_role, server_id, realms.drop_last(), now, i, k);
    } else {
        lemma_dropped_scenes_has(servers, realms_role, server_id, realms[i].0, realms[i].1, now, k);
    }
}

/// A scene whose players are all bots, that is not provisioned and was not
/// provisioned within the grace period, is dropped by a collection: its
/// arena is among those whose invitations are forgotten.
pub proof fn law_scene_of_bots_is_dropped(
    servers: Seq<(ServerId, ServerUseTopology)>,
    realms_role: bool,
    server_id: ServerId,
    realms: Seq<RealmStateView>,
    now: u64,
    i: int,
    k: int,
)
    requires
        0 <= i < realms.len(),
        0 <= k < realms[i].1.len(),
        forall|j: int| 0 <= j < realms[i].1[k].2.len() ==> !(#[trigger] realms[i].1[k].2[j]).is_client,
        !sanctioned(servers, realms_role, server_id, ArenaId { realm_id: realms[i].0, scene_id: realms[i].1[k].0 }),
        !recently_sanctioned(realms[i].1[k].1, now),
    ensures
        dropped(servers, realms_role, server_id, realms, now).contains(
            ArenaId { realm_id: realms[i].0, scene_id: realms[i].1[k].0 },
        ),
{
    let s = realms[i].1[k];
    assert(!scene_active(realms[i].0 is Temporary, s.2, now)) by {
        assert forall|j: int| 0 <= j < s.2.len() implies !keeps_open(realms[i].0 is Temporary, #[trigger] s.2[j], now) by {
            law_bots_never_keep_scenes_open(realms[i].0 is Temporary, s.2[j], now);
        }
    }
    lemma_dropped_has(servers, realms_role, server_id, realms, now, i, k);
}

/// Whether a player keeps its scene open at `now` (see `keeps_open`).
fn presence_keeps_open(temporary: bool, p: Presence, now: u64) -> (r: bool)
    ensures
        r == keeps_open(temporary, p, now),
{
    if !p.is_client {
        return false;
    }
    match p.liveness.not_alive_duration(now) {
        Some(d) => temporary || d < DEAD_CLIENT_MILLIS,
        None => true,
    }
}

/// Whether some player keeps the scene open at `now`.
fn any_keeps_open(temporary: bool, players: &Vec<Presence>, now: u64) -> (r: bool)
    ensures
        r == scene_active(temporary, players@, now),
{
    let mut i: usize = 0;
    while i < players.len()
        invariant
            i <= players@.len(),
            forall|j: int| 0 <= j < i ==> !keeps_open(temporary, #[trigger] players@[j], now),
        decreases players@.len() - i,
    {
        if presence_keeps_open(temporary, players[i], now) {
            return true;
        }
        i = i + 1;
    }
    false
}

/// Collects the scenes of one realm: keeps those the collection keeps (in
/// order, marked provisioned at `now` when they are) and forgets the
/// invitations to the others.
fn collect_realm_scenes(
    scenes: Vec<SceneState>,
    servers: &Vec<(ServerId, ServerUseTopology)>,
    realms_role: bool,
    server_id: ServerId,
    realm_id: RealmId,
    now: u64,
    invitations: &mut InvitationRepo,
) -> (r: Vec<SceneState>)
    requires
        reports_well_formed(servers@),
    ensures
        r@.map_values(|s: SceneState| s@) == collect_scenes(
            servers@,
            realms_role,
            server_id,
            realm_id,
            scenes@.map_values(|s: SceneState| s@),
            now,
        ),
        final(invitations)@ == without_arenas(
            old(invitations)@,
            dropped_scenes(servers@, realms_role, server_id, realm_id, scenes@.map_values(|s: SceneState| s@), now),
        ),
{
    let ghost sv = servers@;
    let ghost all = scenes@.map_values(|s: SceneState| s@);
    let ghost m0 = invitations@;
    let temporary = matches!(realm_id, RealmId::Temporary(_));
    let mut rest = scenes;
    let mut kept: Vec<SceneState> = Vec::new();
    let ghost mut done: int = 0;
    proof {
        lemma_without_arenas_empty(m0);
        assert(all.subrange(0, 0) =~= Seq::<SceneStateView>::empty());
        assert(kept@.map_values(|s: SceneState| s@) =~= Seq::<SceneStateView>::empty());
        assert(rest@.map_values(|s: SceneState| s@) =~= all.subrange(0, all.len() as int));
    }
    while rest.len() > 0
        invariant
            sv == servers@,
            reports_well_formed(sv),
            temporary == (realm_id is Temporary),
            0 <= done <= all.len(),
            rest@.len() == all.len() - done,
            rest@.map_values(|s: SceneState| s@) == all.subrange(done, all.len() as int),
            kept@.map_values(|s: SceneState| s@) == collect_scenes(
                sv,
                realms_role,
                server_id,
                realm_id,
                all.subrange(0, done),
                now,
            ),
            invitations@ == without_arenas(
                m0,
                dropped_scenes(sv, realms_role, server_id, realm_id, all.subrange(0, done), now),
            ),
        decreases rest@.len(),
    {
        let ghost before = rest@;
        let mut scene = rest.remove(0);
        proof {
            assert(before.map_values(|s: SceneState| s@)[0] == before[0]@);
            assert(all.subrange(done, all.len() as int)[0] == all[done]);
            assert(scene@ == all[done]);
            assert forall|j: int| 0 <= j < rest@.len() implies #[trigger] rest@[j]@ == all[done + 1 + j] by {
                assert(rest@[j] == before[j + 1]);
                assert(before.map_values(|s: SceneState| s@)[j + 1] == before[j + 1]@);
                assert(all.subrange(done, all.len() as int)[j + 1] == all[done + 1 + j]);
            }
            assert(all.subrange(0, done + 1).drop_last() =~= all.subrange(0, done));
            assert(all.subrange(0, done + 1).last() == all[done]);
            assert(rest@.map_values(|s: SceneState| s@) =~= all.subrange(done + 1, all.len() as int));
        }
        let arena_id = ArenaId { realm_id, scene_id: scene.scene_id };
        let is_provisioned = is_sanctioned(servers, realms_role, server_id, arena_id);
        let was_provisioned = now.saturating_sub(scene.last_sanctioned) < SANCTION_GRACE_MILLIS;
        let active = any_keeps_open(temporary, &scene.players, now);
        if is_provisioned || was_provisioned || active {
            if is_provisioned {
                scene.last_sanctioned = now;
            }
            let ghost prev = kept@;
            kept.push(scene);
            proof {
                assert(kept@.map_values(|s: SceneState| s@) =~= prev.map_values(|s: SceneState| s@).push(
                    refreshed(sv, realms_role, server_id, realm_id, all[done], now),
                ));
            }
        } else {
            proof {
                lemma_without_arenas_step(
                    m0,
                    dropped_scenes(sv, realms_role, server_id, realm_id, all.subrange(0, done), now),
                    arena_id,
                );
            }
            invitations.forget_arena_invitations(arena_id);
        }
        proof {
            done = done + 1;
        }
    }
    proof {
        assert(all.subrange(0, done) =~= all);
    }
    kept
}

/// Collects the realms, unless `rate_limited`: each realm keeps the scenes
/// that are provisioned (marked so at `now`), were provisioned within the
/// grace period, or have a player keeping them open; the invitations to the
/// dropped scenes are forgotten, and realms left with no scene go.
pub fn collect_arenas(
    realms: &mut Vec<RealmState>,
    servers: &Vec<(ServerId, ServerUseTopology)>,
    realms_role: bool,
    server_id: ServerId,
    now: u64,
    rate_limited: bool,
    invitations: &mut InvitationRepo,
)
    requires
        reports_well_formed(servers@),
    ensures
        rate_limited ==> realms_view(final(realms)@) == realms_view(old(realms)@) && final(invitations)@ == old(
            invitations,
        )@,
        !rate_limited ==> realms_view(final(realms)@) == collect(
            servers@,
            realms_role,
            server_id,
            realms_view(old(realms)@),
            now,
        ),
        !rate_limited ==> final(invitations)@ == without_arenas(
            old(invitations)@,
            dropped(servers@, realms_role, server_id, realms_view(old(realms)@), now),
        ),
{
    if rate_limited {
        return;
    }
    let ghost sv = servers@;
    let ghost all = realms_view(realms@);
    let ghost m0 = invitations@;
    let mut rest: Vec<RealmState> = Vec::new();
    std::mem::swap(&mut rest, realms);
    let mut kept: Vec<RealmState> = Vec::new();
    let ghost mut done: int = 0;
    proof {
        lemma_without_arenas_empty(m0);
        assert(realms_view(kept@) =~= Seq::<RealmStateView>::empty());
        assert(realms_view(rest@) =~= all.subrange(0, all.len() as int));
    }
    while rest.len() > 0
        invariant
            sv == servers@,
            reports_well_formed(sv),
            0 <= done <= all.len(),
            rest@.len() == all.len() - done,
            realms_view(rest@) == all.subrange(done, all.len() as int),
            realms_view(kept@) == collect(sv, realms_role, server_id, all.subrange(0, done), now),
            invitations@ == without_arenas(m0, dropped(sv, realms_role, server_id, all.subrange(0, done), now)),
        decreases rest@.len(),
    {
        let ghost before = rest@;
        let realm = rest.remove(0);
        proof {
            assert(realms_view(before)[0] == before[0]@);
            assert(all.subrange(done, all.len() as int)[0] == all[done]);
            assert(realm@ == all[done]);
            assert forall|j: int| 0 <= j < rest@.len() implies #[trigger] rest@[j]@ == all[done + 1 + j] by {
                assert(rest@[j] == before[j + 1]);
                assert(realms_view(before)[j + 1] == before[j + 1]@);
                assert(all.subrange(done, all.len() as int)[j + 1] == all[done + 1 + j]);
            }
            assert(all.subrange(0, done + 1).drop_last() =~= all.subrange(0, done));
            assert(all.subrange(0, done + 1).last() == all[done]);
            assert(realms_view(rest@) =~= all.subrange(done + 1, all.len() as int));
        }
        let realm_id = realm.realm_id;
        let ghost m1 = invitations@;
        let scenes = collect_realm_scenes(realm.scenes, servers, realms_role, server_id, realm_id, now, invitations);
        proof {
            let d0 = dropped(sv, realms_role, server_id, all.subrange(0, done), now);
            let d1 = dropped_scenes(sv, realms_role, server_id, all[done].0, all[done].1, now);
            assert(invitations@ =~= without_arenas(m0, d0.union(d1)));
        }
        if scenes.len() > 0 {
            let ghost prev = kept@;
            let r = RealmState { realm_id, scenes };
            kept.push(r);
            proof {
                assert(realms_view(kept@) =~= realms_view(prev).push((all[done].0, r@.1)));
            }
        }
        proof {
            done = done + 1;
        }
    }
    proof {
        assert(all.subrange(0, done) =~= all);
    }
    *realms = kept;
}

} // verus!
