//! Where a connecting client is placed: which arenas the infrastructure has
//! provisioned on a server, whether another temporary realm may be opened,
//! and which scene of a realm a client asking for a tier joins.
use crate::ids::{ArenaId, RealmId, SceneId, ServerId, TierNumber};
use crate::seq_util::{entry_index, has_entry, lemma_entry_index, unique_keys};
use crate::service::topology::{SceneUseTopology, ServerUseTopology};
use vstd::prelude::*;

verus! {

/// The base tier's first instance, which the public realm always keeps.
pub open spec fn is_base_scene(s: SceneId) -> bool {
    s.tier_number is None && s.instance_number.0 == 0
}

/// Whether the servers' reports say that `server_id` hosts `arena_id`; as a
/// fail-safe, the public realm's base scene counts as hosted unless the
/// server is in the realms role.
pub open spec fn sanctioned(
    servers: Seq<(ServerId, ServerUseTopology)>,
    realms_role: bool,
    server_id: ServerId,
    arena_id: ArenaId,
) -> bool {
    ||| (arena_id.realm_id == RealmId::Public && is_base_scene(arena_id.scene_id) && !realms_role)
    ||| (has_entry(servers, server_id) && has_entry(
        servers[entry_index(servers, server_id)].1.scenes_in(arena_id.realm_id),
        arena_id.scene_id,
    ))
}

/// The servers' reports as a map: each server once, each realm once per
/// server.
pub open spec fn reports_well_formed(servers: Seq<(ServerId, ServerUseTopology)>) -> bool {
    &&& unique_keys(servers)
    &&& forall|i: int| 0 <= i < servers.len() ==> unique_keys(#[trigger] servers[i].1.realms@)
}

/// Whether the scene list names `scene_id`.
fn lists_scene(scenes: &Vec<(SceneId, SceneUseTopology)>, scene_id: SceneId) -> (r: bool)
    ensures
        r == has_entry(scenes@, scene_id),
{
    let mut i: usize = 0;
    while i < scenes.len()
        invariant
            i <= scenes@.len(),
            forall|j: int| 0 <= j < i ==> #[trigger] scenes@[j].0 != scene_id,
        decreases scenes@.len() - i,
    {
        if scenes[i].0 == scene_id {
            return true;
        }
        i = i + 1;
    }
    false
}

/// Whether `arena_id` is provisioned on `server_id`, according to the
/// servers' reports (see `sanctioned`).
pub fn is_sanctioned(
    servers: &Vec<(ServerId, ServerUseTopology)>,
    realms_role: bool,
    server_id: ServerId,
    arena_id: ArenaId,
) -> (r: bool)
    requires
        reports_well_formed(servers@),
    ensures
        r == sanctioned(servers@, realms_role, server_id, arena_id),
{
    if arena_id.realm_id == RealmId::Public && arena_id.scene_id.tier_number.is_none()
        && arena_id.scene_id.instance_number.0 == 0 && !realms_role {
        return true;
    }
    let mut i: usize = 0;
    while i < servers.len()
        invariant
            i <= servers@.len(),
            reports_well_formed(servers@),
            !(arena_id.realm_id == RealmId::Public && is_base_scene(arena_id.scene_id) && !realms_role),
            forall|j: int| 0 <= j < i ==> #[trigger] servers@[j].0 != server_id,
        decreases servers@.len() - i,
    {
        if servers[i].0 == server_id {
            proof {
                lemma_entry_index(servers@, server_id, i as int);
                assert(unique_keys(servers@[i as int].1.realms@));
            }
            let found = match servers[i].1.realm(arena_id.realm_id) {
                Some(realm) => lists_scene(&realm.scenes, arena_id.scene_id),
                None => {
                    proof {
                        assert(servers@[i as int].1.scenes_in(arena_id.realm_id) =~= Seq::empty());
                    }
                    false
                },
            };
            proof {
                assert(entry_index(servers@, server_id) == i);
                assert(found == has_entry(servers@[i as int].1.scenes_in(arena_id.realm_id), arena_id.scene_id));
                assert(has_entry(servers@, server_id)) by {
                    assert(servers@[i as int].0 == server_id);
                }
            }
            return found;
        }
        i = i + 1;
    }
    false
}

/// The number of temporary realms' arenas in the list.
pub open spec fn temporary_count(arena_ids: Seq<ArenaId>) -> nat
    decreases arena_ids.len(),
{
    if arena_ids.len() == 0 {
        0
    } else {
        temporary_count(arena_ids.drop_last()) + if arena_ids.last().realm_id is Temporary {
            1nat
        } else {
            0nat
        }
    }
}

/// Whether another temporary realm may be opened: fewer than `max_temporary`
/// of the local arenas belong to temporary realms, and the server is not
/// redirecting its players elsewhere.
pub fn temporaries_available(arena_ids: &Vec<ArenaId>, max_temporary: usize, redirected: bool) -> (r: bool)
    ensures
        r == (temporary_count(arena_ids@) < max_temporary && !redirected),
{
    let mut count: usize = 0;
    let mut i: usize = 0;
    while i < arena_ids.len()
        invariant
            i <= arena_ids@.len(),
            count == temporary_count(arena_ids@.subrange(0, i as int)),
            count <= i,
        decreases arena_ids@.len() - i,
    {
        proof {
            assert(arena_ids@.subrange(0, i + 1).drop_last() =~= arena_ids@.subrange(0, i as int));
        }
        if matches!(arena_ids[i].realm_id, RealmId::Temporary(_)) {
            count = count + 1;
        }
        i = i + 1;
    }
    proof {
        assert(arena_ids@.subrange(0, arena_ids@.len() as int) =~= arena_ids@);
    }
    count < max_temporary && !redirected
}

/// A tier's height, the base tier being 0.
pub open spec fn tier_height(t: Option<TierNumber>) -> int {
    match t {
        Some(n) => n.0 as int,
        None => 0,
    }
}

/// How many tiers apart two tiers are.
pub open spec fn tier_distance(a: Option<TierNumber>, b: Option<TierNumber>) -> int {
    let d = tier_height(a) - tier_height(b);
    if d >= 0 {
        d
    } else {
        -d
    }
}

/// The distance between tiers is the absolute difference of their heights:
/// never negative, the same both ways, zero exactly at equal heights, and
/// one height minus the other.
pub proof fn law_tier_distance_is_absolute(a: Option<TierNumber>, b: Option<TierNumber>)
    ensures
        tier_distance(a, b) >= 0,
        tier_distance(a, b) == tier_distance(b, a),
        tier_distance(a, b) == 0 <==> tier_height(a) == tier_height(b),
        tier_distance(a, b) == tier_height(a) - tier_height(b) || tier_distance(a, b) == tier_height(b)
            - tier_height(a),
        tier_height(a) >= tier_height(b) ==> tier_distance(a, b) == tier_height(a) - tier_height(b),
        tier_height(a) <= tier_height(b) ==> tier_distance(a, b) == tier_height(b) - tier_height(a),
{
}

/// A scene may take a client when its realm is temporary or it is
/// provisioned on this server.
pub open spec fn scene_eligible(
    servers: Seq<(ServerId, ServerUseTopology)>,
    realms_role: bool,
    server_id: ServerId,
    realm_id: RealmId,
    scene_id: SceneId,
) -> bool {
    realm_id is Temporary || sanctioned(servers, realms_role, server_id, ArenaId { realm_id, scene_id })
}

/// Candidate `i` is closer in tier to `tier`, or as close and emptier, than
/// candidate `j`.
pub open spec fn better(scenes: Seq<(SceneId, u16)>, tier: Option<TierNumber>, i: int, j: int) -> bool {
    let di = tier_distance(scenes[i].0.tier_number, tier);
    let dj = tier_distance(scenes[j].0.tier_number, tier);
    di < dj || (di == dj && scenes[i].1 < scenes[j].1)
}

/// Candidate `b` is the first eligible scene that no eligible scene beats.
pub open spec fn first_best(
    servers: Seq<(ServerId, ServerUseTopology)>,
    realms_role: bool,
    server_id: ServerId,
    realm_id: RealmId,
    scenes: Seq<(SceneId, u16)>,
    tier: Option<TierNumber>,
    b: int,
) -> bool {
    &&& 0 <= b < scenes.len()
    &&& scene_eligible(servers, realms_role, server_id, realm_id, scenes[b].0)
    &&& forall|j: int|
        0 <= j < scenes.len() && scene_eligible(servers, realms_role, server_id, realm_id, #[trigger] scenes[j].0)
            ==> !better(scenes, tier, j, b)
    &&& forall|j: int|
        0 <= j < b && scene_eligible(servers, realms_role, server_id, realm_id, #[trigger] scenes[j].0)
            ==> better(scenes, tier, b, j)
}

/// The scene a placement picks is no farther in tier from the request than
/// any eligible scene (tiers above and below counting alike), and among the
/// eligible scenes as near, it has the fewest live players.
pub proof fn law_nearest_tier_wins(
    servers: Seq<(ServerId, ServerUseTopology)>,
    realms_role: bool,
    server_id: ServerId,
    realm_id: RealmId,
    scenes: Seq<(SceneId, u16)>,
    tier: Option<TierNumber>,
    b: int,
    j: int,
)
    requires
        first_best(servers, realms_role, server_id, realm_id, scenes, tier, b),
        0 <= j < scenes.len(),
        scene_eligible(servers, realms_role, server_id, realm_id, scenes[j].0),
    ensures
        ({
            let hb = tier_height(scenes[b].0.tier_number) - tier_height(tier);
            let hj = tier_height(scenes[j].0.tier_number) - tier_height(tier);
            &&& hb * hb <= hj * hj
            &&& hb * hb == hj * hj ==> scenes[b].1 <= scenes[j].1
        }),
{
    law_tier_distance_is_absolute(scenes[b].0.tier_number, tier);
    law_tier_distance_is_absolute(scenes[j].0.tier_number, tier);
    assert(!better(scenes, tier, j, b));
    let db = tier_distance(scenes[b].0.tier_number, tier);
    let dj = tier_distance(scenes[j].0.tier_number, tier);
    let hb = tier_height(scenes[b].0.tier_number) - tier_height(tier);
    let hj = tier_height(scenes[j].0.tier_number) - tier_height(tier);
    assert(db * db == hb * hb && dj * dj == hj * hj) by (nonlinear_arith)
        requires
            db == hb || db == -hb,
            dj == hj || dj == -hj,
    ;
    assert((db <= dj) == (db * db <= dj * dj) && (db == dj) == (db * db == dj * dj)) by (nonlinear_arith)
        requires
            db >= 0,
            dj >= 0,
    ;
}

/// The absolute difference of two tiers' heights.
fn tier_gap(a: Option<TierNumber>, b: Option<TierNumber>) -> (r: u8)
    ensures
        r == tier_distance(a, b),
{
    let x: u8 = match a {
        Some(n) => n.0,
        None => 0,
    };
    let y: u8 = match b {
        Some(n) => n.0,
        None => 0,
    };
    if x >= y {
        x - y
    } else {
        y - x
    }
}

/// The scene of a realm that a client asking for `tier` joins: among the
/// eligible scenes (see `scene_eligible`), the one nearest in tier, then
/// with the fewest live players, the first of equals; `None` when no scene
/// is eligible. Each candidate is a scene and its live real players.
pub fn choose_scene(
    servers: &Vec<(ServerId, ServerUseTopology)>,
    realms_role: bool,
    server_id: ServerId,
    realm_id: RealmId,
    scenes: &Vec<(SceneId, u16)>,
    tier: Option<TierNumber>,
) -> (r: Option<SceneId>)
    requires
        reports_well_formed(servers@),
    ensures
        r is None <==> forall|j: int|
            0 <= j < scenes@.len() ==> !scene_eligible(servers@, realms_role, server_id, realm_id, #[trigger] scenes@[j].0),
        r matches Some(s) ==> exists|b: int|
            first_best(servers@, realms_role, server_id, realm_id, scenes@, tier, b) && #[trigger] scenes@[b].0 == s,
        r matches Some(s) ==> forall|j: int|
            0 <= j < scenes@.len() && scene_eligible(servers@, realms_role, server_id, realm_id, #[trigger] scenes@[j].0)
                ==> (tier_height(s.tier_number) - tier_height(tier)) * (tier_height(s.tier_number) - tier_height(tier))
                <= (tier_height(scenes@[j].0.tier_number) - tier_height(tier)) * (tier_height(
                scenes@[j].0.tier_number,
            ) - tier_height(tier)),
{
    let ghost sv = servers@;
    let ghost c = scenes@;
    let temporary = matches!(realm_id, RealmId::Temporary(_));
    let mut best: Option<(usize, u8, u16)> = None;
    let mut i: usize = 0;
    while i < scenes.len()
        invariant
            i <= c.len(),
            sv == servers@,
            c == scenes@,
            reports_well_formed(sv),
            temporary == (realm_id is Temporary),
            best is None <==> forall|j: int|
                0 <= j < i ==> !scene_eligible(sv, realms_role, server_id, realm_id, #[trigger] c[j].0),
            best matches Some(t) ==> {
                &&& t.0 < i
                &&& t.1 == tier_distance(c[t.0 as int].0.tier_number, tier)
                &&& t.2 == c[t.0 as int].1
                &&& scene_eligible(sv, realms_role, server_id, realm_id, c[t.0 as int].0)
                &&& forall|j: int|
                    0 <= j < i && scene_eligible(sv, realms_role, server_id, realm_id, #[trigger] c[j].0)
                        ==> !better(c, tier, j, t.0 as int)
                &&& forall|j: int|
                    0 <= j < t.0 && scene_eligible(sv, realms_role, server_id, realm_id, #[trigger] c[j].0)
                        ==> better(c, tier, t.0 as int, j)
            },
        decreases c.len() - i,
    {
        let (scene_id, players) = scenes[i];
        let eligible = temporary || is_sanctioned(
            servers,
            realms_role,
            server_id,
            ArenaId { realm_id, scene_id },
        );
        if eligible {
            let d = tier_gap(scene_id.tier_number, tier);
            match best {
                None => {
                    best = Some((i, d, players));
                },
                Some((b, bd, bp)) => {
                    if d < bd || (d == bd && players < bp) {
                        best = Some((i, d, players));
                    }
                },
            }
        }
        i = i + 1;
    }
    match best {
        Some((b, _, _)) => {
            proof {
                assert(first_best(sv, realms_role, server_id, realm_id, c, tier, b as int));
                assert forall|j: int|
                    0 <= j < c.len() && scene_eligible(sv, realms_role, server_id, realm_id, #[trigger] c[j].0) implies (
                tier_height(c[b as int].0.tier_number) - tier_height(tier)) * (tier_height(c[b as int].0.tier_number)
                    - tier_height(tier)) <= (tier_height(c[j].0.tier_number) - tier_height(tier)) * (tier_height(
                    c[j].0.tier_number,
                ) - tier_height(tier)) by {
                    law_nearest_tier_wins(sv, realms_role, server_id, realm_id, c, tier, b as int, j);
                }
            }
            Some(scenes[b].0)
        },
        None => None,
    }
}

/// The sum of the numbers.
pub open spec fn total(v: Seq<u16>) -> int
    decreases v.len(),
{
    if v.len() == 0 {
        0
    } else {
        total(v.drop_last()) + v.last()
    }
}

/// The players a server reports in its scenes.
pub open spec fn scenes_total(scenes: Seq<(SceneId, SceneUseTopology)>) -> int
    decreases scenes.len(),
{
    if scenes.len() == 0 {
        0
    } else {
        scenes_total(scenes.drop_last()) + scenes.last().1.player_count
    }
}

/// The players the other servers (not `local`) report in realm `realm_id`.
pub open spec fn others_total(servers: Seq<(ServerId, ServerUseTopology)>, local: ServerId, realm_id: RealmId) -> int
    decreases servers.len(),
{
    if servers.len() == 0 {
        0
    } else {
        others_total(servers.drop_last(), local, realm_id) + if servers.last().0 == local {
            0
        } else {
            scenes_total(servers.last().1.scenes_in(realm_id))
        }
    }
}

/// The players online in a realm: the live real players of the local
/// scenes (`local_live`), and those the other servers report in the realm.
pub open spec fn online(
    local_live: Seq<u16>,
    servers: Seq<(ServerId, ServerUseTopology)>,
    local: ServerId,
    realm_id: RealmId,
) -> int {
    total(local_live) + others_total(servers, local, realm_id)
}

proof fn lemma_totals_nonnegative(
    v: Seq<u16>,
    servers: Seq<(ServerId, ServerUseTopology)>,
    local: ServerId,
    realm_id: RealmId,
)
    ensures
        total(v) >= 0,
        others_total(servers, local, realm_id) >= 0,
    decreases v.len() + servers.len(),
{
    if v.len() > 0 {
        lemma_totals_nonnegative(v.drop_last(), servers, local, realm_id);
    }
    if servers.len() > 0 {
        lemma_totals_nonnegative(v, servers.drop_last(), local, realm_id);
        lemma_scenes_total_nonnegative(servers.last().1.scenes_in(realm_id));
    }
}

proof fn lemma_scenes_total_nonnegative(scenes: Seq<(SceneId, SceneUseTopology)>)
    ensures
        scenes_total(scenes) >= 0,
    decreases scenes.len(),
{
    if scenes.len() > 0 {
        lemma_scenes_total_nonnegative(scenes.drop_last());
    }
}

/// The players a scene list reports.
fn sum_scenes(scenes: &Vec<(SceneId, SceneUseTopology)>, bound: u32) -> (r: u32)
    requires
        scenes_total(scenes@) <= bound,
    ensures
        r == scenes_total(scenes@),
{
    let mut sum: u32 = 0;
    let mut i: usize = 0;
    while i < scenes.len()
        invariant
            i <= scenes@.len(),
            scenes_total(scenes@) <= bound,
            sum == scenes_total(scenes@.subrange(0, i as int)),
        decreases scenes@.len() - i,
    {
        proof {
            assert(scenes@.subrange(0, i + 1).drop_last() =~= scenes@.subrange(0, i as int));
            lemma_scenes_prefix_bounded(scenes@, i + 1);
        }
        sum = sum + scenes[i].1.player_count as u32;
        i = i + 1;
    }
    proof {
        assert(scenes@.subrange(0, scenes@.len() as int) =~= scenes@);
    }
    sum
}

proof fn lemma_scenes_prefix_bounded(scenes: Seq<(SceneId, SceneUseTopology)>, k: int)
    requires
        0 <= k <= scenes.len(),
    ensures
        scenes_total(scenes.subrange(0, k)) <= scenes_total(scenes),
    decreases scenes.len(),
{
    if k < scenes.len() {
        assert(scenes.drop_last().subrange(0, k) =~= scenes.subrange(0, k));
        lemma_scenes_prefix_bounded(scenes.drop_last(), k);
    } else {
        assert(scenes.subrange(0, k) =~= scenes);
    }
}

proof fn lemma_total_prefix_bounded(v: Seq<u16>, k: int)
    requires
        0 <= k <= v.len(),
    ensures
        total(v.subrange(0, k)) <= total(v),
    decreases v.len(),
{
    if k < v.len() {
        assert(v.drop_last().subrange(0, k) =~= v.subrange(0, k));
        lemma_total_prefix_bounded(v.drop_last(), k);
    } else {
        assert(v.subrange(0, k) =~= v);
    }
}

proof fn lemma_others_prefix_bounded(
    servers: Seq<(ServerId, ServerUseTopology)>,
    local: ServerId,
    realm_id: RealmId,
    k: int,
)
    requires
        0 <= k <= servers.len(),
    ensures
        others_total(servers.subrange(0, k), local, realm_id) <= others_total(servers, local, realm_id),
    decreases servers.len(),
{
    if k < servers.len() {
        assert(servers.drop_last().subrange(0, k) =~= servers.subrange(0, k));
        lemma_others_prefix_bounded(servers.drop_last(), local, realm_id, k);
        lemma_scenes_total_nonnegative(servers.last().1.scenes_in(realm_id));
    } else {
        assert(servers.subrange(0, k) =~= servers);
    }
}

/// The players online in realm `realm_id` (see `online`), which must fit
/// in 32 bits.
pub fn players_online(
    local_live: &Vec<u16>,
    servers: &Vec<(ServerId, ServerUseTopology)>,
    local: ServerId,
    realm_id: RealmId,
) -> (r: u32)
    requires
        reports_well_formed(servers@),
        online(local_live@, servers@, local, realm_id) <= u32::MAX,
    ensures
        r == online(local_live@, servers@, local, realm_id),
{
    proof {
        lemma_totals_nonnegative(local_live@, servers@, local, realm_id);
    }
    let mut sum: u32 = 0;
    let mut i: usize = 0;
    while i < local_live.len()
        invariant
            i <= local_live@.len(),
            total(local_live@) + others_total(servers@, local, realm_id) <= u32::MAX,
            others_total(servers@, local, realm_id) >= 0,
            sum == total(local_live@.subrange(0, i as int)),
        decreases local_live@.len() - i,
    {
        proof {
            assert(local_live@.subrange(0, i + 1).drop_last() =~= local_live@.subrange(0, i as int));
            lemma_total_prefix_bounded(local_live@, i + 1);
        }
        sum = sum + local_live[i] as u32;
        i = i + 1;
    }
    proof {
        assert(local_live@.subrange(0, local_live@.len() as int) =~= local_live@);
    }
    let ghost base = sum as int;
    let mut j: usize = 0;
    while j < servers.len()
        invariant
            j <= servers@.len(),
            reports_well_formed(servers@),
            base == total(local_live@),
            base + others_total(servers@, local, realm_id) <= u32::MAX,
            sum == base + others_total(servers@.subrange(0, j as int), local, realm_id),
        decreases servers@.len() - j,
    {
        proof {
            assert(servers@.subrange(0, j + 1).drop_last() =~= servers@.subrange(0, j as int));
            lemma_others_prefix_bounded(servers@, local, realm_id, j + 1);
            lemma_totals_nonnegative(local_live@, servers@.subrange(0, j as int), local, realm_id);
        }
        if servers[j].0 != local {
            proof {
                assert(unique_keys(servers@[j as int].1.realms@));
            }
            match servers[j].1.realm(realm_id) {
                Some(realm) => {
                    let bound: u32 = u32::MAX - sum;
                    let add = sum_scenes(&realm.scenes, bound);
                    sum = sum + add;
                },
                None => {
                    proof {
                        assert(servers@[j as int].1.scenes_in(realm_id) =~= Seq::empty());
                    }
                },
            }
        }
        j = j + 1;
    }
    proof {
        assert(servers@.subrange(0, servers@.len() as int) =~= servers@);
    }
    sum
}

} // verus!
