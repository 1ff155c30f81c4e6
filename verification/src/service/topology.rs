//! Which servers host which tiers of the local realm, and where a player
//! walking off the edge of the arena goes next.
use crate::ids::{ArenaId, Cardinal4, InstanceNumber, RealmId, RegionId, SceneId, ServerId, TierNumber};
use crate::seq_util::{
    assoc, entry_index, has_entry, lemma_assoc_at, lemma_assoc_insert, lemma_assoc_push, lemma_assoc_set, lemma_entry_index,
    unique_keys,
};
use rand::seq::SliceRandom;
use vstd::prelude::*;

verus! {

/// A server's share of one tier.
#[derive(Debug)]
pub struct Arena {
    /// Players on the server in this tier.
    pub player_count: u16,
    /// The instances of this tier that the server hosts.
    pub instance_numbers: Vec<InstanceNumber>,
}

/// The mathematical value of an `Arena`.
pub struct ArenaView {
    pub player_count: u16,
    pub instance_numbers: Seq<InstanceNumber>,
}

impl View for Arena {
    type V = ArenaView;

    open spec fn view(&self) -> ArenaView {
        ArenaView { player_count: self.player_count, instance_numbers: self.instance_numbers@ }
    }
}

/// The servers hosting one tier (each server once).
#[derive(Debug)]
pub struct Tier {
    pub arenas: Vec<(ServerId, Arena)>,
}

impl View for Tier {
    type V = Seq<(ServerId, ArenaView)>;

    open spec fn view(&self) -> Seq<(ServerId, ArenaView)> {
        self.arenas@.map_values(|a: (ServerId, Arena)| (a.0, a.1@))
    }
}

/// The arenas of a tier by server.
pub open spec fn server_map(arenas: Seq<(ServerId, ArenaView)>) -> Map<ServerId, ArenaView> {
    assoc(arenas, |a: ArenaView| a)
}

/// The arena of server `s` in a tier, if it hosts one.
pub open spec fn server_lookup(arenas: Seq<(ServerId, ArenaView)>, s: ServerId) -> Option<ArenaView> {
    if server_map(arenas).contains_key(s) {
        Some(server_map(arenas)[s])
    } else {
        None
    }
}

/// An arena with one more scene counted: its players added and its
/// instance appended.
pub open spec fn with_scene(prev: Option<ArenaView>, instance: InstanceNumber, player_count: u16) -> ArenaView {
    match prev {
        Some(a) => ArenaView {
            player_count: (a.player_count + player_count) as u16,
            instance_numbers: a.instance_numbers.push(instance),
        },
        None => ArenaView { player_count, instance_numbers: seq![instance] },
    }
}

/// Inserting a key at its place keeps keys increasing.
proof fn lemma_increasing_insert(keys: Seq<int>, p: int, x: int)
    requires
        increasing(keys),
        0 <= p <= keys.len(),
        forall|i: int| 0 <= i < p ==> #[trigger] keys[i] < x,
        forall|i: int| p <= i < keys.len() ==> #[trigger] keys[i] > x,
    ensures
        increasing(keys.insert(p, x)),
{
    let t = keys.insert(p, x);
    assert forall|i: int, j: int| 0 <= i < j < t.len() implies #[trigger] t[i] < #[trigger] t[j] by {
        if i < p && j < p {
            assert(t[i] == keys[i] && t[j] == keys[j]);
        } else if i < p && j == p {
            assert(t[i] == keys[i]);
        } else if i < p {
            assert(t[i] == keys[i] && t[j] == keys[j - 1]);
        } else if i == p {
            assert(t[j] == keys[j - 1]);
        } else {
            assert(t[i] == keys[i - 1] && t[j] == keys[j - 1]);
        }
    }
}

/// Entries with increasing server ids have distinct servers.
proof fn lemma_server_keys_unique(arenas: Seq<(ServerId, ArenaView)>)
    requires
        increasing(server_keys(arenas)),
    ensures
        unique_keys(arenas),
{
    assert forall|i: int, j: int| 0 <= i < j < arenas.len() implies #[trigger] arenas[i].0 != #[trigger] arenas[j].0 by {
        assert(server_keys(arenas)[i] < server_keys(arenas)[j]);
    }
}

impl Tier {
    /// Servers in order, each hosting an instance, and at least one server.
    pub open spec fn well_formed(&self) -> bool {
        &&& increasing(server_keys(self@))
        &&& forall|j: int| 0 <= j < self@.len() ==> (#[trigger] self@[j]).1.instance_numbers.len() > 0
        &&& self@.len() > 0
    }

    /// Counts one more scene of this tier on a server: its players are
    /// added to the server's arena (created in order if new) and its
    /// instance appended.
    fn add_scene(&mut self, server_id: ServerId, instance: InstanceNumber, player_count: u16)
        requires
            increasing(server_keys(old(self)@)),
            forall|j: int| 0 <= j < old(self)@.len() ==> (#[trigger] old(self)@[j]).1.instance_numbers.len() > 0,
            server_lookup(old(self)@, server_id) matches Some(a) ==> a.player_count + player_count <= u16::MAX,
        ensures
            final(self).well_formed(),
            server_map(final(self)@) == server_map(old(self)@).insert(
                server_id,
                with_scene(server_lookup(old(self)@, server_id), instance, player_count),
            ),
    {
        let ghost av = self@;
        let ghost keys = server_keys(av);
        proof {
            lemma_server_keys_unique(av);
        }
        let mut k: usize = 0;
        while k < self.arenas.len() && self.arenas[k].0.0 < server_id.0
            invariant
                k <= self.arenas@.len(),
                av == self@,
                keys == server_keys(av),
                keys.len() == self.arenas@.len(),
                forall|j: int| 0 <= j < self.arenas@.len() ==> keys[j] == (#[trigger] self.arenas@[j]).0.0 as int,
                forall|j: int| 0 <= j < k ==> #[trigger] keys[j] < server_id.0,
            decreases self.arenas@.len() - k,
        {
            k = k + 1;
        }
        proof {
            assert forall|j: int| k <= j < keys.len() implies #[trigger] keys[j] >= server_id.0 by {
                if j > k {
                    assert(keys[k as int] < keys[j]);
                }
            }
        }
        if k < self.arenas.len() && self.arenas[k].0 == server_id {
            proof {
                lemma_assoc_at(av, |a: ArenaView| a, k as int);
                assert(av[k as int].0 == server_id);
            }
            let ghost before = self.arenas@[k as int].1;
            let old_count = self.arenas[k].1.player_count;
            self.arenas[k].1.player_count = old_count + player_count;
            self.arenas[k].1.instance_numbers.push(instance);
            proof {
                let na = self.arenas@[k as int].1@;
                assert(self@ =~= av.update(k as int, (server_id, na)));
                lemma_assoc_set(av, |a: ArenaView| a, k as int, na);
                assert(server_keys(self@) =~= keys);
                assert forall|j: int| 0 <= j < self@.len() implies (#[trigger] self@[j]).1.instance_numbers.len() > 0 by {
                    if j != k {
                        assert(self@[j] == av[j]);
                    }
                }
            }
        } else {
            proof {
                assert(!has_entry(av, server_id)) by {
                    if has_entry(av, server_id) {
                        let j = choose|j: int| 0 <= j < av.len() && #[trigger] av[j].0 == server_id;
                        assert(keys[j] == server_id.0);
                        if j > k {
                            assert(keys[k as int] < keys[j]);
                            assert(keys[k as int] >= server_id.0);
                        }
                    }
                }
                assert(forall|j: int| k <= j < keys.len() ==> #[trigger] keys[j] > server_id.0) by {
                    assert forall|j: int| k <= j < keys.len() implies #[trigger] keys[j] > server_id.0 by {
                        if keys[j] == server_id.0 {
                            assert(av[j].0 == server_id);
                            assert(has_entry(av, server_id));
                        }
                    }
                }
            }
            let mut instance_numbers: Vec<InstanceNumber> = Vec::new();
            instance_numbers.push(instance);
            let arena = Arena { player_count, instance_numbers };
            self.arenas.insert(k, (server_id, arena));
            proof {
                let na = ArenaView { player_count, instance_numbers: seq![instance] };
                assert(na.instance_numbers =~= arena@.instance_numbers);
                assert(self@ =~= av.insert(k as int, (server_id, na)));
                lemma_assoc_insert(av, |a: ArenaView| a, k as int, server_id, na);
                assert(server_keys(self@) =~= keys.insert(k as int, server_id.0 as int));
                lemma_increasing_insert(keys, k as int, server_id.0 as int);
                assert forall|j: int| 0 <= j < self@.len() implies (#[trigger] self@[j]).1.instance_numbers.len() > 0 by {
                    if j < k {
                        assert(self@[j] == av[j]);
                    } else if j > k {
                        assert(self@[j] == av[j - 1]);
                    }
                }
            }
        }
    }
}

/// A scene that a server reports hosting.
#[derive(Clone, Copy, Debug)]
pub struct SceneUseTopology {
    pub player_count: u16,
}

/// A realm that a server reports hosting: its scenes.
#[derive(Debug)]
pub struct RealmUseTopology {
    pub scenes: Vec<(SceneId, SceneUseTopology)>,
}

/// What a server reports of itself: its region and its realms (each
/// realm once).
#[derive(Debug)]
pub struct ServerUseTopology {
    pub region_id: RegionId,
    pub realms: Vec<(RealmId, RealmUseTopology)>,
}

impl ServerUseTopology {
    /// The scenes this server hosts in a realm (none when it does not host
    /// the realm).
    pub open spec fn scenes_in(self, realm_id: RealmId) -> Seq<(SceneId, SceneUseTopology)> {
        if has_entry(self.realms@, realm_id) {
            self.realms@[entry_index(self.realms@, realm_id)].1.scenes@
        } else {
            Seq::empty()
        }
    }

    /// The realm `realm_id`, if this server hosts it.
    pub fn realm(&self, realm_id: RealmId) -> (r: Option<&RealmUseTopology>)
        requires
            unique_keys(self.realms@),
        ensures
            r is Some <==> has_entry(self.realms@, realm_id),
            r matches Some(realm) ==> realm.scenes@ == self.scenes_in(realm_id),
    {
        let mut i: usize = 0;
        while i < self.realms.len()
            invariant
                i <= self.realms@.len(),
                unique_keys(self.realms@),
                forall|j: int| 0 <= j < i ==> #[trigger] self.realms@[j].0 != realm_id,
            decreases self.realms@.len() - i,
        {
            if self.realms[i].0 == realm_id {
                proof {
                    lemma_entry_index(self.realms@, realm_id, i as int);
                }
                return Some(&self.realms[i].1);
            }
            i = i + 1;
        }
        None
    }
}

/// The instances, in order, of the scenes on tier `t`.
pub open spec fn tier_instances(scenes: Seq<(SceneId, SceneUseTopology)>, t: Option<TierNumber>) -> Seq<InstanceNumber>
    decreases scenes.len(),
{
    if scenes.len() == 0 {
        Seq::empty()
    } else {
        let rest = tier_instances(scenes.drop_last(), t);
        if scenes.last().0.tier_number == t {
            rest.push(scenes.last().0.instance_number)
        } else {
            rest
        }
    }
}

/// The players on the scenes of tier `t`.
pub open spec fn tier_total(scenes: Seq<(SceneId, SceneUseTopology)>, t: Option<TierNumber>) -> int
    decreases scenes.len(),
{
    if scenes.len() == 0 {
        0
    } else {
        let rest = tier_total(scenes.drop_last(), t);
        if scenes.last().0.tier_number == t {
            rest + scenes.last().1.player_count
        } else {
            rest
        }
    }
}

/// The arena that a server with these scenes has on tier `t`: none if it
/// has no scene there, else their players and instances.
pub open spec fn arena_from(scenes: Seq<(SceneId, SceneUseTopology)>, t: Option<TierNumber>) -> Option<ArenaView> {
    if tier_instances(scenes, t).len() > 0 {
        Some(ArenaView { player_count: tier_total(scenes, t) as u16, instance_numbers: tier_instances(scenes, t) })
    } else {
        None
    }
}

/// The arena that server `s` has on tier `t` of realm `realm_id`, by the
/// servers' reports.
pub open spec fn hosted_arena(
    servers: Seq<(ServerId, ServerUseTopology)>,
    realm_id: RealmId,
    t: Option<TierNumber>,
    s: ServerId,
) -> Option<ArenaView> {
    let m = assoc(servers, |v: ServerUseTopology| v.scenes_in(realm_id));
    if m.contains_key(s) {
        arena_from(m[s], t)
    } else {
        None
    }
}

proof fn lemma_tier_total_nonneg(scenes: Seq<(SceneId, SceneUseTopology)>, t: Option<TierNumber>)
    ensures
        tier_total(scenes, t) >= 0,
        tier_instances(scenes, t).len() == 0 ==> tier_total(scenes, t) == 0,
    decreases scenes.len(),
{
    if scenes.len() > 0 {
        lemma_tier_total_nonneg(scenes.drop_last(), t);
    }
}

proof fn lemma_tier_total_prefix(scenes: Seq<(SceneId, SceneUseTopology)>, t: Option<TierNumber>, j: int)
    requires
        0 <= j <= scenes.len(),
    ensures
        0 <= tier_total(scenes.take(j), t) <= tier_total(scenes, t),
    decreases scenes.len(),
{
    if j == scenes.len() {
        assert(scenes.take(j) =~= scenes);
        lemma_tier_total_nonneg(scenes, t);
    } else {
        let d = scenes.drop_last();
        assert(scenes.take(j) =~= d.take(j));
        lemma_tier_total_prefix(d, t, j);
    }
}

/// One more scene counts as `with_scene` on its own tier and leaves the
/// others alone.
proof fn lemma_arena_from_step(scenes: Seq<(SceneId, SceneUseTopology)>, t: Option<TierNumber>, j: int)
    requires
        0 <= j < scenes.len(),
        tier_total(scenes, t) <= u16::MAX,
    ensures
        tier_total(scenes.take(j + 1), t) == tier_total(scenes.take(j), t) + if scenes[j].0.tier_number == t {
            scenes[j].1.player_count as int
        } else {
            0
        },
        arena_from(scenes.take(j + 1), t) == if scenes[j].0.tier_number == t {
            Some(with_scene(arena_from(scenes.take(j), t), scenes[j].0.instance_number, scenes[j].1.player_count))
        } else {
            arena_from(scenes.take(j), t)
        },
{
    let x = scenes.take(j + 1);
    let y = scenes.take(j);
    assert(x.drop_last() =~= y);
    assert(x.last() == scenes[j]);
    lemma_tier_total_prefix(scenes, t, j + 1);
    lemma_tier_total_nonneg(y, t);
    if scenes[j].0.tier_number == t && tier_instances(y, t).len() == 0 {
        assert(tier_instances(x, t) =~= seq![scenes[j].0.instance_number]);
    }
}

/// Where this server and its arena stand among the servers of its realm.
#[derive(Debug)]
pub struct Topology {
    local_server_id: ServerId,
    local_arena_id: ArenaId,
    /// For lag calculations (each server once).
    regions: Vec<(ServerId, RegionId)>,
    /// The tiers of the local realm, in tier order.
    tiers: Vec<(Option<TierNumber>, Tier)>,
}

/// The order of tiers: the base tier first, then by number.
pub open spec fn tier_rank(t: Option<TierNumber>) -> int {
    match t {
        None => 0,
        Some(n) => n.0 + 1,
    }
}

fn rank_of(t: Option<TierNumber>) -> (r: u16)
    ensures
        r == tier_rank(t),
{
    match t {
        None => 0,
        Some(n) => n.0 as u16 + 1,
    }
}

/// The larger tier number (the base tier is the smallest).
pub open spec fn max_tier(a: Option<TierNumber>, b: Option<TierNumber>) -> Option<TierNumber> {
    if tier_rank(a) >= tier_rank(b) {
        a
    } else {
        b
    }
}

/// The keys are strictly increasing.
pub open spec fn increasing(keys: Seq<int>) -> bool {
    forall|i: int, j: int| 0 <= i < j < keys.len() ==> #[trigger] keys[i] < #[trigger] keys[j]
}

/// How many of the increasing keys are below `x` (the position where `x`
/// would go).
pub open spec fn count_below(keys: Seq<int>, x: int) -> int {
    choose|k: int| #[trigger] splits_at(keys, x, k)
}

/// Whether the keys before `k` are below `x` and the rest are not.
pub open spec fn splits_at(keys: Seq<int>, x: int, k: int) -> bool {
    &&& 0 <= k <= keys.len()
    &&& forall|i: int| 0 <= i < k ==> #[trigger] keys[i] < x
    &&& forall|i: int| k <= i < keys.len() ==> #[trigger] keys[i] >= x
}

/// The split point of increasing keys is where a scan finds it.
pub proof fn lemma_count_below(keys: Seq<int>, x: int, k: int)
    requires
        increasing(keys),
        0 <= k <= keys.len(),
        forall|i: int| 0 <= i < k ==> #[trigger] keys[i] < x,
        forall|i: int| k <= i < keys.len() ==> #[trigger] keys[i] >= x,
    ensures
        count_below(keys, x) == k,
{
    assert(splits_at(keys, x, k));
    let c = count_below(keys, x);
    assert(splits_at(keys, x, c));
    if c < k {
        assert(keys[c] < x);
    }
    if k < c {
        assert(keys[k] < x);
    }
}

/// Increasing keys split at some point around any value.
pub proof fn lemma_split_exists(keys: Seq<int>, x: int)
    requires
        increasing(keys),
    ensures
        splits_at(keys, x, count_below(keys, x)),
    decreases keys.len(),
{
    if keys.len() == 0 {
        assert(splits_at(keys, x, 0));
    } else {
        let d = keys.drop_last();
        assert(increasing(d)) by {
            assert forall|i: int, j: int| 0 <= i < j < d.len() implies #[trigger] d[i] < #[trigger] d[j] by {
                assert(keys[i] < keys[j]);
            }
        }
        lemma_split_exists(d, x);
        let k = count_below(d, x);
        let n = keys.len() - 1;
        if k == n && keys[n] < x {
            assert(splits_at(keys, x, n + 1));
        } else {
            assert forall|i: int| k <= i < keys.len() implies #[trigger] keys[i] >= x by {
                if i < n {
                    assert(d[i] >= x);
                } else if k < n {
                    assert(d[k] >= x);
                    assert(keys[k] < keys[n]);
                }
            }
            assert forall|i: int| 0 <= i < k implies #[trigger] keys[i] < x by {
                assert(d[i] < x);
            }
            assert(splits_at(keys, x, k));
        }
    }
}

/// On tiers in order, a vertical move goes to the nearest tier in its
/// direction: up, the least tier above the local one; down, the greatest
/// below; and there is none exactly when no tier lies that way.
pub proof fn law_vertical_target<A>(list: Seq<(Option<TierNumber>, A)>, key: Option<TierNumber>, higher: bool)
    requires
        increasing(tier_keys(list)),
    ensures
        higher ==> (vertical_exists(list, key, true) <==> exists|i: int|
            0 <= i < list.len() && tier_rank(#[trigger] list[i].0) > tier_rank(key)),
        !higher ==> (vertical_exists(list, key, false) <==> exists|i: int|
            0 <= i < list.len() && tier_rank(#[trigger] list[i].0) < tier_rank(key)),
        vertical_exists(list, key, higher) ==> {
            let v = vertical_index(list, key, higher);
            &&& 0 <= v < list.len()
            &&& higher ==> tier_rank(list[v].0) > tier_rank(key)
            &&& !higher ==> tier_rank(list[v].0) < tier_rank(key)
            &&& forall|i: int|
                0 <= i < list.len() ==> (higher && tier_rank(#[trigger] list[i].0) > tier_rank(key) ==> tier_rank(
                    list[v].0,
                ) <= tier_rank(list[i].0)) && (!higher && tier_rank(list[i].0) < tier_rank(key) ==> tier_rank(
                    list[i].0,
                ) <= tier_rank(list[v].0))
        },
{
    let keys = tier_keys(list);
    lemma_split_exists(keys, tier_rank(key) + 1);
    lemma_split_exists(keys, tier_rank(key));
    let up = count_below(keys, tier_rank(key) + 1);
    let down = count_below(keys, tier_rank(key));
    assert forall|i: int| 0 <= i < list.len() implies keys[i] == tier_rank(#[trigger] list[i].0) by {}
    if higher {
        if exists|i: int| 0 <= i < list.len() && tier_rank(#[trigger] list[i].0) > tier_rank(key) {
            let i = choose|i: int| 0 <= i < list.len() && tier_rank(#[trigger] list[i].0) > tier_rank(key);
            assert(keys[i] >= tier_rank(key) + 1);
            assert(up <= i);
        }
        if up < list.len() {
            assert(keys[up] >= tier_rank(key) + 1);
            assert forall|i: int| 0 <= i < list.len() && tier_rank(#[trigger] list[i].0) > tier_rank(key) implies tier_rank(
                list[up].0,
            ) <= tier_rank(list[i].0) by {
                if i < up {
                    assert(keys[i] < tier_rank(key) + 1);
                } else if i > up {
                    assert(keys[up] < keys[i]);
                }
            }
        }
    } else {
        if exists|i: int| 0 <= i < list.len() && tier_rank(#[trigger] list[i].0) < tier_rank(key) {
            let i = choose|i: int| 0 <= i < list.len() && tier_rank(#[trigger] list[i].0) < tier_rank(key);
            assert(down > i);
        }
        if down > 0 {
            let v = down - 1;
            assert(keys[v] < tier_rank(key));
            assert forall|i: int| 0 <= i < list.len() && tier_rank(#[trigger] list[i].0) < tier_rank(key) implies tier_rank(
                list[i].0,
            ) <= tier_rank(list[v].0) by {
                if i > v {
                    assert(keys[i] >= tier_rank(key));
                } else if i < v {
                    assert(keys[i] < keys[v]);
                }
            }
        }
    }
}

/// On a tier whose servers are in increasing id order, a move to the right
/// goes to the least id above this server's (wrapping to the least id), and
/// a move to the left to the greatest id below (wrapping to the greatest).
pub proof fn law_horizontal_target(arenas: Seq<(ServerId, ArenaView)>, local: ServerId, right: bool)
    requires
        increasing(server_keys(arenas)),
        arenas.len() > 0,
    ensures
        ({
            let h = horizontal_index(arenas, local, right);
            &&& 0 <= h < arenas.len()
            &&& right && (exists|i: int| 0 <= i < arenas.len() && (#[trigger] arenas[i]).0.0 > local.0) ==> {
                &&& arenas[h].0.0 > local.0
                &&& forall|i: int| 0 <= i < arenas.len() && (#[trigger] arenas[i]).0.0 > local.0 ==> arenas[h].0.0 <= arenas[i].0.0
            }
            &&& right && !(exists|i: int| 0 <= i < arenas.len() && (#[trigger] arenas[i]).0.0 > local.0) ==> h == 0
            &&& !right && (exists|i: int| 0 <= i < arenas.len() && (#[trigger] arenas[i]).0.0 < local.0) ==> {
                &&& arenas[h].0.0 < local.0
                &&& forall|i: int| 0 <= i < arenas.len() && (#[trigger] arenas[i]).0.0 < local.0 ==> arenas[i].0.0 <= arenas[h].0.0
            }
            &&& !right && !(exists|i: int| 0 <= i < arenas.len() && (#[trigger] arenas[i]).0.0 < local.0) ==> h
                == arenas.len() - 1
        }),
{
    let keys = server_keys(arenas);
    lemma_split_exists(keys, local.0 + 1);
    lemma_split_exists(keys, local.0 as int);
    let up = count_below(keys, local.0 + 1);
    let down = count_below(keys, local.0 as int);
    assert forall|i: int| 0 <= i < arenas.len() implies keys[i] == (#[trigger] arenas[i]).0.0 by {}
    if right {
        if exists|i: int| 0 <= i < arenas.len() && (#[trigger] arenas[i]).0.0 > local.0 {
            let i = choose|i: int| 0 <= i < arenas.len() && (#[trigger] arenas[i]).0.0 > local.0;
            assert(keys[i] >= local.0 + 1);
            assert(up <= i);
            assert(keys[up] >= local.0 + 1);
            assert forall|j: int| 0 <= j < arenas.len() && (#[trigger] arenas[j]).0.0 > local.0 implies arenas[up].0.0
                <= arenas[j].0.0 by {
                if j < up {
                    assert(keys[j] < local.0 + 1);
                } else if j > up {
                    assert(keys[up] < keys[j]);
                }
            }
        } else {
            if up < arenas.len() {
                assert(keys[up] >= local.0 + 1);
                assert(arenas[up].0.0 > local.0);
            }
        }
    } else {
        if exists|i: int| 0 <= i < arenas.len() && (#[trigger] arenas[i]).0.0 < local.0 {
            let i = choose|i: int| 0 <= i < arenas.len() && (#[trigger] arenas[i]).0.0 < local.0;
            assert(down > i);
            let v = down - 1;
            assert(keys[v] < local.0);
            assert forall|j: int| 0 <= j < arenas.len() && (#[trigger] arenas[j]).0.0 < local.0 implies arenas[j].0.0
                <= arenas[v].0.0 by {
                if j > v {
                    assert(keys[j] >= local.0);
                } else if j < v {
                    assert(keys[j] < keys[v]);
                }
            }
        } else {
            if down > 0 {
                assert(keys[0] < local.0);
                assert(arenas[0].0.0 < local.0);
            }
        }
    }
}

/// The server ids of a tier, in order.
pub open spec fn server_keys(s: Seq<(ServerId, ArenaView)>) -> Seq<int> {
    s.map_values(|e: (ServerId, ArenaView)| e.0.0 as int)
}

/// The tier ranks, in order.
pub open spec fn tier_keys<A>(s: Seq<(Option<TierNumber>, A)>) -> Seq<int> {
    s.map_values(|e: (Option<TierNumber>, A)| tier_rank(e.0))
}

/// Whether `r` is a move to the server at position `idx` of `arenas`, on tier
/// `tier` of `realm_id`, to one of the instances that server hosts.
pub open spec fn moves_to(
    r: Option<(ServerId, ArenaId)>,
    arenas: Seq<(ServerId, ArenaView)>,
    idx: int,
    realm_id: RealmId,
    tier: Option<TierNumber>,
) -> bool {
    match r {
        Some((server_id, arena_id)) => {
            &&& server_id == arenas[idx].0
            &&& arena_id.realm_id == realm_id
            &&& arena_id.scene_id.tier_number == tier
            &&& arenas[idx].1.instance_numbers.contains(arena_id.scene_id.instance_number)
        },
        None => false,
    }
}

/// The position of the tier `key` in the tier list (when present).
pub open spec fn tier_index<A>(list: Seq<(Option<TierNumber>, A)>, key: Option<TierNumber>) -> int {
    choose|i: int| 0 <= i < list.len() && list[i].0 == key
}

/// Whether the tier `key` is in the tier list.
pub open spec fn has_tier<A>(list: Seq<(Option<TierNumber>, A)>, key: Option<TierNumber>) -> bool {
    exists|i: int| 0 <= i < list.len() && #[trigger] list[i].0 == key
}

/// The position of the server a horizontal move goes to: to the right, the
/// next higher server id, wrapping to the lowest; to the left, the next
/// lower one, wrapping to the highest.
pub open spec fn horizontal_index(arenas: Seq<(ServerId, ArenaView)>, local: ServerId, right: bool) -> int {
    let keys = server_keys(arenas);
    if right {
        let k = count_below(keys, local.0 + 1);
        if k < arenas.len() {
            k
        } else {
            0
        }
    } else {
        let k = count_below(keys, local.0 as int);
        if k > 0 {
            k - 1
        } else {
            arenas.len() - 1
        }
    }
}

/// What a horizontal move returns: nothing when the local tier is not
/// hosted, has no servers, or the move would stay on this server; otherwise
/// the chosen server, on the local tier, with one of its instances.
pub open spec fn horizontal_outcome(
    list: Seq<(Option<TierNumber>, Seq<(ServerId, ArenaView)>)>,
    local_server: ServerId,
    local_arena: ArenaId,
    right: bool,
    r: Option<(ServerId, ArenaId)>,
) -> bool {
    let key = local_arena.scene_id.tier_number;
    let arenas = list[tier_index(list, key)].1;
    let idx = horizontal_index(arenas, local_server, right);
    &&& !has_tier(list, key) ==> r is None
    &&& has_tier(list, key) && arenas.len() == 0 ==> r is None
    &&& has_tier(list, key) && arenas.len() > 0 && arenas[idx].0 == local_server ==> r is None
    &&& has_tier(list, key) && arenas.len() > 0 && arenas[idx].0 != local_server
        ==> moves_to(r, arenas, idx, local_arena.realm_id, key)
}

/// The position of the tier a vertical move goes to: the next higher tier,
/// or the next lower one (meaningful when `vertical_exists`).
pub open spec fn vertical_index<A>(list: Seq<(Option<TierNumber>, A)>, key: Option<TierNumber>, higher: bool) -> int {
    let keys = tier_keys(list);
    if higher {
        count_below(keys, tier_rank(key) + 1)
    } else {
        count_below(keys, tier_rank(key)) - 1
    }
}

/// Whether there is a tier above (or below) the local one.
pub open spec fn vertical_exists<A>(list: Seq<(Option<TierNumber>, A)>, key: Option<TierNumber>, higher: bool) -> bool {
    let keys = tier_keys(list);
    if higher {
        count_below(keys, tier_rank(key) + 1) < list.len()
    } else {
        count_below(keys, tier_rank(key)) > 0
    }
}

/// What a vertical move returns. With no tier in that direction, nothing.
/// When the local tier is not hosted, the first server of the next tier.
/// Otherwise the server of the next tier at the position that `scale`
/// computes from this server's position among the servers of its tier, the
/// number of those servers and the number in the next tier (capped at the
/// last server); nothing when either tier has no server.
pub open spec fn vertical_outcome<F: Fn(usize, usize, usize) -> usize>(
    list: Seq<(Option<TierNumber>, Seq<(ServerId, ArenaView)>)>,
    local_server: ServerId,
    local_arena: ArenaId,
    higher: bool,
    scale: F,
    r: Option<(ServerId, ArenaId)>,
) -> bool {
    let key = local_arena.scene_id.tier_number;
    let next = list[vertical_index(list, key, higher)];
    let present = has_tier(list, key);
    let cur = list[tier_index(list, key)].1;
    let ci = count_below(server_keys(cur), local_server.0 as int);
    let ct = cur.len();
    let nt = next.1.len();
    &&& !vertical_exists(list, key, higher) ==> r is None
    &&& vertical_exists(list, key, higher) && !present && nt == 0 ==> r is None
    &&& vertical_exists(list, key, higher) && !present && nt > 0
        ==> moves_to(r, next.1, 0, local_arena.realm_id, next.0)
    &&& vertical_exists(list, key, higher) && present && (ct == 0 || nt == 0) ==> r is None
    &&& vertical_exists(list, key, higher) && present && ct > 0 && nt > 0 ==> exists|x: usize|
        #[trigger] scale.ensures((ci as usize, ct as usize, nt as usize), x) && moves_to(
            r,
            next.1,
            if x < nt { x as int } else { nt - 1 },
            local_arena.realm_id,
            next.0,
        )
}

/// Whether every arena of every tier offers a single instance number (it
/// may list it more than once).
pub open spec fn one_instance_each(list: Seq<(Option<TierNumber>, Seq<(ServerId, ArenaView)>)>) -> bool {
    forall|t: int, k: int, a: int, b: int|
        #![trigger list[t].1[k].1.instance_numbers[a], list[t].1[k].1.instance_numbers[b]]
        0 <= t < list.len() && 0 <= k < list[t].1.len() && 0 <= a < list[t].1[k].1.instance_numbers.len() && 0
            <= b < list[t].1[k].1.instance_numbers.len() ==> list[t].1[k].1.instance_numbers[a]
            == list[t].1[k].1.instance_numbers[b]
}

/// Whether `scale` gives one answer to each question.
pub open spec fn deterministic<F: Fn(usize, usize, usize) -> usize>(scale: F) -> bool {
    forall|q: (usize, usize, usize), x: usize, y: usize|
        #[trigger] scale.ensures(q, x) && #[trigger] scale.ensures(q, y) ==> x == y
}

/// Two moves to the same server of the same tier agree where the server
/// offers a single instance.
proof fn lemma_moves_to_unique(
    list: Seq<(Option<TierNumber>, Seq<(ServerId, ArenaView)>)>,
    t: int,
    idx: int,
    realm_id: RealmId,
    tier: Option<TierNumber>,
    r1: Option<(ServerId, ArenaId)>,
    r2: Option<(ServerId, ArenaId)>,
)
    requires
        one_instance_each(list),
        0 <= t < list.len(),
        0 <= idx < list[t].1.len(),
        moves_to(r1, list[t].1, idx, realm_id, tier),
        moves_to(r2, list[t].1, idx, realm_id, tier),
    ensures
        r1 == r2,
{
    let (s1, a1) = r1->0;
    let (s2, a2) = r2->0;
    let ns = list[t].1[idx].1.instance_numbers;
    let i = choose|i: int| 0 <= i < ns.len() && ns[i] == a1.scene_id.instance_number;
    let j = choose|j: int| 0 <= j < ns.len() && ns[j] == a2.scene_id.instance_number;
    assert(list[t].1[idx].1.instance_numbers[i] == list[t].1[idx].1.instance_numbers[j]);
    assert(a1.scene_id == a2.scene_id);
}

/// The tiers of a tier list by tier number.
pub open spec fn tier_map(
    list: Seq<(Option<TierNumber>, Seq<(ServerId, ArenaView)>)>,
) -> Map<Option<TierNumber>, Seq<(ServerId, ArenaView)>> {
    assoc(list, |a: Seq<(ServerId, ArenaView)>| a)
}

/// The arena that server `s` hosts on tier `t`, if any.
pub open spec fn lookup(
    list: Seq<(Option<TierNumber>, Seq<(ServerId, ArenaView)>)>,
    t: Option<TierNumber>,
    s: ServerId,
) -> Option<ArenaView> {
    if tier_map(list).contains_key(t) {
        server_lookup(tier_map(list)[t], s)
    } else {
        None
    }
}

/// Entries with increasing tier ranks have distinct tiers.
proof fn lemma_tier_keys_unique<A>(list: Seq<(Option<TierNumber>, A)>)
    requires
        increasing(tier_keys(list)),
    ensures
        unique_keys(list),
{
    assert forall|i: int, j: int| 0 <= i < j < list.len() implies #[trigger] list[i].0 != #[trigger] list[j].0 by {
        assert(tier_keys(list)[i] < tier_keys(list)[j]);
    }
}

/// On a tier whose servers are in order, moving right and then left comes
/// back to the same server (both moves wrap around the ends).
pub proof fn law_right_then_left(arenas: Seq<(ServerId, ArenaView)>, p: int)
    requires
        increasing(server_keys(arenas)),
        0 <= p < arenas.len(),
    ensures
        horizontal_index(arenas, arenas[horizontal_index(arenas, arenas[p].0, true)].0, false) == p,
        horizontal_index(arenas, arenas[horizontal_index(arenas, arenas[p].0, false)].0, true) == p,
{
    let keys = server_keys(arenas);
    let n = arenas.len() as int;
    assert forall|i: int| 0 <= i < n implies #[trigger] keys[i] == arenas[i].0.0 as int by {}
    lemma_position_count(keys, p);
    let q = horizontal_index(arenas, arenas[p].0, true);
    assert(0 <= q < n);
    lemma_position_count(keys, q);
    let r = horizontal_index(arenas, arenas[p].0, false);
    assert(0 <= r < n);
    lemma_position_count(keys, r);
}

/// Among increasing keys, `count_below` is the position of a key and one
/// more just above it.
proof fn lemma_position_count(keys: Seq<int>, p: int)
    requires
        increasing(keys),
        0 <= p < keys.len(),
    ensures
        count_below(keys, keys[p]) == p,
        count_below(keys, keys[p] + 1) == p + 1,
{
    assert forall|i: int| p <= i < keys.len() implies #[trigger] keys[i] >= keys[p] by {
        if i > p {
            assert(keys[p] < keys[i]);
        }
    }
    assert forall|i: int| 0 <= i < p implies #[trigger] keys[i] < keys[p] by {
        assert(keys[i] < keys[p]);
    }
    lemma_count_below(keys, keys[p], p);
    assert forall|i: int| p + 1 <= i < keys.len() implies #[trigger] keys[i] >= keys[p] + 1 by {
        assert(keys[p] < keys[i]);
    }
    assert forall|i: int| 0 <= i < p + 1 implies #[trigger] keys[i] < keys[p] + 1 by {
        if i < p {
            assert(keys[i] < keys[p]);
        }
    }
    lemma_count_below(keys, keys[p] + 1, p + 1);
}

/// Moving up a tier and then down comes back to the same tier, and the other
/// way round, when the tiers are in order and the local tier is hosted.
pub proof fn law_higher_then_lower<A>(list: Seq<(Option<TierNumber>, A)>, p: int)
    requires
        increasing(tier_keys(list)),
        0 <= p < list.len(),
    ensures
        vertical_exists(list, list[p].0, true) ==> vertical_index(
            list,
            list[vertical_index(list, list[p].0, true)].0,
            false,
        ) == p,
        vertical_exists(list, list[p].0, false) ==> vertical_index(
            list,
            list[vertical_index(list, list[p].0, false)].0,
            true,
        ) == p,
{
    let keys = tier_keys(list);
    assert forall|i: int| 0 <= i < list.len() implies #[trigger] keys[i] == tier_rank(list[i].0) by {}
    lemma_position_count(keys, p);
    if vertical_exists(list, list[p].0, true) {
        lemma_position_count(keys, p + 1);
    }
    if vertical_exists(list, list[p].0, false) {
        lemma_position_count(keys, p - 1);
    }
}

/// Picks one of the instances at random. Trusted: `SliceRandom::choose`
/// returns `None` for an empty slice and otherwise one of its elements.
#[verifier::external_body]
fn choose_instance(instances: &Vec<InstanceNumber>) -> (r: Option<InstanceNumber>)
    ensures
        r is None <==> instances@.len() == 0,
        r matches Some(i) ==> instances@.contains(i),
{
    instances.choose(&mut rand::thread_rng()).copied()
}

impl Topology {
    /// Regions hold each server once; tiers are in order; each tier lists its
    /// servers in order, has at least one, and every arena hosts an instance.
    pub closed spec fn well_formed(&self) -> bool {
        &&& unique_keys(self.regions@)
        &&& increasing(tier_keys(self.tiers@))
        &&& forall|i: int| 0 <= i < self.tiers@.len() ==> (#[trigger] self.tiers@[i]).1.well_formed()
    }

    /// This server.
    pub closed spec fn local_server(&self) -> ServerId {
        self.local_server_id
    }

    /// This server's arena.
    pub closed spec fn local_arena(&self) -> ArenaId {
        self.local_arena_id
    }

    /// The region of each known server.
    pub closed spec fn region_map(&self) -> Map<ServerId, RegionId> {
        assoc(self.regions@, |r: RegionId| r)
    }

    /// The tiers of the local realm in order, each with its servers in order.
    pub closed spec fn tier_list(&self) -> Seq<(Option<TierNumber>, Seq<(ServerId, ArenaView)>)> {
        self.tiers@.map_values(|e: (Option<TierNumber>, Tier)| (e.0, e.1@))
    }

    /// The highest hosted tier, if any (`None` also when only the base tier
    /// is hosted).
    pub open spec fn hosted_max(&self) -> Option<TierNumber> {
        if self.tier_list().len() == 0 {
            None
        } else {
            self.tier_list().last().0
        }
    }

    /// What a well-formed topology promises of its tier list: the tiers are
    /// in increasing order, and each tier has at least one server, lists its
    /// servers in increasing id order, and each server hosts an instance.
    pub proof fn lemma_tiers_ordered(&self)
        requires
            self.well_formed(),
        ensures
            increasing(tier_keys(self.tier_list())),
            forall|i: int|
                0 <= i < self.tier_list().len() ==> {
                    &&& increasing(server_keys(#[trigger] self.tier_list()[i].1))
                    &&& self.tier_list()[i].1.len() > 0
                    &&& forall|j: int|
                        0 <= j < self.tier_list()[i].1.len() ==> (#[trigger] self.tier_list()[i].1[j]).1.instance_numbers.len()
                            > 0
                },
    {
        assert(tier_keys(self.tier_list()) =~= tier_keys(self.tiers@));
        assert forall|i: int| 0 <= i < self.tier_list().len() implies {
            &&& increasing(server_keys(#[trigger] self.tier_list()[i].1))
            &&& self.tier_list()[i].1.len() > 0
            &&& forall|j: int|
                0 <= j < self.tier_list()[i].1.len() ==> (#[trigger] self.tier_list()[i].1[j]).1.instance_numbers.len() > 0
        } by {
            assert(self.tiers@[i].1.well_formed());
            assert(self.tier_list()[i].1 == self.tiers@[i].1@);
        }
    }

    /// Where every arena offers a single instance, each direction has one
    /// outcome (up and down, given a `scale` with one answer to each
    /// question): so north is `next_higher`, east `next_right`, south
    /// `next_lower` and west `next_left`, call for call.
    pub proof fn law_one_outcome_per_direction<F: Fn(usize, usize, usize) -> usize>(
        &self,
        forward: bool,
        scale: F,
        r1: Option<(ServerId, ArenaId)>,
        r2: Option<(ServerId, ArenaId)>,
    )
        requires
            self.well_formed(),
            one_instance_each(self.tier_list()),
        ensures
            horizontal_outcome(self.tier_list(), self.local_server(), self.local_arena(), forward, r1)
                && horizontal_outcome(self.tier_list(), self.local_server(), self.local_arena(), forward, r2)
                ==> r1 == r2,
            deterministic(scale) && vertical_outcome(
                self.tier_list(),
                self.local_server(),
                self.local_arena(),
                forward,
                scale,
                r1,
            ) && vertical_outcome(self.tier_list(), self.local_server(), self.local_arena(), forward, scale, r2)
                ==> r1 == r2,
    {
        let list = self.tier_list();
        let key = self.local_arena().scene_id.tier_number;
        let realm = self.local_arena().realm_id;
        self.lemma_tiers_ordered();
        if horizontal_outcome(list, self.local_server(), self.local_arena(), forward, r1)
            && horizontal_outcome(list, self.local_server(), self.local_arena(), forward, r2) && has_tier(list, key) {
            let t = tier_index(list, key);
            let arenas = list[t].1;
            if arenas.len() > 0 {
                let idx = horizontal_index(arenas, self.local_server(), forward);
                assert(increasing(server_keys(list[t].1)));
                lemma_split_exists(server_keys(arenas), self.local_server().0 + 1);
                lemma_split_exists(server_keys(arenas), self.local_server().0 as int);
                if arenas[idx].0 != self.local_server() {
                    lemma_moves_to_unique(list, t, idx, realm, key, r1, r2);
                }
            }
        }
        if deterministic(scale) && vertical_outcome(list, self.local_server(), self.local_arena(), forward, scale, r1)
            && vertical_outcome(list, self.local_server(), self.local_arena(), forward, scale, r2)
            && vertical_exists(list, key, forward) {
            law_vertical_target(list, key, forward);
            let v = vertical_index(list, key, forward);
            let next = list[v];
            let nt = next.1.len();
            if nt > 0 {
                if !has_tier(list, key) {
                    lemma_moves_to_unique(list, v, 0, realm, next.0, r1, r2);
                } else {
                    let cur = list[tier_index(list, key)].1;
                    let ci = count_below(server_keys(cur), self.local_server().0 as int);
                    let q = (ci as usize, cur.len() as usize, nt as usize);
                    if cur.len() > 0 {
                        let x1 = choose|x: usize|
                            #[trigger] scale.ensures(q, x) && moves_to(
                                r1,
                                next.1,
                                if x < nt { x as int } else { nt - 1 },
                                realm,
                                next.0,
                            );
                        let x2 = choose|x: usize|
                            #[trigger] scale.ensures(q, x) && moves_to(
                                r2,
                                next.1,
                                if x < nt { x as int } else { nt - 1 },
                                realm,
                                next.0,
                            );
                        assert(x1 == x2);
                        lemma_moves_to_unique(list, v, if x1 < nt { x1 as int } else { nt - 1 }, realm, next.0, r1, r2);
                    }
                }
            }
        }
    }

    /// This server.
    pub fn local_server_id(&self) -> (r: ServerId)
        ensures
            r == self.local_server(),
    {
        self.local_server_id
    }

    /// This server's arena.
    pub fn local_arena_id(&self) -> (r: ArenaId)
        ensures
            r == self.local_arena(),
    {
        self.local_arena_id
    }

    /// A topology that knows only the local server.
    pub fn new(local_server_id: ServerId, local_arena_id: ArenaId) -> (r: Self)
        ensures
            r.well_formed(),
            r.local_server() == local_server_id,
            r.local_arena() == local_arena_id,
            r.region_map() == Map::<ServerId, RegionId>::empty(),
            r.tier_list().len() == 0,
    {
        let r = Self { local_server_id, local_arena_id, regions: Vec::new(), tiers: Vec::new() };
        assert(r.region_map() =~= Map::<ServerId, RegionId>::empty());
        r
    }

    /// The region of a server, if known.
    pub fn region_id(&self, server_id: ServerId) -> (r: Option<RegionId>)
        requires
            self.well_formed(),
        ensures
            r is Some <==> self.region_map().contains_key(server_id),
            r matches Some(region) ==> region == self.region_map()[server_id],
    {
        let mut i: usize = 0;
        while i < self.regions.len()
            invariant
                i <= self.regions@.len(),
                unique_keys(self.regions@),
                forall|j: int| 0 <= j < i ==> #[trigger] self.regions@[j].0 != server_id,
            decreases self.regions@.len() - i,
        {
            if self.regions[i].0 == server_id {
                proof {
                    lemma_assoc_at(self.regions@, |r: RegionId| r, i as int);
                }
                return Some(self.regions[i].1);
            }
            i = i + 1;
        }
        None
    }

    /// The highest tier that any server hosts (see `hosted_max`).
    pub fn max_sanctioned_tier_number(&self) -> (r: Option<TierNumber>)
        requires
            self.well_formed(),
        ensures
            r == self.hosted_max(),
    {
        if self.tiers.len() == 0 {
            None
        } else {
            self.tiers[self.tiers.len() - 1].0
        }
    }

    /// The higher of the highest hosted tier and the local tier.
    pub fn max_tier_number(&self) -> (r: Option<TierNumber>)
        requires
            self.well_formed(),
        ensures
            r == max_tier(self.hosted_max(), self.local_arena().scene_id.tier_number),
            tier_rank(self.local_arena().scene_id.tier_number) <= tier_rank(r),
            forall|i: int| 0 <= i < self.tier_list().len() ==> tier_rank(#[trigger] self.tier_list()[i].0) <= tier_rank(r),
    {
        proof {
            self.lemma_tiers_ordered();
            let keys = tier_keys(self.tier_list());
            assert forall|i: int| 0 <= i < self.tier_list().len() implies tier_rank(#[trigger] self.tier_list()[i].0)
                <= tier_rank(self.hosted_max()) by {
                assert(keys[i] == tier_rank(self.tier_list()[i].0));
                let last = self.tier_list().len() - 1;
                assert(keys[last] == tier_rank(self.tier_list()[last].0));
                if i < last {
                    assert(keys[i] < keys[last]);
                }
            }
        }
        let m = self.max_sanctioned_tier_number();
        let local = self.local_arena_id.scene_id.tier_number;
        if rank_of(m) >= rank_of(local) {
            m
        } else {
            local
        }
    }

    /// One more than the highest tier number (counting the base tier).
    pub fn tier_count(&self) -> (r: usize)
        requires
            self.well_formed(),
        ensures
            r == match max_tier(self.hosted_max(), self.local_arena().scene_id.tier_number) {
                Some(n) => n.0 + 1,
                None => 1,
            },
            r >= 1,
            self.local_arena().scene_id.tier_number matches Some(n) ==> n.0 < r,
            forall|i: int|
                0 <= i < self.tier_list().len() ==> (#[trigger] self.tier_list()[i].0 matches Some(n) ==> n.0 < r),
    {
        match self.max_tier_number() {
            Some(n) => n.0 as usize + 1,
            None => 1,
        }
    }

    fn find_tier(&self, key: Option<TierNumber>) -> (r: Option<usize>)
        requires
            self.well_formed(),
        ensures
            r is Some <==> has_tier(self.tier_list(), key),
            r matches Some(i) ==> i == tier_index(self.tier_list(), key) && i < self.tier_list().len(),
    {
        let ghost list = self.tier_list();
        let mut i: usize = 0;
        while i < self.tiers.len()
            invariant
                i <= self.tiers@.len(),
                list == self.tier_list(),
                list.len() == self.tiers@.len(),
                increasing(tier_keys(self.tiers@)),
                forall|j: int| 0 <= j < i ==> #[trigger] list[j].0 != key,
            decreases self.tiers@.len() - i,
        {
            if rank_of(self.tiers[i].0) == rank_of(key) {
                proof {
                    assert(list[i as int].0 == self.tiers@[i as int].0);
                    assert(list[i as int].0 == key);
                    let t = tier_index(list, key);
                    assert(0 <= t < list.len() && list[t].0 == key);
                    if t != i {
                        assert(tier_keys(self.tiers@)[t] == tier_rank(key));
                        assert(tier_keys(self.tiers@)[i as int] == tier_rank(key));
                    }
                }
                return Some(i);
            }
            proof {
                assert(list[i as int].0 == self.tiers@[i as int].0);
            }
            i = i + 1;
        }
        None
    }

    /// Counts one more scene of the local realm on a server: its tier is
    /// created in order if new, and the server's arena there gains the
    /// scene's players and instance.
    fn add_scene(&mut self, server_id: ServerId, scene_id: SceneId, player_count: u16)
        requires
            old(self).well_formed(),
            lookup(old(self).tier_list(), scene_id.tier_number, server_id) matches Some(a)
                ==> a.player_count + player_count <= u16::MAX,
        ensures
            final(self).well_formed(),
            final(self).local_server_id == old(self).local_server_id,
            final(self).local_arena_id == old(self).local_arena_id,
            final(self).regions@ == old(self).regions@,
            forall|t: Option<TierNumber>, s: ServerId|
                !(t == scene_id.tier_number && s == server_id) ==> #[trigger] lookup(final(self).tier_list(), t, s)
                    == lookup(old(self).tier_list(), t, s),
            lookup(final(self).tier_list(), scene_id.tier_number, server_id) == Some(
                with_scene(lookup(old(self).tier_list(), scene_id.tier_number, server_id), scene_id.instance_number, player_count),
            ),
    {
        let key = scene_id.tier_number;
        let rank = rank_of(key) as u32;
        let p = self.tiers_below(rank);
        let ghost list = self.tier_list();
        let ghost keys = tier_keys(list);
        proof {
            assert(keys =~= tier_keys(self.tiers@));
            lemma_tier_keys_unique(list);
        }
        if p < self.tiers.len() && rank_of(self.tiers[p].0) == rank_of(key) {
            proof {
                assert(list[p as int].0 == self.tiers@[p as int].0);
                assert(list[p as int].0 == key);
                lemma_assoc_at(list, |a: Seq<(ServerId, ArenaView)>| a, p as int);
                assert(tier_map(list)[key] == self.tiers@[p as int].1@);
                assert(self.tiers@[p as int].1.well_formed());
            }
            let ghost old_tier = self.tiers@[p as int].1@;
            self.tiers[p].1.add_scene(server_id, scene_id.instance_number, player_count);
            proof {
                let nt = self.tiers@[p as int].1@;
                assert(self.tier_list() =~= list.update(p as int, (key, nt)));
                lemma_assoc_set(list, |a: Seq<(ServerId, ArenaView)>| a, p as int, nt);
                assert(tier_keys(self.tiers@) =~= tier_keys(self.tiers@.update(p as int, self.tiers@[p as int]))) ;
                assert(tier_keys(self.tier_list()) =~= keys);
                assert(tier_keys(self.tiers@) =~= keys);
                assert forall|i: int| 0 <= i < self.tiers@.len() implies (#[trigger] self.tiers@[i]).1.well_formed() by {
                    if i != p {
                        assert(self.tiers@[i] == old(self).tiers@[i]);
                    }
                }
                assert forall|t: Option<TierNumber>, s: ServerId|
                    !(t == key && s == server_id) implies #[trigger] lookup(self.tier_list(), t, s)
                        == lookup(list, t, s) by {
                    if t == key {
                        assert(server_map(nt).contains_key(s) == server_map(old_tier).contains_key(s));
                    }
                }
            }
        } else {
            proof {
                assert(!has_entry(list, key)) by {
                    if has_entry(list, key) {
                        let j = choose|j: int| 0 <= j < list.len() && #[trigger] list[j].0 == key;
                        assert(keys[j] == rank);
                        if j > p {
                            assert(keys[p as int] < keys[j]);
                        }
                        if j == p {
                            assert(list[p as int].0 == self.tiers@[p as int].0);
                        }
                    }
                }
                assert forall|j: int| p <= j < keys.len() implies #[trigger] keys[j] > rank by {
                    if keys[j] == rank {
                        assert(list[j].0 == key);
                        assert(has_entry(list, key));
                    }
                }
                assert(!tier_map(list).contains_key(key));
            }
            let mut tier = Tier { arenas: Vec::new() };
            proof {
                assert(tier@ =~= Seq::<(ServerId, ArenaView)>::empty());
                assert(server_map(tier@) =~= Map::<ServerId, ArenaView>::empty());
            }
            tier.add_scene(server_id, scene_id.instance_number, player_count);
            let ghost nt = tier@;
            self.tiers.insert(p, (key, tier));
            proof {
                assert(self.tier_list() =~= list.insert(p as int, (key, nt)));
                lemma_assoc_insert(list, |a: Seq<(ServerId, ArenaView)>| a, p as int, key, nt);
                assert(tier_keys(self.tiers@) =~= keys.insert(p as int, rank as int));
                lemma_increasing_insert(keys, p as int, rank as int);
                assert forall|i: int| 0 <= i < self.tiers@.len() implies (#[trigger] self.tiers@[i]).1.well_formed() by {
                    if i < p {
                        assert(self.tiers@[i] == old(self).tiers@[i]);
                    } else if i > p {
                        assert(self.tiers@[i] == old(self).tiers@[i - 1]);
                    }
                }
                assert forall|t: Option<TierNumber>, s: ServerId|
                    !(t == key && s == server_id) implies #[trigger] lookup(self.tier_list(), t, s)
                        == lookup(list, t, s) by {
                    if t == key {
                        assert(!server_map(nt).contains_key(s));
                    }
                }
            }
        }
    }

    /// Rebuilds the topology from the servers' reports: every server's
    /// region, and for the local realm the tiers, each with the servers that
    /// host a scene of it, their players and instances.
    pub fn update(&mut self, servers: &Vec<(ServerId, ServerUseTopology)>)
        requires
            unique_keys(servers@),
            forall|i: int| 0 <= i < servers@.len() ==> unique_keys((#[trigger] servers@[i]).1.realms@),
            forall|i: int, t: Option<TierNumber>|
                0 <= i < servers@.len() ==> #[trigger] tier_total(
                    servers@[i].1.scenes_in(old(self).local_arena().realm_id),
                    t,
                ) <= u16::MAX,
        ensures
            final(self).well_formed(),
            final(self).local_server() == old(self).local_server(),
            final(self).local_arena() == old(self).local_arena(),
            final(self).region_map() == assoc(servers@, |v: ServerUseTopology| v.region_id),
            forall|t: Option<TierNumber>, s: ServerId|
                #[trigger] lookup(final(self).tier_list(), t, s) == hosted_arena(
                    servers@,
                    old(self).local_arena().realm_id,
                    t,
                    s,
                ),
    {
        let realm_id = self.local_arena_id.realm_id;
        let ghost sv = servers@;
        self.regions = Vec::new();
        self.tiers = Vec::new();
        proof {
            assert(assoc(self.regions@, |r: RegionId| r) =~= assoc(sv.take(0), |v: ServerUseTopology| v.region_id));
            assert forall|t: Option<TierNumber>, s: ServerId|
                #[trigger] lookup(self.tier_list(), t, s) == hosted_arena(sv.take(0), realm_id, t, s) by {
                assert(!tier_map(self.tier_list()).contains_key(t));
                assert(!has_entry(sv.take(0), s));
            }
        }
        let mut i: usize = 0;
        while i < servers.len()
            invariant
                self.well_formed(),
                self.local_server_id == old(self).local_server_id,
                self.local_arena_id == old(self).local_arena_id,
                realm_id == self.local_arena_id.realm_id,
                i <= sv.len(),
                sv == servers@,
                unique_keys(sv),
                forall|k: int| 0 <= k < sv.len() ==> unique_keys((#[trigger] sv[k]).1.realms@),
                forall|k: int, t: Option<TierNumber>|
                    0 <= k < sv.len() ==> #[trigger] tier_total(sv[k].1.scenes_in(realm_id), t) <= u16::MAX,
                assoc(self.regions@, |r: RegionId| r) == assoc(sv.take(i as int), |v: ServerUseTopology| v.region_id),
                forall|t: Option<TierNumber>, s: ServerId|
                    #[trigger] lookup(self.tier_list(), t, s) == hosted_arena(sv.take(i as int), realm_id, t, s),
            decreases sv.len() - i,
        {
            let server_id = servers[i].0;
            let server = &servers[i].1;
            let ghost prefix = sv.take(i as int);
            proof {
                assert(sv.take(i + 1) =~= prefix.push(sv[i as int]));
                assert(unique_keys(prefix)) by {
                    assert forall|a: int, b: int| 0 <= a < b < prefix.len() implies #[trigger] prefix[a].0 != #[trigger] prefix[b].0 by {
                        assert(prefix[a] == sv[a] && prefix[b] == sv[b]);
                    }
                }
                assert(!has_entry(prefix, server_id)) by {
                    if has_entry(prefix, server_id) {
                        let a = choose|a: int| 0 <= a < prefix.len() && #[trigger] prefix[a].0 == server_id;
                        assert(sv[a].0 == sv[i as int].0);
                    }
                }
                lemma_assoc_push(prefix, |v: ServerUseTopology| v.region_id, server_id, *server);
                lemma_assoc_push(prefix, |v: ServerUseTopology| v.scenes_in(realm_id), server_id, *server);
                assert(!assoc(self.regions@, |r: RegionId| r).contains_key(server_id));
                lemma_assoc_push(self.regions@, |r: RegionId| r, server_id, server.region_id);
            }
            let ghost list0 = self.tier_list();
            self.regions.push((server_id, server.region_id));
            proof {
                assert(unique_keys(sv[i as int].1.realms@));
                assert(self.tier_list() =~= list0);
            }
            match server.realm(realm_id) {
                Some(realm) => {
                    let ghost sc = realm.scenes@;
                    proof {
                        assert(sc == sv[i as int].1.scenes_in(realm_id));
                        assert forall|t: Option<TierNumber>, s: ServerId|
                            #[trigger] lookup(self.tier_list(), t, s) == (if s == server_id {
                                arena_from(sc.take(0), t)
                            } else {
                                hosted_arena(prefix, realm_id, t, s)
                            }) by {
                            if s == server_id {
                                assert(!has_entry(prefix, s));
                                assert(sc.take(0) =~= Seq::<(SceneId, SceneUseTopology)>::empty());
                            }
                        }
                    }
                    let mut j: usize = 0;
                    while j < realm.scenes.len()
                        invariant
                            self.well_formed(),
                            self.local_server_id == old(self).local_server_id,
                            self.local_arena_id == old(self).local_arena_id,
                            j <= sc.len(),
                            sc == realm.scenes@,
                            forall|t: Option<TierNumber>| #[trigger] tier_total(sc, t) <= u16::MAX,
                            assoc(self.regions@, |r: RegionId| r) == assoc(sv.take(i + 1), |v: ServerUseTopology| v.region_id),
                            forall|t: Option<TierNumber>, s: ServerId|
                                #[trigger] lookup(self.tier_list(), t, s) == (if s == server_id {
                                    arena_from(sc.take(j as int), t)
                                } else {
                                    hosted_arena(prefix, realm_id, t, s)
                                }),
                        decreases sc.len() - j,
                    {
                        let scene_id = realm.scenes[j].0;
                        let player_count = realm.scenes[j].1.player_count;
                        let t = scene_id.tier_number;
                        proof {
                            lemma_arena_from_step(sc, t, j as int);
                            lemma_tier_total_prefix(sc, t, j as int + 1);
                            lemma_tier_total_prefix(sc, t, j as int);
                            lemma_tier_total_nonneg(sc.take(j as int), t);
                            assert(lookup(self.tier_list(), t, server_id) == arena_from(sc.take(j as int), t));
                        }
                        self.add_scene(server_id, scene_id, player_count);
                        proof {
                            assert forall|t2: Option<TierNumber>, s: ServerId|
                                #[trigger] lookup(self.tier_list(), t2, s) == (if s == server_id {
                                    arena_from(sc.take(j + 1), t2)
                                } else {
                                    hosted_arena(prefix, realm_id, t2, s)
                                }) by {
                                lemma_arena_from_step(sc, t2, j as int);
                            }
                        }
                        j = j + 1;
                    }
                    proof {
                        assert(sc.take(sc.len() as int) =~= sc);
                    }
                },
                None => {
                    proof {
                        assert forall|t: Option<TierNumber>| #[trigger] arena_from(sv[i as int].1.scenes_in(realm_id), t) is None by {
                            assert(sv[i as int].1.scenes_in(realm_id) =~= Seq::<(SceneId, SceneUseTopology)>::empty());
                        }
                        assert forall|t: Option<TierNumber>, s: ServerId|
                            #[trigger] lookup(self.tier_list(), t, s) == hosted_arena(sv.take(i + 1), realm_id, t, s) by {
                            if s == server_id {
                                assert(!has_entry(prefix, s));
                            }
                        }
                    }
                },
            }
            i = i + 1;
        }
        proof {
            assert(sv.take(sv.len() as int) =~= sv);
        }
    }

    /// The neighbouring server on the local tier, to the right (wrapping)
    /// or left (wrapping), unless that is this server.
    fn next_horizontal(&self, right: bool) -> (r: Option<(ServerId, ArenaId)>)
        requires
            self.well_formed(),
        ensures
            horizontal_outcome(self.tier_list(), self.local_server(), self.local_arena(), right, r),
    {
        let key = self.local_arena_id.scene_id.tier_number;
        let t = match self.find_tier(key) {
            Some(t) => t,
            None => {
                return None;
            },
        };
        let arenas = &self.tiers[t].1.arenas;
        let ghost list = self.tier_list();
        let ghost av = list[t as int].1;
        assert(av.len() == arenas@.len());
        if arenas.len() == 0 {
            return None;
        }
        let local = self.local_server_id;
        let ghost keys = server_keys(av);
        proof {
            assert(increasing(server_keys(self.tier_list()[t as int].1)));
            assert forall|j: int| 0 <= j < arenas@.len() implies keys[j] == (#[trigger] arenas@[j]).0.0 as int by {
                assert(av[j].0 == arenas@[j].0);
            }
        }
        let bound: u32 = if right { local.0 as u32 + 1 } else { local.0 as u32 };
        let mut k: usize = 0;
        while k < arenas.len() && (arenas[k].0.0 as u32) < bound
            invariant
                k <= arenas@.len(),
                keys.len() == arenas@.len(),
                forall|j: int| 0 <= j < arenas@.len() ==> keys[j] == (#[trigger] arenas@[j]).0.0 as int,
                forall|j: int| 0 <= j < k ==> #[trigger] keys[j] < bound,
            decreases arenas@.len() - k,
        {
            k = k + 1;
        }
        proof {
            assert forall|j: int| k <= j < keys.len() implies #[trigger] keys[j] >= bound by {
                if j > k {
                    assert(keys[k as int] < keys[j]);
                }
            }
            lemma_count_below(keys, bound as int, k as int);
        }
        let idx: usize = if right {
            if k < arenas.len() { k } else { 0 }
        } else {
            if k > 0 { k - 1 } else { arenas.len() - 1 }
        };
        let next_server_id = arenas[idx].0;
        proof {
            assert(av[idx as int].0 == next_server_id);
        }
        if next_server_id == local {
            return None;
        }
        let instance = match choose_instance(&arenas[idx].1.instance_numbers) {
            Some(i) => i,
            None => InstanceNumber(0),
        };
        proof {
            assert(self.tiers@[t as int].1.arenas@[idx as int].1.instance_numbers@.len() > 0);
            assert(av[idx as int].1.instance_numbers == arenas@[idx as int].1.instance_numbers@);
        }
        Some((
            next_server_id,
            ArenaId {
                realm_id: self.local_arena_id.realm_id,
                scene_id: SceneId { tier_number: key, instance_number: instance },
            },
        ))
    }

    /// The neighbouring server to the left on the local tier (see
    /// `horizontal_outcome`).
    pub fn next_left(&self) -> (r: Option<(ServerId, ArenaId)>)
        requires
            self.well_formed(),
        ensures
            horizontal_outcome(self.tier_list(), self.local_server(), self.local_arena(), false, r),
    {
        self.next_horizontal(false)
    }

    /// The neighbouring server to the right on the local tier (see
    /// `horizontal_outcome`).
    pub fn next_right(&self) -> (r: Option<(ServerId, ArenaId)>)
        requires
            self.well_formed(),
        ensures
            horizontal_outcome(self.tier_list(), self.local_server(), self.local_arena(), true, r),
    {
        self.next_horizontal(true)
    }

    /// How many of the tiers rank below `bound`.
    fn tiers_below(&self, bound: u32) -> (k: usize)
        requires
            self.well_formed(),
        ensures
            k == count_below(tier_keys(self.tier_list()), bound as int),
            splits_at(tier_keys(self.tier_list()), bound as int, k as int),
            k <= self.tier_list().len(),
    {
        let ghost list = self.tier_list();
        let ghost keys = tier_keys(list);
        proof {
            assert(keys =~= tier_keys(self.tiers@));
        }
        let mut k: usize = 0;
        while k < self.tiers.len() && (rank_of(self.tiers[k].0) as u32) < bound
            invariant
                k <= self.tiers@.len(),
                keys.len() == self.tiers@.len(),
                keys == tier_keys(self.tiers@),
                forall|j: int| 0 <= j < k ==> #[trigger] keys[j] < bound,
            decreases self.tiers@.len() - k,
        {
            k = k + 1;
        }
        proof {
            assert forall|j: int| k <= j < keys.len() implies #[trigger] keys[j] >= bound by {
                if j > k {
                    assert(keys[k as int] < keys[j]);
                }
            }
            lemma_count_below(keys, bound as int, k as int);
            assert(splits_at(keys, bound as int, k as int));
        }
        k
    }

    /// How many servers of tier `t` have ids below `bound`.
    fn servers_below(&self, t: usize, bound: u32) -> (k: usize)
        requires
            self.well_formed(),
            t < self.tier_list().len(),
        ensures
            k == count_below(server_keys(self.tier_list()[t as int].1), bound as int),
            splits_at(server_keys(self.tier_list()[t as int].1), bound as int, k as int),
            k <= self.tier_list()[t as int].1.len(),
    {
        let arenas = &self.tiers[t].1.arenas;
        let ghost av = self.tier_list()[t as int].1;
        let ghost keys = server_keys(av);
        proof {
            assert(increasing(server_keys(self.tier_list()[t as int].1)));
            assert forall|j: int| 0 <= j < arenas@.len() implies keys[j] == (#[trigger] arenas@[j]).0.0 as int by {
                assert(av[j].0 == arenas@[j].0);
            }
        }
        let mut k: usize = 0;
        while k < arenas.len() && (arenas[k].0.0 as u32) < bound
            invariant
                k <= arenas@.len(),
                keys.len() == arenas@.len(),
                forall|j: int| 0 <= j < arenas@.len() ==> keys[j] == (#[trigger] arenas@[j]).0.0 as int,
                forall|j: int| 0 <= j < k ==> #[trigger] keys[j] < bound,
            decreases arenas@.len() - k,
        {
            k = k + 1;
        }
        proof {
            assert forall|j: int| k <= j < keys.len() implies #[trigger] keys[j] >= bound by {
                if j > k {
                    assert(keys[k as int] < keys[j]);
                }
            }
            lemma_count_below(keys, bound as int, k as int);
            assert(splits_at(keys, bound as int, k as int));
        }
        k
    }

    /// The arena id of a random instance that server `i` of tier `t` hosts.
    fn arena_at(&self, t: usize, i: usize) -> (r: (ServerId, ArenaId))
        requires
            self.well_formed(),
            t < self.tier_list().len(),
            i < self.tier_list()[t as int].1.len(),
        ensures
            moves_to(Some(r), self.tier_list()[t as int].1, i as int, self.local_arena().realm_id, self.tier_list()[t as int].0),
    {
        let arenas = &self.tiers[t].1.arenas;
        let ghost av = self.tier_list()[t as int].1;
        proof {
            assert(self.tiers@[t as int].1.well_formed());
            assert(av[i as int].1.instance_numbers == arenas@[i as int].1.instance_numbers@);
            assert(av[i as int].1.instance_numbers.len() > 0);
            assert(av[i as int].0 == arenas@[i as int].0);
        }
        let instance = choose_instance(&arenas[i].1.instance_numbers).unwrap();
        (
            arenas[i].0,
            ArenaId {
                realm_id: self.local_arena_id.realm_id,
                scene_id: SceneId { tier_number: self.tiers[t].0, instance_number: instance },
            },
        )
    }

    /// A server of the next tier up (or down); see `vertical_outcome`.
    fn next_vertical<F: Fn(usize, usize, usize) -> usize>(&self, higher: bool, scale: F) -> (r: Option<(ServerId, ArenaId)>)
        requires
            self.well_formed(),
            forall|a: usize, b: usize, c: usize| #[trigger] scale.requires((a, b, c)),
        ensures
            vertical_outcome(self.tier_list(), self.local_server(), self.local_arena(), higher, scale, r),
    {
        let ghost list = self.tier_list();
        let key = self.local_arena_id.scene_id.tier_number;
        let rank = rank_of(key) as u32;
        let below = self.tiers_below(rank);
        let at_most = self.tiers_below(rank + 1);
        let next: usize = if higher {
            if at_most < self.tiers.len() {
                at_most
            } else {
                return None;
            }
        } else {
            if below > 0 {
                below - 1
            } else {
                return None;
            }
        };
        let ghost keys = tier_keys(list);
        proof {
            assert(keys =~= tier_keys(self.tiers@));
            assert(splits_at(keys, rank as int, below as int));
            assert(splits_at(keys, (rank + 1) as int, at_most as int));
            assert(below <= at_most) by {
                if at_most < below {
                    assert(keys[at_most as int] < rank);
                }
            }
            if at_most > below {
                assert(keys[below as int] == rank);
                assert(list[below as int].0 == key);
            }
            if has_tier(list, key) {
                let i = choose|i: int| 0 <= i < list.len() && #[trigger] list[i].0 == key;
                assert(keys[i] == rank);
                assert(below <= i < at_most);
                let ti = tier_index(list, key);
                assert(keys[ti] == rank);
                assert(below <= ti < at_most);
            }
        }
        let present = at_most > below;
        let next_len = self.tiers[next].1.arenas.len();
        proof {
            assert(list[next as int].1.len() == next_len);
        }
        if !present {
            if next_len == 0 {
                return None;
            }
            return Some(self.arena_at(next, 0));
        }
        proof {
            if at_most > below + 1 {
                assert(keys[below as int] < keys[below + 1]);
            }
            assert(tier_index(list, key) == below);
        }
        let current_index = self.servers_below(below, self.local_server_id.0 as u32);
        let current_total = self.tiers[below].1.arenas.len();
        proof {
            assert(list[below as int].1.len() == current_total);
        }
        if current_total == 0 {
            return None;
        }
        if next_len == 0 {
            return None;
        }
        let next_index = scale(current_index, current_total, next_len);
        let choice = if next_index < next_len - 1 { next_index } else { next_len - 1 };
        let r = self.arena_at(next, choice);
        proof {
            let cur = list[tier_index(list, key)].1;
            assert(cur == list[below as int].1);
            assert(current_index == count_below(server_keys(cur), self.local_server_id.0 as int));
            assert(current_total == cur.len());
            assert(next_len == list[vertical_index(list, key, higher)].1.len());
            assert(scale.ensures((current_index, current_total, next_len), next_index));
            assert(choice == (if next_index < next_len { next_index as int } else { next_len - 1 }));
            let ci = count_below(server_keys(cur), self.local_server().0 as int);
            let ct = cur.len();
            let nt = list[vertical_index(list, key, higher)].1.len();
            assert(ci as usize == current_index && ct as usize == current_total && nt as usize == next_len);
            assert(scale.ensures((ci as usize, ct as usize, nt as usize), next_index));
            assert(moves_to(Some(r), list[vertical_index(list, key, higher)].1, choice as int, self.local_arena().realm_id, list[vertical_index(list, key, higher)].0));
        }
        Some(r)
    }

    /// A server of the next tier up (see `vertical_outcome`); `scale` maps
    /// this server's position among its tier's servers, their number and the
    /// number of servers in the next tier to a position in the next tier.
    pub fn next_higher<F: Fn(usize, usize, usize) -> usize>(&self, scale: F) -> (r: Option<(ServerId, ArenaId)>)
        requires
            self.well_formed(),
            forall|a: usize, b: usize, c: usize| #[trigger] scale.requires((a, b, c)),
        ensures
            vertical_outcome(self.tier_list(), self.local_server(), self.local_arena(), true, scale, r),
    {
        self.next_vertical(true, scale)
    }

    /// A server of the next tier down (see `vertical_outcome` and
    /// `next_higher`).
    pub fn next_lower<F: Fn(usize, usize, usize) -> usize>(&self, scale: F) -> (r: Option<(ServerId, ArenaId)>)
        requires
            self.well_formed(),
            forall|a: usize, b: usize, c: usize| #[trigger] scale.requires((a, b, c)),
        ensures
            vertical_outcome(self.tier_list(), self.local_server(), self.local_arena(), false, scale, r),
    {
        self.next_vertical(false, scale)
    }

    /// The next server in a compass direction: north is up a tier, south
    /// down, east right and west left.
    pub fn next_cardinal_4<F: Fn(usize, usize, usize) -> usize>(&self, cardinal: Cardinal4, scale: F) -> (r: Option<(ServerId, ArenaId)>)
        requires
            self.well_formed(),
            forall|a: usize, b: usize, c: usize| #[trigger] scale.requires((a, b, c)),
        ensures
            cardinal is North ==> vertical_outcome(self.tier_list(), self.local_server(), self.local_arena(), true, scale, r),
            cardinal is South ==> vertical_outcome(self.tier_list(), self.local_server(), self.local_arena(), false, scale, r),
            cardinal is East ==> horizontal_outcome(self.tier_list(), self.local_server(), self.local_arena(), true, r),
            cardinal is West ==> horizontal_outcome(self.tier_list(), self.local_server(), self.local_arena(), false, r),
    {
        match cardinal {
            Cardinal4::North => self.next_higher(scale),
            Cardinal4::East => self.next_right(),
            Cardinal4::South => self.next_lower(scale),
            Cardinal4::West => self.next_left(),
        }
    }
}

} // verus!
