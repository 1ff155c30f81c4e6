use kodiak_server::ids::{
    ArenaId, Cardinal4, CohortId, InstanceNumber, InvitationId, LifecycleId, MetricFilter, PlayerAlias, PlayerId,
    RealmId, Referrer, RegionId, SceneId, ServerId, TierNumber, UnixMillis, UserAgentId,
};
use kodiak_server::log_filter::{Level, LevelFilter, Logger};
use kodiak_server::regulator::Regulator;
use kodiak_server::service::boards::{
    high_score_claim, leaderboard_caveat, LeaderboardCaveat, LeaderboardRepo, LeaderboardScoreDto, PeriodId, PlayerLeaderboardData, PlayerLiveboardData, Score,
};
use kodiak_server::service::invitation::{
    ClientInvitationData, Invitation, InvitationError, InvitationRepo, InvitationRequest, InvitationUpdate,
};
use kodiak_server::service::metric::{Bundle, MetricBundle};
use kodiak_server::service::topology::{
    RealmUseTopology, SceneUseTopology, ServerUseTopology, Topology,
};
use kodiak_server::session::{collect_trailing_claims, ClaimSubset, ClaimValue, ScopeClaimKey, SessionData};
use kodiak_server::ids::LanguageId;
use kodiak_server::translation::{TranslationActlet, TranslationsDto};
use std::cell::Cell;

// ---------------------------------------------------------------- regulator

#[test]
fn regulator_fast_join_and_slow_leave() {
    let mut r = Regulator::default();
    assert!(r.can_forget());
    assert!(r.join());
    assert!(r.active());
    r.leave();
    assert!(!r.active());
    assert_eq!(r.tick(), None);
    assert_eq!(r.tick(), Some(false));
    assert!(!r.can_forget());
    assert_eq!(r.tick(), None);
    assert!(r.can_forget());
}

#[test]
fn regulator_slow_join_after_leaving() {
    let mut r = Regulator::default();
    assert!(r.join());
    r.leave_now();
    assert!(!r.active());
    assert!(!r.join());
    assert!(!r.active());
    assert_eq!(r.tick(), Some(true));
    assert!(r.active());
    assert_eq!(r.tick(), None);
}

#[test]
fn regulator_rejoin_cancels_leave() {
    let mut r = Regulator::default();
    assert!(r.join());
    r.leave();
    assert!(!r.join());
    assert!(r.active());
    assert_eq!(r.tick(), None);
    assert!(r.active());
}

#[test]
fn regulator_leave_cancels_slow_join() {
    let mut r = Regulator::default();
    assert!(r.join());
    r.leave_now();
    assert!(!r.join());
    r.leave();
    assert!(r.can_forget());
    assert_eq!(r.tick(), None);
}

// ---------------------------------------------------------------- topology

fn scene(tier: Option<u8>, instance: u8, players: u16) -> (SceneId, SceneUseTopology) {
    (
        SceneId { tier_number: tier.map(TierNumber), instance_number: InstanceNumber(instance) },
        SceneUseTopology { player_count: players },
    )
}

fn server(region: RegionId, scenes: Vec<(SceneId, SceneUseTopology)>) -> ServerUseTopology {
    ServerUseTopology { region_id: region, realms: vec![(RealmId::Public, RealmUseTopology { scenes })] }
}

fn local_arena(tier: Option<u8>) -> ArenaId {
    ArenaId {
        realm_id: RealmId::Public,
        scene_id: SceneId { tier_number: tier.map(TierNumber), instance_number: InstanceNumber(0) },
    }
}

/// Servers 1, 3 and 5 host the base tier; 3 also hosts tier 1 (two
/// instances); 7 hosts only tier 2 and 9 reports no realm.
fn sample_servers() -> Vec<(ServerId, ServerUseTopology)> {
    vec![
        (ServerId(5), server(RegionId::Europe, vec![scene(None, 0, 4)])),
        (ServerId(1), server(RegionId::Asia, vec![scene(None, 0, 10)])),
        (
            ServerId(3),
            server(RegionId::Europe, vec![scene(None, 0, 1), scene(Some(1), 0, 2), scene(Some(1), 1, 3)]),
        ),
        (ServerId(7), server(RegionId::Oceania, vec![scene(Some(2), 0, 6)])),
        (ServerId(9), ServerUseTopology { region_id: RegionId::Africa, realms: vec![] }),
    ]
}

fn scale(index: usize, total: usize, next_total: usize) -> usize {
    ((index as f32 / total.max(1) as f32) * next_total as f32).round() as usize
}

#[test]
fn topology_update_and_queries() {
    let mut t = Topology::new(ServerId(3), local_arena(None));
    assert_eq!(t.region_id(ServerId(1)), None);
    assert_eq!(t.tier_count(), 1);
    t.update(&sample_servers());
    assert_eq!(t.region_id(ServerId(1)), Some(RegionId::Asia));
    assert_eq!(t.region_id(ServerId(9)), Some(RegionId::Africa));
    assert_eq!(t.region_id(ServerId(4)), None);
    assert_eq!(t.max_sanctioned_tier_number(), Some(TierNumber(2)));
    assert_eq!(t.max_tier_number(), Some(TierNumber(2)));
    assert_eq!(t.tier_count(), 3);
}

#[test]
fn topology_horizontal_wraps() {
    let mut t = Topology::new(ServerId(3), local_arena(None));
    t.update(&sample_servers());
    assert_eq!(t.next_right().map(|(s, _)| s), Some(ServerId(5)));
    assert_eq!(t.next_left().map(|(s, _)| s), Some(ServerId(1)));
    let mut t5 = Topology::new(ServerId(5), local_arena(None));
    t5.update(&sample_servers());
    let (s, a) = t5.next_right().unwrap();
    assert_eq!(s, ServerId(1));
    assert_eq!(a.realm_id, RealmId::Public);
    assert_eq!(a.scene_id.tier_number, None);
    assert_eq!(a.scene_id.instance_number, InstanceNumber(0));
}

#[test]
fn topology_alone_on_a_tier_goes_nowhere() {
    let mut t = Topology::new(ServerId(7), local_arena(Some(2)));
    t.update(&sample_servers());
    assert_eq!(t.next_right(), None);
    assert_eq!(t.next_left(), None);
    assert_eq!(t.next_higher(scale), None);
    let (s, a) = t.next_lower(scale).unwrap();
    assert_eq!(s, ServerId(3));
    assert_eq!(a.scene_id.tier_number, Some(TierNumber(1)));
    assert!(a.scene_id.instance_number == InstanceNumber(0) || a.scene_id.instance_number == InstanceNumber(1));
}

#[test]
fn topology_vertical_moves() {
    let mut t = Topology::new(ServerId(3), local_arena(None));
    t.update(&sample_servers());
    assert_eq!(t.next_lower(scale), None);
    let (s, a) = t.next_cardinal_4(Cardinal4::North, scale).unwrap();
    assert_eq!(s, ServerId(3));
    assert_eq!(a.scene_id.tier_number, Some(TierNumber(1)));
    assert_eq!(t.next_cardinal_4(Cardinal4::East, scale).map(|(s, _)| s), Some(ServerId(5)));
    assert_eq!(t.next_cardinal_4(Cardinal4::West, scale).map(|(s, _)| s), Some(ServerId(1)));
    assert_eq!(t.next_cardinal_4(Cardinal4::South, scale), None);
}

#[test]
fn topology_from_a_server_off_the_tier() {
    let mut t = Topology::new(ServerId(9), local_arena(Some(1)));
    t.update(&sample_servers());
    assert_eq!(t.next_right().map(|(s, _)| s), Some(ServerId(3)));
    assert_eq!(t.next_higher(scale).map(|(s, _)| s), Some(ServerId(7)));
    assert_eq!(t.next_lower(scale).map(|(s, _)| s), Some(ServerId(5)));
    let mut u = Topology::new(ServerId(9), local_arena(Some(3)));
    u.update(&sample_servers());
    assert_eq!(u.next_right(), None);
    assert_eq!(u.next_lower(scale).map(|(s, _)| s), Some(ServerId(7)));
    assert_eq!(t.tier_count(), 3);
}

// ---------------------------------------------------------------- metrics

fn aliases() -> Vec<(Referrer, Referrer)> {
    vec![(Referrer(100), Referrer(1))]
}

#[test]
fn bundle_visit_counts_each_cross_section() {
    let mut b: Bundle<u32> = Bundle::default();
    b.visit_specific_mut(
        |c| c + 1,
        CohortId(2),
        Some(Referrer(100)),
        Some(RegionId::Europe),
        None,
        LifecycleId::New,
        Some(Referrer(0)),
        Some(Referrer(99)),
        &aliases(),
    );
    b.visit_specific_mut(
        |c| c + 1,
        CohortId(2),
        Some(Referrer(555)),
        None,
        Some(UserAgentId(3)),
        LifecycleId::Renewed,
        Some(Referrer(0)),
        Some(Referrer(99)),
        &aliases(),
    );
    assert_eq!(b.get(None), Some(&2));
    assert_eq!(b.get(Some(MetricFilter::CohortId(CohortId(2)))), Some(&2));
    assert_eq!(b.get(Some(MetricFilter::Referrer(Referrer(1)))), Some(&1));
    assert_eq!(b.get(Some(MetricFilter::Referrer(Referrer(99)))), Some(&1));
    assert_eq!(b.get(Some(MetricFilter::Referrer(Referrer(100)))), None);
    assert_eq!(b.get(Some(MetricFilter::RegionId(RegionId::Europe))), Some(&1));
    assert_eq!(b.get(Some(MetricFilter::UserAgentId(UserAgentId(3)))), Some(&1));
    assert_eq!(b.get(Some(MetricFilter::LifecycleId(LifecycleId::New))), Some(&1));
    assert_eq!(b.get(Some(MetricFilter::LifecycleId(LifecycleId::Renewed))), Some(&1));
    assert_eq!(b.get(Some(MetricFilter::RegionId(RegionId::Asia))), None);
}

#[test]
fn bundle_without_referrer_uses_no_referrer() {
    let mut b: Bundle<u32> = Bundle::default();
    b.visit_specific_mut(|c| c + 5, CohortId(1), None, None, None, LifecycleId::New, Some(Referrer(0)), None, &vec![]);
    assert_eq!(b.get(Some(MetricFilter::Referrer(Referrer(0)))), Some(&5));
    let mut b2: Bundle<u32> = Bundle::default();
    b2.visit_specific_mut(|c| c + 5, CohortId(1), None, None, None, LifecycleId::New, None, None, &vec![]);
    assert_eq!(b2.into_iter().len(), 3);
}

#[test]
fn bundle_caps_referrers() {
    let mut b: Bundle<u32> = Bundle::default();
    for i in 0..200u64 {
        b.visit_specific_mut(|c| c + 1, CohortId(1), Some(Referrer(i)), None, None, LifecycleId::New, None, Some(Referrer(i)), &vec![]);
    }
    assert_eq!(b.get(Some(MetricFilter::Referrer(Referrer(127)))), Some(&1));
    assert_eq!(b.get(Some(MetricFilter::Referrer(Referrer(128)))), None);
    b.visit_specific_mut(|c| c + 1, CohortId(1), Some(Referrer(5)), None, None, LifecycleId::New, None, Some(Referrer(5)), &vec![]);
    assert_eq!(b.get(Some(MetricFilter::Referrer(Referrer(5)))), Some(&2));
    let all = b.into_iter();
    assert_eq!(all.len(), 1 + 1 + 128 + 1);
    assert_eq!(all[0], (None, 201));
}

#[test]
fn bundle_apply_merges_entries() {
    let mut a: Bundle<u32> = Bundle::default();
    a.visit_specific_mut(|c| c + 1, CohortId(1), None, None, None, LifecycleId::New, None, None, &vec![]);
    let mut b: Bundle<u32> = Bundle::default();
    b.visit_specific_mut(|c| c + 10, CohortId(1), None, None, None, LifecycleId::Renewed, None, None, &vec![]);
    a.apply(b, |x, y| x + y);
    assert_eq!(a.get(None), Some(&11));
    assert_eq!(a.get(Some(MetricFilter::CohortId(CohortId(1)))), Some(&11));
    assert_eq!(a.get(Some(MetricFilter::LifecycleId(LifecycleId::New))), Some(&1));
    assert_eq!(a.get(Some(MetricFilter::LifecycleId(LifecycleId::Renewed))), Some(&10));
}

#[test]
fn metric_bundle_defaults_to_zero() {
    let m: MetricBundle<u32> = MetricBundle::new(1000);
    assert_eq!(m.start, 1000);
    assert_eq!(m.metric(None), 0);
    assert_eq!(m.metric(Some(MetricFilter::CohortId(CohortId(1)))), 0);
    assert_eq!(m.data_point(None, |x: &u32| *x + 1), 1);
    let mut m2: MetricBundle<u32> = MetricBundle::new(0);
    m2.bundle.visit_specific_mut(|c| c + 3, CohortId(1), None, None, None, LifecycleId::New, None, None, &vec![]);
    assert_eq!(m2.metric(Some(MetricFilter::CohortId(CohortId(1)))), 3);
    assert_eq!(m2.data_point(None, |x: &u32| *x * 2), 6);
}

// ---------------------------------------------------------------- boards

fn dto(a: &str, score: u32) -> LeaderboardScoreDto {
    LeaderboardScoreDto { alias: PlayerAlias(a.to_string()), score }
}

#[test]
fn score_and_high_score() {
    assert_eq!(Score::Scored(5).some(), Some(5));
    assert_eq!(Score::Unscored.some(), None);
    assert_eq!(Score::Proxy(PlayerId(1)).some(), None);
    let live = PlayerLiveboardData::default();
    assert_eq!(live.score, Score::Unscored);
    assert_eq!(live.rank, None);
    let mut d = PlayerLeaderboardData::default();
    d.update_score(Score::Scored(10));
    d.update_score(Score::Scored(3));
    d.update_score(Score::Unscored);
    assert_eq!(d.high_score, 10);
    d.update_score(Score::Scored(12));
    assert_eq!(d.high_score, 12);
}

#[test]
fn leaderboard_put_and_deltas() {
    let mut repo = LeaderboardRepo::new(2);
    assert!(repo.deltas_nondestructive().is_empty());
    repo.put_leaderboard(PeriodId::Daily, vec![dto("a", 9), dto("b", 5)]);
    assert_eq!(repo.deltas_nondestructive(), vec![PeriodId::Daily]);
    assert_eq!(repo.get(PeriodId::Daily).len(), 2);
    repo.clear_deltas();
    assert!(repo.deltas_nondestructive().is_empty());
    repo.put_leaderboard(PeriodId::Daily, vec![dto("a", 9), dto("b", 5)]);
    assert!(repo.deltas_nondestructive().is_empty());
    repo.put_leaderboard(PeriodId::Weekly, vec![dto("c", 1)]);
    repo.put_leaderboard(PeriodId::AllTime, vec![dto("c", 1)]);
    assert_eq!(repo.deltas_nondestructive(), vec![PeriodId::AllTime, PeriodId::Weekly]);
}

#[test]
fn leaderboard_update_counts_qualifying_scores() {
    let mut repo = LeaderboardRepo::new(2);
    // Daily is full with least score 5; the others are not full (least 1).
    repo.put_leaderboard(PeriodId::Daily, vec![dto("a", 9), dto("b", 5)]);
    let items = vec![dto("x", 7), dto("y", 3), dto("x", 2), dto("z", 0), dto("w", 8)];
    repo.update(&items, false, true);
    assert!(repo.take_pending(false).is_none());
    repo.update(&items, true, false);
    assert!(repo.take_pending(false).is_none());
    repo.update(&items, true, true);
    assert!(repo.take_pending(true).is_none());
    let mut pending: Vec<(String, u32)> =
        repo.take_pending(false).unwrap().into_iter().map(|d| (d.alias.0, d.score)).collect();
    pending.sort();
    assert_eq!(pending, vec![("x".to_string(), 7), ("y".to_string(), 3)]);
    assert!(repo.take_pending(false).is_none());
}

// ---------------------------------------------------------------- invitations

fn arena() -> ArenaId {
    local_arena(None)
}

#[test]
fn invitation_create_accept_forget() {
    let mut repo = InvitationRepo::default();
    let next = Cell::new(40u32);
    let gen = || {
        let v = next.get();
        next.set(v + 1);
        InvitationId(v)
    };
    let mut creator = ClientInvitationData::default();
    let r = repo.create(&mut creator, PlayerId(1), arena(), &gen);
    assert_eq!(r, Ok(InvitationUpdate::Created(InvitationId(40))));
    assert_eq!(creator.invitation_created, Some(InvitationId(40)));
    // Asking again gives the same invitation.
    assert_eq!(repo.create(&mut creator, PlayerId(1), arena(), &gen), Ok(InvitationUpdate::Created(InvitationId(40))));
    assert_eq!(repo.len(), 1);
    assert_eq!(repo.get(InvitationId(40)), Some(&Invitation { arena_id: arena(), player_id: Some(PlayerId(1)) }));

    let mut guest = ClientInvitationData::default();
    let mut invited = false;
    assert_eq!(
        repo.accept(&mut guest, &mut invited, Some(InvitationId(40))),
        Ok(InvitationUpdate::Accepted(Some(InvitationId(40))))
    );
    assert!(invited);
    assert_eq!(guest.initializer(), Some(InvitationUpdate::Accepted(Some(InvitationId(40)))));
    assert_eq!(
        repo.accept(&mut guest, &mut invited, Some(InvitationId(41))),
        Err(InvitationError::NoSuchInvitation)
    );
    assert_eq!(InvitationError::NoSuchInvitation.as_str(), "no such invitation");
    assert!(invited);
    assert_eq!(guest.initializer(), None);
    assert_eq!(repo.accept(&mut guest, &mut invited, None), Ok(InvitationUpdate::Accepted(None)));

    repo.forget_player_invitation(&mut creator);
    assert_eq!(creator.invitation_created, None);
    assert_eq!(repo.len(), 0);
}

#[test]
fn invitation_ids_are_never_reused() {
    let mut repo = InvitationRepo::default();
    let t = repo.prepare_temporary_invitation(|| InvitationId(7));
    assert_eq!(t, Some(InvitationId(7)));
    let inv = repo.get(InvitationId(7)).unwrap();
    assert_eq!(inv.arena_id.realm_id, RealmId::Temporary(InvitationId(7)));
    assert_eq!(inv.player_id, None);
    assert_eq!(repo.prepare_temporary_invitation(|| InvitationId(7)), None);
    let mut c = ClientInvitationData::default();
    assert_eq!(repo.create(&mut c, PlayerId(2), arena(), || InvitationId(7)), Err(InvitationError::CouldNotCreate));
    assert_eq!(InvitationError::CouldNotCreate.as_str(), "could not create invitation id");
    assert_eq!(c.invitation_created, None);
    let mut invited = false;
    assert_eq!(
        repo.accept(&mut c, &mut invited, Some(InvitationId(7))),
        Err(InvitationError::NoSuchInvitation)
    );
    assert!(!invited);
}

#[test]
fn invitation_forget_arena() {
    let mut repo = InvitationRepo::default();
    let mut a = ClientInvitationData::default();
    let mut b = ClientInvitationData::default();
    repo.create(&mut a, PlayerId(1), arena(), || InvitationId(1)).unwrap();
    repo.create(&mut b, PlayerId(2), local_arena(Some(1)), || InvitationId(2)).unwrap();
    repo.forget_arena_invitations(arena());
    assert_eq!(repo.len(), 1);
    assert!(repo.get(InvitationId(1)).is_none());
    assert!(repo.get(InvitationId(2)).is_some());
    let mut invited = false;
    let r = repo.handle_invitation_request(&mut a, &mut invited, PlayerId(1), InvitationRequest::Accept(Some(InvitationId(2))), arena(), || InvitationId(3));
    assert_eq!(r, Ok(InvitationUpdate::Accepted(Some(InvitationId(2)))));
}

// ---------------------------------------------------------------- session

fn claims(v: Vec<(ScopeClaimKey, ClaimValue)>) -> SessionData {
    SessionData {
        session_token: None,
        visitor_id: Some(1),
        nick_name: None,
        active_heartbeat: false,
        user: false,
        admin: false,
        moderator: false,
        claims: ClaimSubset { claims: v, date_synchronized: UnixMillis(0) },
    }
}

#[test]
fn claims_expire() {
    let v = ClaimValue { value: 3, date_expires: Some(UnixMillis(1000)), date_updated: UnixMillis(1) };
    let w = ClaimValue { value: 4, date_expires: None, date_updated: UnixMillis(1) };
    let s = claims(vec![(ScopeClaimKey(1), v), (ScopeClaimKey(2), w)]);
    assert_eq!(s.claim_with_now(ScopeClaimKey(1), UnixMillis(999)), Some(v));
    assert_eq!(s.claim_with_now(ScopeClaimKey(1), UnixMillis(1000)), None);
    assert_eq!(s.claim_with_now(ScopeClaimKey(2), UnixMillis(u64::MAX)), Some(w));
    assert_eq!(s.claim_with_now(ScopeClaimKey(3), UnixMillis(0)), None);
    assert_eq!(s.claim(ScopeClaimKey(2)), Some(w));
    assert_eq!(s.claim(ScopeClaimKey(1)), None);
}

// ---------------------------------------------------------------- logging

#[test]
fn log_filter_by_target() {
    let l = Logger { game: LevelFilter::Debug, engine: LevelFilter::Warn, plasma: LevelFilter::Off, http: LevelFilter::Trace };
    assert_eq!(l.filter("kodiak_server::router::x"), LevelFilter::Trace);
    assert_eq!(l.filter("kodiak_server::entry_point"), LevelFilter::Trace);
    assert_eq!(l.filter("kodiak_server::plasma"), LevelFilter::Off);
    assert_eq!(l.filter("kodiak_server::net::web_socket::a"), LevelFilter::Off);
    assert_eq!(l.filter("server::game"), LevelFilter::Debug);
    assert_eq!(l.filter("common"), LevelFilter::Debug);
    assert_eq!(l.filter("kodiak_server::service"), LevelFilter::Warn);
    assert_eq!(l.filter(""), LevelFilter::Warn);
    assert!(l.enabled("server", Level::Debug));
    assert!(!l.enabled("server", Level::Trace));
    assert!(!l.enabled("kodiak_server::plasma", Level::Error));
    assert!(!l.enabled("rustls::msgs::handshake", Level::Error));
    assert!(l.enabled("rustls::msgs", Level::Error));
    assert_eq!(l.max_level(), LevelFilter::Trace);
}

// ---------------------------------------------------------------- translations

#[test]
fn translation_updates() {
    let mut t = TranslationActlet::default();
    assert_eq!(t.languages().len(), 0);
    t.update_privacy("p".to_string());
    t.update_terms("t".to_string());
    t.update(vec![], vec![]);
    assert_eq!(t.languages().len(), 0);
}

#[test]
fn claim_update_sends_claims_updated_since_synchronizing() {
    let old = ClaimValue { value: 3, date_expires: None, date_updated: UnixMillis(5) };
    let new = ClaimValue { value: 4, date_expires: None, date_updated: UnixMillis(20) };
    let mut s = claims(vec![(ScopeClaimKey(1), old), (ScopeClaimKey(2), new)]);
    s.claims.date_synchronized = UnixMillis(10);
    let arena_id = kodiak_server::ids::ArenaId {
        realm_id: kodiak_server::ids::RealmId::Public,
        scene_id: kodiak_server::ids::SceneId {
            tier_number: None,
            instance_number: kodiak_server::ids::InstanceNumber(0),
        },
    };
    let u = s.claim_update(UnixMillis(30), arena_id, kodiak_server::ids::PlayerId(8)).unwrap();
    assert_eq!(u.visitor_id, 1);
    assert_eq!(u.claims.claims, vec![(ScopeClaimKey(2), new)]);
    assert_eq!(u.claims.date_synchronized, UnixMillis(30));
    assert_eq!(u.player_id, kodiak_server::ids::PlayerId(8));
    s.claims.date_synchronized = UnixMillis(21);
    assert!(s.claim_update(UnixMillis(30), arena_id, kodiak_server::ids::PlayerId(8)).is_none());
    s.claims.date_synchronized = UnixMillis(0);
    s.visitor_id = None;
    assert!(s.claim_update(UnixMillis(30), arena_id, kodiak_server::ids::PlayerId(8)).is_none());
}

#[test]
fn leaderboard_initializers_are_the_nonempty_boards() {
    let mut repo = LeaderboardRepo::new(2);
    assert!(repo.initializers().is_empty());
    repo.put_leaderboard(PeriodId::Weekly, vec![dto("c", 1)]);
    assert_eq!(repo.initializers(), vec![PeriodId::Weekly]);
    repo.put_leaderboard(PeriodId::AllTime, vec![dto("a", 9)]);
    assert_eq!(repo.initializers(), vec![PeriodId::AllTime, PeriodId::Weekly]);
    repo.put_leaderboard(PeriodId::AllTime, vec![]);
    assert_eq!(repo.initializers(), vec![PeriodId::Weekly]);
}

#[test]
fn received_claims_merge_into_live_claims_and_replace_expired_ones() {
    let live = ClaimValue { value: 3, date_expires: None, date_updated: UnixMillis(1) };
    let expired = ClaimValue { value: 7, date_expires: Some(UnixMillis(50)), date_updated: UnixMillis(1) };
    let kept = ClaimValue { value: 9, date_expires: None, date_updated: UnixMillis(1) };
    let mut s = claims(vec![(ScopeClaimKey(1), live), (ScopeClaimKey(2), expired), (ScopeClaimKey(3), kept)]);
    s.claims.date_synchronized = UnixMillis(40);
    let a = ClaimValue { value: 5, date_expires: None, date_updated: UnixMillis(60) };
    let b = ClaimValue { value: 2, date_expires: None, date_updated: UnixMillis(60) };
    let c = ClaimValue { value: 8, date_expires: None, date_updated: UnixMillis(60) };
    let incoming = ClaimSubset {
        claims: vec![(ScopeClaimKey(1), a), (ScopeClaimKey(2), b), (ScopeClaimKey(4), c)],
        date_synchronized: UnixMillis(70),
    };
    let merge = |_: ScopeClaimKey, old: ClaimValue, new: ClaimValue| ClaimValue {
        value: old.value + new.value,
        date_expires: new.date_expires,
        date_updated: new.date_updated,
    };
    // Another visitor's claims are ignored.
    assert!(!s.receive_claims(2, &incoming, UnixMillis(100), merge));
    assert_eq!(s.claims.date_synchronized, UnixMillis(40));
    assert!(s.receive_claims(1, &incoming, UnixMillis(100), merge));
    assert_eq!(s.claims.date_synchronized, UnixMillis(70));
    assert_eq!(s.claim_with_now(ScopeClaimKey(1), UnixMillis(100)).unwrap().value, 8);
    assert_eq!(s.claim_with_now(ScopeClaimKey(2), UnixMillis(100)).unwrap().value, 2);
    assert_eq!(s.claim_with_now(ScopeClaimKey(3), UnixMillis(100)).unwrap().value, 9);
    assert_eq!(s.claim_with_now(ScopeClaimKey(4), UnixMillis(100)).unwrap().value, 8);
    assert_eq!(s.claims.claims.len(), 4);
}

#[test]
fn local_claim_updates_merge_or_replace() {
    let live = ClaimValue { value: 3, date_expires: None, date_updated: UnixMillis(1) };
    let expired = ClaimValue { value: 7, date_expires: Some(UnixMillis(50)), date_updated: UnixMillis(1) };
    let mut s = claims(vec![(ScopeClaimKey(1), live), (ScopeClaimKey(2), expired)]);
    let merge = |_: ScopeClaimKey, old: ClaimValue, new: ClaimValue| ClaimValue {
        value: old.value.max(new.value),
        date_expires: new.date_expires,
        date_updated: new.date_updated,
    };
    s.update_claim_with_now(ScopeClaimKey(1), 2, None, UnixMillis(60), merge);
    assert_eq!(s.claim_with_now(ScopeClaimKey(1), UnixMillis(60)).unwrap().value, 3);
    s.update_claim_with_now(ScopeClaimKey(2), 1, None, UnixMillis(60), merge);
    assert_eq!(
        s.claim_with_now(ScopeClaimKey(2), UnixMillis(60)),
        Some(ClaimValue { value: 1, date_expires: None, date_updated: UnixMillis(60) })
    );
    s.update_claim(ScopeClaimKey(5), 4, None, merge);
    assert_eq!(s.claim_with_now(ScopeClaimKey(5), UnixMillis(u64::MAX)).unwrap().value, 4);
    assert_eq!(s.claims.claims.len(), 3);
}

#[test]
fn claims_diff_sends_what_changed_and_catches_up() {
    let a = ClaimValue { value: 1, date_expires: None, date_updated: UnixMillis(1) };
    let b = ClaimValue { value: 2, date_expires: Some(UnixMillis(10)), date_updated: UnixMillis(1) };
    let c = ClaimValue { value: 3, date_expires: None, date_updated: UnixMillis(1) };
    let a2 = ClaimValue { value: 9, date_expires: None, date_updated: UnixMillis(5) };
    let s = claims(vec![(ScopeClaimKey(1), a2), (ScopeClaimKey(2), b), (ScopeClaimKey(3), c)]);
    let mut prev = vec![(ScopeClaimKey(1), a), (ScopeClaimKey(2), b), (ScopeClaimKey(3), c), (ScopeClaimKey(4), a)];
    let mut diff = s.claims_diff(&mut prev, UnixMillis(20));
    diff.sort_by_key(|e| e.0 .0);
    assert_eq!(diff, vec![(ScopeClaimKey(1), Some(a2)), (ScopeClaimKey(2), None), (ScopeClaimKey(4), None)]);
    let mut now_known = prev.clone();
    now_known.sort_by_key(|e| e.0 .0);
    assert_eq!(now_known, vec![(ScopeClaimKey(1), a2), (ScopeClaimKey(3), c)]);
    // Nothing changed since: nothing to send.
    assert!(s.claims_diff(&mut prev, UnixMillis(20)).is_empty());
}

#[test]
fn leaderboard_caveats_and_high_score_claims() {
    assert_eq!(leaderboard_caveat(false, false, false, true, true), Some(LeaderboardCaveat::Closing));
    assert_eq!(leaderboard_caveat(true, false, true, false, false), Some(LeaderboardCaveat::Closing));
    assert_eq!(leaderboard_caveat(false, true, false, true, true), Some(LeaderboardCaveat::Temporary));
    assert_eq!(leaderboard_caveat(true, false, false, true, true), Some(LeaderboardCaveat::Unlisted));
    assert_eq!(leaderboard_caveat(true, false, false, false, true), None);
    assert_eq!(high_score_claim(true, true, None, Score::Scored(10), Some(5)), Some(10));
    assert_eq!(high_score_claim(true, true, None, Score::Scored(10), None), Some(10));
    assert_eq!(high_score_claim(true, true, None, Score::Scored(10), Some(10)), None);
    assert_eq!(high_score_claim(true, true, None, Score::Scored(0), None), None);
    assert_eq!(high_score_claim(false, true, None, Score::Scored(10), None), None);
    assert_eq!(high_score_claim(true, true, Some(LeaderboardCaveat::Temporary), Score::Scored(10), None), None);
    assert_eq!(high_score_claim(true, true, None, Score::Unscored, None), None);
}

#[test]
fn trailing_claims_stop_at_the_limit() {
    let fresh = ClaimValue { value: 1, date_expires: None, date_updated: UnixMillis(5) };
    let arena_id = kodiak_server::ids::ArenaId {
        realm_id: kodiak_server::ids::RealmId::Public,
        scene_id: kodiak_server::ids::SceneId {
            tier_number: None,
            instance_number: kodiak_server::ids::InstanceNumber(0),
        },
    };
    let forgotten = |n: u32| -> Vec<(kodiak_server::ids::PlayerId, Option<SessionData>)> {
        (0..n)
            .map(|i| {
                let session = if i % 3 == 2 { None } else { Some(claims(vec![(ScopeClaimKey(1), fresh)])) };
                (kodiak_server::ids::PlayerId(i), session)
            })
            .collect()
    };
    let mut trailing = Vec::new();
    collect_trailing_claims(&mut trailing, &forgotten(6), arena_id, UnixMillis(9));
    let ids: Vec<u32> = trailing.iter().map(|u| u.player_id.0).collect();
    assert_eq!(ids, vec![0, 1, 3, 4]);
    assert_eq!(trailing[0].claims.date_synchronized, UnixMillis(9));
    collect_trailing_claims(&mut trailing, &forgotten(200), arena_id, UnixMillis(9));
    assert_eq!(trailing.len(), 64);
    assert_eq!(trailing[4].player_id.0, 0);
    collect_trailing_claims(&mut trailing, &forgotten(3), arena_id, UnixMillis(9));
    assert_eq!(trailing.len(), 64);
}

#[test]
fn translations_are_assembled_per_language_and_cached() {
    let (en, de, default) = (LanguageId(1), LanguageId(2), LanguageId(0));
    let mut t = TranslationActlet::default();
    t.update_terms("T".to_string());
    t.update_privacy("P".to_string());
    t.update(
        vec![],
        vec![
            TranslationsDto {
                translation_id: Some("hello".to_string()),
                translated_text: vec![(en, "Hello".to_string()), (de, "Hallo".to_string())],
                bulktext: false,
            },
            TranslationsDto {
                translation_id: None,
                translated_text: vec![(en, "Bye".to_string()), (default, "bye-default".to_string())],
                bulktext: true,
            },
        ],
    );
    let pairs = |v: Vec<(String, String)>| v.into_iter().map(|(a, b)| format!("{a}={b}")).collect::<Vec<_>>();
    assert_eq!(pairs(t.translations(de, en, default)), vec!["hello=Hallo", "Bye=bye-default", "terms_md=T", "privacy_md=P"]);
    assert_eq!(pairs(t.translations(en, en, default)), vec!["Bye=Bye", "terms_md=T", "privacy_md=P"]);
    // Cached: the same again.
    assert_eq!(pairs(t.translations(de, en, default)), vec!["hello=Hallo", "Bye=bye-default", "terms_md=T", "privacy_md=P"]);
    t.update_terms("T2".to_string());
    assert_eq!(pairs(t.translations(de, en, default)), vec!["hello=Hallo", "Bye=bye-default", "terms_md=T2", "privacy_md=P"]);
}

#[test]
fn bundle_lists_total_and_each_entry_once() {
    let b: Bundle<u32> = Bundle::default();
    let items = b.into_iter();
    assert_eq!(items.len(), 1);
    assert_eq!(items[0], (None, 0));
}

#[test]
fn topology_directions_match_the_moves_with_one_instance_each() {
    let servers = vec![
        (ServerId(1), server(RegionId::Asia, vec![scene(None, 0, 1)])),
        (ServerId(3), server(RegionId::Europe, vec![scene(None, 0, 1), scene(Some(1), 0, 2)])),
        (ServerId(5), server(RegionId::Europe, vec![scene(None, 0, 4), scene(Some(1), 0, 1)])),
    ];
    let mut t = Topology::new(ServerId(3), local_arena(None));
    t.update(&servers);
    assert!(t.next_higher(scale).is_some());
    assert_eq!(t.next_cardinal_4(Cardinal4::North, scale), t.next_higher(scale));
    assert_eq!(t.next_cardinal_4(Cardinal4::East, scale), t.next_right());
    assert_eq!(t.next_cardinal_4(Cardinal4::South, scale), t.next_lower(scale));
    assert_eq!(t.next_cardinal_4(Cardinal4::West, scale), t.next_left());
}
