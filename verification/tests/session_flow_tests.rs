use kodiak_server::ids::{ArenaId, InstanceNumber, PlayerId, RealmId, RegionId, SceneId, ServerId, TierNumber, UnixMillis};
use kodiak_server::ip_usage::IpUsage;
use kodiak_server::regulator::Regulator;
use kodiak_server::server_picker::{server_priority, ServerPickerItem, SystemRequest};
use kodiak_server::service::dispatch::{
    apply_session_update, classify_snippet, route_chat, snippets_bootstrap, ChatDelivery, ChatRecipient, SessionUpdate,
    SnippetUse,
};
use kodiak_server::service::metric::{MetricBundle, MetricHistory, METRIC_HISTORY_LEN};
use kodiak_server::session::{
    daily_claims, heartbeat_claims, ClaimSubset, ClaimUpdateDto, ClaimValue, ScopeClaimKey, SessionData, DAY_MILLIS,
};
use kodiak_server::socket_session::{ClientFrame, SocketAction, SocketEvent, SocketSession};
use kodiak_server::team::color::TeamColor;
use std::str::FromStr;

fn arena(instance: u8) -> ArenaId {
    ArenaId {
        realm_id: RealmId::Public,
        scene_id: SceneId { tier_number: None, instance_number: InstanceNumber(instance) },
    }
}

// ---------------------------------------------------------------- admission

#[test]
fn admission_between_the_limits_follows_the_coin() {
    let ip = 9u128;
    let mut usage = IpUsage::new();
    for _ in 0..12 {
        assert!(usage.admit_with_coin(ip, false, true));
    }
    assert_eq!(usage.usage(ip), Some((12, 0)));
    // Soft limit reached: heads refuses, tails admits.
    assert!(!usage.admit_with_coin(ip, false, true));
    assert_eq!(usage.usage(ip), Some((12, 0)));
    assert!(usage.admit_with_coin(ip, false, false));
    assert!(usage.admit_with_coin(ip, false, false));
    assert!(usage.admit_with_coin(ip, false, false));
    assert_eq!(usage.usage(ip), Some((15, 0)));
    // Hard limit: refused whatever the coin.
    assert!(!usage.admit_with_coin(ip, false, false));
    assert_eq!(usage.usage(ip), Some((15, 0)));
}

#[test]
fn admission_of_a_rate_limited_address_is_refused_but_recorded() {
    let mut usage = IpUsage::new();
    assert!(!usage.admit_with_coin(3, true, false));
    assert_eq!(usage.usage(3), Some((0, 0)));
}

#[test]
fn prune_drops_only_idle_addresses() {
    let mut usage = IpUsage::new();
    assert!(usage.admit_connection(1, false));
    usage.add_active(2);
    assert!(!usage.admit_connection(3, true));
    assert!(!usage.admit_connection(4, true));
    usage.prune(&vec![4]);
    assert_eq!(usage.usage(1), Some((1, 0)));
    assert_eq!(usage.usage(2), Some((0, 1)));
    assert_eq!(usage.usage(3), None);
    assert_eq!(usage.usage(4), Some((0, 0)));
}

#[test]
fn prune_runs_at_most_every_five_seconds() {
    let mut usage = IpUsage::new();
    assert!(!usage.admit_connection(5, true));
    assert!(usage.maybe_prune(1000, &vec![5]));
    assert_eq!(usage.usage(5), Some((0, 0)));
    assert!(!usage.maybe_prune(5999, &Vec::new()));
    assert_eq!(usage.usage(5), Some((0, 0)));
    assert!(usage.maybe_prune(6000, &Vec::new()));
    assert_eq!(usage.usage(5), None);
}

// ---------------------------------------------------------------- socket sessions

#[test]
fn socket_session_registers_forwards_and_closes_once() {
    let (mut s, first) = SocketSession::start(arena(0), PlayerId(1));
    assert_eq!(first, SocketAction::Register { arena_id: arena(0), player_id: PlayerId(1) });
    let r = s.step(SocketEvent::Received { frame: ClientFrame::Request, rtt: Some(40) });
    assert_eq!(
        r,
        vec![
            SocketAction::RoundTripTime { arena_id: arena(0), player_id: PlayerId(1), rtt: 40 },
            SocketAction::Request { arena_id: arena(0), player_id: PlayerId(1) },
        ]
    );
    assert_eq!(s.step(SocketEvent::ServerSend { reliable: false }), vec![SocketAction::Send { reliable: false }]);
    assert!(s.step(SocketEvent::Received { frame: ClientFrame::RateLimited, rtt: None }).is_empty());
    assert!(s.step(SocketEvent::Received { frame: ClientFrame::Undecodable, rtt: None }).is_empty());
    let r = s.step(SocketEvent::ServerClose);
    assert_eq!(
        r,
        vec![
            SocketAction::Unregister { arena_id: arena(0), player_id: PlayerId(1) },
            SocketAction::Close { error: false },
        ]
    );
    assert!(s.closed);
    assert!(s.step(SocketEvent::ServerClose).is_empty());
    assert!(s.step(SocketEvent::Received { frame: ClientFrame::Request, rtt: Some(1) }).is_empty());
}

#[test]
fn socket_session_closed_by_the_client_sends_no_close() {
    let (mut s, _) = SocketSession::start(arena(0), PlayerId(2));
    let r = s.step(SocketEvent::Received { frame: ClientFrame::Close, rtt: None });
    assert_eq!(r, vec![SocketAction::Unregister { arena_id: arena(0), player_id: PlayerId(2) }]);
    assert!(s.step(SocketEvent::SendFailed).is_empty());
}

#[test]
fn socket_session_errors_close_with_an_error() {
    let (mut s, _) = SocketSession::start(arena(0), PlayerId(3));
    let r = s.step(SocketEvent::ReceiveFailed);
    assert_eq!(
        r,
        vec![
            SocketAction::Unregister { arena_id: arena(0), player_id: PlayerId(3) },
            SocketAction::Close { error: true },
        ]
    );
    let (mut t, _) = SocketSession::start(arena(0), PlayerId(4));
    let r = t.step(SocketEvent::SendFailed);
    assert_eq!(r[1], SocketAction::Close { error: true });
    let (mut u, _) = SocketSession::start(arena(0), PlayerId(5));
    let r = u.step(SocketEvent::ServerGone);
    assert_eq!(r[1], SocketAction::Close { error: false });
}

#[test]
fn socket_session_redial_moves_the_registration() {
    let (mut s, _) = SocketSession::start(arena(0), PlayerId(1));
    let r = s.step(SocketEvent::Received { frame: ClientFrame::Redial { query_parsed: true }, rtt: None });
    assert_eq!(
        r,
        vec![SocketAction::Unregister { arena_id: arena(0), player_id: PlayerId(1) }, SocketAction::Authenticate]
    );
    assert!(s.redialing);
    // Nothing else is read while the authentication is awaited.
    assert!(s.step(SocketEvent::ServerClose).is_empty());
    let r = s.step(SocketEvent::Authenticated { ids: Some((arena(1), PlayerId(8))) });
    assert_eq!(r, vec![SocketAction::Register { arena_id: arena(1), player_id: PlayerId(8) }]);
    let r = s.step(SocketEvent::ServerClose);
    assert_eq!(r[0], SocketAction::Unregister { arena_id: arena(1), player_id: PlayerId(8) });
}

#[test]
fn socket_session_failed_redial_registers_again() {
    let (mut s, _) = SocketSession::start(arena(0), PlayerId(1));
    s.step(SocketEvent::Received { frame: ClientFrame::Redial { query_parsed: true }, rtt: None });
    let r = s.step(SocketEvent::Authenticated { ids: None });
    assert_eq!(r, vec![SocketAction::Register { arena_id: arena(0), player_id: PlayerId(1) }]);
    let r = s.step(SocketEvent::Received { frame: ClientFrame::Redial { query_parsed: false }, rtt: None });
    assert_eq!(
        r,
        vec![
            SocketAction::Unregister { arena_id: arena(0), player_id: PlayerId(1) },
            SocketAction::Register { arena_id: arena(0), player_id: PlayerId(1) },
        ]
    );
    assert!(!s.redialing);
    // An answer nobody asked for is ignored.
    assert!(s.step(SocketEvent::Authenticated { ids: Some((arena(2), PlayerId(2))) }).is_empty());
}

// ---------------------------------------------------------------- server priority

#[test]
fn server_priority_adds_the_jitter_to_the_load() {
    let server = ServerPickerItem {
        server_id: ServerId(2),
        datacenter: "a".to_string(),
        region_id: RegionId::Europe,
        player_count: 10,
    };
    let request = SystemRequest { server_id: Some(ServerId(2)), realm_id: None, region_id: None, user_agent_id: None };
    let dc = "a".to_string();
    let p = server_priority(&server, &request, Some(&dc), true, &|_a: RegionId, _b: RegionId| 7u8, 3);
    assert!(!p.wrong_server_id);
    assert_eq!(p.distance, 0);
    assert_eq!(p.load, 13);
    let far = server_priority(&server, &request, None, false, &|_a: RegionId, _b: RegionId| 7u8, 0);
    assert_eq!(far.distance, 0);
    assert_eq!(far.load, 10);
    let asked = SystemRequest { server_id: None, realm_id: None, region_id: Some(RegionId::Asia), user_agent_id: None };
    let q = server_priority(&server, &asked, None, false, &|_a: RegionId, _b: RegionId| 7u8, 4);
    assert!(q.wrong_server_id);
    assert_eq!(q.distance, 7);
    assert_eq!(q.load, 14);
    let full = ServerPickerItem { player_count: u32::MAX - 1, ..server };
    assert_eq!(server_priority(&full, &request, None, false, &|_a: RegionId, _b: RegionId| 0u8, 4).load, u32::MAX);
}

// ---------------------------------------------------------------- colors and regulators

#[test]
fn color_text_parses_back() {
    let c = TeamColor::new([0xab, 0x01, 0xff]);
    let text = c.to_hex_string();
    assert_eq!(text, "#ab01ff");
    assert!(TeamColor::from_str(&text).ok() == Some(c));
    let digits_only = TeamColor::new([0x12, 0x34, 0x56]);
    assert!(TeamColor::from_str(&digits_only.to_hex_string()).is_err());
}

#[test]
fn regulator_count_stays_zero_or_one() {
    let mut r = Regulator::default();
    let mut count: i32 = 0;
    if r.join() {
        count += 1;
    }
    assert_eq!(count, 1);
    assert!(r.active());
    r.leave();
    for _ in 0..3 {
        match r.tick() {
            Some(true) => count += 1,
            Some(false) => count -= 1,
            None => {},
        }
        assert!(count == 0 || count == 1);
    }
    assert_eq!(count, 0);
    assert!(r.can_forget());
}

// ---------------------------------------------------------------- claims

fn session(visitor: Option<u64>, claims: Vec<(ScopeClaimKey, ClaimValue)>) -> SessionData {
    SessionData {
        session_token: Some(70),
        visitor_id: visitor,
        nick_name: None,
        active_heartbeat: false,
        user: false,
        admin: false,
        moderator: false,
        claims: ClaimSubset { claims, date_synchronized: UnixMillis(100) },
    }
}

#[test]
fn heartbeat_claims_drain_trailing_then_live() {
    let fresh = ClaimValue { value: 5, date_expires: None, date_updated: UnixMillis(200) };
    let stale = ClaimValue { value: 6, date_expires: None, date_updated: UnixMillis(50) };
    let mut trailing = vec![ClaimUpdateDto {
        visitor_id: 1,
        claims: ClaimSubset { claims: vec![(ScopeClaimKey(1), fresh)], date_synchronized: UnixMillis(90) },
        arena_id: arena(0),
        player_id: PlayerId(1),
    }];
    let players = vec![
        (arena(0), PlayerId(2), Some(session(Some(2), vec![(ScopeClaimKey(3), fresh), (ScopeClaimKey(4), stale)]))),
        (arena(0), PlayerId(3), None),
        (arena(1), PlayerId(4), Some(session(Some(4), vec![(ScopeClaimKey(3), stale)]))),
        (arena(1), PlayerId(5), Some(session(None, vec![(ScopeClaimKey(3), fresh)]))),
    ];
    let r = heartbeat_claims(&mut trailing, &players, UnixMillis(300));
    assert!(trailing.is_empty());
    assert_eq!(r.len(), 2);
    assert_eq!(r[0].visitor_id, 1);
    assert_eq!(r[1].visitor_id, 2);
    assert_eq!(r[1].player_id, PlayerId(2));
    assert_eq!(r[1].claims.claims, vec![(ScopeClaimKey(3), fresh)]);
    assert_eq!(r[1].claims.date_synchronized, UnixMillis(300));
}

#[test]
fn daily_claims_count_new_local_days() {
    let now = UnixMillis(10 * DAY_MILLIS + 3_600_000);
    // Nothing yet: both start at one; the streak holds to the end of tomorrow (UTC).
    let r = daily_claims(now, 0, None, None);
    assert_eq!(r.days, Some(1));
    assert_eq!(r.streak, Some((1, UnixMillis(12 * DAY_MILLIS))));
    // Updated earlier today: nothing changes.
    let today = ClaimValue { value: 4, date_expires: None, date_updated: UnixMillis(10 * DAY_MILLIS + 60_000) };
    let r = daily_claims(now, 0, Some(today), Some(today));
    assert_eq!(r.days, None);
    assert_eq!(r.streak, None);
    // Updated yesterday: one more; a later expiry is kept.
    let yesterday = ClaimValue {
        value: 4,
        date_expires: Some(UnixMillis(20 * DAY_MILLIS)),
        date_updated: UnixMillis(9 * DAY_MILLIS + 60_000),
    };
    let r = daily_claims(now, 0, Some(yesterday), Some(yesterday));
    assert_eq!(r.days, Some(5));
    assert_eq!(r.streak, Some((5, UnixMillis(20 * DAY_MILLIS))));
    // Two hours behind UTC: 01:00 UTC is still the previous local day.
    let r = daily_claims(now, 120, Some(today), None);
    assert_eq!(r.days, None);
    assert_eq!(r.streak, Some((1, UnixMillis(11 * DAY_MILLIS + 7_200_000))));
    let top = ClaimValue { value: u64::MAX, date_expires: None, date_updated: UnixMillis(0) };
    assert_eq!(daily_claims(now, 0, Some(top), None).days, Some(u64::MAX));
}

// ---------------------------------------------------------------- metrics history

#[test]
fn metric_history_keeps_the_last_periods() {
    let mut history: MetricHistory<u32> = MetricHistory::new();
    assert_eq!(history.len(), 0);
    for start in 0..(METRIC_HISTORY_LEN as u64 + 2) {
        history.write(MetricBundle::new(start));
    }
    assert_eq!(history.len(), METRIC_HISTORY_LEN);
    assert_eq!(history.get(0).unwrap().start, 2);
    assert_eq!(history.get(METRIC_HISTORY_LEN - 1).unwrap().start, METRIC_HISTORY_LEN as u64 + 1);
    assert!(history.get(METRIC_HISTORY_LEN).is_none());
}

#[test]
fn metric_rotation_starts_a_new_period() {
    let mut history: MetricHistory<u32> = MetricHistory::new();
    let mut current: MetricBundle<u32> = MetricBundle::new(3_600_000);
    let finished: MetricBundle<u32> = MetricBundle::new(3_600_000);
    let start = current.rotate(finished, &mut history, 7_200_000);
    assert_eq!(start, 3_600_000);
    assert_eq!(current.start, 7_200_000);
    assert_eq!(history.len(), 1);
    assert_eq!(history.get(0).unwrap().start, 3_600_000);
}

// ---------------------------------------------------------------- dispatch

#[test]
fn chat_routes_by_recipient() {
    let scene = SceneId { tier_number: Some(TierNumber(1)), instance_number: InstanceNumber(0) };
    assert!(matches!(route_chat(ChatRecipient::Broadcast, scene, false, None), (ChatDelivery::Realm, false)));
    match route_chat(ChatRecipient::Arena, scene, false, None) {
        (ChatDelivery::Scene(s), false) => assert_eq!(s, scene),
        _ => panic!("arena chat goes to the scene"),
    }
    match route_chat(ChatRecipient::Player(PlayerId(4)), scene, true, None) {
        (ChatDelivery::Players(v), false) => assert_eq!(v, vec![PlayerId(4)]),
        _ => panic!("a player's chat goes to the player"),
    }
    assert!(matches!(route_chat(ChatRecipient::Player(PlayerId(4)), scene, false, None), (ChatDelivery::Nowhere, false)));
    match route_chat(ChatRecipient::TeamOf(PlayerId(4)), scene, true, Some(vec![PlayerId(4), PlayerId(6)])) {
        (ChatDelivery::Players(v), true) => assert_eq!(v, vec![PlayerId(4), PlayerId(6)]),
        _ => panic!("a whisper goes to the team"),
    }
    assert!(matches!(route_chat(ChatRecipient::TeamOf(PlayerId(4)), scene, true, None), (ChatDelivery::Nowhere, true)));
    assert!(matches!(route_chat(ChatRecipient::Nobody, scene, true, None), (ChatDelivery::Nowhere, false)));
}

#[test]
fn snippets_are_classified_by_name_and_game() {
    assert_eq!(classify_snippet("ads.txt", None, 3), SnippetUse::AdsTxt);
    assert_eq!(classify_snippet("snippet.js", Some(3), 3), SnippetUse::Script);
    assert_eq!(classify_snippet("terms.md", None, 3), SnippetUse::Terms);
    assert_eq!(classify_snippet("privacy.md", None, 3), SnippetUse::Privacy);
    assert_eq!(classify_snippet("readme.md", None, 3), SnippetUse::Unknown);
    assert_eq!(classify_snippet("ads.txt", Some(4), 3), SnippetUse::OtherGame);
    assert!(snippets_bootstrap(0, 2));
    assert!(!snippets_bootstrap(1, 2));
    assert!(!snippets_bootstrap(0, 0));
}

#[test]
fn session_updates_apply_to_the_matching_session() {
    let mut s = session(None, Vec::new());
    let update = |token: u64, visitor: u64| SessionUpdate {
        session_token: token,
        visitor_id: visitor,
        active_heartbeat: true,
        user: true,
        nick_name: Some("nick".to_string()),
        admin: false,
        moderator: true,
    };
    assert!(!apply_session_update(&mut s, update(71, 9)));
    assert_eq!(s.visitor_id, None);
    assert!(!s.moderator);
    assert!(apply_session_update(&mut s, update(70, 9)));
    assert_eq!(s.visitor_id, Some(9));
    assert!(s.moderator && s.user && s.active_heartbeat);
    assert_eq!(s.nick_name, Some("nick".to_string()));
    assert!(apply_session_update(&mut s, update(99, 9)));
}
