use kodiak_server::ids::{
    ArenaId, InstanceNumber, InvitationId, PlayerAlias, PlayerId, RealmId, RegionId, SceneId, ServerId, TeamId,
    TeamName, TierNumber,
};
use kodiak_server::ip_usage::IpUsage;
use kodiak_server::service::invitation::InvitationRepo;
use kodiak_server::service::liveboard::team_representation;
use kodiak_server::service::placement::{choose_scene, is_sanctioned, players_online, temporaries_available};
use kodiak_server::service::players::{compute, ClientFacts, Liveness, PlayerSummary};
use kodiak_server::service::realms::{collect_arenas, Presence, RealmState, SceneState};
use kodiak_server::service::topology::{RealmUseTopology, SceneUseTopology, ServerUseTopology};

fn scene(tier: Option<u8>, instance: u8) -> SceneId {
    SceneId { tier_number: tier.map(TierNumber), instance_number: InstanceNumber(instance) }
}

fn public(s: SceneId) -> ArenaId {
    ArenaId { realm_id: RealmId::Public, scene_id: s }
}

fn reports() -> Vec<(ServerId, ServerUseTopology)> {
    vec![
        (
            ServerId(1),
            ServerUseTopology {
                region_id: RegionId::Europe,
                realms: vec![(
                    RealmId::Public,
                    RealmUseTopology {
                        scenes: vec![
                            (scene(Some(1), 0), SceneUseTopology { player_count: 3 }),
                            (scene(Some(2), 0), SceneUseTopology { player_count: 0 }),
                        ],
                    },
                )],
            },
        ),
        (ServerId(2), ServerUseTopology { region_id: RegionId::Asia, realms: vec![] }),
    ]
}

// ---------------------------------------------------------------- placement

#[test]
fn sanctioned_arenas_follow_the_reports() {
    let servers = reports();
    assert!(is_sanctioned(&servers, false, ServerId(1), public(scene(Some(1), 0))));
    assert!(is_sanctioned(&servers, true, ServerId(1), public(scene(Some(2), 0))));
    assert!(!is_sanctioned(&servers, false, ServerId(1), public(scene(Some(3), 0))));
    assert!(!is_sanctioned(&servers, false, ServerId(2), public(scene(Some(1), 0))));
    assert!(!is_sanctioned(&servers, false, ServerId(3), public(scene(Some(1), 0))));
    let temporary = ArenaId { realm_id: RealmId::Temporary(InvitationId(7)), scene_id: scene(Some(1), 0) };
    assert!(!is_sanctioned(&servers, false, ServerId(1), temporary));
}

#[test]
fn base_public_scene_is_a_fail_safe_outside_the_realms_role() {
    let servers = Vec::new();
    assert!(is_sanctioned(&servers, false, ServerId(9), public(scene(None, 0))));
    assert!(!is_sanctioned(&servers, true, ServerId(9), public(scene(None, 0))));
    assert!(!is_sanctioned(&servers, false, ServerId(9), public(scene(None, 1))));
}

#[test]
fn temporaries_are_limited_and_closed_while_redirecting() {
    let temp = |n: u32| ArenaId { realm_id: RealmId::Temporary(InvitationId(n)), scene_id: scene(None, 0) };
    let arenas = vec![temp(1), public(scene(None, 0)), temp(2)];
    assert!(temporaries_available(&arenas, 3, false));
    assert!(!temporaries_available(&arenas, 2, false));
    assert!(!temporaries_available(&arenas, 3, true));
    assert!(temporaries_available(&Vec::new(), 1, false));
}

#[test]
fn choose_scene_prefers_nearest_tier_then_fewest_players() {
    let servers = reports();
    let candidates = vec![(scene(Some(1), 0), 5u16), (scene(Some(2), 0), 9u16), (scene(Some(3), 0), 0u16)];
    // Tier 3 is not provisioned, so tier 2 is nearest to tier 3.
    assert_eq!(choose_scene(&servers, false, ServerId(1), RealmId::Public, &candidates, Some(TierNumber(3))), Some(scene(Some(2), 0)));
    assert_eq!(choose_scene(&servers, false, ServerId(1), RealmId::Public, &candidates, None), Some(scene(Some(1), 0)));
    // In a temporary realm every scene is eligible.
    let realm = RealmId::Temporary(InvitationId(4));
    assert_eq!(choose_scene(&servers, false, ServerId(1), realm, &candidates, Some(TierNumber(3))), Some(scene(Some(3), 0)));
    // Equally near: the emptier wins, the first of equals on a tie.
    let ties = vec![(scene(Some(1), 0), 4u16), (scene(Some(3), 0), 2u16), (scene(Some(3), 1), 2u16)];
    assert_eq!(choose_scene(&servers, false, ServerId(1), realm, &ties, Some(TierNumber(2))), Some(scene(Some(3), 0)));
    assert_eq!(choose_scene(&servers, false, ServerId(2), RealmId::Public, &candidates, None), None);
    assert_eq!(choose_scene(&servers, false, ServerId(1), realm, &Vec::new(), None), None);
}

// ---------------------------------------------------------------- representation

#[test]
fn team_representation_shows_team_name_in_place_of_alias() {
    let (alias, team, authentic) =
        team_representation(PlayerAlias("Ann".to_string()), Some(TeamName("Red".to_string())), true, true);
    assert_eq!(alias.0, "Red");
    assert!(team.is_none());
    assert!(!authentic);
    let (alias, team, authentic) = team_representation(PlayerAlias("Ann".to_string()), None, true, true);
    assert_eq!(alias.0, "Ann");
    assert!(team.is_none());
    assert!(authentic);
    let (alias, team, authentic) =
        team_representation(PlayerAlias("Ann".to_string()), Some(TeamName("Red".to_string())), true, false);
    assert_eq!(alias.0, "Ann");
    assert_eq!(team.unwrap().0, "Red");
    assert!(authentic);
}

// ---------------------------------------------------------------- players

fn summary(id: u32, is_bot: bool, active: bool, liveness: Liveness, client: Option<ClientFacts>) -> PlayerSummary {
    PlayerSummary {
        player_id: PlayerId(id),
        alias: PlayerAlias(format!("p{id}")),
        team_id: if id % 2 == 0 { Some(TeamId(id)) } else { None },
        is_bot,
        active,
        liveness,
        client,
    }
}

#[test]
fn out_of_game_after_half_a_minute_dead() {
    let alive = Liveness { was_alive: true, was_ever_alive: true, was_alive_timestamp: 1_000 };
    assert_eq!(alive.not_alive_duration(50_000), None);
    assert!(!alive.is_out_of_game(50_000));
    let dead = Liveness { was_alive: false, was_ever_alive: true, was_alive_timestamp: 1_000 };
    assert_eq!(dead.not_alive_duration(31_000), Some(30_000));
    assert!(!dead.is_out_of_game(31_000));
    assert!(dead.is_out_of_game(31_001));
    assert_eq!(dead.not_alive_duration(500), Some(0));
    let never = Liveness { was_alive: false, was_ever_alive: false, was_alive_timestamp: 1_000 };
    assert!(never.is_out_of_game(1_000));
}

#[test]
fn compute_lists_active_players_and_counts_real_ones() {
    let alive = Liveness { was_alive: true, was_ever_alive: true, was_alive_timestamp: 0 };
    let gone = Liveness { was_alive: false, was_ever_alive: true, was_alive_timestamp: 0 };
    let flags = Some(ClientFacts { authentic: true, admin: false, moderator: true });
    let players = vec![
        summary(1, false, true, alive, flags),
        summary(2, true, true, alive, None),
        summary(3, false, false, alive, flags),
        summary(4, false, true, gone, flags),
    ];
    let (dtos, real, live) = compute(&players, 60_000);
    assert_eq!(real, 3);
    assert_eq!(live, 1);
    assert_eq!(dtos.len(), 3);
    assert_eq!(dtos[0].player_id, PlayerId(1));
    assert!(dtos[0].authentic && dtos[0].moderator && !dtos[0].admin);
    assert_eq!(dtos[0].alias.0, "p1");
    assert_eq!(dtos[1].player_id, PlayerId(2));
    assert!(!dtos[1].authentic && !dtos[1].moderator);
    assert_eq!(dtos[1].team_id, Some(TeamId(2)));
    assert_eq!(dtos[2].player_id, PlayerId(4));
}

// ---------------------------------------------------------------- collection

fn scene_state(s: SceneId, last_sanctioned: u64, players: Vec<Presence>) -> SceneState {
    SceneState { scene_id: s, last_sanctioned, players }
}

#[test]
fn collect_keeps_provisioned_recent_and_active_scenes() {
    let servers = reports();
    let now = 1_000_000;
    let dead_long = Presence {
        is_client: true,
        liveness: Liveness { was_alive: false, was_ever_alive: true, was_alive_timestamp: now - 90_000 },
    };
    let alive = Presence {
        is_client: true,
        liveness: Liveness { was_alive: true, was_ever_alive: true, was_alive_timestamp: 0 },
    };
    let temp_realm = RealmId::Temporary(InvitationId(5));
    let mut realms = vec![
        RealmState {
            realm_id: RealmId::Public,
            scenes: vec![
                scene_state(scene(Some(1), 0), 0, vec![]),
                scene_state(scene(Some(4), 0), now - 10_000, vec![]),
                scene_state(scene(Some(5), 0), 0, vec![dead_long]),
                scene_state(scene(Some(6), 0), 0, vec![alive]),
            ],
        },
        RealmState { realm_id: temp_realm, scenes: vec![scene_state(scene(None, 0), 0, vec![dead_long])] },
        RealmState { realm_id: RealmId::Temporary(InvitationId(6)), scenes: vec![scene_state(scene(None, 0), 0, vec![])] },
    ];
    let mut invitations = InvitationRepo::default();
    let gone = ArenaId { realm_id: RealmId::Temporary(InvitationId(6)), scene_id: scene(None, 0) };
    assert!(invitations.prepare_temporary_invitation(|| InvitationId(6)).is_some());
    assert!(invitations.prepare_temporary_invitation(|| InvitationId(5)).is_some());
    assert_eq!(invitations.get(InvitationId(6)).unwrap().arena_id, gone);

    collect_arenas(&mut realms, &servers, false, ServerId(1), now, true, &mut invitations);
    assert_eq!(realms.len(), 3);
    assert_eq!(invitations.len(), 2);

    collect_arenas(&mut realms, &servers, false, ServerId(1), now, false, &mut invitations);
    assert_eq!(realms.len(), 2);
    assert_eq!(realms[0].realm_id, RealmId::Public);
    let kept: Vec<SceneId> = realms[0].scenes.iter().map(|s| s.scene_id).collect();
    assert_eq!(kept, vec![scene(Some(1), 0), scene(Some(4), 0), scene(Some(6), 0)]);
    assert_eq!(realms[0].scenes[0].last_sanctioned, now);
    assert_eq!(realms[0].scenes[1].last_sanctioned, now - 10_000);
    assert_eq!(realms[1].realm_id, temp_realm);
    assert_eq!(invitations.len(), 1);
    assert!(invitations.get(InvitationId(6)).is_none());
    assert!(invitations.get(InvitationId(5)).is_some());

    // A second collection at the same moment changes nothing.
    collect_arenas(&mut realms, &servers, false, ServerId(1), now, false, &mut invitations);
    assert_eq!(realms.len(), 2);
    assert_eq!(realms[0].scenes.len(), 3);
    assert_eq!(invitations.len(), 1);
}

// ---------------------------------------------------------------- connection accounting

#[test]
fn connections_are_admitted_below_the_soft_limit_and_refused_at_the_hard_limit() {
    let ip: u128 = 0xffff_7f00_0001;
    let mut usage = IpUsage::new();
    assert_eq!(usage.usage(ip), None);
    for n in 0..12u32 {
        assert!(usage.admit_connection(ip, false));
        assert_eq!(usage.usage(ip), Some((n + 1, 0)));
    }
    // Between the limits a coin decides; at the hard limit every attempt fails.
    let mut tries = 0;
    while usage.usage(ip).unwrap().0 < 15 && tries < 10_000 {
        usage.admit_connection(ip, false);
        tries += 1;
    }
    assert_eq!(usage.usage(ip), Some((15, 0)));
    assert!(!usage.admit_connection(ip, false));
    assert_eq!(usage.usage(ip), Some((15, 0)));
    // Each active connection raises both limits by three.
    usage.add_active(ip);
    usage.add_active(ip);
    assert_eq!(usage.usage(ip), Some((15, 2)));
    assert!(usage.admit_connection(ip, false));
    assert_eq!(usage.usage(ip), Some((16, 2)));
}

#[test]
fn rate_limited_addresses_are_refused_but_get_an_entry() {
    let mut usage = IpUsage::new();
    assert!(!usage.admit_connection(7, true));
    assert_eq!(usage.usage(7), Some((0, 0)));
}

#[test]
fn releasing_undoes_admitting_and_never_goes_below_zero() {
    let mut usage = IpUsage::new();
    assert!(usage.admit_connection(1, false));
    usage.add_active(1);
    assert_eq!(usage.usage(1), Some((1, 1)));
    usage.release_active(1);
    usage.release_connection(1);
    assert_eq!(usage.usage(1), Some((0, 0)));
    usage.release_connection(1);
    usage.release_active(1);
    assert_eq!(usage.usage(1), Some((0, 0)));
    usage.release_connection(2);
    assert_eq!(usage.usage(2), None);
}

#[test]
fn players_online_adds_local_and_other_servers_reports() {
    let servers = reports();
    // Server 1 reports 3 players in the public realm; server 2 none.
    assert_eq!(players_online(&vec![4, 5], &servers, ServerId(2), RealmId::Public), 12);
    // The local server's own report is not counted twice.
    assert_eq!(players_online(&vec![4, 5], &servers, ServerId(1), RealmId::Public), 9);
    let temporary = RealmId::Temporary(InvitationId(1));
    assert_eq!(players_online(&vec![], &servers, ServerId(2), temporary), 0);
}

#[test]
fn recording_liveness_stamps_changes_only() {
    let mut l = Liveness { was_alive: false, was_ever_alive: false, was_alive_timestamp: 0 };
    assert_eq!(l.record(false, 10), None);
    assert!(l.is_out_of_game(10));
    assert_eq!(l.record(true, 20), Some(true));
    assert!(l.was_ever_alive && l.was_alive_timestamp == 20);
    assert_eq!(l.record(true, 30), None);
    assert_eq!(l.was_alive_timestamp, 20);
    assert_eq!(l.record(false, 40), Some(false));
    assert!(!l.is_out_of_game(40 + 30_000));
    assert!(l.is_out_of_game(40 + 30_001));
}
