use kodiak_server::auth::{authenticate, update_redirecting_since, ClientAuthErr};
use kodiak_server::service::metric::{MetricSchedule, MetricTick};
use kodiak_server::client_status::{
    client_activity, ActivityAction,
    prune_client, prune_players, register_client, unregister_client, ClientPhase, PruneAction, PrunedPlayer,
    RegisterAction,
};
use kodiak_server::heartbeat::{fail_open_servers, heartbeat_requests, plan_uploads, HeartbeatClock, HeartbeatRequest};
use kodiak_server::ids::{InstanceNumber, RealmId, ServerId};
use kodiak_server::ids::{PlayerId, RegionId};
use kodiak_server::regulator::Regulator;

fn joined() -> Regulator {
    let mut r = Regulator::default();
    assert!(r.join());
    r
}

#[test]
fn pending_clients_are_forgotten_after_expiry() {
    let mut phase = ClientPhase::Pending { expiry: 100 };
    let mut r = Regulator::default();
    assert_eq!(prune_client(&mut phase, &mut r, 100), PruneAction::Stay);
    assert_eq!(prune_client(&mut phase, &mut r, 101), PruneAction::Forget);
    assert_eq!(phase, ClientPhase::Pending { expiry: 100 });
}

#[test]
fn limbo_expiry_quits_then_forgets_once_the_regulator_left() {
    let mut phase = ClientPhase::Limbo { expiry: 50 };
    let mut r = joined();
    assert_eq!(prune_client(&mut phase, &mut r, 49), PruneAction::Stay);
    assert_eq!(prune_client(&mut phase, &mut r, 60), PruneAction::Quit { tell_game: true });
    assert_eq!(phase, ClientPhase::LeavingLimbo { expiry: 60, ticks: 0 });
    assert!(!r.active());
    assert_eq!(r.tick(), None);
    assert_eq!(prune_client(&mut phase, &mut r, 61), PruneAction::Stay);
    assert_eq!(r.tick(), Some(false));
    assert_eq!(prune_client(&mut phase, &mut r, 62), PruneAction::Stay);
    assert_eq!(phase, ClientPhase::LeavingLimbo { expiry: 60, ticks: 2 });
    assert_eq!(r.tick(), None);
    assert!(r.can_forget());
    assert_eq!(prune_client(&mut phase, &mut r, 63), PruneAction::StopVisitAndForget);
}

#[test]
fn leaving_limbo_waits_for_a_new_connection_and_the_regulator() {
    let mut phase = ClientPhase::LeavingLimbo { expiry: 100, ticks: 2 };
    let mut r = Regulator::default();
    assert_eq!(prune_client(&mut phase, &mut r, 99), PruneAction::Stay);
    let mut busy = joined();
    assert_eq!(prune_client(&mut phase, &mut busy, 200), PruneAction::Stay);
    assert_eq!(prune_client(&mut phase, &mut r, 100), PruneAction::StopVisitAndForget);
}

#[test]
fn redirected_clients_are_closed_once_or_forgotten() {
    let mut r = Regulator::default();
    let mut with_observer = ClientPhase::Redirected { expiry: 10, has_observer: true, send_close: true };
    assert_eq!(prune_client(&mut with_observer, &mut r, 9), PruneAction::Stay);
    assert_eq!(prune_client(&mut with_observer, &mut r, 10), PruneAction::SendClose);
    assert_eq!(prune_client(&mut with_observer, &mut r, 11), PruneAction::Stay);
    let mut without = ClientPhase::Redirected { expiry: 10, has_observer: false, send_close: true };
    assert_eq!(prune_client(&mut without, &mut r, 10), PruneAction::Forget);
    let mut busy = joined();
    assert_eq!(prune_client(&mut without, &mut busy, 10), PruneAction::Stay);
}

#[test]
fn connected_clients_stay() {
    let mut phase = ClientPhase::Connected;
    let mut r = joined();
    assert_eq!(prune_client(&mut phase, &mut r, u64::MAX), PruneAction::Stay);
    assert!(r.active());
}

#[test]
fn prune_players_lists_actions_in_order() {
    let mut players = vec![
        PrunedPlayer { player_id: PlayerId(1), phase: Some(ClientPhase::Pending { expiry: 0 }), regulator: Regulator::default() },
        PrunedPlayer { player_id: PlayerId(2), phase: None, regulator: Regulator::default() },
        PrunedPlayer { player_id: PlayerId(3), phase: None, regulator: joined() },
        PrunedPlayer { player_id: PlayerId(4), phase: Some(ClientPhase::Limbo { expiry: 5 }), regulator: joined() },
        PrunedPlayer { player_id: PlayerId(5), phase: Some(ClientPhase::Connected), regulator: joined() },
    ];
    assert!(prune_players(&mut players, 10, true).is_empty());
    assert_eq!(players[0].phase, Some(ClientPhase::Pending { expiry: 0 }));
    let actions = prune_players(&mut players, 10, false);
    assert_eq!(
        actions,
        vec![
            (PlayerId(1), PruneAction::Forget),
            (PlayerId(2), PruneAction::Forget),
            (PlayerId(4), PruneAction::Quit { tell_game: true }),
        ]
    );
    assert_eq!(players.len(), 5);
    assert_eq!(players[3].phase, Some(ClientPhase::LeavingLimbo { expiry: 10, ticks: 0 }));
    assert!(!players[3].regulator.active());
    assert!(players[4].regulator.active());
}

#[test]
fn registering_a_pending_client_starts_its_visit_and_joins() {
    let mut phase = ClientPhase::Pending { expiry: 10 };
    let mut r = Regulator::default();
    assert_eq!(
        register_client(&mut phase, &mut r),
        RegisterAction::Connect { close_previous: false, start_visit: true, tell_game: true }
    );
    assert_eq!(phase, ClientPhase::Connected);
    assert!(r.active());
    // A second connection retires the first.
    assert_eq!(
        register_client(&mut phase, &mut r),
        RegisterAction::Connect { close_previous: true, start_visit: false, tell_game: false }
    );
}

#[test]
fn disconnecting_goes_to_limbo_and_reconnecting_restores() {
    let mut phase = ClientPhase::Connected;
    let mut r = joined();
    unregister_client(&mut phase, false, 100, 1_000);
    assert_eq!(phase, ClientPhase::Connected);
    unregister_client(&mut phase, true, 100, 1_000);
    assert_eq!(phase, ClientPhase::Limbo { expiry: 1_100 });
    assert_eq!(prune_client(&mut phase, &mut r, 500), PruneAction::Stay);
    assert_eq!(
        register_client(&mut phase, &mut r),
        RegisterAction::Connect { close_previous: false, start_visit: false, tell_game: false }
    );
    assert_eq!(phase, ClientPhase::Connected);
    assert!(r.active());
    let mut far = ClientPhase::Connected;
    unregister_client(&mut far, true, u64::MAX - 1, 1_000);
    assert_eq!(far, ClientPhase::Limbo { expiry: u64::MAX });
}

#[test]
fn rejoining_from_leaving_limbo_cancels_the_leave() {
    let mut phase = ClientPhase::Limbo { expiry: 0 };
    let mut r = joined();
    assert_eq!(prune_client(&mut phase, &mut r, 1), PruneAction::Quit { tell_game: true });
    assert_eq!(
        register_client(&mut phase, &mut r),
        RegisterAction::Connect { close_previous: false, start_visit: false, tell_game: false }
    );
    assert!(r.active());
}

#[test]
fn redirected_clients_keep_a_new_connection_only_to_close_it() {
    let mut phase = ClientPhase::Redirected { expiry: 5, has_observer: false, send_close: true };
    let mut r = Regulator::default();
    assert_eq!(register_client(&mut phase, &mut r), RegisterAction::Redirect { send: true });
    assert_eq!(phase, ClientPhase::Redirected { expiry: 5, has_observer: true, send_close: true });
    unregister_client(&mut phase, true, 0, 10);
    assert_eq!(phase, ClientPhase::Redirected { expiry: 5, has_observer: false, send_close: true });
    let mut done = ClientPhase::Redirected { expiry: 5, has_observer: false, send_close: false };
    assert_eq!(register_client(&mut done, &mut r), RegisterAction::Redirect { send: false });
    assert_eq!(done, ClientPhase::Redirected { expiry: 5, has_observer: false, send_close: false });
}

#[test]
fn heartbeats_follow_the_connection_health() {
    let mut clock = HeartbeatClock::new();
    // Never heard from the infrastructure: send at once and fail open.
    let plan = clock.check(1_000_000, RegionId::Europe);
    assert!(plan.send && plan.fail_open && plan.recent_hiccup);
    assert_eq!(clock.last_heartbeat, Some(1_000_000));
    clock.acknowledge(1_000_100);
    // Hiccup still recent: 30 s spacing.
    assert!(!clock.check(1_029_000, RegionId::Europe).send);
    let plan = clock.check(1_030_000, RegionId::Europe);
    assert!(plan.send && !plan.fail_open);
    // Long after the hiccup: 60 s spacing in Europe, 45 s in Asia.
    clock.acknowledge(1_200_000);
    let plan = clock.check(1_200_000, RegionId::Europe);
    assert!(plan.send && !plan.recent_hiccup);
    assert_eq!(clock.last_hiccup, None);
    clock.acknowledge(1_240_000);
    let mut asia = clock;
    assert!(!clock.check(1_250_000, RegionId::Europe).send);
    assert!(asia.check(1_250_000, RegionId::Asia).send);
    assert!(clock.check(1_260_000, RegionId::Europe).send);
}

#[test]
fn uploads_wait_for_enough_or_long_enough() {
    assert_eq!(plan_uploads(false, true, 600, None, 30, None, 0), (false, false));
    assert_eq!(plan_uploads(false, false, 512, Some(0), 20, Some(0), 10), (true, true));
    assert_eq!(plan_uploads(false, false, 1, Some(0), 1, None, 3_600_000), (false, true));
    assert_eq!(plan_uploads(false, false, 1, Some(0), 0, None, 3_600_001), (true, false));
    assert_eq!(plan_uploads(true, true, 1, Some(0), 1, Some(0), 110_001), (true, true));
    assert_eq!(plan_uploads(true, true, 1, Some(0), 1, Some(0), 110_000), (false, false));
}

#[test]
fn authentication_refusals_and_free_ids() {
    let candidates = vec![PlayerId(100), PlayerId(101), PlayerId(102)];
    let taken = vec![PlayerId(100), PlayerId(5)];
    assert_eq!(authenticate(true, true, None, None, &candidates, &taken), Err(ClientAuthErr::TooManyRequests));
    assert_eq!(authenticate(false, false, None, None, &candidates, &taken), Err(ClientAuthErr::UnsanctionedArena));
    assert_eq!(authenticate(false, true, Some(PlayerId(5)), Some(999_999), &candidates, &taken), Ok(PlayerId(5)));
    assert_eq!(
        authenticate(false, true, None, Some(300_001), &candidates, &taken),
        Err(ClientAuthErr::UnsanctionedServer)
    );
    assert_eq!(authenticate(false, true, None, Some(300_000), &candidates, &taken), Ok(PlayerId(101)));
    let full = vec![PlayerId(100), PlayerId(101), PlayerId(102)];
    assert_eq!(authenticate(false, true, None, None, &candidates, &full), Err(ClientAuthErr::TooManyPlayers));
}

#[test]
fn redirecting_since_tracks_the_start_of_redirection() {
    let mut since = None;
    update_redirecting_since(&mut since, false, 10);
    assert_eq!(since, None);
    update_redirecting_since(&mut since, true, 20);
    assert_eq!(since, Some(20));
    update_redirecting_since(&mut since, true, 30);
    assert_eq!(since, Some(20));
    update_redirecting_since(&mut since, false, 40);
    assert_eq!(since, None);
}

#[test]
fn failing_open_registers_first_and_keeps_only_this_server() {
    assert_eq!(heartbeat_requests(false), vec![HeartbeatRequest::Heartbeat]);
    assert_eq!(heartbeat_requests(true), vec![HeartbeatRequest::RegisterServer, HeartbeatRequest::Heartbeat]);
    let servers = fail_open_servers(ServerId(7), RegionId::Asia, 12);
    assert_eq!(servers.len(), 1);
    assert_eq!(servers[0].0, ServerId(7));
    assert_eq!(servers[0].1.region_id, RegionId::Asia);
    assert_eq!(servers[0].1.realms.len(), 1);
    assert_eq!(servers[0].1.realms[0].0, RealmId::Public);
    let scenes = &servers[0].1.realms[0].1.scenes;
    assert_eq!(scenes.len(), 1);
    assert_eq!(scenes[0].0.tier_number, None);
    assert_eq!(scenes[0].0.instance_number, InstanceNumber(0));
    assert_eq!(scenes[0].1.player_count, 12);
}

#[test]
fn activity_windows_activate_and_lurk() {
    assert_eq!(client_activity(15_000, 5_000, None), ActivityAction::Stay);
    assert_eq!(client_activity(10_000, 5_000, None), ActivityAction::Activate);
    assert_eq!(client_activity(15_000, 5_000, Some(false)), ActivityAction::Stay);
    assert_eq!(client_activity(15_001, 5_000, Some(false)), ActivityAction::Lurk);
    assert_eq!(client_activity(10_001, 5_000, Some(true)), ActivityAction::Lurk);
    assert_eq!(client_activity(0, 5_000, Some(true)), ActivityAction::Stay);
}

#[test]
fn metrics_sample_each_minute_and_swap_each_hour() {
    let mut schedule = MetricSchedule::new(3_600_000 + 90_000);
    assert_eq!(schedule, MetricSchedule { next_update: 3_600_000 + 120_000, next_swap: 7_200_000 });
    assert_eq!(schedule.tick(3_600_000 + 100_000), MetricTick { sample: false, swap: None });
    assert_eq!(schedule.tick(3_600_000 + 125_000), MetricTick { sample: true, swap: None });
    assert_eq!(schedule.next_update, 3_600_000 + 180_000);
    assert_eq!(schedule.tick(7_200_000 + 5), MetricTick { sample: true, swap: Some(7_200_000) });
    assert_eq!(schedule, MetricSchedule { next_update: 7_260_000, next_swap: 10_800_000 });
}

#[test]
fn regulator_reports_count_presence() {
    // Join (fast, +1), leave, three ticks (the third reports -1).
    let mut r = Regulator::default();
    let mut present = 0i32;
    if r.join() {
        present += 1;
    }
    r.leave();
    for _ in 0..3 {
        match r.tick() {
            Some(true) => present += 1,
            Some(false) => present -= 1,
            None => {}
        }
    }
    assert_eq!(present, 0);
    assert!(r.can_forget());
}
