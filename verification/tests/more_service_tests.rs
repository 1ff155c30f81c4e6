use kodiak_server::options::http_and_https_ports;
use kodiak_server::ids::{InstanceNumber, PlayerAlias, PlayerId, RealmId, RegionId, SceneId, ServerId};
use kodiak_server::public_ip::most_common_answer;
use kodiak_server::server_picker::{ideal_server_id, pick_best, ServerPickerItem, ServerPriority, SystemRequest};
use kodiak_server::service::boards::Score;
use kodiak_server::service::bots::{target_bot_count, BotAction, BotOptions, BotRepo};
use kodiak_server::service::chat::{ChatInbox, MessageAttribution, MessageDto};
use kodiak_server::service::boards::PlayerLiveboardData;
use kodiak_server::service::liveboard::{board_score, LiveboardDto, LiveboardRepo, ScorePlayer};
use std::sync::Arc;

// ---------------------------------------------------------------- chat

fn msg(text: &str) -> Arc<MessageDto> {
    Arc::new(MessageDto { alias: None, text: text.to_string() })
}

#[test]
fn chat_inbox_numbers_messages_once() {
    let mut inbox = ChatInbox::default();
    assert!(inbox.read_is_empty());
    inbox.write(msg("a"), Some(MessageAttribution(1)));
    inbox.write(msg("b"), None);
    assert!(!inbox.read_is_empty());
    let sent = inbox.read();
    assert_eq!(sent.len(), 2);
    assert_eq!(sent[0].0, 0);
    assert_eq!(sent[0].1.text, "a");
    assert_eq!(sent[1].0, 1);
    assert!(inbox.read_is_empty());
    assert!(inbox.read().is_empty());
    assert_eq!(inbox.attribute(0), Some(MessageAttribution(1)));
    assert_eq!(inbox.attribute(1), None);
    assert_eq!(inbox.attribute(2), None);
    inbox.write(msg("c"), Some(MessageAttribution(3)));
    let sent = inbox.read();
    assert_eq!(sent.len(), 1);
    assert_eq!(sent[0].0, 2);
    assert_eq!(inbox.attribute(2), Some(MessageAttribution(3)));
}

#[test]
fn chat_inbox_keeps_the_last_ten() {
    let mut inbox = ChatInbox::default();
    for i in 0..12 {
        inbox.write(msg(&i.to_string()), Some(MessageAttribution(i)));
    }
    let sent = inbox.read();
    assert_eq!(sent.len(), 10);
    assert_eq!(sent[0].1.text, "2");
    assert_eq!(sent[9].1.text, "11");
    assert_eq!(inbox.attribute(0), Some(MessageAttribution(2)));
}

#[test]
fn chat_inbox_mark_unread_resends_with_new_numbers() {
    let mut inbox = ChatInbox::default();
    inbox.write(msg("a"), Some(MessageAttribution(1)));
    assert_eq!(inbox.read()[0].0, 0);
    inbox.mark_unread();
    assert!(!inbox.read_is_empty());
    assert_eq!(inbox.attribute(0), None);
    let again = inbox.read();
    assert_eq!(again.len(), 1);
    assert_eq!(again[0].0, 1);
    assert_eq!(inbox.attribute(1), Some(MessageAttribution(1)));
}

#[test]
fn chat_inbox_numbers_wrap() {
    let mut inbox = ChatInbox::default();
    for _ in 0..256 {
        inbox.write(msg("x"), None);
        inbox.read();
    }
    inbox.write(msg("y"), Some(MessageAttribution(9)));
    let sent = inbox.read();
    assert_eq!(sent[0].0, 0);
    assert_eq!(inbox.attribute(0), Some(MessageAttribution(9)));
}

// ---------------------------------------------------------------- bots

#[test]
fn bot_count_targets() {
    let positive = BotOptions { min_bots: 2, max_bots: 10, bot_percent: 50 };
    assert_eq!(target_bot_count(positive, 7, None), 3);
    assert_eq!(target_bot_count(positive, 0, None), 2);
    assert_eq!(target_bot_count(positive, 100, None), 10);
    assert_eq!(target_bot_count(positive, 100, Some(40)), 40);
    let negative = BotOptions { min_bots: 0, max_bots: 10, bot_percent: -50 };
    assert_eq!(target_bot_count(negative, 7, None), 7);
    // The division rounds toward zero: 50% of one player is nothing.
    assert_eq!(target_bot_count(negative, 1, None), 10);
    assert_eq!(target_bot_count(negative, 100, None), 0);
}

#[test]
fn bot_count_steps() {
    let mut repo = BotRepo::default();
    repo.set_count(10);
    assert_eq!(repo.count, 4);
    repo.set_count(10);
    assert_eq!(repo.count, 8);
    repo.set_count(10);
    assert_eq!(repo.count, 10);
    repo.set_count(10);
    assert_eq!(repo.count, 10);
    repo.set_count(0);
    assert_eq!(repo.count, 6);
    let mut big = BotRepo::default();
    big.set_count(1000);
    assert_eq!(big.count, 20);
    let a: BotAction<u8> = BotAction::default();
    assert!(matches!(a, BotAction::Idle("default")));
}

// ---------------------------------------------------------------- public ip

#[test]
fn most_common_answer_wins() {
    assert_eq!(most_common_answer(&vec![]), None);
    assert_eq!(most_common_answer(&vec![None, None]), None);
    assert_eq!(most_common_answer(&vec![Some(1), Some(2), Some(2), None]), Some(2));
    // A tie goes to the answer that reached the count first.
    assert_eq!(most_common_answer(&vec![Some(1), Some(2), Some(2), Some(1)]), Some(2));
    assert_eq!(most_common_answer(&vec![Some(3), Some(1), Some(1), Some(3), Some(3)]), Some(3));
}

// ---------------------------------------------------------------- server picker

fn item(id: u16, dc: &str, region: RegionId, players: u32) -> ServerPickerItem {
    ServerPickerItem { server_id: ServerId(id), datacenter: dc.to_string(), region_id: region, player_count: players }
}

fn request(server: Option<u16>, realm: Option<RealmId>, region: Option<RegionId>) -> SystemRequest {
    SystemRequest { server_id: server.map(ServerId), realm_id: realm, region_id: region, user_agent_id: None }
}

fn distance(a: RegionId, b: RegionId) -> u8 {
    if a == b {
        0
    } else {
        2
    }
}

#[test]
fn picks_the_requested_server_first() {
    let servers = vec![item(1, "x", RegionId::Europe, 0), item(2, "y", RegionId::Asia, 500)];
    let r = ideal_server_id(&servers, &request(Some(2), None, Some(RegionId::Europe)), None, ServerId(1), false, &distance);
    assert_eq!(r, ServerId(2));
}

#[test]
fn picks_the_nearest_then_the_least_loaded() {
    let servers = vec![
        item(1, "x", RegionId::Asia, 0),
        item(2, "y", RegionId::Europe, 300),
        item(3, "z", RegionId::Europe, 100),
    ];
    let r = ideal_server_id(&servers, &request(None, None, Some(RegionId::Europe)), None, ServerId(1), false, &distance);
    assert_eq!(r, ServerId(3));
    // With GeoDNS, servers in this server's datacenter come first.
    let r = ideal_server_id(&servers, &request(None, None, Some(RegionId::Europe)), None, ServerId(1), true, &distance);
    assert_eq!(r, ServerId(1));
}

#[test]
fn picker_filter_and_other_realms() {
    let servers = vec![item(1, "x", RegionId::Asia, 0), item(2, "y", RegionId::Europe, 300)];
    let r = ideal_server_id(&servers, &request(None, None, None), Some(ServerId(2)), ServerId(1), false, &distance);
    assert_eq!(r, ServerId(2));
    let r = ideal_server_id(&servers, &request(None, None, None), Some(ServerId(9)), ServerId(1), false, &distance);
    assert_eq!(r, ServerId(1));
    let temp = Some(RealmId::Temporary(kodiak_server::ids::InvitationId(3)));
    assert_eq!(ideal_server_id(&servers, &request(Some(7), temp, None), None, ServerId(1), false, &distance), ServerId(7));
    assert_eq!(ideal_server_id(&servers, &request(None, temp, None), None, ServerId(1), false, &distance), ServerId(1));
}

#[test]
fn pick_best_takes_the_first_of_equals() {
    let p = |w: bool, d: u8, l: u32| ServerPriority { wrong_server_id: w, distance: d, load: l };
    assert_eq!(pick_best(&vec![], ServerId(9)), ServerId(9));
    let list = vec![
        (ServerId(1), p(true, 0, 0)),
        (ServerId(2), p(false, 1, 5)),
        (ServerId(3), p(false, 1, 5)),
        (ServerId(4), p(false, 2, 0)),
    ];
    assert_eq!(pick_best(&list, ServerId(9)), ServerId(2));
}

// ---------------------------------------------------------------- liveboard

fn entry(scene: u8, player: u32, score: u32) -> ((SceneId, PlayerId), LiveboardDto) {
    (
        (SceneId { tier_number: None, instance_number: InstanceNumber(scene) }, PlayerId(player)),
        LiveboardDto {
            alias: PlayerAlias(format!("p{player}")),
            score,
            visitor_id: None,
            authentic: false,
            team_name: None,
        },
    )
}

#[test]
fn liveboard_ranks_highest_first() {
    let mut board = LiveboardRepo::default();
    // Nothing is gathered before the first update starts processing.
    board.process(3, vec![entry(0, 1, 10)]);
    assert!(board.update(false, 2).is_empty());
    assert!(!board.dirty());
    board.process(3, vec![entry(0, 1, 10), entry(0, 2, 30)]);
    board.process(2, vec![entry(1, 3, 10), entry(1, 4, 20)]);
    let ranks = board.update(false, 3);
    assert!(board.dirty());
    assert_eq!(board.player_count(), 5);
    let order: Vec<(u32, u32, u16)> = ranks.iter().map(|(q, s, r)| (q.1 .0, *s, *r)).collect();
    assert_eq!(order, vec![(2, 30, 0), (4, 20, 1), (1, 10, 2), (3, 10, 3)]);
    let top: Vec<u32> = board.get().iter().map(|d| d.score).collect();
    assert_eq!(top, vec![30, 20, 10]);
    assert_eq!(board.get()[2].alias.0, "p1");
    // A rate-limited update still publishes, but gathering pauses.
    assert!(board.update(true, 3).is_empty());
    board.process(1, vec![entry(0, 9, 1)]);
    assert!(board.update(false, 3).is_empty());
    assert!(!board.dirty());
}

#[test]
fn board_scores() {
    assert_eq!(board_score(true, false, false, Score::Scored(4)), Some(4));
    assert_eq!(board_score(false, false, true, Score::Scored(4)), None);
    assert_eq!(board_score(true, true, false, Score::Scored(4)), None);
    assert_eq!(board_score(true, true, true, Score::Scored(4)), Some(4));
    assert_eq!(board_score(true, false, true, Score::Proxy(PlayerId(1))), None);
}

#[test]
fn ports_default_by_privilege() {
    assert_eq!(http_and_https_ports(true, None, None), (80, 443));
    assert_eq!(http_and_https_ports(false, None, None), (8080, 8443));
    assert_eq!(http_and_https_ports(false, Some(1), None), (1, 8443));
    assert_eq!(http_and_https_ports(true, None, Some(2)), (80, 2));
}

fn score_player(id: u32, score: Score, rank: Option<u16>, team: Option<&str>, nick: Option<&str>) -> ScorePlayer {
    ScorePlayer {
        player_id: PlayerId(id),
        liveboard: PlayerLiveboardData { score, rank },
        alias: PlayerAlias(format!("p{id}")),
        team_name: team.map(|t| kodiak_server::ids::TeamName(t.to_string())),
        nick_name: nick.map(|n| n.to_string()),
        visitor_id: Some(id as u64 * 10),
    }
}

#[test]
fn your_score_follows_proxies_and_only_when_dirty() {
    let mut board = LiveboardRepo::default();
    let players = vec![
        score_player(1, Score::Scored(50), Some(2), Some("Red"), Some("p1")),
        score_player(2, Score::Proxy(PlayerId(1)), None, None, None),
        score_player(3, Score::Unscored, None, None, None),
        score_player(4, Score::Scored(7), None, None, None),
        score_player(5, Score::Proxy(PlayerId(9)), None, None, None),
    ];
    assert!(board.your_score_nondestructive(PlayerId(1), &players, false).is_none());
    board.update(false, 3);
    board.update(false, 3);
    assert!(board.dirty());
    let mine = board.your_score_nondestructive(PlayerId(1), &players, false).unwrap().unwrap();
    assert_eq!((mine.ranking, mine.inner.score, mine.inner.alias.0.as_str()), (2, 50, "p1"));
    assert_eq!(mine.inner.team_name.unwrap().0, "Red");
    assert!(mine.inner.authentic);
    assert_eq!(mine.inner.visitor_id, Some(10));
    // A proxy shows the other player's standing, authentic only if that
    // player's nick is the asking player's alias.
    let proxied = board.your_score_nondestructive(PlayerId(2), &players, true).unwrap().unwrap();
    assert_eq!((proxied.ranking, proxied.inner.score, proxied.inner.alias.0.as_str()), (2, 50, "Red"));
    assert!(proxied.inner.team_name.is_none());
    assert!(!proxied.inner.authentic);
    assert!(board.your_score_nondestructive(PlayerId(3), &players, false).unwrap().is_none());
    assert!(board.your_score_nondestructive(PlayerId(4), &players, false).unwrap().is_none());
    assert!(board.your_score_nondestructive(PlayerId(5), &players, false).unwrap().is_none());
}
