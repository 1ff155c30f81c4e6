use kodiak_server::ids::{PlayerAlias, PlayerId, TeamId, TeamName};
use kodiak_server::team::color::TeamColor;
use kodiak_server::team::id_or_alias::PlayerIdOrAlias;
use kodiak_server::team::joined_status::{joins_vec, JoinUpdate, PlayerStatus};
use kodiak_server::team::model::PlayerTeamModel;
use kodiak_server::team::protocol::TeamRequest;
use kodiak_server::team::roster::TeamRoster;
use kodiak_server::team::team::allocate_team_id;

fn alias(s: &str) -> PlayerAlias {
    PlayerAlias(s.to_string())
}

fn name(s: &str) -> TeamName {
    TeamName(s.to_string())
}

fn team_of(roster: &TeamRoster<()>, p: u32) -> Option<TeamId> {
    roster.get_player_status(PlayerId(p)).team_id()
}

/// Two players spawn: each gets a team of its own, led by itself.
fn two_spawned() -> TeamRoster<()> {
    let mut roster: TeamRoster<()> = TeamRoster::new();
    assert!(roster.add_player(PlayerId(1)));
    assert!(roster.add_player(PlayerId(2)));
    let t1 = roster.prepare_spawn_team(PlayerId(1), alias("one"), None);
    let t2 = roster.prepare_spawn_team(PlayerId(2), alias("two"), None);
    assert_ne!(t1, t2);
    roster
}

#[test]
fn add_player_twice_is_refused() {
    let mut roster: TeamRoster<()> = TeamRoster::new();
    assert!(roster.add_player(PlayerId(7)));
    assert!(!roster.add_player(PlayerId(7)));
    assert!(roster.get_player_status(PlayerId(7)).is_spawning());
}

#[test]
fn spawning_makes_an_anonymous_team() {
    let roster = two_spawned();
    let t1 = team_of(&roster, 1).unwrap();
    let team = roster.get_team(t1);
    assert!(team.name.is_none());
    assert_eq!(team.leader().map(|m| m.player_id), Some(PlayerId(1)));
    assert_eq!(team.members.len(), 1);
}

#[test]
fn full_team_protocol() {
    let mut roster = two_spawned();
    let t1 = team_of(&roster, 1).unwrap();
    // Joining an unnamed team is refused.
    assert_eq!(
        roster.handle_team_request(PlayerId(2), TeamRequest::Join(t1)),
        Err("cannot join un-named team")
    );
    // The leader names the team.
    assert_eq!(roster.handle_team_request(PlayerId(1), TeamRequest::Name(name("red"))), Ok(()));
    assert_eq!(roster.get_team(t1).name.as_ref().map(|n| n.0.clone()), Some("red".to_string()));
    // Naming again is refused.
    assert_eq!(
        roster.handle_team_request(PlayerId(1), TeamRequest::Name(name("blue"))),
        Err("team already named")
    );
    // Player 2 asks to join, twice.
    assert_eq!(roster.handle_team_request(PlayerId(2), TeamRequest::Join(t1)), Ok(()));
    assert_eq!(
        roster.handle_team_request(PlayerId(2), TeamRequest::Join(t1)),
        Err("already joining that team")
    );
    let joins = roster.get_player_status(PlayerId(2)).joins().unwrap();
    assert_eq!(joins_vec(&joins), vec![t1]);
    assert!(roster.get_team(t1).joiners.contains(&PlayerId(2)));
    // Player 2 leads its own team, which it is not joining.
    assert_eq!(
        roster.handle_team_request(PlayerId(2), TeamRequest::Accept(PlayerId(2))),
        Err("player was not joining")
    );
    assert_eq!(roster.handle_team_request(PlayerId(1), TeamRequest::Accept(PlayerId(2))), Ok(()));
    assert_eq!(team_of(&roster, 2), Some(t1));
    assert_eq!(roster.get_team(t1).members.len(), 2);
    assert!(roster.get_team(t1).joiners.is_empty());
    // A member that does not lead may not accept, kick or reject.
    assert_eq!(
        roster.handle_team_request(PlayerId(2), TeamRequest::Accept(PlayerId(1))),
        Err("unauthorized")
    );
    assert_eq!(roster.handle_team_request(PlayerId(2), TeamRequest::Kick(PlayerId(1))), Err("unauthorized"));
    // The member leaves again.
    assert_eq!(roster.handle_team_request(PlayerId(2), TeamRequest::Leave), Ok(()));
    assert_ne!(team_of(&roster, 2), Some(t1));
    assert_eq!(roster.get_team(t1).members.len(), 1);
}

#[test]
fn reject_and_kick() {
    let mut roster = two_spawned();
    let t1 = team_of(&roster, 1).unwrap();
    assert_eq!(roster.handle_team_request(PlayerId(1), TeamRequest::Name(name("red"))), Ok(()));
    assert_eq!(roster.handle_team_request(PlayerId(2), TeamRequest::Join(t1)), Ok(()));
    assert_eq!(roster.handle_team_request(PlayerId(1), TeamRequest::Reject(PlayerId(2))), Ok(()));
    assert!(roster.get_team(t1).joiners.is_empty());
    assert_eq!(
        joins_vec(&roster.get_player_status(PlayerId(2)).joins().unwrap()),
        Vec::<TeamId>::new()
    );
    assert_eq!(
        roster.handle_team_request(PlayerId(1), TeamRequest::Reject(PlayerId(2))),
        Err("player was not joining")
    );
    assert_eq!(roster.handle_team_request(PlayerId(2), TeamRequest::Join(t1)), Ok(()));
    assert_eq!(roster.handle_team_request(PlayerId(1), TeamRequest::Accept(PlayerId(2))), Ok(()));
    assert_eq!(
        roster.handle_team_request(PlayerId(1), TeamRequest::Kick(PlayerId(1))),
        Err("cannot kick self")
    );
    assert_eq!(roster.handle_team_request(PlayerId(1), TeamRequest::Kick(PlayerId(2))), Ok(()));
    assert_ne!(team_of(&roster, 2), Some(t1));
    assert_eq!(
        roster.handle_team_request(PlayerId(1), TeamRequest::Kick(PlayerId(2))),
        Err("cannot kick non-member")
    );
}

#[test]
fn empty_name_is_refused() {
    let mut roster = two_spawned();
    assert_eq!(
        roster.handle_team_request(PlayerId(1), TeamRequest::Name(name(""))),
        Err("empty team name")
    );
}

#[test]
fn requests_of_a_spawning_player_fail() {
    let mut roster: TeamRoster<()> = TeamRoster::new();
    roster.add_player(PlayerId(3));
    assert_eq!(roster.handle_team_request(PlayerId(3), TeamRequest::Leave), Err("not in team"));
    assert_eq!(
        roster.handle_team_request(PlayerId(3), TeamRequest::Join(TeamId(0))),
        Err("not in team")
    );
}

#[test]
fn quitting_returns_to_spawning() {
    let mut roster = two_spawned();
    let t1 = team_of(&roster, 1).unwrap();
    roster.player_quit_game(PlayerId(1));
    assert!(roster.get_player_status(PlayerId(1)).is_spawning());
    assert!(!roster.has_team(t1));
}

#[test]
fn spawning_with_an_invitation_joins_the_inviter() {
    let mut roster = two_spawned();
    let t1 = team_of(&roster, 1).unwrap();
    assert_eq!(roster.handle_team_request(PlayerId(1), TeamRequest::Name(name("red"))), Ok(()));
    roster.player_quit_game(PlayerId(2));
    let t = roster.prepare_spawn_team(PlayerId(2), alias("two"), Some(PlayerId(1)));
    assert_eq!(t, t1);
    assert_eq!(team_of(&roster, 2), Some(t1));
}

#[test]
fn join_updates_and_back() {
    let mut s = PlayerStatus::default();
    assert!(s.is_spawning());
    s.player_update(&JoinUpdate::Join(TeamId(4)));
    assert_eq!(s.team_id(), Some(TeamId(4)));
    s.player_update(&JoinUpdate::AddJoin(TeamId(5)));
    s.player_update(&JoinUpdate::AddJoin(TeamId(6)));
    assert_eq!(joins_vec(&s.joins().unwrap()), vec![TeamId(5), TeamId(6)]);
    s.player_update(&JoinUpdate::RemoveJoin(TeamId(5)));
    assert_eq!(joins_vec(&s.joins().unwrap()), vec![TeamId(6)]);
    s.player_update(&JoinUpdate::Quit);
    assert!(s.is_spawning());
    assert_eq!(s.joins().map(|j| joins_vec(&j)), None);
}

#[test]
fn color_round_trip() {
    let c = TeamColor::new([0xab, 0x01, 0xff]);
    let text = c.to_hex_string();
    assert_eq!(text, "#ab01ff");
    let parsed = TeamColor::parse(&text).ok().unwrap();
    assert_eq!(parsed.as_rgb(), [0xab, 0x01, 0xff]);
    assert_eq!(parsed.as_rgba(7), [0xab, 0x01, 0xff, 7]);
}

#[test]
fn color_without_letters_is_refused() {
    let c = TeamColor::new([0x12, 0x34, 0x56]);
    assert_eq!(c.to_hex_string(), "#123456");
    assert!(TeamColor::parse("#123456").is_err());
}

#[test]
fn color_parse_edge_cases() {
    assert!(TeamColor::parse("#ABCDEF").is_err());
    assert!(TeamColor::parse("abcdef").is_err());
    assert!(TeamColor::parse("#abcde").is_err());
    assert!(TeamColor::parse("#abcdeg").is_err());
    assert_eq!(TeamColor::parse("#a0B0c0").ok().map(|c| c.as_rgb()), Some([0xa0, 0xb0, 0xc0]));
    assert_eq!(TeamColor::parse("#+abcde").ok().map(|c| c.as_rgb()), Some([0x0a, 0xbc, 0xde]));
    assert_eq!(TeamColor::default().as_rgb(), [200, 200, 200]);
}

#[test]
fn id_or_alias() {
    let a = PlayerIdOrAlias::Alias(alias("x"));
    assert!(a.is_alias());
    assert!(!a.is_id());
    assert_eq!(a.alias().map(|x| x.0), Some("x".to_string()));
    let i = PlayerIdOrAlias::Id(PlayerId(9));
    assert!(i.is_id());
    assert_eq!(i.id(), Some(PlayerId(9)));
}

#[test]
fn allocated_team_ids_are_free() {
    let taken: Vec<TeamId> = (0..50).map(TeamId).collect();
    for _ in 0..100 {
        let id = allocate_team_id(&taken);
        assert!(!taken.contains(&id));
    }
    assert!(!Vec::<TeamId>::new().contains(&allocate_team_id(&Vec::new())));
}

#[test]
fn team_color_from_str_parses_like_parse() {
    let c: TeamColor = "#12ab56".parse().ok().unwrap();
    assert_eq!(c.as_rgb(), [0x12, 0xab, 0x56]);
    assert!("12ab56".parse::<TeamColor>().is_err());
    assert!("#123456".parse::<TeamColor>().is_err());
}

#[test]
fn team_colors_compare_by_value() {
    assert!(TeamColor::new([1, 2, 3]) == TeamColor::new([1, 2, 3]));
    assert!(TeamColor::new([1, 2, 3]) != TeamColor::new([1, 2, 4]));
}
