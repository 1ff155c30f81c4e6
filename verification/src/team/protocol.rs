//! The team protocol as mathematics: when players and teams are consistent
//! (`valid`), what each team request does to them, and proofs that every
//! request keeps them consistent.
use super::joined_status::{apply_update, status_team, JoinUpdate, StatusView, MAX_JOINS};
use super::members::{has_member, lemma_member_index_of_unique, member_index, unique_members};
use super::team::{apply_team_update, Manifestation, Member, TeamUpdate, TeamView};
use crate::ids::{PlayerId, TeamId, TeamName};
use crate::seq_util::{
    lemma_without_contains, lemma_without_len, lemma_without_no_duplicates, lemma_without_shorter,
    lemma_without_first, lemma_without_twice,
    without,
};
use vstd::prelude::*;

verus! {

/// A request by a player about teams.
#[derive(Debug)]
pub enum TeamRequest {
    /// Name one's own (anonymous) team, as its leader. The name is taken as
    /// given: sanitizing it (trimming, filtering words) is the sender's part,
    /// and a name that sanitized to nothing comes here empty.
    Name(TeamName),
    /// Ask to join a named team.
    Join(TeamId),
    /// As leader, accept a joiner.
    Accept(PlayerId),
    /// As leader, remove a member.
    Kick(PlayerId),
    /// As leader, turn down a joiner.
    Reject(PlayerId),
    /// Leave one's named team.
    Leave,
}

/// Players by id.
pub type Players = Map<PlayerId, StatusView>;

/// Whether a player's status agrees with the teams: its team exists and has
/// it as a member; on a named team it asks to join nothing; on an anonymous
/// team it asks to join only existing named teams that list it as a joiner;
/// it has at most `MAX_JOINS` requests.
pub open spec fn player_valid<D, M>(
    players: Players,
    teams: Map<TeamId, TeamView<D, M>>,
    p: PlayerId,
) -> bool {
    match players[p] {
        StatusView::Spawning => true,
        StatusView::Joined { team_id, joins } => {
            &&& teams.contains_key(team_id)
            &&& has_member(teams[team_id].members, p)
            &&& joins.len() <= MAX_JOINS
            &&& teams[team_id].name is Some ==> joins.len() == 0
            &&& teams[team_id].name is None ==> forall|k: int|
                0 <= k < joins.len() ==> {
                    &&& teams.contains_key(#[trigger] joins[k])
                    &&& teams[joins[k]].joiners.contains(p)
                    &&& teams[joins[k]].name is Some
                }
        },
    }
}

/// Whether a team agrees with the players: each member is a player joined to
/// it; an anonymous team has at most one member and no joiners; a named team
/// respects the limits, lists no member or joiner twice, and each joiner is
/// a joined player asking to join it.
pub open spec fn team_valid<D, M: Manifestation>(
    players: Players,
    teams: Map<TeamId, TeamView<D, M>>,
    t: TeamId,
) -> bool {
    let team = teams[t];
    &&& forall|i: int|
        0 <= i < team.members.len() ==> {
            &&& players.contains_key(#[trigger] team.members[i].player_id)
            &&& status_team(players[team.members[i].player_id]) == Some(t)
        }
    &&& team.name is None ==> team.members.len() <= 1 && team.joiners.len() == 0
    &&& team.name is Some ==> {
        &&& team.members.len() <= M::MAX_MEMBERS
        &&& team.members.len() + team.joiners.len() <= M::MAX_MEMBERS_AND_JOINERS
        &&& unique_members(team.members)
        &&& team.joiners.no_duplicates()
        &&& forall|k: int|
            0 <= k < team.joiners.len() ==> {
                &&& players.contains_key(#[trigger] team.joiners[k])
                &&& players[team.joiners[k]] matches StatusView::Joined { joins, .. } && joins.contains(t)
            }
    }
}

/// Every player and every team is consistent with the others (what the
/// protocol keeps).
pub open spec fn valid<D, M: Manifestation>(players: Players, teams: Map<TeamId, TeamView<D, M>>) -> bool {
    &&& forall|p: PlayerId| #[trigger] players.contains_key(p) ==> player_valid(players, teams, p)
    &&& forall|t: TeamId| #[trigger] teams.contains_key(t) ==> team_valid(players, teams, t)
}

/// The team limits allow a team of one: at least one member, and at least
/// one member and joiner together.
pub open spec fn limits_sane<M: Manifestation>() -> bool {
    1 <= M::MAX_MEMBERS && 1 <= M::MAX_MEMBERS_AND_JOINERS
}

/// The id of a team's leader, if it has members.
pub open spec fn leader_id<D, M>(t: TeamView<D, M>) -> Option<PlayerId> {
    if t.members.len() > 0 {
        Some(t.members[0].player_id)
    } else {
        None
    }
}

/// Removing a joiner from a named team, together with the join request,
/// keeps players and teams consistent.
pub proof fn lemma_reject_valid<D, M: Manifestation>(
    p0: Players,
    t0: Map<TeamId, TeamView<D, M>>,
    t: TeamId,
    rej: PlayerId,
)
    requires
        valid(p0, t0),
        t0.contains_key(t),
        t0[t].joiners.contains(rej),
    ensures
        valid(
            p0.insert(rej, apply_update(p0[rej], JoinUpdate::RemoveJoin(t))),
            t0.insert(t, apply_team_update(t0[t], TeamUpdate::RemoveJoiner(rej))),
        ),
{
    let p1 = p0.insert(rej, apply_update(p0[rej], JoinUpdate::RemoveJoin(t)));
    let t1 = t0.insert(t, apply_team_update(t0[t], TeamUpdate::RemoveJoiner(rej)));
    assert(team_valid(p0, t0, t));
    assert(t0[t].name is Some);
    let kr = choose|k: int| 0 <= k < t0[t].joiners.len() && t0[t].joiners[k] == rej;
    assert(p0.contains_key(t0[t].joiners[kr]));
    let joins0 = p0[rej]->joins;
    let own = p0[rej]->team_id;
    assert(joins0.contains(t));
    assert(player_valid(p0, t0, rej));
    assert(t0[own].name is None) by {
        if t0[own].name is Some {
            assert(joins0.len() == 0);
        }
    }
    assert(own != t);
    assert forall|p: PlayerId| #[trigger] p1.contains_key(p) implies player_valid(p1, t1, p) by {
        assert(player_valid(p0, t0, p));
        if p == rej {
            let joins1 = without(joins0, t);
            lemma_without_len(joins0, t);
            assert forall|k: int| 0 <= k < joins1.len() implies {
                &&& t1.contains_key(#[trigger] joins1[k])
                &&& t1[joins1[k]].joiners.contains(rej)
                &&& t1[joins1[k]].name is Some
            } by {
                lemma_without_contains(joins0, t, joins1[k]);
                assert(joins1.contains(joins1[k]));
                let j = choose|j: int| 0 <= j < joins0.len() && joins0[j] == joins1[k];
                assert(t0.contains_key(joins0[j]));
            }
        } else {
            match p0[p] {
                StatusView::Joined { team_id, joins } => {
                    if t0[team_id].name is None {
                        assert forall|k: int| 0 <= k < joins.len() implies {
                            &&& t1.contains_key(#[trigger] joins[k])
                            &&& t1[joins[k]].joiners.contains(p)
                            &&& t1[joins[k]].name is Some
                        } by {
                            assert(t0.contains_key(joins[k]));
                            if joins[k] == t {
                                lemma_without_contains(t0[t].joiners, rej, p);
                            }
                        }
                    }
                },
                StatusView::Spawning => {},
            }
        }
    }
    assert forall|u: TeamId| #[trigger] t1.contains_key(u) implies team_valid(p1, t1, u) by {
        assert(team_valid(p0, t0, u));
        let team = t1[u];
        assert forall|i: int| 0 <= i < team.members.len() implies {
            &&& p1.contains_key(#[trigger] team.members[i].player_id)
            &&& status_team(p1[team.members[i].player_id]) == Some(u)
        } by {
            assert(p0.contains_key(t0[u].members[i].player_id));
        }
        if u == t {
            lemma_without_len(t0[t].joiners, rej);
            lemma_without_no_duplicates(t0[t].joiners, rej);
            assert(t0[t].joiners.len() > 0);
            assert(without(t0[t].joiners, rej).len() < t0[t].joiners.len()) by {
                lemma_without_shorter(t0[t].joiners, rej);
            }
            assert forall|k: int| 0 <= k < team.joiners.len() implies {
                &&& p1.contains_key(#[trigger] team.joiners[k])
                &&& p1[team.joiners[k]] matches StatusView::Joined { joins, .. } && joins.contains(u)
            } by {
                let x = team.joiners[k];
                assert(team.joiners.contains(x));
                lemma_without_contains(t0[t].joiners, rej, x);
                let j = choose|j: int| 0 <= j < t0[t].joiners.len() && t0[t].joiners[j] == x;
                assert(p0.contains_key(t0[t].joiners[j]));
            }
        } else if t0[u].name is Some {
            assert forall|k: int| 0 <= k < team.joiners.len() implies {
                &&& p1.contains_key(#[trigger] team.joiners[k])
                &&& p1[team.joiners[k]] matches StatusView::Joined { joins, .. } && joins.contains(u)
            } by {
                assert(p0.contains_key(t0[u].joiners[k]));
                if team.joiners[k] == rej {
                    lemma_without_contains(joins0, t, u);
                }
            }
        }
    }
}

/// Adding a join request from a player on an anonymous team to a named
/// team with room keeps players and teams consistent.
pub proof fn lemma_add_join_valid<D, M: Manifestation>(
    p0: Players,
    t0: Map<TeamId, TeamView<D, M>>,
    req: PlayerId,
    j: TeamId,
)
    requires
        valid(p0, t0),
        p0.contains_key(req),
        p0[req] is Joined,
        t0[p0[req]->team_id].name is None,
        p0[req]->joins.len() < MAX_JOINS,
        !p0[req]->joins.contains(j),
        t0.contains_key(j),
        t0[j].name is Some,
        t0[j].members.len() + t0[j].joiners.len() < M::MAX_MEMBERS_AND_JOINERS,
    ensures
        !t0[j].joiners.contains(req),
        valid(
            p0.insert(req, apply_update(p0[req], JoinUpdate::AddJoin(j))),
            t0.insert(j, apply_team_update(t0[j], TeamUpdate::AddJoiner(req))),
        ),
{
    let p1 = p0.insert(req, apply_update(p0[req], JoinUpdate::AddJoin(j)));
    let t1 = t0.insert(j, apply_team_update(t0[j], TeamUpdate::AddJoiner(req)));
    let joins0 = p0[req]->joins;
    let own = p0[req]->team_id;
    assert(player_valid(p0, t0, req));
    assert(team_valid(p0, t0, j));
    assert(!t0[j].joiners.contains(req)) by {
        if t0[j].joiners.contains(req) {
            let k = choose|k: int| 0 <= k < t0[j].joiners.len() && t0[j].joiners[k] == req;
            assert(p0.contains_key(t0[j].joiners[k]));
        }
    }
    assert(own != j);
    assert forall|p: PlayerId| #[trigger] p1.contains_key(p) implies player_valid(p1, t1, p) by {
        assert(player_valid(p0, t0, p));
        if p == req {
            let joins1 = joins0.push(j);
            assert forall|k: int| 0 <= k < joins1.len() implies {
                &&& t1.contains_key(#[trigger] joins1[k])
                &&& t1[joins1[k]].joiners.contains(req)
                &&& t1[joins1[k]].name is Some
            } by {
                if k == joins0.len() {
                    assert(t1[j].joiners[t0[j].joiners.len() as int] == req);
                } else {
                    assert(joins1[k] == joins0[k]);
                    assert(t0.contains_key(joins0[k]));
                    if joins0[k] == j {
                        assert(joins0.contains(j));
                    }
                }
            }
        } else {
            match p0[p] {
                StatusView::Joined { team_id, joins } => {
                    if t0[team_id].name is None {
                        assert forall|k: int| 0 <= k < joins.len() implies {
                            &&& t1.contains_key(#[trigger] joins[k])
                            &&& t1[joins[k]].joiners.contains(p)
                            &&& t1[joins[k]].name is Some
                        } by {
                            assert(t0.contains_key(joins[k]));
                            if joins[k] == j {
                                let i = choose|i: int| 0 <= i < t0[j].joiners.len() && t0[j].joiners[i] == p;
                                assert(t1[j].joiners[i] == p);
                            }
                        }
                    }
                },
                StatusView::Spawning => {},
            }
        }
    }
    assert forall|u: TeamId| #[trigger] t1.contains_key(u) implies team_valid(p1, t1, u) by {
        assert(team_valid(p0, t0, u));
        let team = t1[u];
        assert forall|i: int| 0 <= i < team.members.len() implies {
            &&& p1.contains_key(#[trigger] team.members[i].player_id)
            &&& status_team(p1[team.members[i].player_id]) == Some(u)
        } by {
            assert(p0.contains_key(t0[u].members[i].player_id));
        }
        if u == j {
            let old_j = t0[j].joiners;
            assert forall|a: int, b: int| 0 <= a < team.joiners.len() && 0 <= b < team.joiners.len() && a != b
                implies team.joiners[a] != team.joiners[b] by {
                if a == old_j.len() {
                    assert(team.joiners[b] == old_j[b]);
                    if old_j[b] == req {
                        assert(old_j.contains(req));
                    }
                } else if b == old_j.len() {
                    assert(team.joiners[a] == old_j[a]);
                    if old_j[a] == req {
                        assert(old_j.contains(req));
                    }
                } else {
                    assert(team.joiners[a] == old_j[a] && team.joiners[b] == old_j[b]);
                }
            }
            assert forall|k: int| 0 <= k < team.joiners.len() implies {
                &&& p1.contains_key(#[trigger] team.joiners[k])
                &&& p1[team.joiners[k]] matches StatusView::Joined { joins, .. } && joins.contains(u)
            } by {
                if k == old_j.len() {
                    assert(p1[req]->joins[joins0.len() as int] == j);
                } else {
                    assert(team.joiners[k] == old_j[k]);
                    assert(p0.contains_key(old_j[k]));
                    if old_j[k] == req {
                        assert(old_j.contains(req));
                    }
                }
            }
        } else if t0[u].name is Some {
            assert forall|k: int| 0 <= k < team.joiners.len() implies {
                &&& p1.contains_key(#[trigger] team.joiners[k])
                &&& p1[team.joiners[k]] matches StatusView::Joined { joins, .. } && joins.contains(u)
            } by {
                assert(p0.contains_key(t0[u].joiners[k]));
                if team.joiners[k] == req {
                    let i = choose|i: int| 0 <= i < joins0.len() && joins0[i] == u;
                    assert(p1[req]->joins[i] == u);
                }
            }
        }
    }
}

/// The teams after removing `p` from the joiners of each team in `ids`.
pub open spec fn drop_joiner_from<D, M>(
    teams: Map<TeamId, TeamView<D, M>>,
    ids: Seq<TeamId>,
    p: PlayerId,
) -> Map<TeamId, TeamView<D, M>> {
    Map::new(
        |u: TeamId| teams.contains_key(u),
        |u: TeamId|
            if ids.contains(u) {
                TeamView { joiners: without(teams[u].joiners, p), ..teams[u] }
            } else {
                teams[u]
            },
    )
}

/// The teams after an accepted joiner `acc` moves from its anonymous team
/// `old` to the named team `t` as the member `m`.
pub open spec fn accept_teams<D, M>(
    teams: Map<TeamId, TeamView<D, M>>,
    t: TeamId,
    old: TeamId,
    old_joins: Seq<TeamId>,
    acc: PlayerId,
    m: Member<M>,
) -> Map<TeamId, TeamView<D, M>> {
    let dropped = drop_joiner_from(teams, old_joins, acc);
    dropped.insert(t, TeamView { members: dropped[t].members.push(m), ..dropped[t] }).remove(old)
}

/// Moving an accepted joiner onto the team keeps players and teams consistent.
pub proof fn lemma_accept_valid<D, M: Manifestation>(
    p0: Players,
    t0: Map<TeamId, TeamView<D, M>>,
    t: TeamId,
    acc: PlayerId,
    m: Member<M>,
)
    requires
        valid(p0, t0),
        t0.contains_key(t),
        t0[t].name is Some,
        t0[t].joiners.contains(acc),
        t0[t].members.len() < M::MAX_MEMBERS,
        m.player_id == acc,
    ensures
        p0.contains_key(acc),
        p0[acc] is Joined,
        valid(
            p0.insert(acc, StatusView::Joined { team_id: t, joins: Seq::empty() }),
            accept_teams(t0, t, p0[acc]->team_id, p0[acc]->joins, acc, m),
        ),
{
    assert(team_valid(p0, t0, t));
    let ka = choose|k: int| 0 <= k < t0[t].joiners.len() && t0[t].joiners[k] == acc;
    assert(p0.contains_key(t0[t].joiners[ka]));
    let old = p0[acc]->team_id;
    let old_joins = p0[acc]->joins;
    assert(player_valid(p0, t0, acc));
    assert(t0[old].name is None) by {
        if t0[old].name is Some {
            assert(old_joins.len() == 0);
        }
    }
    assert(team_valid(p0, t0, old));
    assert(t0[old].members.len() == 1) by {
        let i = choose|i: int| 0 <= i < t0[old].members.len() && t0[old].members[i].player_id == acc;
    }
    assert(t0[old].members[0].player_id == acc) by {
        let i = choose|i: int| 0 <= i < t0[old].members.len() && t0[old].members[i].player_id == acc;
    }
    assert(old != t);
    assert(!old_joins.contains(old)) by {
        if old_joins.contains(old) {
            let k = choose|k: int| 0 <= k < old_joins.len() && old_joins[k] == old;
            assert(t0.contains_key(old_joins[k]));
        }
    }
    assert(!has_member(t0[t].members, acc)) by {
        if has_member(t0[t].members, acc) {
            let i = choose|i: int| 0 <= i < t0[t].members.len() && t0[t].members[i].player_id == acc;
            assert(p0.contains_key(t0[t].members[i].player_id));
        }
    }
    let p1 = p0.insert(acc, StatusView::Joined { team_id: t, joins: Seq::empty() });
    let dropped = drop_joiner_from(t0, old_joins, acc);
    let t1 = accept_teams(t0, t, old, old_joins, acc, m);
    assert(dropped[t].joiners == without(t0[t].joiners, acc));
    assert forall|p: PlayerId| #[trigger] p1.contains_key(p) implies player_valid(p1, t1, p) by {
        assert(player_valid(p0, t0, p));
        if p == acc {
            assert(t1[t].members[t0[t].members.len() as int].player_id == acc);
        } else {
            match p0[p] {
                StatusView::Joined { team_id, joins } => {
                    let i = choose|i: int| 0 <= i < t0[team_id].members.len() && #[trigger] t0[team_id].members[i].player_id == p;
                    assert(team_id != old) by {
                        if team_id == old {
                            assert(t0[old].members[i].player_id == acc);
                        }
                    }
                    if team_id == t {
                        assert(t1[t].members[i].player_id == p);
                    } else {
                        assert(t1[team_id].members[i].player_id == p);
                    }
                    if t0[team_id].name is None {
                        assert forall|k: int| 0 <= k < joins.len() implies {
                            &&& t1.contains_key(#[trigger] joins[k])
                            &&& t1[joins[k]].joiners.contains(p)
                            &&& t1[joins[k]].name is Some
                        } by {
                            assert(t0.contains_key(joins[k]));
                            assert(joins[k] != old);
                            lemma_without_contains(t0[joins[k]].joiners, acc, p);
                        }
                    }
                },
                StatusView::Spawning => {},
            }
        }
    }
    assert forall|u: TeamId| #[trigger] t1.contains_key(u) implies team_valid(p1, t1, u) by {
        assert(team_valid(p0, t0, u));
        let team = t1[u];
        if u == t {
            let n = t0[t].members.len();
            assert forall|i: int| 0 <= i < team.members.len() implies {
                &&& p1.contains_key(#[trigger] team.members[i].player_id)
                &&& status_team(p1[team.members[i].player_id]) == Some(u)
            } by {
                if i < n {
                    assert(team.members[i] == t0[t].members[i]);
                    assert(p0.contains_key(t0[u].members[i].player_id));
                }
            }
            assert(unique_members(team.members)) by {
                assert forall|a: int, b: int| 0 <= a < b < team.members.len()
                    implies #[trigger] team.members[a].player_id != #[trigger] team.members[b].player_id by {
                    if b == n {
                        assert(team.members[a] == t0[t].members[a]);
                    } else {
                        assert(team.members[a] == t0[t].members[a] && team.members[b] == t0[t].members[b]);
                    }
                }
            }
            lemma_without_no_duplicates(t0[t].joiners, acc);
            lemma_without_shorter(t0[t].joiners, acc);
            assert forall|k: int| 0 <= k < team.joiners.len() implies {
                &&& p1.contains_key(#[trigger] team.joiners[k])
                &&& p1[team.joiners[k]] matches StatusView::Joined { joins, .. } && joins.contains(u)
            } by {
                let x = team.joiners[k];
                assert(team.joiners.contains(x));
                lemma_without_contains(t0[t].joiners, acc, x);
                let j = choose|j: int| 0 <= j < t0[t].joiners.len() && t0[t].joiners[j] == x;
                assert(p0.contains_key(t0[t].joiners[j]));
            }
        } else {
            assert(u != old);
            assert forall|i: int| 0 <= i < team.members.len() implies {
                &&& p1.contains_key(#[trigger] team.members[i].player_id)
                &&& status_team(p1[team.members[i].player_id]) == Some(u)
            } by {
                assert(team.members[i] == t0[u].members[i]);
                assert(p0.contains_key(t0[u].members[i].player_id));
            }
            if t0[u].name is Some {
                if old_joins.contains(u) {
                    lemma_without_no_duplicates(t0[u].joiners, acc);
                    lemma_without_len(t0[u].joiners, acc);
                    assert forall|k: int| 0 <= k < team.joiners.len() implies {
                        &&& p1.contains_key(#[trigger] team.joiners[k])
                        &&& p1[team.joiners[k]] matches StatusView::Joined { joins, .. } && joins.contains(u)
                    } by {
                        let x = team.joiners[k];
                        assert(team.joiners.contains(x));
                        lemma_without_contains(t0[u].joiners, acc, x);
                        let j = choose|j: int| 0 <= j < t0[u].joiners.len() && t0[u].joiners[j] == x;
                        assert(p0.contains_key(t0[u].joiners[j]));
                    }
                } else {
                    assert forall|k: int| 0 <= k < team.joiners.len() implies {
                        &&& p1.contains_key(#[trigger] team.joiners[k])
                        &&& p1[team.joiners[k]] matches StatusView::Joined { joins, .. } && joins.contains(u)
                    } by {
                        assert(p0.contains_key(t0[u].joiners[k]));
                        assert(team.joiners[k] != acc);
                    }
                }
            }
        }
    }
}

/// The players after the players in `ids` stop asking to join team `t`.
pub open spec fn drop_join_from(players: Players, ids: Seq<PlayerId>, t: TeamId) -> Players {
    Map::new(
        |p: PlayerId| players.contains_key(p),
        |p: PlayerId|
            if ids.contains(p) {
                apply_update(players[p], JoinUpdate::RemoveJoin(t))
            } else {
                players[p]
            },
    )
}

/// A new anonymous team holding just `m`.
pub open spec fn solo_team<D, M>(data: D, m: Member<M>) -> TeamView<D, M> {
    TeamView { name: None, data, members: seq![m], joiners: Seq::empty() }
}

/// The teams after `req` leaves named team `old`: with `reuse`, `old`
/// becomes its anonymous team; otherwise it moves to the new anonymous team
/// `new` (data `d`, member `m`), and `old` is deleted when `req` was its only
/// member. Either way a team that `req` leaves alone loses its joiners.
pub open spec fn leave_teams<D, M>(
    teams: Map<TeamId, TeamView<D, M>>,
    old: TeamId,
    req: PlayerId,
    reuse: bool,
    new: TeamId,
    d: D,
    m: Member<M>,
) -> Map<TeamId, TeamView<D, M>> {
    let solo = teams[old].members.len() == 1;
    if reuse {
        teams.insert(old, TeamView { name: None, joiners: Seq::empty(), ..teams[old] })
    } else if solo {
        teams.remove(old).insert(new, solo_team(d, m))
    } else {
        teams.insert(
            old,
            TeamView { members: teams[old].members.remove(member_index(teams[old].members, req)), ..teams[old] },
        ).insert(new, solo_team(d, m))
    }
}

/// The players after `req` leaves named team `old` (see `leave_teams`).
pub open spec fn leave_players<D, M>(
    players: Players,
    teams: Map<TeamId, TeamView<D, M>>,
    old: TeamId,
    req: PlayerId,
    reuse: bool,
    new: TeamId,
) -> Players {
    let solo = teams[old].members.len() == 1;
    let released = if solo {
        drop_join_from(players, teams[old].joiners, old)
    } else {
        players
    };
    if reuse {
        released
    } else {
        released.insert(req, StatusView::Joined { team_id: new, joins: Seq::empty() })
    }
}

/// Whether `p1` and `t1` are the players and teams after `req` leaves its
/// named team `old` (see `leave_teams`), for some new team id, data and member.
pub open spec fn left_as<D, M>(
    p0: Players,
    t0: Map<TeamId, TeamView<D, M>>,
    old: TeamId,
    req: PlayerId,
    reuse: bool,
    p1: Players,
    t1: Map<TeamId, TeamView<D, M>>,
) -> bool {
    exists|new: TeamId, d: D, m: Member<M>|
        {
            &&& !reuse ==> !t0.contains_key(new) && m.player_id == req
            &&& p1 == leave_players(p0, t0, old, req, reuse, new)
            &&& #[trigger] leave_teams(t0, old, req, reuse, new, d, m) == t1
        }
}

/// Leaving a named team, by reusing it (when alone on it) or by moving to a
/// fresh team, keeps players and teams consistent.
pub proof fn lemma_leave_valid<D, M: Manifestation>(
    p0: Players,
    t0: Map<TeamId, TeamView<D, M>>,
    req: PlayerId,
    reuse: bool,
    new: TeamId,
    d: D,
    m: Member<M>,
)
    requires
        valid(p0, t0),
        p0.contains_key(req),
        p0[req] is Joined,
        t0[p0[req]->team_id].name is Some,
        reuse ==> t0[p0[req]->team_id].members.len() == 1,
        !reuse ==> !t0.contains_key(new) && m.player_id == req,
    ensures
        valid(
            leave_players(p0, t0, p0[req]->team_id, req, reuse, new),
            leave_teams(t0, p0[req]->team_id, req, reuse, new, d, m),
        ),
{
    let old = p0[req]->team_id;
    let solo = t0[old].members.len() == 1;
    let p1 = leave_players(p0, t0, old, req, reuse, new);
    let t1 = leave_teams(t0, old, req, reuse, new, d, m);
    let js = t0[old].joiners;
    assert(player_valid(p0, t0, req));
    assert(team_valid(p0, t0, old));
    let ir = choose|i: int| 0 <= i < t0[old].members.len() && t0[old].members[i].player_id == req;
    if solo {
        assert(ir == 0);
    }
    assert(!reuse ==> new != old);
    assert forall|p: PlayerId| #[trigger] p1.contains_key(p) implies player_valid(p1, t1, p) by {
        assert(player_valid(p0, t0, p));
        if p == req {
            if reuse {
                assert(!js.contains(req)) by {
                    if js.contains(req) {
                        let k = choose|k: int| 0 <= k < js.len() && js[k] == req;
                        assert(p0.contains_key(js[k]));
                    }
                }
            } else {
                assert(t1[new].members[0].player_id == req);
            }
        } else {
            match p0[p] {
                StatusView::Joined { team_id, joins } => {
                    let i = choose|i: int| 0 <= i < t0[team_id].members.len() && #[trigger] t0[team_id].members[i].player_id == p;
                    assert(!reuse ==> team_id != new);
                    if team_id == old {
                        assert(!solo) by {
                            if solo {
                                assert(i == 0);
                            }
                        }
                        if !reuse {
                            let ms = t0[old].members;
                            assert(unique_members(ms));
                            lemma_member_index_of_unique(ms, req, ir);
                            if i < ir {
                                assert(ms.remove(ir)[i].player_id == p);
                            } else {
                                assert(i != ir);
                                assert(ms.remove(ir)[i - 1].player_id == p);
                            }
                        }
                    }
                    let joins1 = p1[p]->joins;
                    if solo && js.contains(p) {
                        lemma_without_len(joins, old);
                    }
                    if t1[team_id].name is None || t0[team_id].name is None {
                        assert(t0[team_id].name is None);
                        assert forall|k: int| 0 <= k < joins1.len() implies {
                            &&& t1.contains_key(#[trigger] joins1[k])
                            &&& t1[joins1[k]].joiners.contains(p)
                            &&& t1[joins1[k]].name is Some
                        } by {
                            let u = joins1[k];
                            assert(joins1.contains(u));
                            if solo && js.contains(p) {
                                lemma_without_contains(joins, old, u);
                            }
                            let kk = choose|kk: int| 0 <= kk < joins.len() && joins[kk] == u;
                            assert(t0.contains_key(joins[kk]));
                            assert(!reuse ==> u != new);
                            if u == old {
                                assert(!solo);
                                assert(!reuse);
                            }
                        }
                    }
                },
                StatusView::Spawning => {},
            }
        }
    }
    assert forall|u: TeamId| #[trigger] t1.contains_key(u) implies team_valid(p1, t1, u) by {
        if !reuse && u == new {
            assert(t1[u].members[0].player_id == req);
        } else {
            assert(team_valid(p0, t0, u));
            let team = t1[u];
            if u == old {
                if reuse {
                    assert forall|i: int| 0 <= i < team.members.len() implies {
                        &&& p1.contains_key(#[trigger] team.members[i].player_id)
                        &&& status_team(p1[team.members[i].player_id]) == Some(u)
                    } by {
                        assert(p0.contains_key(t0[u].members[i].player_id));
                    }
                } else {
                    let ms = t0[old].members;
                    assert(!solo);
                    lemma_member_index_of_unique(ms, req, ir);
                    assert forall|i: int| 0 <= i < team.members.len() implies {
                        &&& p1.contains_key(#[trigger] team.members[i].player_id)
                        &&& status_team(p1[team.members[i].player_id]) == Some(u)
                    } by {
                        let j = if i < ir { i } else { i + 1 };
                        assert(team.members[i] == ms[j]);
                        assert(p0.contains_key(ms[j].player_id));
                        assert(ms[j].player_id != req);
                    }
                    assert(unique_members(team.members)) by {
                        assert forall|a: int, b: int| 0 <= a < b < team.members.len()
                            implies #[trigger] team.members[a].player_id != #[trigger] team.members[b].player_id by {
                            let ja = if a < ir { a } else { a + 1 };
                            let jb = if b < ir { b } else { b + 1 };
                            assert(team.members[a] == ms[ja] && team.members[b] == ms[jb]);
                        }
                    }
                    assert forall|k: int| 0 <= k < team.joiners.len() implies {
                        &&& p1.contains_key(#[trigger] team.joiners[k])
                        &&& p1[team.joiners[k]] matches StatusView::Joined { joins, .. } && joins.contains(u)
                    } by {
                        assert(p0.contains_key(t0[u].joiners[k]));
                        assert(team.joiners[k] != req) by {
                            if team.joiners[k] == req {
                                assert(p0[req]->joins.contains(old));
                            }
                        }
                    }
                }
            } else {
                assert forall|i: int| 0 <= i < team.members.len() implies {
                    &&& p1.contains_key(#[trigger] team.members[i].player_id)
                    &&& status_team(p1[team.members[i].player_id]) == Some(u)
                } by {
                    assert(p0.contains_key(t0[u].members[i].player_id));
                    assert(t0[u].members[i].player_id != req);
                }
                if t0[u].name is Some {
                    assert forall|k: int| 0 <= k < team.joiners.len() implies {
                        &&& p1.contains_key(#[trigger] team.joiners[k])
                        &&& p1[team.joiners[k]] matches StatusView::Joined { joins, .. } && joins.contains(u)
                    } by {
                        let x = t0[u].joiners[k];
                        assert(p0.contains_key(x));
                        assert(x != req) by {
                            if x == req {
                                assert(p0[req]->joins.contains(u));
                            }
                        }
                        if solo && js.contains(x) {
                            lemma_without_contains(p0[x]->joins, old, u);
                        }
                    }
                }
            }
        }
    }
}

/// The errors and the outcome of rejecting a joiner: which error comes on which
/// state, that an error changes nothing, and what success does.
pub open spec fn reject_outcome<D, M: Manifestation>(
    p0: Players,
    t0: Map<TeamId, TeamView<D, M>>,
    req_player_id: PlayerId,
    reject_player_id: PlayerId,
    r: Result<(), &'static str>,
    p1: Players,
    t1: Map<TeamId, TeamView<D, M>>,
) -> bool {
    let team_id = status_team(p0[req_player_id]);
    let t = team_id->0;
    let leads = leader_id(t0[t]) == Some(req_player_id);
    &&& team_id is None ==> r == Err::<(), &'static str>("not in team")
    &&& team_id is Some && !leads ==> r == Err::<(), &'static str>("unauthorized")
    &&& team_id is Some && leads && !t0[t].joiners.contains(reject_player_id)
        ==> r == Err::<(), &'static str>("player was not joining")
    &&& team_id is Some && leads && t0[t].joiners.contains(reject_player_id) ==> r is Ok
    &&& r is Err ==> p1 =~= p0 && t1 =~= t0
    &&& r is Ok ==> {
        &&& team_id is Some
        &&& leads
        &&& t0[t].joiners.contains(reject_player_id)
        &&& p1 =~= p0.insert(
            reject_player_id,
            apply_update(p0[reject_player_id], JoinUpdate::RemoveJoin(t)),
        )
        &&& t1 =~= t0.insert(
            t,
            apply_team_update(t0[t], TeamUpdate::RemoveJoiner(reject_player_id)),
        )
    }
}

/// The errors and the outcome of asking to join a team: which error comes on which
/// state, that an error changes nothing, and what success does.
pub open spec fn join_outcome<D, M: Manifestation>(
    p0: Players,
    t0: Map<TeamId, TeamView<D, M>>,
    req_player_id: PlayerId,
    join_team_id: TeamId,
    r: Result<(), &'static str>,
    p1: Players,
    t1: Map<TeamId, TeamView<D, M>>,
) -> bool {
    let s = p0[req_player_id];
    let own = s->team_id;
    let joins = s->joins;
    let j = join_team_id;
    &&& s is Spawning ==> r == Err::<(), &'static str>("not in team")
    &&& s is Joined && t0[own].name is Some ==> r == Err::<(), &'static str>("already on named team")
    &&& s is Joined && t0[own].name is None && joins.contains(j)
        ==> r == Err::<(), &'static str>("already joining that team")
    &&& s is Joined && t0[own].name is None && !joins.contains(j) && !t0.contains_key(j)
        ==> r == Err::<(), &'static str>("no such team")
    &&& s is Joined && t0[own].name is None && !joins.contains(j) && t0.contains_key(j)
        && t0[j].name is None ==> r == Err::<(), &'static str>("cannot join un-named team")
    &&& s is Joined && t0[own].name is None && !joins.contains(j) && t0.contains_key(j)
        && t0[j].name is Some
        && t0[j].members.len() + t0[j].joiners.len() >= M::MAX_MEMBERS_AND_JOINERS
        ==> r == Err::<(), &'static str>("too many joiners already")
    &&& s is Joined && t0[own].name is None && !joins.contains(j) && t0.contains_key(j)
        && t0[j].name is Some
        && t0[j].members.len() + t0[j].joiners.len() < M::MAX_MEMBERS_AND_JOINERS ==> r is Ok
    &&& r is Err ==> p1 =~= p0 && t1 =~= t0
    &&& r is Ok ==> {
        let full = joins.len() == MAX_JOINS;
        let e = joins[0];
        let pe = if full {
            p0.insert(req_player_id, apply_update(s, JoinUpdate::RemoveJoin(e)))
        } else {
            p0
        };
        let te = if full {
            t0.insert(e, apply_team_update(t0[e], TeamUpdate::RemoveJoiner(req_player_id)))
        } else {
            t0
        };
        &&& s is Joined
        &&& t0[own].name is None
        &&& !joins.contains(j)
        &&& t0.contains_key(j)
        &&& t0[j].name is Some
        &&& t0[j].members.len() + t0[j].joiners.len() < M::MAX_MEMBERS_AND_JOINERS
        &&& p1 =~= pe.insert(
            req_player_id,
            apply_update(pe[req_player_id], JoinUpdate::AddJoin(j)),
        )
        &&& t1 =~= te.insert(
            j,
            apply_team_update(te[j], TeamUpdate::AddJoiner(req_player_id)),
        )
    }
}

/// The errors and the outcome of accepting a joiner: which error comes on which
/// state, that an error changes nothing, and what success does.
pub open spec fn accept_outcome<D, M: Manifestation>(
    p0: Players,
    t0: Map<TeamId, TeamView<D, M>>,
    req_player_id: PlayerId,
    accept_player_id: PlayerId,
    r: Result<(), &'static str>,
    p1: Players,
    t1: Map<TeamId, TeamView<D, M>>,
) -> bool {
    let team_id = status_team(p0[req_player_id]);
    let t = team_id->0;
    let leads = leader_id(t0[t]) == Some(req_player_id);
    let acc = accept_player_id;
    &&& team_id is None ==> r == Err::<(), &'static str>("not in team")
    &&& team_id is Some && !leads ==> r == Err::<(), &'static str>("unauthorized")
    &&& team_id is Some && leads && !t0[t].joiners.contains(acc)
        ==> r == Err::<(), &'static str>("player was not joining")
    &&& team_id is Some && leads && t0[t].joiners.contains(acc)
        && t0[t].members.len() >= M::MAX_MEMBERS
        ==> r == Err::<(), &'static str>("team full")
    &&& team_id is Some && leads && t0[t].joiners.contains(acc)
        && t0[t].members.len() < M::MAX_MEMBERS ==> r is Ok
    &&& r is Err ==> p1 =~= p0 && t1 =~= t0
    &&& r is Ok ==> {
        &&& team_id is Some
        &&& leads
        &&& t0[t].joiners.contains(acc)
        &&& t0[t].members.len() < M::MAX_MEMBERS
        &&& p1 =~= p0.insert(acc, StatusView::Joined { team_id: t, joins: Seq::empty() })
        &&& exists|m: Member<M>|
            m.player_id == acc && t1 =~= accept_teams(
                t0,
                t,
                p0[acc]->team_id,
                p0[acc]->joins,
                acc,
                m,
            )
    }
}

/// The errors and the outcome of leaving a team: which error comes on which
/// state, that an error changes nothing, and what success does.
pub open spec fn leave_outcome<D, M: Manifestation>(
    p0: Players,
    t0: Map<TeamId, TeamView<D, M>>,
    req_player_id: PlayerId,
    r: Result<(), &'static str>,
    p1: Players,
    t1: Map<TeamId, TeamView<D, M>>,
) -> bool {
    let s = p0[req_player_id];
    let old = s->team_id;
    let solo = t0[old].members.len() == 1;
    let leads = leader_id(t0[old]) == Some(req_player_id);
    let reuse = solo && M::CAN_REUSE_SOLO_TEAM;
    &&& s is Spawning ==> r == Err::<(), &'static str>("not in team")
    &&& s is Joined && t0[old].name is None ==> r == Err::<(), &'static str>("cannot leave anonymous team")
    &&& s is Joined && t0[old].name is Some && !M::LEADER_CAN_LEAVE && leads
        ==> r == Err::<(), &'static str>("leader cannot leave")
    &&& s is Joined && t0[old].name is Some && !(!M::LEADER_CAN_LEAVE && leads)
        && reuse && !M::CAN_LEAVE_SOLO_TEAM
        ==> r == Err::<(), &'static str>("cannot leave solo team")
    &&& s is Joined && t0[old].name is Some && !(!M::LEADER_CAN_LEAVE && leads)
        && !(reuse && !M::CAN_LEAVE_SOLO_TEAM) ==> r is Ok
    &&& r is Err ==> p1 =~= p0 && t1 =~= t0
    &&& r is Ok ==> {
        &&& s is Joined
        &&& t0[old].name is Some
        &&& !(!M::LEADER_CAN_LEAVE && leads)
        &&& !(reuse && !M::CAN_LEAVE_SOLO_TEAM)
        &&& left_as(p0, t0, old, req_player_id, reuse, p1, t1)
    }
}


/// The teams after `req`, alone on anonymous team `t`, names it `name`: its
/// member becomes `m`, and its join requests `joins` are withdrawn.
pub open spec fn name_teams<D, M>(
    teams: Map<TeamId, TeamView<D, M>>,
    t: TeamId,
    joins: Seq<TeamId>,
    req: PlayerId,
    name: Seq<char>,
    m: Member<M>,
) -> Map<TeamId, TeamView<D, M>> {
    drop_joiner_from(teams, joins, req).insert(
        t,
        TeamView { name: Some(name), members: seq![m], ..teams[t] },
    )
}

/// Naming an anonymous team keeps players and teams consistent, provided the
/// limits allow a team of one.
pub proof fn lemma_name_valid<D, M: Manifestation>(
    p0: Players,
    t0: Map<TeamId, TeamView<D, M>>,
    req: PlayerId,
    name: Seq<char>,
    m: Member<M>,
)
    requires
        valid(p0, t0),
        p0.contains_key(req),
        p0[req] is Joined,
        t0[p0[req]->team_id].name is None,
        m.player_id == req,
        limits_sane::<M>(),
    ensures
        t0[p0[req]->team_id].members.len() == 1,
        t0[p0[req]->team_id].members[0].player_id == req,
        t0[p0[req]->team_id].joiners.len() == 0,
        valid(
            p0.insert(req, StatusView::Joined { team_id: p0[req]->team_id, joins: Seq::empty() }),
            name_teams(t0, p0[req]->team_id, p0[req]->joins, req, name, m),
        ),
{
    let t = p0[req]->team_id;
    let joins0 = p0[req]->joins;
    assert(player_valid(p0, t0, req));
    assert(team_valid(p0, t0, t));
    let ir = choose|i: int| 0 <= i < t0[t].members.len() && t0[t].members[i].player_id == req;
    assert(ir == 0);
    assert(!joins0.contains(t)) by {
        if joins0.contains(t) {
            let k = choose|k: int| 0 <= k < joins0.len() && joins0[k] == t;
            assert(t0.contains_key(joins0[k]));
        }
    }
    let p1 = p0.insert(req, StatusView::Joined { team_id: t, joins: Seq::empty() });
    let t1 = name_teams(t0, t, joins0, req, name, m);
    assert forall|p: PlayerId| #[trigger] p1.contains_key(p) implies player_valid(p1, t1, p) by {
        assert(player_valid(p0, t0, p));
        if p == req {
            assert(t1[t].members[0].player_id == req);
        } else {
            match p0[p] {
                StatusView::Joined { team_id, joins } => {
                    let i = choose|i: int| 0 <= i < t0[team_id].members.len() && #[trigger] t0[team_id].members[i].player_id == p;
                    assert(team_id != t) by {
                        if team_id == t {
                            assert(i == 0);
                        }
                    }
                    assert(t1[team_id].members[i].player_id == p);
                    if t0[team_id].name is None {
                        assert forall|k: int| 0 <= k < joins.len() implies {
                            &&& t1.contains_key(#[trigger] joins[k])
                            &&& t1[joins[k]].joiners.contains(p)
                            &&& t1[joins[k]].name is Some
                        } by {
                            assert(t0.contains_key(joins[k]));
                            assert(joins[k] != t);
                            lemma_without_contains(t0[joins[k]].joiners, req, p);
                        }
                    }
                },
                StatusView::Spawning => {},
            }
        }
    }
    assert forall|u: TeamId| #[trigger] t1.contains_key(u) implies team_valid(p1, t1, u) by {
        assert(team_valid(p0, t0, u));
        let team = t1[u];
        if u == t {
            assert(team.members[0].player_id == req);
            assert(team.joiners.len() == 0);
            assert(unique_members(team.members));
        } else {
            assert forall|i: int| 0 <= i < team.members.len() implies {
                &&& p1.contains_key(#[trigger] team.members[i].player_id)
                &&& status_team(p1[team.members[i].player_id]) == Some(u)
            } by {
                assert(p0.contains_key(t0[u].members[i].player_id));
                assert(t0[u].members[i].player_id != req);
            }
            if t0[u].name is Some {
                if joins0.contains(u) {
                    lemma_without_no_duplicates(t0[u].joiners, req);
                    lemma_without_len(t0[u].joiners, req);
                    assert forall|k: int| 0 <= k < team.joiners.len() implies {
                        &&& p1.contains_key(#[trigger] team.joiners[k])
                        &&& p1[team.joiners[k]] matches StatusView::Joined { joins, .. } && joins.contains(u)
                    } by {
                        let x = team.joiners[k];
                        assert(team.joiners.contains(x));
                        lemma_without_contains(t0[u].joiners, req, x);
                        let j = choose|j: int| 0 <= j < t0[u].joiners.len() && t0[u].joiners[j] == x;
                        assert(p0.contains_key(t0[u].joiners[j]));
                    }
                } else {
                    assert forall|k: int| 0 <= k < team.joiners.len() implies {
                        &&& p1.contains_key(#[trigger] team.joiners[k])
                        &&& p1[team.joiners[k]] matches StatusView::Joined { joins, .. } && joins.contains(u)
                    } by {
                        assert(p0.contains_key(t0[u].joiners[k]));
                        assert(team.joiners[k] != req);
                    }
                }
            }
        }
    }
}

/// The errors and the outcome of naming one's team: which error comes on
/// which state, that an error changes nothing, and what success does.
pub open spec fn name_outcome<D, M: Manifestation>(
    p0: Players,
    t0: Map<TeamId, TeamView<D, M>>,
    req_player_id: PlayerId,
    name: Seq<char>,
    r: Result<(), &'static str>,
    p1: Players,
    t1: Map<TeamId, TeamView<D, M>>,
) -> bool {
    let s = p0[req_player_id];
    let t = s->team_id;
    let leads = leader_id(t0[t]) == Some(req_player_id);
    &&& name.len() == 0 ==> r == Err::<(), &'static str>("empty team name")
    &&& name.len() > 0 && s is Spawning ==> r == Err::<(), &'static str>("not in team")
    &&& name.len() > 0 && s is Joined && !leads ==> r == Err::<(), &'static str>("unauthorized")
    &&& name.len() > 0 && s is Joined && leads && t0[t].name is Some
        ==> r == Err::<(), &'static str>("team already named")
    &&& name.len() > 0 && s is Joined && leads && t0[t].name is None ==> r is Ok
    &&& r is Err ==> p1 =~= p0 && t1 =~= t0
    &&& r is Ok ==> {
        &&& name.len() > 0
        &&& s is Joined
        &&& leads
        &&& t0[t].name is None
        &&& p1 =~= p0.insert(req_player_id, StatusView::Joined { team_id: t, joins: Seq::empty() })
        &&& exists|m: Member<M>|
            m.player_id == req_player_id && t1 =~= name_teams(t0, t, s->joins, req_player_id, name, m)
    }
}

/// The errors and the outcome of kicking a member: which error comes on
/// which state, that an error changes nothing, and that success is the kicked
/// member leaving the team for a new anonymous team.
pub open spec fn kick_outcome<D, M: Manifestation>(
    p0: Players,
    t0: Map<TeamId, TeamView<D, M>>,
    req_player_id: PlayerId,
    kick_player_id: PlayerId,
    r: Result<(), &'static str>,
    p1: Players,
    t1: Map<TeamId, TeamView<D, M>>,
) -> bool {
    let team_id = status_team(p0[req_player_id]);
    let t = team_id->0;
    let leads = leader_id(t0[t]) == Some(req_player_id);
    &&& team_id is None ==> r == Err::<(), &'static str>("not in team")
    &&& team_id is Some && !leads ==> r == Err::<(), &'static str>("unauthorized")
    &&& team_id is Some && leads && kick_player_id == req_player_id
        ==> r == Err::<(), &'static str>("cannot kick self")
    &&& team_id is Some && leads && kick_player_id != req_player_id
        && !has_member(t0[t].members, kick_player_id) ==> r == Err::<(), &'static str>("cannot kick non-member")
    &&& team_id is Some && leads && kick_player_id != req_player_id
        && has_member(t0[t].members, kick_player_id) ==> r is Ok
    &&& r is Err ==> p1 =~= p0 && t1 =~= t0
    &&& r is Ok ==> {
        &&& team_id is Some
        &&& leads
        &&& kick_player_id != req_player_id
        &&& has_member(t0[t].members, kick_player_id)
        &&& left_as(p0, t0, t, kick_player_id, false, p1, t1)
    }
}

/// The errors and the outcome of any team request.
pub open spec fn request_outcome<D, M: Manifestation>(
    p0: Players,
    t0: Map<TeamId, TeamView<D, M>>,
    req_player_id: PlayerId,
    request: TeamRequest,
    r: Result<(), &'static str>,
    p1: Players,
    t1: Map<TeamId, TeamView<D, M>>,
) -> bool {
    match request {
        TeamRequest::Name(name) => name_outcome(p0, t0, req_player_id, name@, r, p1, t1),
        TeamRequest::Join(t) => join_outcome(p0, t0, req_player_id, t, r, p1, t1),
        TeamRequest::Accept(p) => accept_outcome(p0, t0, req_player_id, p, r, p1, t1),
        TeamRequest::Kick(p) => kick_outcome(p0, t0, req_player_id, p, r, p1, t1),
        TeamRequest::Reject(p) => reject_outcome(p0, t0, req_player_id, p, r, p1, t1),
        TeamRequest::Leave => leave_outcome(p0, t0, req_player_id, r, p1, t1),
    }
}


/// Adding an empty anonymous team keeps players and teams consistent.
pub proof fn lemma_new_team_valid<D, M: Manifestation>(
    p0: Players,
    t0: Map<TeamId, TeamView<D, M>>,
    t: TeamId,
    team: TeamView<D, M>,
)
    requires
        valid(p0, t0),
        !t0.contains_key(t),
        team.name is None,
        team.members.len() == 0,
        team.joiners.len() == 0,
    ensures
        valid(p0, t0.insert(t, team)),
{
    let t1 = t0.insert(t, team);
    assert forall|p: PlayerId| #[trigger] p0.contains_key(p) implies player_valid(p0, t1, p) by {
        assert(player_valid(p0, t0, p));
        match p0[p] {
            StatusView::Joined { team_id, joins } => {
                if t0[team_id].name is None {
                    assert forall|k: int| 0 <= k < joins.len() implies {
                        &&& t1.contains_key(#[trigger] joins[k])
                        &&& t1[joins[k]].joiners.contains(p)
                        &&& t1[joins[k]].name is Some
                    } by {
                        assert(t0.contains_key(joins[k]));
                    }
                }
            },
            StatusView::Spawning => {},
        }
    }
    assert forall|u: TeamId| #[trigger] t1.contains_key(u) implies team_valid(p0, t1, u) by {
        if u != t {
            assert(team_valid(p0, t0, u));
        }
    }
}

/// A spawning player joining a team with room (an empty anonymous team, or
/// a named team below its limits) keeps players and teams consistent.
pub proof fn lemma_add_member_valid<D, M: Manifestation>(
    p0: Players,
    t0: Map<TeamId, TeamView<D, M>>,
    req: PlayerId,
    t: TeamId,
    m: Member<M>,
)
    requires
        valid(p0, t0),
        p0.contains_key(req),
        p0[req] is Spawning,
        t0.contains_key(t),
        t0[t].name is None ==> t0[t].members.len() == 0,
        t0[t].name is Some ==> t0[t].members.len() < M::MAX_MEMBERS
            && t0[t].members.len() + t0[t].joiners.len() < M::MAX_MEMBERS_AND_JOINERS,
        m.player_id == req,
    ensures
        !has_member(t0[t].members, req),
        !t0[t].joiners.contains(req),
        valid(
            p0.insert(req, StatusView::Joined { team_id: t, joins: Seq::empty() }),
            t0.insert(t, TeamView { members: t0[t].members.push(m), ..t0[t] }),
        ),
{
    let p1 = p0.insert(req, StatusView::Joined { team_id: t, joins: Seq::empty() });
    let t1 = t0.insert(t, TeamView { members: t0[t].members.push(m), ..t0[t] });
    assert(team_valid(p0, t0, t));
    assert(!has_member(t0[t].members, req)) by {
        if has_member(t0[t].members, req) {
            let i = choose|i: int| 0 <= i < t0[t].members.len() && t0[t].members[i].player_id == req;
            assert(p0.contains_key(t0[t].members[i].player_id));
        }
    }
    assert(!t0[t].joiners.contains(req)) by {
        if t0[t].joiners.contains(req) {
            let k = choose|k: int| 0 <= k < t0[t].joiners.len() && t0[t].joiners[k] == req;
            assert(p0.contains_key(t0[t].joiners[k]));
        }
    }
    assert forall|p: PlayerId| #[trigger] p1.contains_key(p) implies player_valid(p1, t1, p) by {
        assert(player_valid(p0, t0, p));
        if p == req {
            assert(t1[t].members[t0[t].members.len() as int].player_id == req);
        } else {
            match p0[p] {
                StatusView::Joined { team_id, joins } => {
                    let i = choose|i: int| 0 <= i < t0[team_id].members.len() && #[trigger] t0[team_id].members[i].player_id == p;
                    assert(t1[team_id].members[i].player_id == p);
                    if t0[team_id].name is None {
                        assert forall|k: int| 0 <= k < joins.len() implies {
                            &&& t1.contains_key(#[trigger] joins[k])
                            &&& t1[joins[k]].joiners.contains(p)
                            &&& t1[joins[k]].name is Some
                        } by {
                            assert(t0.contains_key(joins[k]));
                        }
                    }
                },
                StatusView::Spawning => {},
            }
        }
    }
    assert forall|u: TeamId| #[trigger] t1.contains_key(u) implies team_valid(p1, t1, u) by {
        assert(team_valid(p0, t0, u));
        let team = t1[u];
        if u == t {
            let n = t0[t].members.len();
            assert forall|i: int| 0 <= i < team.members.len() implies {
                &&& p1.contains_key(#[trigger] team.members[i].player_id)
                &&& status_team(p1[team.members[i].player_id]) == Some(u)
            } by {
                if i < n {
                    assert(team.members[i] == t0[t].members[i]);
                    assert(p0.contains_key(t0[u].members[i].player_id));
                }
            }
            if t0[t].name is Some {
                assert(unique_members(team.members)) by {
                    assert forall|a: int, b: int| 0 <= a < b < team.members.len()
                        implies #[trigger] team.members[a].player_id != #[trigger] team.members[b].player_id by {
                        if b == n {
                            assert(team.members[a] == t0[t].members[a]);
                        } else {
                            assert(team.members[a] == t0[t].members[a] && team.members[b] == t0[t].members[b]);
                        }
                    }
                }
                assert forall|k: int| 0 <= k < team.joiners.len() implies {
                    &&& p1.contains_key(#[trigger] team.joiners[k])
                    &&& p1[team.joiners[k]] matches StatusView::Joined { joins, .. } && joins.contains(u)
                } by {
                    assert(p0.contains_key(t0[u].joiners[k]));
                    assert(team.joiners[k] != req);
                }
            }
        } else {
            assert forall|i: int| 0 <= i < team.members.len() implies {
                &&& p1.contains_key(#[trigger] team.members[i].player_id)
                &&& status_team(p1[team.members[i].player_id]) == Some(u)
            } by {
                assert(p0.contains_key(t0[u].members[i].player_id));
            }
            if t0[u].name is Some {
                assert forall|k: int| 0 <= k < team.joiners.len() implies {
                    &&& p1.contains_key(#[trigger] team.joiners[k])
                    &&& p1[team.joiners[k]] matches StatusView::Joined { joins, .. } && joins.contains(u)
                } by {
                    assert(p0.contains_key(t0[u].joiners[k]));
                }
            }
        }
    }
}

/// Whether the invitation that `prepare_spawn_team` follows is usable: the
/// inviting player exists and is on a named team with room for a member.
pub open spec fn invitation_usable<D, M: Manifestation>(
    p0: Players,
    t0: Map<TeamId, TeamView<D, M>>,
    invitation_player_id: Option<PlayerId>,
) -> bool {
    let inv = invitation_player_id->0;
    &&& invitation_player_id is Some
    &&& p0.contains_key(inv)
    &&& p0[inv] is Joined
    &&& t0[p0[inv]->team_id].name is Some
    &&& t0[p0[inv]->team_id].members.len() < M::MAX_MEMBERS
}

/// Whether the team that `prepare_spawn_team` puts the player on stays
/// within the limit on members and joiners: a new team always does; an
/// invited team does when it has room for one more besides its joiners.
pub open spec fn spawn_keeps_limits<D, M: Manifestation>(
    p0: Players,
    t0: Map<TeamId, TeamView<D, M>>,
    player_id: PlayerId,
    invitation_player_id: Option<PlayerId>,
) -> bool {
    let t = p0[invitation_player_id->0]->team_id;
    p0[player_id] is Spawning && invitation_usable(p0, t0, invitation_player_id)
        ==> t0[t].members.len() + t0[t].joiners.len() < M::MAX_MEMBERS_AND_JOINERS
}

/// What `prepare_spawn_team` does: a player already on a team stays; a
/// spawning player joins the inviting player's named team when the invitation
/// is usable, and otherwise a new anonymous team.
pub open spec fn spawn_outcome<D, M: Manifestation>(
    p0: Players,
    t0: Map<TeamId, TeamView<D, M>>,
    player_id: PlayerId,
    invitation_player_id: Option<PlayerId>,
    r: TeamId,
    p1: Players,
    t1: Map<TeamId, TeamView<D, M>>,
) -> bool {
    let s = p0[player_id];
    let invited = invitation_usable(p0, t0, invitation_player_id);
    &&& s is Joined ==> r == s->team_id && p1 =~= p0 && t1 =~= t0
    &&& s is Spawning ==> {
        &&& invited ==> r == p0[invitation_player_id->0]->team_id
        &&& !invited ==> !t0.contains_key(r)
        &&& p1 =~= p0.insert(player_id, StatusView::Joined { team_id: r, joins: Seq::empty() })
        &&& invited ==> exists|m: Member<M>|
            m.player_id == player_id && t1 =~= t0.insert(r, TeamView { members: t0[r].members.push(m), ..t0[r] })
        &&& !invited ==> {
            &&& t1 =~= t0.insert(r, t1[r])
            &&& t1[r].name is None
            &&& t1[r].members.len() == 1
            &&& t1[r].members[0].player_id == player_id
            &&& t1[r].joiners.len() == 0
        }
    }
}

/// The teams after a player on team `t` quits the game: a team of one is
/// deleted, otherwise the player stops being a member; the player's join
/// requests are withdrawn.
pub open spec fn quit_teams<D, M>(
    teams: Map<TeamId, TeamView<D, M>>,
    t: TeamId,
    joins: Seq<TeamId>,
    req: PlayerId,
) -> Map<TeamId, TeamView<D, M>> {
    let base = if teams[t].members.len() == 1 {
        teams.remove(t)
    } else {
        teams.insert(
            t,
            TeamView { members: teams[t].members.remove(member_index(teams[t].members, req)), ..teams[t] },
        )
    };
    drop_joiner_from(base, joins, req)
}

/// The players after a player on team `t` quits the game: it is spawning,
/// and when its team is deleted nobody asks to join that team any more.
pub open spec fn quit_players<D, M>(
    players: Players,
    teams: Map<TeamId, TeamView<D, M>>,
    t: TeamId,
    req: PlayerId,
) -> Players {
    let base = if teams[t].members.len() == 1 {
        drop_join_from(players, teams[t].joiners, t)
    } else {
        players
    };
    base.insert(req, StatusView::Spawning)
}

/// Quitting the game keeps players and teams consistent.
pub proof fn lemma_quit_valid<D, M: Manifestation>(
    p0: Players,
    t0: Map<TeamId, TeamView<D, M>>,
    req: PlayerId,
)
    requires
        valid(p0, t0),
        p0.contains_key(req),
        p0[req] is Joined,
    ensures
        valid(
            quit_players(p0, t0, p0[req]->team_id, req),
            quit_teams(t0, p0[req]->team_id, p0[req]->joins, req),
        ),
{
    let t = p0[req]->team_id;
    let joins0 = p0[req]->joins;
    let solo = t0[t].members.len() == 1;
    let js = t0[t].joiners;
    let p1 = quit_players(p0, t0, t, req);
    let t1 = quit_teams(t0, t, joins0, req);
    assert(player_valid(p0, t0, req));
    assert(team_valid(p0, t0, t));
    let ir = choose|i: int| 0 <= i < t0[t].members.len() && t0[t].members[i].player_id == req;
    if solo {
        assert(ir == 0);
    }
    assert(!js.contains(req)) by {
        if js.contains(req) {
            let k = choose|k: int| 0 <= k < js.len() && js[k] == req;
            assert(p0.contains_key(js[k]));
            assert(t0[t].name is Some);
        }
    }
    assert(!joins0.contains(t)) by {
        if joins0.contains(t) {
            let k = choose|k: int| 0 <= k < joins0.len() && joins0[k] == t;
            assert(t0.contains_key(joins0[k]));
        }
    }
    assert forall|p: PlayerId| #[trigger] p1.contains_key(p) implies player_valid(p1, t1, p) by {
        assert(player_valid(p0, t0, p));
        if p != req {
            match p0[p] {
                StatusView::Joined { team_id, joins } => {
                    let i = choose|i: int| 0 <= i < t0[team_id].members.len() && #[trigger] t0[team_id].members[i].player_id == p;
                    if team_id == t {
                        assert(!solo) by {
                            if solo {
                                assert(i == 0);
                            }
                        }
                        let ms = t0[t].members;
                        lemma_member_index_of_unique(ms, req, ir);
                        if i < ir {
                            assert(ms.remove(ir)[i].player_id == p);
                        } else {
                            assert(i != ir);
                            assert(ms.remove(ir)[i - 1].player_id == p);
                        }
                    } else {
                        assert(t1[team_id].members[i].player_id == p);
                    }
                    let joins1 = p1[p]->joins;
                    if solo && js.contains(p) {
                        lemma_without_len(joins, t);
                    }
                    if t0[team_id].name is None {
                        assert forall|k: int| 0 <= k < joins1.len() implies {
                            &&& t1.contains_key(#[trigger] joins1[k])
                            &&& t1[joins1[k]].joiners.contains(p)
                            &&& t1[joins1[k]].name is Some
                        } by {
                            let u = joins1[k];
                            assert(joins1.contains(u));
                            if solo && js.contains(p) {
                                lemma_without_contains(joins, t, u);
                            }
                            let kk = choose|kk: int| 0 <= kk < joins.len() && joins[kk] == u;
                            assert(t0.contains_key(joins[kk]));
                            if u == t {
                                assert(!solo);
                            }
                            lemma_without_contains(t0[u].joiners, req, p);
                        }
                    }
                },
                StatusView::Spawning => {},
            }
        }
    }
    assert forall|u: TeamId| #[trigger] t1.contains_key(u) implies team_valid(p1, t1, u) by {
        assert(team_valid(p0, t0, u));
        let team = t1[u];
        if u == t {
            assert(!solo);
            let ms = t0[t].members;
            lemma_member_index_of_unique(ms, req, ir);
            assert forall|i: int| 0 <= i < team.members.len() implies {
                &&& p1.contains_key(#[trigger] team.members[i].player_id)
                &&& status_team(p1[team.members[i].player_id]) == Some(u)
            } by {
                let j = if i < ir { i } else { i + 1 };
                assert(team.members[i] == ms[j]);
                assert(p0.contains_key(ms[j].player_id));
            }
            assert(unique_members(team.members)) by {
                assert forall|a: int, b: int| 0 <= a < b < team.members.len()
                    implies #[trigger] team.members[a].player_id != #[trigger] team.members[b].player_id by {
                    let ja = if a < ir { a } else { a + 1 };
                    let jb = if b < ir { b } else { b + 1 };
                    assert(team.members[a] == ms[ja] && team.members[b] == ms[jb]);
                }
            }
            assert forall|k: int| 0 <= k < team.joiners.len() implies {
                &&& p1.contains_key(#[trigger] team.joiners[k])
                &&& p1[team.joiners[k]] matches StatusView::Joined { joins, .. } && joins.contains(u)
            } by {
                assert(p0.contains_key(t0[u].joiners[k]));
                assert(team.joiners[k] != req);
            }
        } else {
            assert forall|i: int| 0 <= i < team.members.len() implies {
                &&& p1.contains_key(#[trigger] team.members[i].player_id)
                &&& status_team(p1[team.members[i].player_id]) == Some(u)
            } by {
                assert(p0.contains_key(t0[u].members[i].player_id));
                assert(t0[u].members[i].player_id != req);
            }
            if t0[u].name is Some {
                if joins0.contains(u) {
                    lemma_without_no_duplicates(t0[u].joiners, req);
                    lemma_without_len(t0[u].joiners, req);
                }
                assert forall|k: int| 0 <= k < team.joiners.len() implies {
                    &&& p1.contains_key(#[trigger] team.joiners[k])
                    &&& p1[team.joiners[k]] matches StatusView::Joined { joins, .. } && joins.contains(u)
                } by {
                    let x = team.joiners[k];
                    assert(team.joiners.contains(x));
                    if joins0.contains(u) {
                        lemma_without_contains(t0[u].joiners, req, x);
                    }
                    let j = choose|j: int| 0 <= j < t0[u].joiners.len() && t0[u].joiners[j] == x;
                    assert(p0.contains_key(t0[u].joiners[j]));
                    assert(x != req) by {
                        if x == req {
                            assert(joins0.contains(u));
                        }
                    }
                    if solo && js.contains(x) {
                        lemma_without_contains(p0[x]->joins, t, u);
                    }
                }
            }
        }
    }
}

} // verus!
