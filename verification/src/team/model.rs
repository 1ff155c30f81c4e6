//! The protocol by which players form teams: naming a team, asking to join
//! one, accepting or rejecting joiners, kicking and leaving. A game stores
//! players and teams however it likes and implements the required methods;
//! the provided methods run the protocol and keep players and teams
//! consistent (see `valid`).
use super::joined_status::{
    apply_update, joins_vec, status_team, update_applies, JoinUpdate, JoinedStatus, PlayerStatus,
    StatusView, MAX_JOINS,
};
use super::members::has_member;
use super::protocol::{
    accept_outcome, accept_teams, drop_join_from, drop_joiner_from, join_outcome, kick_outcome,
    leader_id, leave_outcome, leave_players, leave_teams, left_as, lemma_accept_valid,
    lemma_add_join_valid, lemma_leave_valid, lemma_name_valid, lemma_reject_valid, limits_sane,
    invitation_usable, lemma_add_member_valid, lemma_new_team_valid, lemma_quit_valid,
    name_outcome, name_teams, player_valid, quit_players, quit_teams, reject_outcome,
    request_outcome, spawn_keeps_limits, spawn_outcome, team_valid, valid, Players, TeamRequest,
};
use super::team::{
    apply_team_update, team_update_applies, Manifestation, Member, MemberId, Team, TeamUpdate,
    TeamView,
};
use crate::ids::{PlayerAlias, PlayerId, TeamId, TeamName};
use crate::seq_util::{
    lemma_without_contains, lemma_without_first, lemma_without_shorter, lemma_without_twice,
};
use vstd::prelude::*;

verus! {
/// Where manifestations stand after an `Accept`: the accepted player's on
/// the accepting leader's team.
pub open spec fn accept_placements(
    pl: Map<PlayerId, TeamId>,
    p0: Players,
    req_player_id: PlayerId,
    accept_player_id: PlayerId,
    r: Result<(), &'static str>,
) -> Map<PlayerId, TeamId> {
    if r is Ok {
        pl.insert(accept_player_id, p0[req_player_id]->team_id)
    } else {
        pl
    }
}

/// Where manifestations stand after a `Leave`: the leaving player's on its
/// new team, when it moved to one (a reused solo team moves nothing).
pub open spec fn leave_placements(
    pl: Map<PlayerId, TeamId>,
    p0: Players,
    p1: Players,
    req_player_id: PlayerId,
    r: Result<(), &'static str>,
) -> Map<PlayerId, TeamId> {
    if r is Ok && p1[req_player_id]->team_id != p0[req_player_id]->team_id {
        pl.insert(req_player_id, p1[req_player_id]->team_id)
    } else {
        pl
    }
}

/// Where manifestations stand after a `Name`: the leader's placed (again)
/// on its now named team.
pub open spec fn name_placements(
    pl: Map<PlayerId, TeamId>,
    p0: Players,
    req_player_id: PlayerId,
    r: Result<(), &'static str>,
) -> Map<PlayerId, TeamId> {
    if r is Ok {
        pl.insert(req_player_id, p0[req_player_id]->team_id)
    } else {
        pl
    }
}

/// Where manifestations stand after a `Kick`: the kicked player's on its
/// new team.
pub open spec fn kick_placements(
    pl: Map<PlayerId, TeamId>,
    p1: Players,
    kick_player_id: PlayerId,
    r: Result<(), &'static str>,
) -> Map<PlayerId, TeamId> {
    if r is Ok {
        pl.insert(kick_player_id, p1[kick_player_id]->team_id)
    } else {
        pl
    }
}

/// Where manifestations stand after a team request (joining and rejecting
/// move none).
pub open spec fn request_placements(
    pl: Map<PlayerId, TeamId>,
    p0: Players,
    p1: Players,
    req_player_id: PlayerId,
    request: TeamRequest,
    r: Result<(), &'static str>,
) -> Map<PlayerId, TeamId> {
    match request {
        TeamRequest::Accept(a) => accept_placements(pl, p0, req_player_id, a, r),
        TeamRequest::Leave => leave_placements(pl, p0, p1, req_player_id, r),
        TeamRequest::Name(_) => name_placements(pl, p0, req_player_id, r),
        TeamRequest::Kick(k) => kick_placements(pl, p1, k, r),
        _ => pl,
    }
}

/// Implemented by the server in an entity-player-team actor model.
pub trait PlayerTeamModel: Sized {
    type TeamData: Clone;
    type Manifestation: Manifestation + Clone;

    /// The players and their statuses.
    spec fn players(&self) -> Players;

    /// The teams.
    spec fn teams(&self) -> Map<TeamId, TeamView<Self::TeamData, Self::Manifestation>>;

    /// Where the game has placed each player's manifestation: the team it
    /// is on.
    spec fn placements(&self) -> Map<PlayerId, TeamId>;

    /// Puts the manifestation on the designated team (for example moves an
    /// entity). Also called when the team's name changes. Players and teams
    /// are left alone.
    fn swap_manifestation(
        &mut self,
        member_id: MemberId,
        manifestation: &mut Self::Manifestation,
        new_team_id: TeamId,
        new_team_data: &Self::TeamData,
    )
        ensures
            final(self).players() == old(self).players(),
            final(self).teams() == old(self).teams(),
            final(self).placements() == old(self).placements().insert(member_id.player_id, new_team_id),
    ;

    /// Removes the manifestation from the game. Players and teams are left alone.
    fn delete_manifestation(&mut self, member_id: MemberId, manifestation: &Self::Manifestation)
        ensures
            final(self).players() == old(self).players(),
            final(self).teams() == old(self).teams(),
            final(self).placements() == old(self).placements().remove(member_id.player_id),
    ;

    fn has_player(&self, player_id: PlayerId) -> (r: bool)
        ensures
            r == self.players().contains_key(player_id),
    ;

    /// The current status of the designated player.
    fn get_player_status(&self, player_id: PlayerId) -> (r: PlayerStatus)
        requires
            self.players().contains_key(player_id),
        ensures
            r@ == self.players()[player_id],
    ;

    /// Updates the designated player.
    fn update_player(&mut self, player_id: PlayerId, update: JoinUpdate)
        requires
            old(self).players().contains_key(player_id),
            update_applies(old(self).players()[player_id], update),
        ensures
            final(self).players() == old(self).players().insert(
                player_id,
                apply_update(old(self).players()[player_id], update),
            ),
            final(self).teams() == old(self).teams(),
            final(self).placements() == old(self).placements(),
    ;

    /// Whether a new team id is still available (a limit of the id space).
    spec fn has_room_for_team(&self) -> bool;

    /// Creates a new, empty, anonymous team.
    fn create_team(&mut self) -> (team_id: TeamId)
        requires
            old(self).has_room_for_team(),
        ensures
            !old(self).teams().contains_key(team_id),
            final(self).teams() == old(self).teams().insert(team_id, final(self).teams()[team_id]),
            final(self).teams()[team_id].name is None,
            final(self).teams()[team_id].members.len() == 0,
            final(self).teams()[team_id].joiners.len() == 0,
            final(self).players() == old(self).players(),
            final(self).placements() == old(self).placements(),
    ;

    /// Whether the team exists.
    fn has_team(&self, team_id: TeamId) -> (r: bool)
        ensures
            r == self.teams().contains_key(team_id),
    ;

    /// The current state of the designated team.
    fn get_team(&self, team_id: TeamId) -> (r: &Team<Self::TeamData, Self::Manifestation>)
        requires
            self.teams().contains_key(team_id),
        ensures
            r@ == self.teams()[team_id],
    ;

    /// Updates the designated team.
    fn update_team(&mut self, team_id: TeamId, update: TeamUpdate<Self::Manifestation>)
        requires
            old(self).teams().contains_key(team_id),
            team_update_applies(old(self).teams()[team_id], update),
        ensures
            final(self).teams() == old(self).teams().insert(
                team_id,
                apply_team_update(old(self).teams()[team_id], update),
            ),
            final(self).players() == old(self).players(),
            final(self).placements() == old(self).placements(),
    ;

    /// Deletes the designated team. The caller clears joins that name it and
    /// makes sure no manifestation survives on it.
    fn delete_team(&mut self, team_id: TeamId)
        requires
            old(self).teams().contains_key(team_id),
        ensures
            final(self).teams() == old(self).teams().remove(team_id),
            final(self).players() == old(self).players(),
            final(self).placements() == old(self).placements(),
    ;

    /// A leader turns down a player asking to join.
    fn handle_reject(&mut self, req_player_id: PlayerId, reject_player_id: PlayerId) -> (r: Result<(), &'static str>)
        requires
            valid(old(self).players(), old(self).teams()),
            old(self).players().contains_key(req_player_id),
        ensures
            reject_outcome::<Self::TeamData, Self::Manifestation>(old(self).players(), old(self).teams(), req_player_id, reject_player_id, r, final(self).players(), final(self).teams()),
            final(self).placements() == old(self).placements(),
            valid(final(self).players(), final(self).teams()),
    {
        let ghost p0 = self.players();
        let ghost t0 = self.teams();
        let req_team_id = match self.get_player_status(req_player_id).team_id() {
            Some(t) => t,
            None => {
                return Err("not in team");
            },
        };
        proof {
            assert(player_valid(p0, t0, req_player_id));
        }
        let req_team = self.get_team(req_team_id);
        let is_leader = match req_team.leader() {
            Some(l) => l.player_id == req_player_id,
            None => false,
        };
        if !is_leader {
            return Err("unauthorized");
        }
        if !super::team::contains_player(&req_team.joiners, reject_player_id) {
            return Err("player was not joining");
        }
        proof {
            assert(team_valid(p0, t0, req_team_id));
            let k = choose|k: int| 0 <= k < t0[req_team_id].joiners.len() && t0[req_team_id].joiners[k] == reject_player_id;
            assert(p0.contains_key(t0[req_team_id].joiners[k]));
        }
        self.update_player(reject_player_id, JoinUpdate::RemoveJoin(req_team_id));
        self.update_team(req_team_id, TeamUpdate::RemoveJoiner(reject_player_id));
        proof {
            lemma_reject_valid(p0, t0, req_team_id, reject_player_id);
        }
        Ok(())
    }

    /// A player on an anonymous team asks to join a named team; when it
    /// already asks to join `MAX_JOINS` teams, its oldest request lapses.
    fn handle_join(&mut self, req_player_id: PlayerId, join_team_id: TeamId) -> (r: Result<(), &'static str>)
        requires
            valid(old(self).players(), old(self).teams()),
            old(self).players().contains_key(req_player_id),
        ensures
            join_outcome::<Self::TeamData, Self::Manifestation>(old(self).players(), old(self).teams(), req_player_id, join_team_id, r, final(self).players(), final(self).teams()),
            final(self).placements() == old(self).placements(),
            valid(final(self).players(), final(self).teams()),
    {
        let ghost p0 = self.players();
        let ghost t0 = self.teams();
        let status = self.get_player_status(req_player_id);
        let (req_team_id, joins) = match status {
            PlayerStatus::Joined(JoinedStatus { team_id, joins }) => (team_id, joins_vec(&joins)),
            PlayerStatus::Spawning => {
                return Err("not in team");
            },
        };
        proof {
            assert(player_valid(p0, t0, req_player_id));
        }
        let req_team = self.get_team(req_team_id);
        if req_team.name.is_some() {
            return Err("already on named team");
        }
        if super::joined_status::contains_team(&joins, join_team_id) {
            return Err("already joining that team");
        }
        if !self.has_team(join_team_id) {
            return Err("no such team");
        }
        let join_team = self.get_team(join_team_id);
        if join_team.name.is_none() {
            return Err("cannot join un-named team");
        }
        proof {
            assert(team_valid(p0, t0, join_team_id));
        }
        if join_team.members.len() + join_team.joiners.len() >= Self::Manifestation::MAX_MEMBERS_AND_JOINERS {
            return Err("too many joiners already");
        }
        if joins.len() == MAX_JOINS {
            let expired_join_team_id = joins[0];
            proof {
                assert(t0.contains_key(joins@[0]));
                lemma_reject_valid(p0, t0, expired_join_team_id, req_player_id);
                lemma_without_contains(joins@, expired_join_team_id, join_team_id);
                lemma_without_shorter(joins@, expired_join_team_id);
                assert(joins@.contains(expired_join_team_id));
            }
            self.update_team(expired_join_team_id, TeamUpdate::RemoveJoiner(req_player_id));
            self.update_player(req_player_id, JoinUpdate::RemoveJoin(expired_join_team_id));
        }
        proof {
            lemma_add_join_valid(self.players(), self.teams(), req_player_id, join_team_id);
        }
        self.update_player(req_player_id, JoinUpdate::AddJoin(join_team_id));
        self.update_team(join_team_id, TeamUpdate::AddJoiner(req_player_id));
        Ok(())
    }

    /// A leader accepts a player asking to join; the player leaves its
    /// anonymous team (which is deleted) and its other requests lapse.
    fn handle_accept(&mut self, req_player_id: PlayerId, accept_player_id: PlayerId) -> (r: Result<(), &'static str>)
        requires
            valid(old(self).players(), old(self).teams()),
            old(self).players().contains_key(req_player_id),
        ensures
            accept_outcome::<Self::TeamData, Self::Manifestation>(old(self).players(), old(self).teams(), req_player_id, accept_player_id, r, final(self).players(), final(self).teams()),
            final(self).placements() == accept_placements(old(self).placements(), old(self).players(), req_player_id, accept_player_id, r),
            valid(final(self).players(), final(self).teams()),
    {
        let ghost p0 = self.players();
        let ghost t0 = self.teams();
        let req_team_id = match self.get_player_status(req_player_id).team_id() {
            Some(t) => t,
            None => {
                return Err("not in team");
            },
        };
        proof {
            assert(player_valid(p0, t0, req_player_id));
        }
        let req_team = self.get_team(req_team_id);
        let is_leader = match req_team.leader() {
            Some(l) => l.player_id == req_player_id,
            None => false,
        };
        if !is_leader {
            return Err("unauthorized");
        }
        if !super::team::contains_player(&req_team.joiners, accept_player_id) {
            return Err("player was not joining");
        }
        if req_team.members.len() >= Self::Manifestation::MAX_MEMBERS {
            return Err("team full");
        }
        let new_team_data = req_team.data.clone();
        proof {
            assert(team_valid(p0, t0, req_team_id));
            assert(t0[req_team_id].name is Some) by {
                if t0[req_team_id].name is None {
                    assert(t0[req_team_id].joiners.len() == 0);
                }
            }
            lemma_accept_valid(p0, t0, req_team_id, accept_player_id, Member { player_id: accept_player_id, manifestation: t0[req_team_id].members[0].manifestation });
        }
        let (old_team_id, old_joins) = match self.get_player_status(accept_player_id) {
            PlayerStatus::Joined(JoinedStatus { team_id, joins }) => (team_id, joins_vec(&joins)),
            PlayerStatus::Spawning => {
                proof {
                    assert(false);
                }
                return Err("player was not joining");
            },
        };
        proof {
            assert(player_valid(p0, t0, accept_player_id));
            assert(team_valid(p0, t0, old_team_id));
            assert(t0[old_team_id].name is None) by {
                assert(old_joins@.contains(req_team_id)) by {
                    let ka = choose|k: int| 0 <= k < t0[req_team_id].joiners.len() && t0[req_team_id].joiners[k] == accept_player_id;
                    assert(p0.contains_key(t0[req_team_id].joiners[ka]));
                }
            }
        }
        let old_team = self.get_team(old_team_id);
        let old_member = old_team.get(accept_player_id).unwrap();
        let mut manifestation = old_member.manifestation.clone();
        let mut i: usize = 0;
        while i < old_joins.len()
            invariant
                i <= old_joins@.len(),
                old_joins@ == p0[accept_player_id]->joins,
                p0[accept_player_id] is Joined,
                player_valid(p0, t0, accept_player_id),
                t0[p0[accept_player_id]->team_id].name is None,
                self.players() == p0,
                self.placements() == old(self).placements(),
                self.teams() == drop_joiner_from(t0, old_joins@.take(i as int), accept_player_id),
            decreases old_joins@.len() - i,
        {
            let join = old_joins[i];
            let ghost before = self.teams();
            proof {
                assert(t0.contains_key(old_joins@[i as int]));
            }
            self.update_team(join, TeamUpdate::RemoveJoiner(accept_player_id));
            proof {
                let next = old_joins@.take(i + 1);
                assert(next =~= old_joins@.take(i as int).push(join));
                assert forall|u: TeamId| next.contains(u) <==> (old_joins@.take(i as int).contains(u) || u == join) by {
                    crate::seq_util::lemma_push_contains(old_joins@.take(i as int), join, u);
                }
                if old_joins@.take(i as int).contains(join) {
                    lemma_without_twice(t0[join].joiners, accept_player_id);
                }
                assert(self.teams() =~= drop_joiner_from(t0, next, accept_player_id));
            }
            i = i + 1;
        }
        proof {
            assert(old_joins@.take(old_joins@.len() as int) =~= old_joins@);
        }
        self.swap_manifestation(
            MemberId { team_id: old_team_id, player_id: accept_player_id },
            &mut manifestation,
            req_team_id,
            &new_team_data,
        );
        self.update_player(accept_player_id, JoinUpdate::Join(req_team_id));
        let ghost dropped = self.teams();
        proof {
            assert(old_joins@.contains(req_team_id)) by {
                let ka = choose|k: int| 0 <= k < t0[req_team_id].joiners.len() && t0[req_team_id].joiners[k] == accept_player_id;
                assert(p0.contains_key(t0[req_team_id].joiners[ka]));
            }
            assert(!has_member(dropped[req_team_id].members, accept_player_id)) by {
                if has_member(t0[req_team_id].members, accept_player_id) {
                    let j = choose|j: int| 0 <= j < t0[req_team_id].members.len() && t0[req_team_id].members[j].player_id == accept_player_id;
                    assert(p0.contains_key(t0[req_team_id].members[j].player_id));
                }
            }
            lemma_without_twice(t0[req_team_id].joiners, accept_player_id);
        }
        let new_member = Member { player_id: accept_player_id, manifestation };
        let ghost m = new_member;
        self.update_team(req_team_id, TeamUpdate::AddMember(new_member));
        self.delete_team(old_team_id);
        proof {
            assert(self.teams() =~= accept_teams(t0, req_team_id, old_team_id, old_joins@, accept_player_id, m));
            lemma_accept_valid(p0, t0, req_team_id, accept_player_id, m);
        }
        Ok(())
    }

    /// Stops every joiner of the team from asking to join it.
    fn release_joiners(&mut self, team_id: TeamId)
        requires
            old(self).teams().contains_key(team_id),
            old(self).teams()[team_id].joiners.no_duplicates(),
            forall|k: int|
                0 <= k < old(self).teams()[team_id].joiners.len() ==> {
                    &&& old(self).players().contains_key(#[trigger] old(self).teams()[team_id].joiners[k])
                    &&& old(self).players()[old(self).teams()[team_id].joiners[k]] is Joined
                },
        ensures
            final(self).players() == drop_join_from(
                old(self).players(),
                old(self).teams()[team_id].joiners,
                team_id,
            ),
            final(self).teams() == old(self).teams().insert(
                team_id,
                TeamView { joiners: Seq::empty(), ..old(self).teams()[team_id] },
            ),
            final(self).placements() == old(self).placements(),
    {
        let ghost p0 = self.players();
        let ghost t0 = self.teams();
        let ghost js = t0[team_id].joiners;
        let joiners = super::team::copy_player_ids(&self.get_team(team_id).joiners);
        let mut i: usize = 0;
        assert(js.skip(0) =~= js);
        assert(p0 =~= drop_join_from(p0, js.take(0), team_id));
        assert(t0 =~= t0.insert(team_id, TeamView { joiners: js.skip(0), ..t0[team_id] }));
        while i < joiners.len()
            invariant
                i <= js.len(),
                joiners@ == js,
                js == t0[team_id].joiners,
                js.no_duplicates(),
                t0.contains_key(team_id),
                forall|k: int| 0 <= k < js.len() ==> {
                    &&& p0.contains_key(#[trigger] js[k])
                    &&& p0[js[k]] is Joined
                },
                self.players() == drop_join_from(p0, js.take(i as int), team_id),
                self.placements() == old(self).placements(),
                self.teams() == t0.insert(team_id, TeamView { joiners: js.skip(i as int), ..t0[team_id] }),
            decreases js.len() - i,
        {
            let joiner = joiners[i];
            proof {
                assert(p0.contains_key(js[i as int]));
                assert(!js.take(i as int).contains(joiner)) by {
                    if js.take(i as int).contains(joiner) {
                        let k = choose|k: int| 0 <= k < i && js.take(i as int)[k] == joiner;
                        assert(js[k] == js[i as int]);
                    }
                }
            }
            self.update_player(joiner, JoinUpdate::RemoveJoin(team_id));
            proof {
                let next = js.take(i + 1);
                assert(next =~= js.take(i as int).push(joiner));
                assert forall|p: PlayerId| next.contains(p) <==> (js.take(i as int).contains(p) || p == joiner) by {
                    crate::seq_util::lemma_push_contains(js.take(i as int), joiner, p);
                }
                assert(self.players() =~= drop_join_from(p0, next, team_id));
                let rest = js.skip(i as int);
                assert(rest[0] == joiner);
                assert(!rest.drop_first().contains(joiner)) by {
                    if rest.drop_first().contains(joiner) {
                        let k = choose|k: int| 0 <= k < rest.drop_first().len() && rest.drop_first()[k] == joiner;
                        assert(js[i + 1 + k] == js[i as int]);
                    }
                }
                lemma_without_first(rest);
                assert(rest.drop_first() =~= js.skip(i + 1));
            }
            self.update_team(team_id, TeamUpdate::RemoveJoiner(joiner));
            i = i + 1;
        }
        proof {
            assert(js.take(js.len() as int) =~= js);
            assert(js.skip(js.len() as int) =~= Seq::<PlayerId>::empty());
        }
    }

    /// A player leaves its named team: alone on it, it keeps the team,
    /// unnamed (when `CAN_REUSE_SOLO_TEAM`); otherwise it moves to a new
    /// anonymous team.
    fn handle_leave(&mut self, req_player_id: PlayerId) -> (r: Result<(), &'static str>)
        requires
            valid(old(self).players(), old(self).teams()),
            old(self).players().contains_key(req_player_id),
            old(self).has_room_for_team(),
        ensures
            leave_outcome::<Self::TeamData, Self::Manifestation>(old(self).players(), old(self).teams(), req_player_id, r, final(self).players(), final(self).teams()),
            final(self).placements() == leave_placements(old(self).placements(), old(self).players(), final(self).players(), req_player_id, r),
            valid(final(self).players(), final(self).teams()),
    {
        let ghost p0 = self.players();
        let ghost t0 = self.teams();
        let old_team_id = match self.get_player_status(req_player_id).team_id() {
            Some(t) => t,
            None => {
                return Err("not in team");
            },
        };
        proof {
            assert(player_valid(p0, t0, req_player_id));
            assert(team_valid(p0, t0, old_team_id));
        }
        let old_team = self.get_team(old_team_id);
        if old_team.name.is_none() {
            return Err("cannot leave anonymous team");
        }
        let solo = old_team.members.len() == 1;
        let is_leader = match old_team.leader() {
            Some(l) => l.player_id == req_player_id,
            None => false,
        };
        let ghost joiners_released = forall|k: int|
            0 <= k < t0[old_team_id].joiners.len() ==> {
                &&& p0.contains_key(#[trigger] t0[old_team_id].joiners[k])
                &&& p0[t0[old_team_id].joiners[k]] is Joined
            };
        proof {
            assert(joiners_released) by {
                assert forall|k: int| 0 <= k < t0[old_team_id].joiners.len() implies {
                    &&& p0.contains_key(#[trigger] t0[old_team_id].joiners[k])
                    &&& p0[t0[old_team_id].joiners[k]] is Joined
                } by {
                    assert(p0.contains_key(t0[old_team_id].joiners[k]));
                }
            }
            assert(!t0[old_team_id].joiners.contains(req_player_id)) by {
                if t0[old_team_id].joiners.contains(req_player_id) {
                    let k = choose|k: int| 0 <= k < t0[old_team_id].joiners.len() && t0[old_team_id].joiners[k] == req_player_id;
                    assert(p0.contains_key(t0[old_team_id].joiners[k]));
                }
            }
        }
        if !Self::Manifestation::LEADER_CAN_LEAVE && is_leader {
            return Err("leader cannot leave");
        } else if solo && Self::Manifestation::CAN_REUSE_SOLO_TEAM {
            if !Self::Manifestation::CAN_LEAVE_SOLO_TEAM {
                return Err("cannot leave solo team");
            }
            self.release_joiners(old_team_id);
            self.update_team(old_team_id, TeamUpdate::SetName(None));
            proof {
                let d = t0[old_team_id].data;
                let m = t0[old_team_id].members[0];
                let reuse = t0[old_team_id].members.len() == 1 && Self::Manifestation::CAN_REUSE_SOLO_TEAM;
                assert(reuse);
                assert(self.players() =~= leave_players(p0, t0, old_team_id, req_player_id, reuse, old_team_id));
                assert(self.teams() =~= leave_teams(t0, old_team_id, req_player_id, reuse, old_team_id, d, m));
                lemma_leave_valid(p0, t0, req_player_id, reuse, old_team_id, d, m);
                assert(left_as(p0, t0, old_team_id, req_player_id, reuse, self.players(), self.teams()));
            }
        } else {
            let old_member = old_team.get(req_player_id).unwrap();
            let mut manifestation = old_member.manifestation.clone();
            let new_team_id = self.create_team();
            let new_team_data = self.get_team(new_team_id).data.clone();
            let ghost d = self.teams()[new_team_id].data;
            self.swap_manifestation(
                MemberId { team_id: old_team_id, player_id: req_player_id },
                &mut manifestation,
                new_team_id,
                &new_team_data,
            );
            self.update_player(req_player_id, JoinUpdate::Join(new_team_id));
            if solo {
                proof {
                    assert(new_team_id != old_team_id);
                }
                self.release_joiners(old_team_id);
                self.delete_team(old_team_id);
            } else {
                self.update_team(old_team_id, TeamUpdate::RemoveMember(req_player_id));
            }
            let new_member = Member { player_id: req_player_id, manifestation };
            let ghost m = new_member;
            proof {
                assert(self.teams()[new_team_id].members.len() == 0);
            }
            self.update_team(new_team_id, TeamUpdate::AddMember(new_member));
            proof {
                assert(self.players() =~= leave_players(p0, t0, old_team_id, req_player_id, false, new_team_id));
                assert(self.teams()[new_team_id].members =~= seq![m]);
                assert(self.teams()[new_team_id].joiners =~= Seq::<PlayerId>::empty());
                let reuse = t0[old_team_id].members.len() == 1 && Self::Manifestation::CAN_REUSE_SOLO_TEAM;
                assert(!reuse);
                assert(self.teams() =~= leave_teams(t0, old_team_id, req_player_id, reuse, new_team_id, d, m));
                lemma_leave_valid(p0, t0, req_player_id, reuse, new_team_id, d, m);
                assert(self.players() == leave_players(p0, t0, old_team_id, req_player_id, reuse, new_team_id));
                assert(left_as(p0, t0, old_team_id, req_player_id, reuse, self.players(), self.teams()));
            }
        }
        Ok(())
    }

    /// The leader of an anonymous team names it; the team's join requests
    /// are withdrawn.
    fn handle_name(&mut self, req_player_id: PlayerId, new_name: TeamName) -> (r: Result<(), &'static str>)
        requires
            valid(old(self).players(), old(self).teams()),
            old(self).players().contains_key(req_player_id),
        ensures
            name_outcome::<Self::TeamData, Self::Manifestation>(old(self).players(), old(self).teams(), req_player_id, new_name@, r, final(self).players(), final(self).teams()),
            final(self).placements() == name_placements(old(self).placements(), old(self).players(), req_player_id, r),
            limits_sane::<Self::Manifestation>() ==> valid(final(self).players(), final(self).teams()),
    {
        let ghost p0 = self.players();
        let ghost t0 = self.teams();
        if new_name.is_empty() {
            return Err("empty team name");
        }
        let (req_team_id, joins) = match self.get_player_status(req_player_id) {
            PlayerStatus::Joined(JoinedStatus { team_id, joins }) => (team_id, joins_vec(&joins)),
            PlayerStatus::Spawning => {
                return Err("not in team");
            },
        };
        proof {
            assert(player_valid(p0, t0, req_player_id));
            assert(team_valid(p0, t0, req_team_id));
        }
        let req_team = self.get_team(req_team_id);
        let is_leader = match req_team.leader() {
            Some(l) => l.player_id == req_player_id,
            None => false,
        };
        if !is_leader {
            return Err("unauthorized");
        }
        if req_team.name.is_some() {
            return Err("team already named");
        }
        let new_team_data = req_team.data.clone();
        let leader_ref = req_team.leader().unwrap();
        let mut leader = Member {
            player_id: leader_ref.player_id,
            manifestation: leader_ref.manifestation.clone(),
        };
        proof {
            assert(t0[req_team_id].members.len() == 1) by {
                let i = choose|i: int| 0 <= i < t0[req_team_id].members.len() && t0[req_team_id].members[i].player_id == req_player_id;
            }
            assert(!joins@.contains(req_team_id)) by {
                if joins@.contains(req_team_id) {
                    let k = choose|k: int| 0 <= k < joins@.len() && joins@[k] == req_team_id;
                    assert(t0.contains_key(joins@[k]));
                }
            }
        }
        self.swap_manifestation(
            MemberId { team_id: req_team_id, player_id: req_player_id },
            &mut leader.manifestation,
            req_team_id,
            &new_team_data,
        );
        let ghost m = leader;
        proof {
            super::members::lemma_member_index(t0[req_team_id].members, req_player_id, 0);
        }
        self.update_team(req_team_id, TeamUpdate::ReplaceMember(leader));
        let ghost t1 = self.teams();
        proof {
            assert(t1[req_team_id].members =~= seq![m]);
            assert(drop_joiner_from(t1, joins@.take(0), req_player_id) =~= t1);
            assert(p0.insert(req_player_id, StatusView::Joined { team_id: req_team_id, joins: joins@ }) =~= p0);
        }
        let mut i: usize = 0;
        while i < joins.len()
            invariant
                i <= joins@.len(),
                joins@ == p0[req_player_id]->joins,
                p0[req_player_id] is Joined,
                p0[req_player_id]->team_id == req_team_id,
                player_valid(p0, t0, req_player_id),
                t0[req_team_id].name is None,
                !joins@.contains(req_team_id),
                t1 == t0.insert(req_team_id, TeamView { members: seq![m], ..t0[req_team_id] }),
                self.placements() == old(self).placements().insert(req_player_id, req_team_id),
                self.players().contains_key(req_player_id),
                self.players()[req_player_id] is Joined,
                self.players() == p0.insert(
                    req_player_id,
                    StatusView::Joined { team_id: req_team_id, joins: self.players()[req_player_id]->joins },
                ),
                forall|x: TeamId| #[trigger] self.players()[req_player_id]->joins.contains(x)
                    ==> joins@.contains(x) && !joins@.take(i as int).contains(x),
                self.teams() == drop_joiner_from(t1, joins@.take(i as int), req_player_id),
            decreases joins@.len() - i,
        {
            let join = joins[i];
            let ghost cur = self.players()[req_player_id]->joins;
            proof {
                assert(t0.contains_key(joins@[i as int]));
            }
            self.update_player(req_player_id, JoinUpdate::RemoveJoin(join));
            self.update_team(join, TeamUpdate::RemoveJoiner(req_player_id));
            proof {
                let next = joins@.take(i + 1);
                assert(next =~= joins@.take(i as int).push(join));
                assert forall|u: TeamId| next.contains(u) <==> (joins@.take(i as int).contains(u) || u == join) by {
                    crate::seq_util::lemma_push_contains(joins@.take(i as int), join, u);
                }
                assert forall|x: TeamId| #[trigger] self.players()[req_player_id]->joins.contains(x)
                    implies joins@.contains(x) && !next.contains(x) by {
                    lemma_without_contains(cur, join, x);
                }
                if joins@.take(i as int).contains(join) {
                    lemma_without_twice(t0[join].joiners, req_player_id);
                }
                assert(self.players() =~= p0.insert(
                    req_player_id,
                    StatusView::Joined { team_id: req_team_id, joins: self.players()[req_player_id]->joins },
                ));
                assert(self.teams() =~= drop_joiner_from(t1, next, req_player_id));
            }
            i = i + 1;
        }
        proof {
            assert(joins@.take(joins@.len() as int) =~= joins@);
            let cur = self.players()[req_player_id]->joins;
            assert(cur =~= Seq::<TeamId>::empty()) by {
                if cur.len() > 0 {
                    assert(cur.contains(cur[0]));
                }
            }
        }
        let ghost name_view = new_name@;
        self.update_team(req_team_id, TeamUpdate::SetName(Some(new_name)));
        proof {
            assert(self.players() =~= p0.insert(req_player_id, StatusView::Joined { team_id: req_team_id, joins: Seq::empty() }));
            assert(self.teams() =~= name_teams(t0, req_team_id, joins@, req_player_id, name_view, m));
            if limits_sane::<Self::Manifestation>() {
                lemma_name_valid(p0, t0, req_player_id, name_view, m);
            }
        }
        Ok(())
    }

    /// The leader removes a member, who leaves for a new anonymous team.
    fn handle_kick(&mut self, req_player_id: PlayerId, kick_player_id: PlayerId) -> (r: Result<(), &'static str>)
        requires
            valid(old(self).players(), old(self).teams()),
            old(self).players().contains_key(req_player_id),
            old(self).has_room_for_team(),
        ensures
            kick_outcome::<Self::TeamData, Self::Manifestation>(old(self).players(), old(self).teams(), req_player_id, kick_player_id, r, final(self).players(), final(self).teams()),
            final(self).placements() == kick_placements(old(self).placements(), final(self).players(), kick_player_id, r),
            valid(final(self).players(), final(self).teams()),
    {
        let ghost p0 = self.players();
        let ghost t0 = self.teams();
        let req_team_id = match self.get_player_status(req_player_id).team_id() {
            Some(t) => t,
            None => {
                return Err("not in team");
            },
        };
        proof {
            assert(player_valid(p0, t0, req_player_id));
            assert(team_valid(p0, t0, req_team_id));
        }
        let req_team = self.get_team(req_team_id);
        let is_leader = match req_team.leader() {
            Some(l) => l.player_id == req_player_id,
            None => false,
        };
        if !is_leader {
            return Err("unauthorized");
        }
        if kick_player_id == req_player_id {
            return Err("cannot kick self");
        }
        if !req_team.members.contains(kick_player_id) {
            return Err("cannot kick non-member");
        }
        proof {
            let i = choose|i: int| 0 <= i < t0[req_team_id].members.len() && t0[req_team_id].members[i].player_id == kick_player_id;
            assert(p0.contains_key(t0[req_team_id].members[i].player_id));
            assert(i != 0);
            assert(t0[req_team_id].name is Some);
            assert(leader_id(t0[req_team_id]) != Some(kick_player_id));
            assert(status_team(p0[kick_player_id]) == Some(req_team_id));
            assert(t0[req_team_id].members.len() >= 2);
        }
        let left = self.handle_leave(kick_player_id);
        proof {
            assert(left is Ok);
        }
        Ok(())
    }

    /// Runs a team request (see `request_outcome`), except that leaving is
    /// refused when members cannot leave.
    fn handle_team_request(&mut self, req_player_id: PlayerId, request: TeamRequest) -> (r: Result<(), &'static str>)
        requires
            valid(old(self).players(), old(self).teams()),
            old(self).players().contains_key(req_player_id),
            old(self).has_room_for_team(),
        ensures
            !Self::Manifestation::MEMBERS_CAN_LEAVE && request is Leave ==> {
                &&& r == Err::<(), &'static str>("members can't leave")
                &&& final(self).players() == old(self).players()
                &&& final(self).teams() == old(self).teams()
            },
            Self::Manifestation::MEMBERS_CAN_LEAVE || !(request is Leave) ==> request_outcome::<Self::TeamData, Self::Manifestation>(old(self).players(), old(self).teams(), req_player_id, request, r, final(self).players(), final(self).teams()),
            final(self).placements() == if !Self::Manifestation::MEMBERS_CAN_LEAVE && request is Leave {
                old(self).placements()
            } else {
                request_placements(old(self).placements(), old(self).players(), final(self).players(), req_player_id, request, r)
            },
            limits_sane::<Self::Manifestation>() || !(request is Name) ==> valid(final(self).players(), final(self).teams()),
    {
        if !Self::Manifestation::MEMBERS_CAN_LEAVE && matches!(request, TeamRequest::Leave) {
            return Err("members can't leave");
        }
        self.impl_handle_team_request(req_player_id, request)
    }

    /// Runs a team request (see `request_outcome`).
    fn impl_handle_team_request(&mut self, req_player_id: PlayerId, request: TeamRequest) -> (r: Result<(), &'static str>)
        requires
            valid(old(self).players(), old(self).teams()),
            old(self).players().contains_key(req_player_id),
            old(self).has_room_for_team(),
        ensures
            request_outcome::<Self::TeamData, Self::Manifestation>(old(self).players(), old(self).teams(), req_player_id, request, r, final(self).players(), final(self).teams()),
            limits_sane::<Self::Manifestation>() || !(request is Name) ==> valid(final(self).players(), final(self).teams()),
            final(self).placements() == request_placements(old(self).placements(), old(self).players(), final(self).players(), req_player_id, request, r),
    {
        match request {
            TeamRequest::Name(new_name) => self.handle_name(req_player_id, new_name),
            TeamRequest::Join(join_team_id) => self.handle_join(req_player_id, join_team_id),
            TeamRequest::Accept(accept_player_id) => self.handle_accept(req_player_id, accept_player_id),
            TeamRequest::Reject(reject_player_id) => self.handle_reject(req_player_id, reject_player_id),
            TeamRequest::Kick(kick_player_id) => self.handle_kick(req_player_id, kick_player_id),
            TeamRequest::Leave => self.handle_leave(req_player_id),
        }
    }

    /// Puts a player on a team before it spawns: it keeps its team, or joins
    /// the inviting player's named team if that has room, or else a new
    /// anonymous team. Returns the team.
    fn prepare_spawn_team(
        &mut self,
        player_id: PlayerId,
        alias: PlayerAlias,
        invitation_player_id: Option<PlayerId>,
    ) -> (r: TeamId)
        requires
            valid(old(self).players(), old(self).teams()),
            old(self).players().contains_key(player_id),
            old(self).has_room_for_team(),
        ensures
            spawn_outcome::<Self::TeamData, Self::Manifestation>(old(self).players(), old(self).teams(), player_id, invitation_player_id, r, final(self).players(), final(self).teams()),
            final(self).placements() == old(self).placements(),
            spawn_keeps_limits::<Self::TeamData, Self::Manifestation>(old(self).players(), old(self).teams(), player_id, invitation_player_id)
                ==> valid(final(self).players(), final(self).teams()),
    {
        let ghost p0 = self.players();
        let ghost t0 = self.teams();
        if let Some(team_id) = self.get_player_status(player_id).team_id() {
            proof {
                assert(player_valid(p0, t0, player_id));
            }
            return team_id;
        }
        let new_member = Member::<Self::Manifestation>::new(player_id, alias);
        let mut invited_team: Option<TeamId> = None;
        if let Some(invitation_player_id) = invitation_player_id {
            if self.has_player(invitation_player_id) {
                if let Some(team_id) = self.get_player_status(invitation_player_id).team_id() {
                    proof {
                        assert(player_valid(p0, t0, invitation_player_id));
                    }
                    let team = self.get_team(team_id);
                    if team.name.is_some() && team.members.len() < Self::Manifestation::MAX_MEMBERS {
                        invited_team = Some(team_id);
                    }
                }
            }
        }
        let ghost invited = invitation_usable(p0, t0, invitation_player_id);
        assert(invited == invited_team is Some);
        let team_id = match invited_team {
            Some(team_id) => team_id,
            None => self.create_team(),
        };
        let ghost tb = self.teams();
        let ghost m = new_member;
        proof {
            if !invited {
                lemma_new_team_valid(p0, t0, team_id, tb[team_id]);
                assert(tb =~= t0.insert(team_id, tb[team_id]));
            }
            assert(team_valid(p0, tb, team_id)) by {
                if invited {
                    assert(team_valid(p0, t0, team_id));
                }
            }
            assert(!has_member(tb[team_id].members, player_id)) by {
                if has_member(tb[team_id].members, player_id) {
                    let i = choose|i: int| 0 <= i < tb[team_id].members.len() && tb[team_id].members[i].player_id == player_id;
                    assert(p0.contains_key(tb[team_id].members[i].player_id));
                }
            }
            assert(!tb[team_id].joiners.contains(player_id)) by {
                if tb[team_id].joiners.contains(player_id) {
                    let k = choose|k: int| 0 <= k < tb[team_id].joiners.len() && tb[team_id].joiners[k] == player_id;
                    assert(p0.contains_key(tb[team_id].joiners[k]));
                }
            }
            crate::seq_util::lemma_without_len(tb[team_id].joiners, player_id);
        }
        self.update_team(team_id, TeamUpdate::AddMember(new_member));
        self.update_player(player_id, JoinUpdate::Join(team_id));
        proof {
            assert(self.teams() =~= tb.insert(team_id, TeamView { members: tb[team_id].members.push(m), ..tb[team_id] }));
            if !invited {
                assert(self.teams()[team_id].members =~= seq![m]);
            }
            if spawn_keeps_limits::<Self::TeamData, Self::Manifestation>(p0, t0, player_id, invitation_player_id) {
                if !invited {
                    lemma_new_team_valid(p0, t0, team_id, tb[team_id]);
                }
                lemma_add_member_valid(p0, tb, player_id, team_id, m);
            }
        }
        team_id
    }

    /// A player quits the game: its manifestation is deleted, it leaves its
    /// team (deleting a team of one) and withdraws its join requests.
    fn player_quit_game(&mut self, player_id: PlayerId)
        requires
            valid(old(self).players(), old(self).teams()),
            old(self).players().contains_key(player_id),
        ensures
            old(self).players()[player_id] is Spawning ==> {
                &&& final(self).players() == old(self).players()
                &&& final(self).teams() == old(self).teams()
            },
            old(self).players()[player_id] is Joined ==> {
                let t = old(self).players()[player_id]->team_id;
                &&& final(self).players() == quit_players(old(self).players(), old(self).teams(), t, player_id)
                &&& final(self).teams() == quit_teams(old(self).teams(), t, old(self).players()[player_id]->joins, player_id)
            },
            final(self).placements() == if old(self).players()[player_id] is Joined {
                old(self).placements().remove(player_id)
            } else {
                old(self).placements()
            },
            valid(final(self).players(), final(self).teams()),
    {
        let ghost p0 = self.players();
        let ghost t0 = self.teams();
        let (team_id, joins) = match self.get_player_status(player_id) {
            PlayerStatus::Joined(JoinedStatus { team_id, joins }) => (team_id, joins_vec(&joins)),
            PlayerStatus::Spawning => {
                return;
            },
        };
        proof {
            assert(player_valid(p0, t0, player_id));
            assert(team_valid(p0, t0, team_id));
            lemma_quit_valid(p0, t0, player_id);
        }
        let team = self.get_team(team_id);
        let delete_team = team.members.len() == 1;
        let joiners = super::team::copy_player_ids(&team.joiners);
        let member = team.get(player_id).unwrap();
        let manifestation = member.manifestation.clone();
        self.delete_manifestation(MemberId { team_id, player_id }, &manifestation);
        let ghost js = t0[team_id].joiners;
        if delete_team {
            let mut i: usize = 0;
            assert(p0 =~= drop_join_from(p0, js.take(0), team_id));
            while i < joiners.len()
                invariant
                    i <= js.len(),
                    joiners@ == js,
                    js == t0[team_id].joiners,
                    t0.contains_key(team_id),
                    team_valid(p0, t0, team_id),
                    self.teams() == t0,
                    self.players() == drop_join_from(p0, js.take(i as int), team_id),
                    self.placements() == old(self).placements().remove(player_id),
                decreases js.len() - i,
            {
                let joiner = joiners[i];
                proof {
                    assert(p0.contains_key(js[i as int]));
                    assert(!js.take(i as int).contains(joiner)) by {
                        if js.take(i as int).contains(joiner) {
                            let k = choose|k: int| 0 <= k < i && js.take(i as int)[k] == joiner;
                            assert(js[k] == js[i as int]);
                        }
                    }
                }
                self.update_player(joiner, JoinUpdate::RemoveJoin(team_id));
                proof {
                    let next = js.take(i + 1);
                    assert(next =~= js.take(i as int).push(joiner));
                    assert forall|p: PlayerId| next.contains(p) <==> (js.take(i as int).contains(p) || p == joiner) by {
                        crate::seq_util::lemma_push_contains(js.take(i as int), joiner, p);
                    }
                    assert(self.players() =~= drop_join_from(p0, next, team_id));
                }
                i = i + 1;
            }
            proof {
                assert(js.take(js.len() as int) =~= js);
            }
            self.delete_team(team_id);
        } else {
            self.update_team(team_id, TeamUpdate::RemoveMember(player_id));
        }
        self.update_player(player_id, JoinUpdate::Quit);
        let ghost base = self.teams();
        let ghost pq = self.players();
        proof {
            assert(pq =~= quit_players(p0, t0, team_id, player_id));
            assert(!joins@.contains(team_id)) by {
                if joins@.contains(team_id) {
                    let k = choose|k: int| 0 <= k < joins@.len() && joins@[k] == team_id;
                    assert(t0.contains_key(joins@[k]));
                }
            }
            assert(drop_joiner_from(base, joins@.take(0), player_id) =~= base);
        }
        let mut k: usize = 0;
        while k < joins.len()
            invariant
                k <= joins@.len(),
                joins@ == p0[player_id]->joins,
                p0[player_id] is Joined,
                self.placements() == old(self).placements().remove(player_id),
                player_valid(p0, t0, player_id),
                !joins@.contains(team_id),
                forall|u: TeamId| #[trigger] base.contains_key(u) <==> (t0.contains_key(u) && (u != team_id || !delete_team)),
                forall|u: TeamId| u != team_id ==> base[u] == #[trigger] t0[u],
                self.teams() == drop_joiner_from(base, joins@.take(k as int), player_id),
                self.players() == pq,
            decreases joins@.len() - k,
        {
            let join = joins[k];
            let ghost cur = self.teams();
            proof {
                assert(t0.contains_key(joins@[k as int]));
                assert(joins@.contains(join));
            }
            self.update_team(join, TeamUpdate::RemoveJoiner(player_id));
            proof {
                let next = joins@.take(k + 1);
                assert(next =~= joins@.take(k as int).push(join));
                assert forall|u: TeamId| next.contains(u) <==> (joins@.take(k as int).contains(u) || u == join) by {
                    crate::seq_util::lemma_push_contains(joins@.take(k as int), join, u);
                }
                if joins@.take(k as int).contains(join) {
                    lemma_without_twice(base[join].joiners, player_id);
                }
                assert(self.teams() =~= drop_joiner_from(base, next, player_id));
            }
            k = k + 1;
        }
        proof {
            assert(joins@.take(joins@.len() as int) =~= joins@);
            assert(self.teams() =~= quit_teams(t0, team_id, joins@, player_id));
        }
    }
}

} // verus!
