//! An in-memory store of players and teams that runs the team protocol
//! without a game world: manifestations stay where they are.
use super::color::TeamColor;
use super::joined_status::{
    apply_update, update_applies, JoinUpdate, JoinedStatus, PlayerStatus, StatusView,
};
use super::model::PlayerTeamModel;
use super::protocol::Players;
use super::team::{
    apply_team_update, team_update_applies, Manifestation, MemberId, Team, TeamUpdate, TeamView,
};
use crate::ids::{PlayerId, TeamId};
use crate::seq_util::{
    assoc, has_entry, lemma_assoc_at, lemma_assoc_push, lemma_assoc_remove, lemma_assoc_set, unique_keys,
};
use vstd::prelude::*;

verus! {

/// Players and teams kept in vectors; new teams get increasing ids and the
/// default color.
pub struct TeamRoster<M> {
    players: Vec<(PlayerId, PlayerStatus)>,
    teams: Vec<(TeamId, Team<TeamColor, M>)>,
    next_team_id: u32,
    /// Where each player's manifestation was last placed.
    placed: Ghost<Map<PlayerId, TeamId>>,
}

impl<M> TeamRoster<M> {
    #[verifier::type_invariant]
    spec fn well_formed(&self) -> bool {
        &&& unique_keys(self.players@)
        &&& unique_keys(self.teams@)
        &&& forall|i: int| 0 <= i < self.teams@.len() ==> (#[trigger] self.teams@[i]).0.0 < self.next_team_id
    }

    /// The players and their statuses.
    pub closed spec fn player_map(&self) -> Players {
        assoc(self.players@, |s: PlayerStatus| s@)
    }

    /// The teams.
    pub closed spec fn team_map(&self) -> Map<TeamId, TeamView<TeamColor, M>> {
        assoc(self.teams@, |t: Team<TeamColor, M>| t@)
    }

    /// Where each player's manifestation was last placed.
    pub closed spec fn placement_map(&self) -> Map<PlayerId, TeamId> {
        self.placed@
    }

    /// An empty roster.
    pub fn new() -> (r: Self)
        ensures
            r.player_map() == Map::<PlayerId, StatusView>::empty(),
            r.team_map() == Map::<TeamId, TeamView<TeamColor, M>>::empty(),
            r.placement_map() == Map::<PlayerId, TeamId>::empty(),
    {
        let r = TeamRoster {
            players: Vec::new(),
            teams: Vec::new(),
            next_team_id: 0,
            placed: Ghost(Map::empty()),
        };
        assert(r.player_map() =~= Map::<PlayerId, StatusView>::empty());
        assert(r.team_map() =~= Map::<TeamId, TeamView<TeamColor, M>>::empty());
        r
    }

    fn player_position(&self, player_id: PlayerId) -> (r: Option<usize>)
        ensures
            r is Some <==> has_entry(self.players@, player_id),
            r matches Some(i) ==> i < self.players@.len() && self.players@[i as int].0 == player_id,
    {
        let mut i: usize = 0;
        while i < self.players.len()
            invariant
                i <= self.players@.len(),
                forall|j: int| 0 <= j < i ==> #[trigger] self.players@[j].0 != player_id,
            decreases self.players@.len() - i,
        {
            if self.players[i].0 == player_id {
                return Some(i);
            }
            i = i + 1;
        }
        None
    }

    fn team_position(&self, team_id: TeamId) -> (r: Option<usize>)
        ensures
            r is Some <==> has_entry(self.teams@, team_id),
            r matches Some(i) ==> i < self.teams@.len() && self.teams@[i as int].0 == team_id,
    {
        let mut i: usize = 0;
        while i < self.teams.len()
            invariant
                i <= self.teams@.len(),
                forall|j: int| 0 <= j < i ==> #[trigger] self.teams@[j].0 != team_id,
            decreases self.teams@.len() - i,
        {
            if self.teams[i].0 == team_id {
                return Some(i);
            }
            i = i + 1;
        }
        None
    }

    /// Adds a spawning player, unless it is already present. Returns whether
    /// it was added.
    pub fn add_player(&mut self, player_id: PlayerId) -> (added: bool)
        ensures
            added == !old(self).player_map().contains_key(player_id),
            added ==> final(self).player_map() == old(self).player_map().insert(player_id, StatusView::Spawning),
            !added ==> final(self).player_map() == old(self).player_map(),
            final(self).team_map() == old(self).team_map(),
            final(self).placement_map() == old(self).placement_map(),
    {
        proof {
            use_type_invariant(&*self);
        }
        if self.player_position(player_id).is_some() {
            return false;
        }
        let mut players = Vec::new();
        std::mem::swap(&mut players, &mut self.players);
        let ghost before = players@;
        players.push((player_id, PlayerStatus::Spawning));
        proof {
            lemma_assoc_push(before, |s: PlayerStatus| s@, player_id, PlayerStatus::Spawning);
        }
        self.players = players;
        true
    }
}

impl<M: Manifestation + Clone> PlayerTeamModel for TeamRoster<M> {
    type TeamData = TeamColor;
    type Manifestation = M;

    closed spec fn players(&self) -> Players {
        self.player_map()
    }

    closed spec fn teams(&self) -> Map<TeamId, TeamView<TeamColor, M>> {
        self.team_map()
    }

    closed spec fn placements(&self) -> Map<PlayerId, TeamId> {
        self.placement_map()
    }

    closed spec fn has_room_for_team(&self) -> bool {
        self.next_team_id < u32::MAX
    }

    fn swap_manifestation(
        &mut self,
        member_id: MemberId,
        manifestation: &mut M,
        new_team_id: TeamId,
        new_team_data: &TeamColor,
    ) {
        proof {
            use_type_invariant(&*self);
        }
        self.placed = Ghost(self.placed@.insert(member_id.player_id, new_team_id));
    }

    fn delete_manifestation(&mut self, member_id: MemberId, manifestation: &M) {
        proof {
            use_type_invariant(&*self);
        }
        self.placed = Ghost(self.placed@.remove(member_id.player_id));
    }

    fn has_player(&self, player_id: PlayerId) -> (r: bool) {
        self.player_position(player_id).is_some()
    }

    fn get_player_status(&self, player_id: PlayerId) -> (r: PlayerStatus) {
        proof {
            use_type_invariant(self);
        }
        let i = self.player_position(player_id).unwrap();
        proof {
            lemma_assoc_at(self.players@, |s: PlayerStatus| s@, i as int);
        }
        self.players[i].1.duplicate()
    }

    fn update_player(&mut self, player_id: PlayerId, update: JoinUpdate) {
        proof {
            use_type_invariant(&*self);
        }
        let i = self.player_position(player_id).unwrap();
        proof {
            lemma_assoc_at(self.players@, |s: PlayerStatus| s@, i as int);
        }
        let mut status = self.players[i].1.duplicate();
        status.player_update(&update);
        let mut players = Vec::new();
        std::mem::swap(&mut players, &mut self.players);
        let ghost before = players@;
        let ghost new_status = status;
        players.set(i, (player_id, status));
        proof {
            lemma_assoc_set(before, |s: PlayerStatus| s@, i as int, new_status);
            assert(players@ == before.update(i as int, (before[i as int].0, new_status)));
        }
        self.players = players;
    }

    fn create_team(&mut self) -> (team_id: TeamId) {
        proof {
            use_type_invariant(&*self);
        }
        let team_id = TeamId(self.next_team_id);
        let team = Team::<TeamColor, M>::new(TeamColor::default());
        let mut teams = Vec::new();
        std::mem::swap(&mut teams, &mut self.teams);
        let ghost before = teams@;
        let ghost new_team = team;
        proof {
            assert(!has_entry(before, team_id)) by {
                if has_entry(before, team_id) {
                    let i = choose|i: int| 0 <= i < before.len() && #[trigger] before[i].0 == team_id;
                    assert(before[i].0.0 < self.next_team_id);
                }
            }
            lemma_assoc_push(before, |t: Team<TeamColor, M>| t@, team_id, new_team);
        }
        teams.push((team_id, team));
        self.next_team_id = self.next_team_id + 1;
        self.teams = teams;
        proof {
            assert(self.team_map()[team_id] == new_team@);
        }
        team_id
    }

    fn has_team(&self, team_id: TeamId) -> (r: bool) {
        self.team_position(team_id).is_some()
    }

    fn get_team(&self, team_id: TeamId) -> (r: &Team<TeamColor, M>) {
        proof {
            use_type_invariant(self);
        }
        let i = self.team_position(team_id).unwrap();
        proof {
            lemma_assoc_at(self.teams@, |t: Team<TeamColor, M>| t@, i as int);
        }
        &self.teams[i].1
    }

    fn update_team(&mut self, team_id: TeamId, update: TeamUpdate<M>) {
        proof {
            use_type_invariant(&*self);
        }
        let i = self.team_position(team_id).unwrap();
        proof {
            lemma_assoc_at(self.teams@, |t: Team<TeamColor, M>| t@, i as int);
        }
        let mut teams = Vec::new();
        std::mem::swap(&mut teams, &mut self.teams);
        let ghost before = teams@;
        let (id, mut team) = teams.remove(i);
        team.update(update);
        let ghost new_team = team;
        teams.insert(i, (id, team));
        proof {
            assert(teams@ =~= before.update(i as int, (before[i as int].0, new_team)));
            lemma_assoc_set(before, |t: Team<TeamColor, M>| t@, i as int, new_team);
            assert forall|k: int| 0 <= k < teams@.len() implies (#[trigger] teams@[k]).0.0 < self.next_team_id by {
                assert(teams@[k].0 == before[k].0);
            }
        }
        self.teams = teams;
    }

    fn delete_team(&mut self, team_id: TeamId) {
        proof {
            use_type_invariant(&*self);
        }
        let i = self.team_position(team_id).unwrap();
        let mut teams = Vec::new();
        std::mem::swap(&mut teams, &mut self.teams);
        let ghost before = teams@;
        let _ = teams.remove(i);
        proof {
            lemma_assoc_remove(before, |t: Team<TeamColor, M>| t@, i as int);
            assert forall|k: int| 0 <= k < teams@.len() implies (#[trigger] teams@[k]).0.0 < self.next_team_id by {
                let j = if k < i { k } else { k + 1 };
                assert(teams@[k] == before[j]);
            }
        }
        self.teams = teams;
    }
}

} // verus!
