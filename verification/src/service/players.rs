//! The players of an arena as the arena sees them: whether each is alive or
//! out of the game, and the list of players sent to clients with the counts
//! of real players.
use crate::ids::{PlayerAlias, PlayerId, TeamId};
use vstd::prelude::*;

verus! {

/// How long a player must have been dead to count as out of the game.
pub const OUT_OF_GAME_MILLIS: u64 = 30_000;

/// When a player was last seen alive.
#[derive(Clone, Copy, Debug)]
pub struct Liveness {
    /// Alive at the last update.
    pub was_alive: bool,
    /// Alive at some update since joining.
    pub was_ever_alive: bool,
    /// When `was_alive` last changed, in milliseconds.
    pub was_alive_timestamp: u64,
}

/// How long the player has been dead at `now` (`None` while alive).
pub open spec fn dead_for(l: Liveness, now: u64) -> Option<int> {
    if l.was_alive {
        None
    } else if now >= l.was_alive_timestamp {
        Some(now - l.was_alive_timestamp)
    } else {
        Some(0)
    }
}

/// Never played yet, or stopped playing over half a minute ago.
pub open spec fn out_of_game(l: Liveness, now: u64) -> bool {
    !l.was_ever_alive || match dead_for(l, now) {
        Some(d) => d > OUT_OF_GAME_MILLIS,
        None => false,
    }
}

impl Liveness {
    /// How long the player has been dead at `now`, in milliseconds (`None`
    /// while alive); a timestamp after `now` counts as no time at all.
    pub fn not_alive_duration(&self, now: u64) -> (r: Option<u64>)
        ensures
            r matches Some(d) ==> dead_for(*self, now) == Some(d as int),
            r is None <==> dead_for(*self, now) is None,
    {
        if self.was_alive {
            None
        } else {
            Some(now.saturating_sub(self.was_alive_timestamp))
        }
    }

    /// Records whether the player is alive at `now`: when that changed,
    /// the player has now been alive at some point, the change is stamped
    /// `now`, and play started (`Some(true)`) or stopped (`Some(false)`).
    pub fn record(&mut self, is_alive: bool, now: u64) -> (r: Option<bool>)
        ensures
            is_alive == old(self).was_alive ==> *final(self) == *old(self) && r is None,
            is_alive != old(self).was_alive ==> *final(self) == (Liveness {
                was_alive: is_alive,
                was_ever_alive: true,
                was_alive_timestamp: now,
            }) && r == Some(is_alive),
    {
        if is_alive == self.was_alive {
            return None;
        }
        self.was_alive = is_alive;
        self.was_ever_alive = true;
        self.was_alive_timestamp = now;
        Some(is_alive)
    }

    /// Whether the player never played yet or stopped playing over half a
    /// minute ago.
    pub fn is_out_of_game(&self, now: u64) -> (r: bool)
        ensures
            r == out_of_game(*self, now),
    {
        let dead = match self.not_alive_duration(now) {
            Some(d) => d,
            None => 0,
        };
        !self.was_ever_alive || dead > OUT_OF_GAME_MILLIS
    }
}

/// What a client's session says of its player.
#[derive(Clone, Copy, Debug)]
pub struct ClientFacts {
    /// The alias is the client's own nick name.
    pub authentic: bool,
    pub admin: bool,
    pub moderator: bool,
}

/// What the arena reads of a player to list it.
#[derive(Debug)]
pub struct PlayerSummary {
    pub player_id: PlayerId,
    pub alias: PlayerAlias,
    pub team_id: Option<TeamId>,
    pub is_bot: bool,
    /// In the game: joined and not yet left.
    pub active: bool,
    pub liveness: Liveness,
    /// `None` for bots.
    pub client: Option<ClientFacts>,
}

/// A player as clients see it in the player list.
#[derive(Debug)]
pub struct PlayerDto {
    pub alias: PlayerAlias,
    pub admin: bool,
    pub moderator: bool,
    pub player_id: PlayerId,
    pub team_id: Option<TeamId>,
    pub authentic: bool,
}

/// The mathematical value of a `PlayerDto`: id, alias, team, authentic,
/// admin, moderator.
pub type PlayerDtoView = (PlayerId, Seq<char>, Option<TeamId>, bool, bool, bool);

impl View for PlayerDto {
    type V = PlayerDtoView;

    open spec fn view(&self) -> PlayerDtoView {
        (self.player_id, self.alias@, self.team_id, self.authentic, self.admin, self.moderator)
    }
}

/// How a listed player appears: a client's session flags, all false for
/// bots.
pub open spec fn dto_of(p: PlayerSummary) -> PlayerDtoView {
    match p.client {
        Some(c) => (p.player_id, p.alias@, p.team_id, c.authentic, c.admin, c.moderator),
        None => (p.player_id, p.alias@, p.team_id, false, false, false),
    }
}

/// The listed players: those in the game, in order.
pub open spec fn listed(s: Seq<PlayerSummary>) -> Seq<PlayerDtoView>
    decreases s.len(),
{
    if s.len() == 0 {
        Seq::empty()
    } else if s.last().active {
        listed(s.drop_last()).push(dto_of(s.last()))
    } else {
        listed(s.drop_last())
    }
}

/// The number of real (not bot) players.
pub open spec fn real_count(s: Seq<PlayerSummary>) -> nat
    decreases s.len(),
{
    if s.len() == 0 {
        0
    } else {
        real_count(s.drop_last()) + if s.last().is_bot {
            0nat
        } else {
            1nat
        }
    }
}

/// The number of real players in the game and not out of it at `now`.
pub open spec fn live_count(s: Seq<PlayerSummary>, now: u64) -> nat
    decreases s.len(),
{
    if s.len() == 0 {
        0
    } else {
        live_count(s.drop_last(), now) + if s.last().active && !s.last().is_bot && !out_of_game(
            s.last().liveness,
            now,
        ) {
            1nat
        } else {
            0nat
        }
    }
}

proof fn lemma_counts_bounded(s: Seq<PlayerSummary>, now: u64)
    ensures
        real_count(s) <= s.len(),
        live_count(s, now) <= s.len(),
    decreases s.len(),
{
    if s.len() > 0 {
        lemma_counts_bounded(s.drop_last(), now);
    }
}

/// The player list sent to clients (the players in the game, in order, each
/// shown by its client's session, a bot with every flag false), the number
/// of real players, and the number of real players in the game and not out
/// of it at `now`.
pub fn compute(players: &Vec<PlayerSummary>, now: u64) -> (r: (Vec<PlayerDto>, u16, u16))
    requires
        players@.len() <= u16::MAX,
    ensures
        r.0@.map_values(|d: PlayerDto| d@) == listed(players@),
        r.1 == real_count(players@),
        r.2 == live_count(players@, now),
{
    let mut dtos: Vec<PlayerDto> = Vec::new();
    let mut real_players: u16 = 0;
    let mut real_players_live: u16 = 0;
    let mut i: usize = 0;
    while i < players.len()
        invariant
            i <= players@.len(),
            players@.len() <= u16::MAX,
            dtos@.map_values(|d: PlayerDto| d@) == listed(players@.subrange(0, i as int)),
            real_players == real_count(players@.subrange(0, i as int)),
            real_players_live == live_count(players@.subrange(0, i as int), now),
        decreases players@.len() - i,
    {
        let ghost before = players@.subrange(0, i as int);
        let ghost after = players@.subrange(0, i + 1);
        proof {
            assert(after.drop_last() =~= before);
            lemma_counts_bounded(after, now);
        }
        let p = &players[i];
        if !p.is_bot {
            real_players = real_players + 1;
        }
        if p.active {
            if !p.is_bot && !p.liveness.is_out_of_game(now) {
                real_players_live = real_players_live + 1;
            }
            let (authentic, admin, moderator) = match p.client {
                Some(c) => (c.authentic, c.admin, c.moderator),
                None => (false, false, false),
            };
            let dto = PlayerDto {
                alias: p.alias.duplicate(),
                admin,
                moderator,
                player_id: p.player_id,
                team_id: p.team_id,
                authentic,
            };
            let ghost prev = dtos@;
            dtos.push(dto);
            proof {
                assert(dtos@.map_values(|d: PlayerDto| d@) =~= prev.map_values(|d: PlayerDto| d@).push(
                    dto_of(players@[i as int]),
                ));
            }
        }
        i = i + 1;
    }
    proof {
        assert(players@.subrange(0, players@.len() as int) =~= players@);
    }
    (dtos, real_players, real_players_live)
}

/// A player that dies (a death recorded at `t`, after it had been alive) is
/// in the game for half a minute more, and out of it afterwards.
pub proof fn law_out_of_game_half_a_minute_after_death(t: u64, later: u64)
    requires
        t <= later,
    ensures
        out_of_game(Liveness { was_alive: false, was_ever_alive: true, was_alive_timestamp: t }, later) <==> later - t
            > OUT_OF_GAME_MILLIS,
{
}

} // verus!
