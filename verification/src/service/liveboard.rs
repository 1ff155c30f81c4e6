//! The live board of an arena: the players' scores, gathered while
//! processing and ranked highest first at each update.
use crate::ids::{PlayerAlias, PlayerId, SceneId, TeamName};
use crate::service::boards::{PlayerLiveboardData, Score};
use vstd::prelude::*;

verus! {

/// A player as the live board shows it.
#[derive(Debug)]
pub struct LiveboardDto {
    pub alias: PlayerAlias,
    pub score: u32,
    pub visitor_id: Option<u64>,
    /// Whether the alias is the player's own nick name.
    pub authentic: bool,
    pub team_name: Option<TeamName>,
}

/// A gathered entry: the player (by scene and id) and how it shows.
pub type LiveboardEntry = ((SceneId, PlayerId), LiveboardDto);

/// How many of the entries score at least `score`.
pub open spec fn count_at_least(t: Seq<LiveboardEntry>, score: u32) -> nat
    decreases t.len(),
{
    if t.len() == 0 {
        0
    } else {
        count_at_least(t.drop_last(), score) + if t.last().1.score >= score {
            1nat
        } else {
            0nat
        }
    }
}

/// Whether the entries are highest score first.
pub open spec fn sorted_desc(t: Seq<LiveboardEntry>) -> bool {
    forall|i: int, j: int| 0 <= i < j < t.len() ==> (#[trigger] t[i]).1.score >= (#[trigger] t[j]).1.score
}

/// `t` with `x` placed after every entry scoring at least as much.
pub open spec fn insert_desc(t: Seq<LiveboardEntry>, x: LiveboardEntry) -> Seq<LiveboardEntry> {
    let k = count_at_least(t, x.1.score) as int;
    t.take(k) + seq![x] + t.skip(k)
}

/// The entries highest score first, equal scores in the order gathered.
pub open spec fn stable_desc(s: Seq<LiveboardEntry>) -> Seq<LiveboardEntry>
    decreases s.len(),
{
    if s.len() == 0 {
        s
    } else {
        insert_desc(stable_desc(s.drop_last()), s.last())
    }
}

/// In sorted entries, those scoring at least `score` come first.
proof fn lemma_split(t: Seq<LiveboardEntry>, score: u32)
    requires
        sorted_desc(t),
    ensures
        count_at_least(t, score) <= t.len(),
        forall|i: int| 0 <= i < count_at_least(t, score) ==> #[trigger] t[i].1.score >= score,
        forall|i: int| count_at_least(t, score) <= i < t.len() ==> #[trigger] t[i].1.score < score,
    decreases t.len(),
{
    if t.len() > 0 {
        let d = t.drop_last();
        assert(sorted_desc(d)) by {
            assert forall|i: int, j: int| 0 <= i < j < d.len() implies (#[trigger] d[i]).1.score >= (#[trigger] d[j]).1.score by {
                assert(d[i] == t[i] && d[j] == t[j]);
            }
        }
        lemma_split(d, score);
        let n = t.len() - 1;
        if t.last().1.score >= score {
            assert forall|i: int| 0 <= i < n implies #[trigger] d[i].1.score >= score by {
                assert(t[i].1.score >= t[n].1.score);
            }
            assert(count_at_least(d, score) == n);
        }
        assert forall|i: int| 0 <= i < count_at_least(t, score) implies #[trigger] t[i].1.score >= score by {
            if i < n {
                assert(d[i] == t[i]);
            }
        }
        assert forall|i: int| count_at_least(t, score) <= i < t.len() implies #[trigger] t[i].1.score < score by {
            if i < n {
                assert(d[i] == t[i]);
            }
        }
    }
}

/// Inserting keeps the entries sorted, and adds exactly the one entry.
proof fn lemma_insert_desc(t: Seq<LiveboardEntry>, x: LiveboardEntry)
    requires
        sorted_desc(t),
    ensures
        sorted_desc(insert_desc(t, x)),
        insert_desc(t, x).to_multiset() == t.to_multiset().insert(x),
        insert_desc(t, x).len() == t.len() + 1,
{
    lemma_split(t, x.1.score);
    let k = count_at_least(t, x.1.score) as int;
    let r = insert_desc(t, x);
    assert forall|i: int| 0 <= i < r.len() implies #[trigger] r[i] == (if i < k {
        t[i]
    } else if i == k {
        x
    } else {
        t[i - 1]
    }) by {}
    assert forall|i: int, j: int| 0 <= i < j < r.len() implies (#[trigger] r[i]).1.score >= (#[trigger] r[j]).1.score by {
        if i < k && j < k {
        } else if i < k && j == k {
        } else if i < k {
            assert(t[i].1.score >= t[j - 1].1.score);
        } else if i == k {
        } else {
            assert(t[i - 1].1.score >= t[j - 1].1.score);
        }
    }
    vstd::seq_lib::lemma_multiset_commutative(t.take(k) + seq![x], t.skip(k));
    vstd::seq_lib::lemma_multiset_commutative(t.take(k), seq![x]);
    vstd::seq_lib::lemma_multiset_commutative(t.take(k), t.skip(k));
    assert(t.take(k) + t.skip(k) =~= t);
    assert(seq![x].to_multiset() =~= vstd::multiset::Multiset::<LiveboardEntry>::empty().insert(x)) by {
        broadcast use vstd::seq_lib::group_to_multiset_ensures;
        assert(seq![x] =~= Seq::<LiveboardEntry>::empty().push(x));
    }
}

/// Ranking sorts the entries highest score first and keeps every entry.
pub proof fn law_ranking_sorts(s: Seq<LiveboardEntry>)
    ensures
        sorted_desc(stable_desc(s)),
        stable_desc(s).to_multiset() == s.to_multiset(),
        stable_desc(s).len() == s.len(),
    decreases s.len(),
{
    if s.len() == 0 {
    } else {
        let d = s.drop_last();
        law_ranking_sorts(d);
        lemma_insert_desc(stable_desc(d), s.last());
        broadcast use vstd::seq_lib::group_to_multiset_ensures;
        assert(d.push(s.last()) =~= s);
    }
}

/// What a player's board data is to be set to: its score and its rank.
pub type RankUpdate = ((SceneId, PlayerId), u32, u16);

/// The board data of the ranked entries: each entry's score, and its
/// position as its rank (held within `u16`).
pub open spec fn ranks_of(sorted: Seq<LiveboardEntry>) -> Seq<RankUpdate> {
    Seq::new(
        sorted.len(),
        |i: int| (sorted[i].0, sorted[i].1.score, if i > u16::MAX { u16::MAX } else { i as u16 }),
    )
}

/// The score a player shows on the board, if it shows: it must be active,
/// a bot only where bots show, and have a score of its own.
pub fn board_score(active: bool, is_bot: bool, bots_shown: bool, score: Score) -> (r: Option<u32>)
    ensures
        r == if active && (bots_shown || !is_bot) {
            match score {
                Score::Scored(s) => Some(s),
                _ => None,
            }
        } else {
            None
        },
{
    if !active {
        return None;
    }
    if !bots_shown && is_bot {
        return None;
    }
    score.some()
}

/// The text of an optional team name (`None` when there is no name).
pub open spec fn name_text(n: Option<TeamName>) -> Option<Seq<char>> {
    match n {
        Some(t) => Some(t@),
        None => None,
    }
}

/// How a player appears on the boards. Where the game represents players by
/// team (`by_team`), a player on a named team shows as the team's name, with
/// no separate team name and never as authentic; otherwise the player shows
/// by alias beside the team name, authentic as given.
pub fn team_representation(
    alias: PlayerAlias,
    team_name: Option<TeamName>,
    authentic_alias: bool,
    by_team: bool,
) -> (r: (PlayerAlias, Option<TeamName>, bool))
    ensures
        r.0@ == (if by_team && team_name is Some { team_name.unwrap()@ } else { alias@ }),
        name_text(r.1) == (if by_team { None } else { name_text(team_name) }),
        r.2 == (authentic_alias && (!by_team || team_name is None)),
{
    let authentic = authentic_alias && (!by_team || team_name.is_none());
    if by_team {
        match team_name {
            Some(n) => (PlayerAlias(n.0), None, authentic),
            None => (alias, None, authentic),
        }
    } else {
        (alias, team_name, authentic)
    }
}

/// What the board reads of a player to tell a player its own score.
#[derive(Debug)]
pub struct ScorePlayer {
    pub player_id: PlayerId,
    pub liveboard: PlayerLiveboardData,
    pub alias: PlayerAlias,
    /// The name of the player's team, as the game knows it.
    pub team_name: Option<TeamName>,
    /// The nick name of the player's client session, if any.
    pub nick_name: Option<String>,
    pub visitor_id: Option<u64>,
}

/// A player's own standing.
#[derive(Debug)]
pub struct YourScoreDto {
    pub ranking: u16,
    pub inner: LiveboardDto,
}

/// A standing as values: ranking, shown alias, shown team name, score,
/// visitor, authentic.
pub type YourScoreView = (u16, Seq<char>, Option<Seq<char>>, u32, Option<u64>, bool);

/// The value of a standing.
pub open spec fn your_score_view(y: YourScoreDto) -> YourScoreView {
    (y.ranking, y.inner.alias@, name_text(y.inner.team_name), y.inner.score, y.inner.visitor_id, y.inner.authentic)
}

/// Whether the list has player `id`.
pub open spec fn lists_player(players: Seq<ScorePlayer>, id: PlayerId) -> bool {
    exists|i: int| 0 <= i < players.len() && #[trigger] players[i].player_id == id
}

/// The position of player `id` in the list.
pub open spec fn player_pos(players: Seq<ScorePlayer>, id: PlayerId) -> int {
    choose|i: int| 0 <= i < players.len() && #[trigger] players[i].player_id == id
}

/// Each player is listed once.
pub open spec fn players_unique(players: Seq<ScorePlayer>) -> bool {
    forall|i: int, j: int| 0 <= i < j < players.len() ==> #[trigger] players[i].player_id != #[trigger] players[j].player_id
}

/// The standing player `p` (listed in `players`) is told: that of the player
/// whose score it shows (itself, or the one its score is a proxy for, if
/// listed), when that player has a score and a rank; shown by
/// `team_representation`, and authentic when that player's nick name is
/// `p`'s alias.
pub open spec fn your_score(players: Seq<ScorePlayer>, p: ScorePlayer, by_team: bool) -> Option<YourScoreView> {
    let shown: Option<ScorePlayer> = match p.liveboard.score {
        Score::Unscored => None,
        Score::Proxy(q) => if lists_player(players, q) {
            Some(players[player_pos(players, q)])
        } else {
            None
        },
        Score::Scored(_) => Some(p),
    };
    match shown {
        Some(sp) => match (sp.liveboard.score, sp.liveboard.rank) {
            (Score::Scored(score), Some(ranking)) => {
                let authentic = match sp.nick_name {
                    Some(n) => n@ == p.alias@,
                    None => false,
                };
                Some(
                    (
                        ranking,
                        if by_team && sp.team_name is Some {
                            sp.team_name.unwrap()@
                        } else {
                            sp.alias@
                        },
                        if by_team {
                            None
                        } else {
                            name_text(sp.team_name)
                        },
                        score,
                        sp.visitor_id,
                        authentic && (!by_team || sp.team_name is None),
                    ),
                )
            },
            _ => None,
        },
        None => None,
    }
}

/// The position of player `id` in the list, if listed.
fn find_player(players: &Vec<ScorePlayer>, id: PlayerId) -> (r: Option<usize>)
    requires
        players_unique(players@),
    ensures
        r is None <==> !lists_player(players@, id),
        r matches Some(i) ==> i == player_pos(players@, id) && i < players@.len(),
{
    let mut i: usize = 0;
    while i < players.len()
        invariant
            i <= players@.len(),
            players_unique(players@),
            forall|j: int| 0 <= j < i ==> #[trigger] players@[j].player_id != id,
        decreases players@.len() - i,
    {
        if players[i].player_id == id {
            proof {
                let k = player_pos(players@, id);
                assert(players@[i as int].player_id == id);
                if k < i {
                    assert(players@[k].player_id != players@[i as int].player_id);
                } else if k > i {
                    assert(players@[i as int].player_id != players@[k].player_id);
                }
            }
            return Some(i);
        }
        i = i + 1;
    }
    None
}

fn copy_name(n: &Option<TeamName>) -> (r: Option<TeamName>)
    ensures
        name_text(r) == name_text(*n),
{
    match n {
        Some(t) => Some(t.duplicate()),
        None => None,
    }
}

fn same_text(a: &String, b: &String) -> (r: bool)
    ensures
        r == (a@ == b@),
{
    *a == *b
}

/// The live board of an arena.
pub struct LiveboardRepo {
    pending_player_count: u32,
    player_count: u32,
    pending: Vec<LiveboardEntry>,
    processing: bool,
    liveboard: Vec<LiveboardDto>,
    dirty: bool,
}

/// The mathematical value of a `LiveboardRepo`.
pub struct LiveboardView {
    /// Real players counted since the last update.
    pub pending_player_count: u32,
    /// Real players at the last update.
    pub player_count: u32,
    /// Entries gathered since the last update, in order.
    pub pending: Seq<LiveboardEntry>,
    /// Whether entries are being gathered.
    pub processing: bool,
    /// The leaders at the last update.
    pub liveboard: Seq<LiveboardDto>,
    /// Whether the last update changed the board.
    pub dirty: bool,
}

impl View for LiveboardRepo {
    type V = LiveboardView;

    closed spec fn view(&self) -> LiveboardView {
        LiveboardView {
            pending_player_count: self.pending_player_count,
            player_count: self.player_count,
            pending: self.pending@,
            processing: self.processing,
            liveboard: self.liveboard@,
            dirty: self.dirty,
        }
    }
}

impl Default for LiveboardRepo {
    fn default() -> (r: Self)
        ensures
            r@.pending_player_count == 0,
            r@.player_count == 0,
            r@.pending.len() == 0,
            !r@.processing,
            r@.liveboard.len() == 0,
            !r@.dirty,
    {
        LiveboardRepo {
            pending_player_count: 0,
            player_count: 0,
            pending: Vec::new(),
            processing: false,
            liveboard: Vec::new(),
            dirty: false,
        }
    }
}

impl LiveboardRepo {
    /// The leaders at the last update.
    pub fn get(&self) -> (r: &Vec<LiveboardDto>)
        ensures
            r@ == self@.liveboard,
    {
        &self.liveboard
    }

    /// Real players at the last update.
    pub fn player_count(&self) -> (r: u32)
        ensures
            r == self@.player_count,
    {
        self.player_count
    }

    /// Whether the last update changed the board.
    pub fn dirty(&self) -> (r: bool)
        ensures
            r == self@.dirty,
    {
        self.dirty
    }

    /// When the board changed at its last update, the standing to tell player
    /// `player_id` (see `your_score`; `None` inside when it has none);
    /// `None` when the board did not change.
    pub fn your_score_nondestructive(&self, player_id: PlayerId, players: &Vec<ScorePlayer>, by_team: bool) -> (r: Option<
        Option<YourScoreDto>,
    >)
        requires
            players_unique(players@),
            lists_player(players@, player_id),
        ensures
            r is None <==> !self@.dirty,
            r matches Some(y) ==> match y {
                Some(d) => your_score(players@, players@[player_pos(players@, player_id)], by_team) == Some(
                    your_score_view(d),
                ),
                None => your_score(players@, players@[player_pos(players@, player_id)], by_team) is None,
            },
    {
        if !self.dirty {
            return None;
        }
        let i = find_player(players, player_id).unwrap();
        let p = &players[i];
        let shown: Option<&ScorePlayer> = match p.liveboard.score {
            Score::Unscored => None,
            Score::Proxy(q) => match find_player(players, q) {
                Some(k) => Some(&players[k]),
                None => None,
            },
            Score::Scored(_) => Some(p),
        };
        let result = match shown {
            Some(sp) => match (sp.liveboard.score, sp.liveboard.rank) {
                (Score::Scored(score), Some(ranking)) => {
                    let authentic = match &sp.nick_name {
                        Some(n) => same_text(n, &p.alias.0),
                        None => false,
                    };
                    let (alias, team_name, authentic) = team_representation(
                        sp.alias.duplicate(),
                        copy_name(&sp.team_name),
                        authentic,
                        by_team,
                    );
                    Some(
                        YourScoreDto {
                            ranking,
                            inner: LiveboardDto { alias, score, visitor_id: sp.visitor_id, authentic, team_name },
                        },
                    )
                },
                _ => None,
            },
            None => None,
        };
        Some(result)
    }

    /// Gathers the entries of one scene (and counts its real players) while
    /// processing; does nothing otherwise.
    pub fn process(&mut self, real_players_live: u32, entries: Vec<LiveboardEntry>)
        requires
            old(self)@.processing ==> old(self)@.pending_player_count + real_players_live <= u32::MAX,
        ensures
            final(self)@.processing == old(self)@.processing,
            final(self)@.dirty == old(self)@.dirty,
            final(self)@.player_count == old(self)@.player_count,
            final(self)@.liveboard == old(self)@.liveboard,
            old(self)@.processing ==> final(self)@.pending == old(self)@.pending + entries@
                && final(self)@.pending_player_count == old(self)@.pending_player_count + real_players_live,
            !old(self)@.processing ==> final(self)@.pending == old(self)@.pending
                && final(self)@.pending_player_count == old(self)@.pending_player_count,
    {
        if !self.processing {
            return;
        }
        self.pending_player_count = self.pending_player_count + real_players_live;
        let mut entries = entries;
        self.pending.append(&mut entries);
    }

    /// Recomputes the board when the entries gathered since the last update
    /// were complete: they are ranked highest score first (equal scores in
    /// the order gathered), the first `leaderboard_size` become the board,
    /// and each player's score and rank are returned. Gathering goes on
    /// unless the caller's rate limit holds.
    pub fn update(&mut self, rate_limited: bool, leaderboard_size: usize) -> (r: Vec<RankUpdate>)
        ensures
            final(self)@.dirty == old(self)@.processing,
            final(self)@.processing == !rate_limited,
            old(self)@.processing ==> {
                let sorted = stable_desc(old(self)@.pending);
                &&& r@ == ranks_of(sorted)
                &&& final(self)@.liveboard == sorted.take(
                    if leaderboard_size < sorted.len() {
                        leaderboard_size as int
                    } else {
                        sorted.len() as int
                    },
                ).map_values(|e: LiveboardEntry| e.1)
                &&& final(self)@.player_count == old(self)@.pending_player_count
                &&& final(self)@.pending_player_count == 0
                &&& final(self)@.pending.len() == 0
            },
            !old(self)@.processing ==> {
                &&& r@.len() == 0
                &&& final(self)@.liveboard == old(self)@.liveboard
                &&& final(self)@.player_count == old(self)@.player_count
                &&& final(self)@.pending_player_count == old(self)@.pending_player_count
                &&& final(self)@.pending == old(self)@.pending
            },
    {
        self.dirty = self.processing;
        self.processing = !rate_limited;
        if !self.dirty {
            return Vec::new();
        }
        let ghost s0 = self.pending@;
        let mut rest: Vec<LiveboardEntry> = Vec::new();
        std::mem::swap(&mut rest, &mut self.pending);
        let sorted = sort_entries(rest);
        let ghost sv = sorted@;
        let mut ranks: Vec<RankUpdate> = Vec::new();
        let mut i: usize = 0;
        while i < sorted.len()
            invariant
                i <= sorted@.len(),
                sorted@ == sv,
                ranks@ == ranks_of(sv).take(i as int),
            decreases sorted@.len() - i,
        {
            let rank: u16 = if i > u16::MAX as usize {
                u16::MAX
            } else {
                i as u16
            };
            ranks.push((sorted[i].0, sorted[i].1.score, rank));
            i = i + 1;
            proof {
                assert(ranks@ =~= ranks_of(sv).take(i as int));
            }
        }
        let n = if leaderboard_size < sorted.len() {
            leaderboard_size
        } else {
            sorted.len()
        };
        let mut board: Vec<LiveboardDto> = Vec::new();
        let mut rest = sorted;
        let mut k: usize = 0;
        while k < n
            invariant
                n <= sv.len(),
                k <= n,
                rest@ == sv.skip(k as int),
                board@ == sv.take(k as int).map_values(|e: LiveboardEntry| e.1),
            decreases n - k,
        {
            let (_, dto) = rest.remove(0);
            board.push(dto);
            k = k + 1;
            proof {
                assert(board@ =~= sv.take(k as int).map_values(|e: LiveboardEntry| e.1));
                assert(rest@ =~= sv.skip(k as int));
            }
        }
        self.liveboard = board;
        self.player_count = self.pending_player_count;
        self.pending_player_count = 0;
        proof {
            assert(ranks@ =~= ranks_of(sv));
        }
        ranks
    }
}

/// The entries ranked highest score first, equal scores in their order.
fn sort_entries(entries: Vec<LiveboardEntry>) -> (r: Vec<LiveboardEntry>)
    ensures
        r@ == stable_desc(entries@),
{
    let ghost s0 = entries@;
    let mut rest = entries;
    let mut out: Vec<LiveboardEntry> = Vec::new();
    let mut k: usize = 0;
    let n = rest.len();
    proof {
        assert(s0.take(0) =~= Seq::<LiveboardEntry>::empty());
    }
    while k < n
        invariant
            n == s0.len(),
            k <= n,
            rest@ == s0.skip(k as int),
            out@ == stable_desc(s0.take(k as int)),
        decreases n - k,
    {
        let x = rest.remove(0);
        proof {
            assert(x == s0[k as int]);
            assert(s0.take(k + 1).drop_last() =~= s0.take(k as int));
            assert(s0.take(k + 1).last() == x);
            law_ranking_sorts(s0.take(k as int));
            lemma_split(out@, x.1.score);
        }
        let mut p: usize = 0;
        while p < out.len() && out[p].1.score >= x.1.score
            invariant
                p <= out@.len(),
                forall|i: int| 0 <= i < p ==> #[trigger] out@[i].1.score >= x.1.score,
            decreases out@.len() - p,
        {
            p = p + 1;
        }
        proof {
            let c = count_at_least(out@, x.1.score) as int;
            if p < c {
                assert(out@[p as int].1.score >= x.1.score);
            }
            if c < p {
                assert(out@[c].1.score >= x.1.score);
            }
            assert(p == c);
        }
        let ghost before = out@;
        out.insert(p, x);
        proof {
            assert(out@ =~= insert_desc(before, x));
            assert(rest@ =~= s0.skip(k + 1));
        }
        k = k + 1;
    }
    proof {
        assert(s0.take(n as int) =~= s0);
    }
    out
}

} // verus!
