//! Scores on the live board of an arena and the persistent leaderboards.
use crate::ids::{PlayerAlias, PlayerId};
use crate::seq_util::{assoc, has_entry, lemma_assoc_at, lemma_assoc_push, lemma_assoc_set, unique_keys};
use vstd::prelude::*;

verus! {

/// A player's score on the live board: none, the score of another player
/// standing for them, or their own.
#[derive(Copy, Clone, Debug, PartialEq, Eq, Structural)]
pub enum Score {
    Unscored,
    Proxy(PlayerId),
    Scored(u32),
}

impl Default for Score {
    fn default() -> (r: Self)
        ensures
            r == Score::Unscored,
    {
        Score::Unscored
    }
}

impl Score {
    /// The player's own score, if any.
    pub fn some(self) -> (r: Option<u32>)
        ensures
            r == match self {
                Score::Scored(s) => Some(s),
                _ => None,
            },
    {
        if let Score::Scored(some) = self {
            Some(some)
        } else {
            None
        }
    }
}

/// A player's standing from the last live board computation.
#[derive(Debug)]
pub struct PlayerLiveboardData {
    pub score: Score,
    pub rank: Option<u16>,
}

impl Default for PlayerLiveboardData {
    fn default() -> (r: Self)
        ensures
            r.score == Score::Unscored,
            r.rank is None,
    {
        PlayerLiveboardData { score: Score::Unscored, rank: None }
    }
}

/// A player's best score so far.
#[derive(Debug)]
pub struct PlayerLeaderboardData {
    pub high_score: u32,
}

impl Default for PlayerLeaderboardData {
    fn default() -> (r: Self)
        ensures
            r.high_score == 0,
    {
        PlayerLeaderboardData { high_score: 0 }
    }
}

impl PlayerLeaderboardData {
    /// Raises the high score to the player's own score, if higher.
    pub fn update_score(&mut self, score: Score)
        ensures
            final(self).high_score == match score {
                Score::Scored(s) => if s > old(self).high_score {
                    s
                } else {
                    old(self).high_score
                },
                _ => old(self).high_score,
            },
    {
        if let Score::Scored(score) = score {
            if score > self.high_score {
                self.high_score = score;
            }
        }
    }
}

/// A score on a leaderboard.
#[derive(Debug)]
pub struct LeaderboardScoreDto {
    pub alias: PlayerAlias,
    pub score: u32,
}

impl View for LeaderboardScoreDto {
    type V = (Seq<char>, u32);

    open spec fn view(&self) -> (Seq<char>, u32) {
        (self.alias@, self.score)
    }
}

/// The period a leaderboard covers.
#[derive(Copy, Clone, Debug, PartialEq, Eq, Structural)]
pub enum PeriodId {
    AllTime,
    Daily,
    Weekly,
}

/// The position of a period's leaderboard.
pub open spec fn period_index(p: PeriodId) -> int {
    match p {
        PeriodId::AllTime => 0,
        PeriodId::Daily => 1,
        PeriodId::Weekly => 2,
    }
}

/// The view of a list of scores.
pub open spec fn scores_view(v: Seq<LeaderboardScoreDto>) -> Seq<(Seq<char>, u32)> {
    v.map_values(|d: LeaderboardScoreDto| d@)
}

/// The least score that earns a place on a leaderboard of `size` places:
/// that of the last place when it is taken, else 1.
pub open spec fn minimum_score_of(board: Seq<(Seq<char>, u32)>, size: int) -> u32 {
    if size - 1 < board.len() {
        board[size - 1].1
    } else {
        1
    }
}

/// The pending high scores after counting `items` in order: each raises
/// its alias's pending score (from 0) to at least itself.
pub open spec fn merge_scores(pending: Map<Seq<char>, u32>, items: Seq<(Seq<char>, u32)>) -> Map<Seq<char>, u32>
    decreases items.len(),
{
    if items.len() == 0 {
        pending
    } else {
        let m = merge_scores(pending, items.drop_last());
        let (alias, score) = items.last();
        let prev: u32 = if m.contains_key(alias) {
            m[alias]
        } else {
            0
        };
        m.insert(alias, if score > prev { score } else { prev })
    }
}

/// After counting, every counted alias has a pending score at least as high
/// as each of its counted scores, and no pending score went down.
pub proof fn law_pending_covers(pending: Map<Seq<char>, u32>, items: Seq<(Seq<char>, u32)>)
    ensures
        forall|i: int|
            0 <= i < items.len() ==> merge_scores(pending, items).contains_key(#[trigger] items[i].0)
                && merge_scores(pending, items)[items[i].0] >= items[i].1,
        forall|a: Seq<char>|
            #[trigger] pending.contains_key(a) ==> merge_scores(pending, items).contains_key(a)
                && merge_scores(pending, items)[a] >= pending[a],
    decreases items.len(),
{
    if items.len() > 0 {
        let d = items.drop_last();
        law_pending_covers(pending, d);
        assert forall|i: int| 0 <= i < items.len() implies merge_scores(pending, items).contains_key(
            #[trigger] items[i].0,
        ) && merge_scores(pending, items)[items[i].0] >= items[i].1 by {
            if i < d.len() {
                assert(d[i] == items[i]);
            }
        }
    }
}

/// Cached leaderboards (each with whether it changed) and high scores
/// waiting to be saved.
pub struct LeaderboardRepo {
    all_time: (Vec<LeaderboardScoreDto>, bool),
    daily: (Vec<LeaderboardScoreDto>, bool),
    weekly: (Vec<LeaderboardScoreDto>, bool),
    pending: Vec<(PlayerAlias, u32)>,
    leaderboard_size: usize,
}

/// The mathematical value of a `LeaderboardRepo`.
pub struct LeaderboardView {
    /// The leaderboard of each period (by `period_index`), with its flag.
    pub boards: Seq<(Seq<(Seq<char>, u32)>, bool)>,
    /// Pending high score by alias.
    pub pending: Map<Seq<char>, u32>,
    /// Places on a leaderboard.
    pub size: usize,
}

impl View for LeaderboardRepo {
    type V = LeaderboardView;

    closed spec fn view(&self) -> LeaderboardView {
        LeaderboardView {
            boards: seq![
                (scores_view(self.all_time.0@), self.all_time.1),
                (scores_view(self.daily.0@), self.daily.1),
                (scores_view(self.weekly.0@), self.weekly.1),
            ],
            pending: assoc(self.pending@.map_values(|e: (PlayerAlias, u32)| (e.0@, e.1)), |s: u32| s),
            size: self.leaderboard_size,
        }
    }
}

/// Whether a score is below the least score of every leaderboard.
pub open spec fn below_all(v: LeaderboardView, score: u32) -> bool {
    forall|p: int| 0 <= p < 3 ==> score < #[trigger] minimum_score_of(v.boards[p].0, v.size as int)
}

/// Whether an update counts exactly the first `k` items: each of them
/// places on some leaderboard and the next (if any) on none.
pub open spec fn counts_first(v: LeaderboardView, items: Seq<(Seq<char>, u32)>, k: int) -> bool {
    &&& 0 <= k <= items.len()
    &&& forall|i: int| 0 <= i < k ==> !below_all(v, #[trigger] items[i].1)
    &&& k == items.len() || below_all(v, items[k].1)
}

/// How many leading items an update counts (see `counts_first`).
pub open spec fn counted_prefix(v: LeaderboardView, items: Seq<(Seq<char>, u32)>) -> int {
    choose|k: int| #[trigger] counts_first(v, items, k)
}

proof fn lemma_counted_prefix(v: LeaderboardView, items: Seq<(Seq<char>, u32)>, k: int)
    requires
        counts_first(v, items, k),
    ensures
        counted_prefix(v, items) == k,
{
    let c = counted_prefix(v, items);
    assert(counts_first(v, items, c));
    if c < k {
        assert(!below_all(v, items[c].1));
    }
    if k < c {
        assert(!below_all(v, items[k].1));
    }
}

/// Whether two aliases are the same text.
fn same_alias(a: &PlayerAlias, b: &PlayerAlias) -> (r: bool)
    ensures
        r == (a@ == b@),
{
    a.0 == b.0
}

/// Whether two lists of scores are equal.
fn same_scores(a: &Vec<LeaderboardScoreDto>, b: &Vec<LeaderboardScoreDto>) -> (r: bool)
    ensures
        r == (scores_view(a@) == scores_view(b@)),
{
    if a.len() != b.len() {
        proof {
            assert(scores_view(a@).len() != scores_view(b@).len());
        }
        return false;
    }
    let mut i: usize = 0;
    while i < a.len()
        invariant
            a@.len() == b@.len(),
            i <= a@.len(),
            forall|j: int| 0 <= j < i ==> scores_view(a@)[j] == scores_view(b@)[j],
        decreases a@.len() - i,
    {
        if a[i].score != b[i].score || !same_alias(&a[i].alias, &b[i].alias) {
            proof {
                assert(scores_view(a@)[i as int] != scores_view(b@)[i as int]);
            }
            return false;
        }
        i = i + 1;
    }
    proof {
        assert(scores_view(a@) =~= scores_view(b@));
    }
    true
}

impl LeaderboardRepo {
    #[verifier::type_invariant]
    spec fn well_formed(&self) -> bool {
        &&& self.leaderboard_size >= 1
        &&& forall|i: int, j: int|
            0 <= i < j < self.pending@.len() ==> (#[trigger] self.pending@[i]).0@ != (#[trigger] self.pending@[j]).0@
    }

    /// Empty leaderboards of `leaderboard_size` places and nothing pending.
    pub fn new(leaderboard_size: usize) -> (r: Self)
        requires
            leaderboard_size >= 1,
        ensures
            r@.boards == seq![
                (Seq::<(Seq<char>, u32)>::empty(), false),
                (Seq::<(Seq<char>, u32)>::empty(), false),
                (Seq::<(Seq<char>, u32)>::empty(), false),
            ],
            r@.pending == Map::<Seq<char>, u32>::empty(),
            r@.size == leaderboard_size,
    {
        let r = LeaderboardRepo {
            all_time: (Vec::new(), false),
            daily: (Vec::new(), false),
            weekly: (Vec::new(), false),
            pending: Vec::new(),
            leaderboard_size,
        };
        proof {
            assert(r.pending@.map_values(|e: (PlayerAlias, u32)| (e.0@, e.1)) =~= Seq::<(Seq<char>, u32)>::empty());
            assert(r@.pending =~= Map::<Seq<char>, u32>::empty());
            assert(scores_view(r.all_time.0@) =~= Seq::<(Seq<char>, u32)>::empty());
            assert(scores_view(r.daily.0@) =~= Seq::<(Seq<char>, u32)>::empty());
            assert(scores_view(r.weekly.0@) =~= Seq::<(Seq<char>, u32)>::empty());
        }
        r
    }

    /// The cached leaderboard of a period.
    pub fn get(&self, period_id: PeriodId) -> (r: &Vec<LeaderboardScoreDto>)
        ensures
            scores_view(r@) == self@.boards[period_index(period_id)].0,
    {
        match period_id {
            PeriodId::AllTime => &self.all_time.0,
            PeriodId::Daily => &self.daily.0,
            PeriodId::Weekly => &self.weekly.0,
        }
    }

    /// Stores a leaderboard from the database; marks it changed unless it is
    /// the one already cached.
    pub fn put_leaderboard(&mut self, period_id: PeriodId, leaderboard: Vec<LeaderboardScoreDto>)
        ensures
            final(self)@.pending == old(self)@.pending,
            final(self)@.size == old(self)@.size,
            scores_view(leaderboard@) == old(self)@.boards[period_index(period_id)].0 ==> final(self)@.boards
                == old(self)@.boards,
            scores_view(leaderboard@) != old(self)@.boards[period_index(period_id)].0 ==> final(self)@.boards
                == old(self)@.boards.update(period_index(period_id), (scores_view(leaderboard@), true)),
    {
        proof {
            use_type_invariant(&*self);
        }
        if !same_scores(&leaderboard, self.get(period_id)) {
            let ghost before = self@;
            match period_id {
                PeriodId::AllTime => {
                    self.all_time = (leaderboard, true);
                },
                PeriodId::Daily => {
                    self.daily = (leaderboard, true);
                },
                PeriodId::Weekly => {
                    self.weekly = (leaderboard, true);
                },
            }
            proof {
                assert(self@.boards =~= before.boards.update(period_index(period_id), (scores_view(leaderboard@), true)));
            }
        }
    }

    /// The least score that earns a place on a period's leaderboard.
    fn minimum_score(&self, period_id: PeriodId) -> (r: u32)
        ensures
            r == minimum_score_of(self@.boards[period_index(period_id)].0, self@.size as int),
    {
        proof {
            use_type_invariant(self);
        }
        let board = self.get(period_id);
        if self.leaderboard_size - 1 < board.len() {
            proof {
                assert(scores_view(board@)[self.leaderboard_size - 1] == board@[self.leaderboard_size - 1]@);
            }
            board[self.leaderboard_size - 1].score
        } else {
            1
        }
    }

    /// Whether a score is below every leaderboard's least score.
    fn below_every_board(&self, score: u32) -> (r: bool)
        ensures
            r == below_all(self@, score),
    {
        let a = self.minimum_score(PeriodId::AllTime);
        let d = self.minimum_score(PeriodId::Daily);
        let w = self.minimum_score(PeriodId::Weekly);
        proof {
            assert(period_index(PeriodId::Daily) == 1);
            assert(period_index(PeriodId::Weekly) == 2);
            if score < a && score < d && score < w {
                assert forall|p: int| 0 <= p < 3 implies score < #[trigger] minimum_score_of(
                    self@.boards[p].0,
                    self@.size as int,
                ) by {
                    if p == 1 {
                    } else if p == 2 {
                    }
                }
            } else {
                if !(score < a) {
                    assert(!(score < minimum_score_of(self@.boards[0].0, self@.size as int)));
                } else if !(score < d) {
                    assert(!(score < minimum_score_of(self@.boards[1].0, self@.size as int)));
                } else {
                    assert(!(score < minimum_score_of(self@.boards[2].0, self@.size as int)));
                }
            }
        }
        score < a && score < d && score < w
    }

    /// Counts live board scores toward the pending high scores. Nothing is
    /// counted unless the live board changed and the arena may record
    /// scores; then the items (highest first) are counted up to the first
    /// that would not place on any leaderboard.
    pub fn update(&mut self, items: &Vec<LeaderboardScoreDto>, dirty: bool, recording: bool)
        ensures
            final(self)@.boards == old(self)@.boards,
            final(self)@.size == old(self)@.size,
            !(dirty && recording) ==> final(self)@.pending == old(self)@.pending,
            dirty && recording ==> final(self)@.pending == merge_scores(
                old(self)@.pending,
                scores_view(items@).take(counted_prefix(old(self)@, scores_view(items@))),
            ),
    {
        if !dirty || !recording {
            return;
        }
        let ghost v0 = self@;
        let ghost sv = scores_view(items@);
        let mut i: usize = 0;
        proof {
            assert(sv.take(0) =~= Seq::<(Seq<char>, u32)>::empty());
        }
        while i < items.len()
            invariant_except_break
                i <= items@.len(),
                sv == scores_view(items@),
                self@.boards == v0.boards,
                self@.size == v0.size,
                forall|j: int| 0 <= j < i ==> !below_all(v0, #[trigger] sv[j].1),
                self@.pending == merge_scores(v0.pending, sv.take(i as int)),
            ensures
                i <= items@.len(),
                self@.boards == v0.boards,
                self@.size == v0.size,
                forall|j: int| 0 <= j < i ==> !below_all(v0, #[trigger] sv[j].1),
                i == items@.len() || below_all(v0, sv[i as int].1),
                self@.pending == merge_scores(v0.pending, sv.take(i as int)),
            decreases items@.len() - i,
        {
            let score = items[i].score;
            if self.below_every_board(score) {
                break;
            }
            let ghost before = self@.pending;
            self.raise_pending(&items[i].alias, score);
            proof {
                let t = sv.take(i + 1);
                assert(t.drop_last() =~= sv.take(i as int));
                assert(t.last() == (items@[i as int].alias@, score));
            }
            i = i + 1;
        }
        proof {
            assert(counts_first(v0, sv, i as int));
            lemma_counted_prefix(v0, sv, i as int);
        }
    }

    /// Raises an alias's pending high score (from 0) to at least `score`.
    fn raise_pending(&mut self, alias: &PlayerAlias, score: u32)
        ensures
            final(self)@.boards == old(self)@.boards,
            final(self)@.size == old(self)@.size,
            final(self)@.pending == old(self)@.pending.insert(
                alias@,
                ({
                    let prev: u32 = if old(self)@.pending.contains_key(alias@) {
                        old(self)@.pending[alias@]
                    } else {
                        0
                    };
                    if score > prev {
                        score
                    } else {
                        prev
                    }
                }),
            ),
    {
        proof {
            use_type_invariant(&*self);
        }
        let ghost kv = self.pending@.map_values(|e: (PlayerAlias, u32)| (e.0@, e.1));
        proof {
            assert forall|a: int, b: int| 0 <= a < b < kv.len() implies #[trigger] kv[a].0 != #[trigger] kv[b].0 by {
                assert(kv[a].0 == self.pending@[a].0@ && kv[b].0 == self.pending@[b].0@);
            }
        }
        let mut i: usize = 0;
        while i < self.pending.len()
            invariant
                i <= self.pending@.len(),
                kv == self.pending@.map_values(|e: (PlayerAlias, u32)| (e.0@, e.1)),
                unique_keys(kv),
                self.leaderboard_size >= 1,
                *self == *old(self),
                forall|j: int| 0 <= j < i ==> #[trigger] kv[j].0 != alias@,
            decreases self.pending@.len() - i,
        {
            if same_alias(&self.pending[i].0, alias) {
                proof {
                    lemma_assoc_at(kv, |s: u32| s, i as int);
                }
                let prev = self.pending[i].1;
                let next = if score > prev { score } else { prev };
                let entries = self.replaced_entry(i, next);
                proof {
                    let nkv = entries@.map_values(|e: (PlayerAlias, u32)| (e.0@, e.1));
                    assert(nkv =~= kv.update(i as int, (alias@, next)));
                    lemma_assoc_set(kv, |s: u32| s, i as int, next);
                }
                self.pending = entries;
                proof {
                    assert(self@.boards =~= old(self)@.boards);
                }
                return;
            }
            i = i + 1;
        }
        proof {
            assert(!has_entry(kv, alias@)) by {
                if has_entry(kv, alias@) {
                    let a = choose|a: int| 0 <= a < kv.len() && #[trigger] kv[a].0 == alias@;
                    assert(kv[a].0 != alias@);
                }
            }
            lemma_assoc_push(kv, |s: u32| s, alias@, score);
        }
        let mut entries = self.copied_entries();
        entries.push((alias.duplicate(), score));
        proof {
            let nkv = entries@.map_values(|e: (PlayerAlias, u32)| (e.0@, e.1));
            assert(nkv =~= kv.push((alias@, score)));
            assert forall|a: int, b: int| 0 <= a < b < entries@.len() implies (#[trigger] entries@[a]).0@ != (#[trigger] entries@[b]).0@ by {
                assert(nkv[a].0 == entries@[a].0@ && nkv[b].0 == entries@[b].0@);
            }
        }
        self.pending = entries;
        proof {
            assert(self@.boards =~= old(self)@.boards);
        }
    }

    /// A copy of the pending entries.
    fn copied_entries(&self) -> (r: Vec<(PlayerAlias, u32)>)
        ensures
            r@.map_values(|e: (PlayerAlias, u32)| (e.0@, e.1)) == self.pending@.map_values(|e: (PlayerAlias, u32)| (e.0@, e.1)),
    {
        let mut r: Vec<(PlayerAlias, u32)> = Vec::new();
        let mut i: usize = 0;
        while i < self.pending.len()
            invariant
                i <= self.pending@.len(),
                r@.len() == i,
                forall|j: int| 0 <= j < i ==> (#[trigger] r@[j]).0@ == self.pending@[j].0@ && r@[j].1 == self.pending@[j].1,
            decreases self.pending@.len() - i,
        {
            r.push((self.pending[i].0.duplicate(), self.pending[i].1));
            i = i + 1;
        }
        proof {
            assert(r@.map_values(|e: (PlayerAlias, u32)| (e.0@, e.1)) =~= self.pending@.map_values(|e: (PlayerAlias, u32)| (e.0@, e.1)));
        }
        r
    }

    /// A copy of the pending entries with entry `i` given score `score`.
    fn replaced_entry(&self, i: usize, score: u32) -> (r: Vec<(PlayerAlias, u32)>)
        requires
            i < self.pending@.len(),
        ensures
            r@.map_values(|e: (PlayerAlias, u32)| (e.0@, e.1)) == self.pending@.map_values(|e: (PlayerAlias, u32)| (e.0@, e.1)).update(
                i as int,
                (self.pending@[i as int].0@, score),
            ),
            forall|a: int, b: int| 0 <= a < b < r@.len() ==> (#[trigger] r@[a]).0@ != (#[trigger] r@[b]).0@,
    {
        proof {
            use_type_invariant(self);
        }
        let mut r: Vec<(PlayerAlias, u32)> = Vec::new();
        let mut k: usize = 0;
        while k < self.pending.len()
            invariant
                k <= self.pending@.len(),
                i < self.pending@.len(),
                r@.len() == k,
                forall|j: int| 0 <= j < k ==> (#[trigger] r@[j]).0@ == self.pending@[j].0@,
                forall|j: int| 0 <= j < k ==> (#[trigger] r@[j]).1 == if j == i { score } else { self.pending@[j].1 },
            decreases self.pending@.len() - k,
        {
            let v = if k == i { score } else { self.pending[k].1 };
            r.push((self.pending[k].0.duplicate(), v));
            k = k + 1;
        }
        proof {
            assert(r@.map_values(|e: (PlayerAlias, u32)| (e.0@, e.1)) =~= self.pending@.map_values(|e: (PlayerAlias, u32)| (e.0@, e.1)).update(
                i as int,
                (self.pending@[i as int].0@, score),
            ));
            assert forall|a: int, b: int| 0 <= a < b < r@.len() implies (#[trigger] r@[a]).0@ != (#[trigger] r@[b]).0@ by {
                assert(r@[a].0@ == self.pending@[a].0@);
                assert(r@[b].0@ == self.pending@[b].0@);
            }
        }
        r
    }

    /// Hands out the pending high scores (each alias once) and forgets
    /// them; nothing while none are pending or while the caller's rate limit
    /// holds.
    pub fn take_pending(&mut self, rate_limited: bool) -> (r: Option<Vec<LeaderboardScoreDto>>)
        ensures
            final(self)@.boards == old(self)@.boards,
            final(self)@.size == old(self)@.size,
            old(self)@.pending.len() == 0 || rate_limited ==> r is None && final(self)@.pending == old(self)@.pending,
            !(old(self)@.pending.len() == 0 || rate_limited) ==> final(self)@.pending == Map::<Seq<char>, u32>::empty()
                && (r matches Some(v) && v@.len() == old(self)@.pending.len() && scores_view(v@).to_set()
                == old(self)@.pending.kv_pairs()),
    {
        proof {
            use_type_invariant(&*self);
        }
        let ghost kv = self.pending@.map_values(|e: (PlayerAlias, u32)| (e.0@, e.1));
        proof {
            assert forall|a: int, b: int| 0 <= a < b < kv.len() implies #[trigger] kv[a].0 != #[trigger] kv[b].0 by {
                assert(kv[a].0 == self.pending@[a].0@ && kv[b].0 == self.pending@[b].0@);
            }
            crate::seq_util::lemma_keys_len(kv);
            assert(self@.pending.dom() =~= crate::seq_util::key_set(kv));
        }
        if self.pending.len() == 0 || rate_limited {
            return None;
        }
        let mut out: Vec<LeaderboardScoreDto> = Vec::new();
        let mut i: usize = 0;
        while i < self.pending.len()
            invariant
                i <= self.pending@.len(),
                kv == self.pending@.map_values(|e: (PlayerAlias, u32)| (e.0@, e.1)),
                scores_view(out@) == kv.subrange(0, i as int),
            decreases self.pending@.len() - i,
        {
            let d = LeaderboardScoreDto { alias: self.pending[i].0.duplicate(), score: self.pending[i].1 };
            proof {
                assert(d@ == kv[i as int]);
            }
            let ghost before = out@;
            out.push(d);
            proof {
                assert(scores_view(out@) =~= scores_view(before).push(d@));
                assert(kv.subrange(0, i + 1) =~= kv.subrange(0, i as int).push(kv[i as int]));
            }
            i = i + 1;
        }
        proof {
            assert(kv.subrange(0, kv.len() as int) =~= kv);
            assert forall|p: (Seq<char>, u32)| kv.to_set().contains(p) <==> self@.pending.kv_pairs().contains(p) by {
                if kv.to_set().contains(p) {
                    let j = choose|j: int| 0 <= j < kv.len() && kv[j] == p;
                    lemma_assoc_at(kv, |s: u32| s, j);
                }
                if self@.pending.kv_pairs().contains(p) {
                    let j = choose|j: int| 0 <= j < kv.len() && #[trigger] kv[j].0 == p.0;
                    lemma_assoc_at(kv, |s: u32| s, j);
                    assert(kv[j] == p);
                }
            }
            assert(scores_view(out@).to_set() =~= self@.pending.kv_pairs());
        }
        self.pending = Vec::new();
        proof {
            assert(self@.pending =~= Map::<Seq<char>, u32>::empty());
            assert(self@.boards =~= old(self)@.boards);
        }
        Some(out)
    }

    /// The periods whose leaderboards changed since the flags were last
    /// cleared, in period order.
    pub fn deltas_nondestructive(&self) -> (r: Vec<PeriodId>)
        ensures
            r@ == seq![PeriodId::AllTime].filter(|p: PeriodId| self@.boards[0].1) + seq![PeriodId::Daily].filter(
                |p: PeriodId| self@.boards[1].1,
            ) + seq![PeriodId::Weekly].filter(|p: PeriodId| self@.boards[2].1),
    {
        let mut r: Vec<PeriodId> = Vec::new();
        if self.all_time.1 {
            r.push(PeriodId::AllTime);
        }
        if self.daily.1 {
            r.push(PeriodId::Daily);
        }
        if self.weekly.1 {
            r.push(PeriodId::Weekly);
        }
        proof {
            reveal_with_fuel(Seq::filter, 2);
            assert(r@ =~= seq![PeriodId::AllTime].filter(|p: PeriodId| self@.boards[0].1) + seq![PeriodId::Daily].filter(
                |p: PeriodId| self@.boards[1].1,
            ) + seq![PeriodId::Weekly].filter(|p: PeriodId| self@.boards[2].1));
        }
        r
    }

    /// The periods whose leaderboards have scores, in period order: what a
    /// newly connected client is first sent.
    pub fn initializers(&self) -> (r: Vec<PeriodId>)
        ensures
            r@ == seq![PeriodId::AllTime].filter(|p: PeriodId| self@.boards[0].0.len() > 0) + seq![
                PeriodId::Daily,
            ].filter(|p: PeriodId| self@.boards[1].0.len() > 0) + seq![PeriodId::Weekly].filter(
                |p: PeriodId| self@.boards[2].0.len() > 0,
            ),
    {
        let mut r: Vec<PeriodId> = Vec::new();
        if self.all_time.0.len() > 0 {
            r.push(PeriodId::AllTime);
        }
        if self.daily.0.len() > 0 {
            r.push(PeriodId::Daily);
        }
        if self.weekly.0.len() > 0 {
            r.push(PeriodId::Weekly);
        }
        proof {
            reveal_with_fuel(Seq::filter, 2);
            assert(r@ =~= seq![PeriodId::AllTime].filter(|p: PeriodId| self@.boards[0].0.len() > 0) + seq![
                PeriodId::Daily,
            ].filter(|p: PeriodId| self@.boards[1].0.len() > 0) + seq![PeriodId::Weekly].filter(
                |p: PeriodId| self@.boards[2].0.len() > 0,
            ));
        }
        r
    }

    /// Clears the changed flags (such as once clients were updated).
    pub fn clear_deltas(&mut self)
        ensures
            final(self)@.pending == old(self)@.pending,
            final(self)@.size == old(self)@.size,
            final(self)@.boards == seq![
                (old(self)@.boards[0].0, false),
                (old(self)@.boards[1].0, false),
                (old(self)@.boards[2].0, false),
            ],
    {
        proof {
            use_type_invariant(&*self);
        }
        self.all_time.1 = false;
        self.daily.1 = false;
        self.weekly.1 = false;
        proof {
            assert(self@.boards =~= seq![
                (old(self)@.boards[0].0, false),
                (old(self)@.boards[1].0, false),
                (old(self)@.boards[2].0, false),
            ]);
        }
    }
}

/// Why an arena's scores do not count toward the leaderboards.
#[derive(Copy, Clone, Debug, PartialEq, Eq, Structural)]
pub enum LeaderboardCaveat {
    /// The arena is closing (or no longer provisioned here).
    Closing,
    /// The arena belongs to a temporary realm.
    Temporary,
    /// The server is a cloud server not listed for players.
    Unlisted,
}

/// The caveat on an arena's leaderboard: closing when it is neither
/// provisioned (`sanctioned`) nor temporary, or the server is closing; then
/// temporary for a temporary realm; then unlisted for an unlisted cloud
/// server; otherwise none.
pub fn leaderboard_caveat(
    sanctioned: bool,
    temporary: bool,
    server_closing: bool,
    cloud: bool,
    unlisted: bool,
) -> (r: Option<LeaderboardCaveat>)
    ensures
        r == if !(sanctioned || temporary) || server_closing {
            Some(LeaderboardCaveat::Closing)
        } else if temporary {
            Some(LeaderboardCaveat::Temporary)
        } else if cloud && unlisted {
            Some(LeaderboardCaveat::Unlisted)
        } else {
            None::<LeaderboardCaveat>
        },
{
    if !(sanctioned || temporary) {
        Some(LeaderboardCaveat::Closing)
    } else if server_closing {
        Some(LeaderboardCaveat::Closing)
    } else if temporary {
        Some(LeaderboardCaveat::Temporary)
    } else if cloud && unlisted {
        Some(LeaderboardCaveat::Unlisted)
    } else {
        None
    }
}

/// The new value of a player's high-score claim, if it rises: only on a
/// cloud server, in the public realm, with no caveat, for a positive score
/// above the claim (a missing claim counting as 0).
pub fn high_score_claim(
    cloud: bool,
    public_realm: bool,
    caveat: Option<LeaderboardCaveat>,
    score: Score,
    claimed: Option<u64>,
) -> (r: Option<u64>)
    ensures
        r == match score {
            Score::Scored(s) => if cloud && public_realm && caveat is None && s > 0 && s as u64 > (match claimed {
                Some(c) => c,
                None => 0,
            }) {
                Some(s as u64)
            } else {
                None::<u64>
            },
            _ => None::<u64>,
        },
{
    if !(cloud && public_realm && caveat.is_none()) {
        return None;
    }
    match score.some() {
        Some(s) => {
            if s == 0 {
                return None;
            }
            let high = match claimed {
                Some(c) => c,
                None => 0,
            };
            if s as u64 > high {
                Some(s as u64)
            } else {
                None
            }
        },
        None => None,
    }
}

} // verus!
