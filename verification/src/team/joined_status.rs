//! A player's membership status: spawning, or on a team with pending
//! requests to join other teams.
use crate::ids::TeamId;
use crate::seq_util::without;
use arrayvec::ArrayVec;
use vstd::prelude::*;

verus! {

/// At most this many join requests are pending per player.
pub const MAX_JOINS: usize = 3;

/// A player on a team.
#[derive(Debug)]
pub struct JoinedStatus {
    /// Player's current team.
    pub team_id: TeamId,
    /// Teams that the player requested to join, oldest first. Empty while
    /// the current team is named.
    pub joins: ArrayVec<TeamId, MAX_JOINS>,
}

#[verifier::external_type_specification]
#[verifier::external_body]
#[verifier::reject_recursive_types(T)]
pub struct ExArrayVec<T, const CAP: usize>(ArrayVec<T, CAP>);

/// The team ids a list of join requests holds, in order.
pub uninterp spec fn join_items(joins: ArrayVec<TeamId, MAX_JOINS>) -> Seq<TeamId>;

/// An empty list of join requests. Trusted: `ArrayVec::new` makes an empty
/// vector.
#[verifier::external_body]
fn new_joins() -> (r: ArrayVec<TeamId, MAX_JOINS>)
    ensures
        join_items(r) == Seq::<TeamId>::empty(),
{
    ArrayVec::new()
}

/// How many join requests there are. Trusted: `ArrayVec::len` counts the
/// elements, which never exceed the capacity.
#[verifier::external_body]
fn joins_len(joins: &ArrayVec<TeamId, MAX_JOINS>) -> (r: usize)
    ensures
        r == join_items(*joins).len(),
        r <= MAX_JOINS,
{
    joins.len()
}

/// The join request at position `i`. Trusted: indexing the elements (as a
/// slice) gives the element at that position.
#[verifier::external_body]
fn join_at(joins: &ArrayVec<TeamId, MAX_JOINS>, i: usize) -> (r: TeamId)
    requires
        i < join_items(*joins).len(),
    ensures
        r == join_items(*joins)[i as int],
{
    joins[i]
}

/// Appends a join request. Trusted: `ArrayVec::push` appends the element
/// (it panics when full, which `requires` rules out).
#[verifier::external_body]
fn push_join(joins: &mut ArrayVec<TeamId, MAX_JOINS>, team_id: TeamId)
    requires
        join_items(*old(joins)).len() < MAX_JOINS,
    ensures
        join_items(*final(joins)) == join_items(*old(joins)).push(team_id),
{
    joins.push(team_id)
}

/// Whether a join request is for another team than `team_id`.
fn other_team(id: &TeamId, team_id: TeamId) -> (r: bool)
    ensures
        r == (*id != team_id),
{
    *id != team_id
}

/// Keeps the join requests for other teams than `team_id`. Trusted:
/// `ArrayVec::retain` keeps exactly the elements the predicate accepts, in
/// their order.
#[verifier::external_body]
fn retain_other_teams(joins: &mut ArrayVec<TeamId, MAX_JOINS>, team_id: TeamId)
    ensures
        join_items(*final(joins)) == join_items(*old(joins)).filter(|id: TeamId| id != team_id),
{
    joins.retain(|id| other_team(id, team_id))
}

/// A copy of the join requests. Trusted: `ArrayVec::clone` clones each
/// element in order, and a team id's clone is itself.
#[verifier::external_body]
fn copy_joins(joins: &ArrayVec<TeamId, MAX_JOINS>) -> (r: ArrayVec<TeamId, MAX_JOINS>)
    ensures
        join_items(r) == join_items(*joins),
{
    joins.clone()
}

/// Removing a value is keeping every other value.
proof fn lemma_without_filter(s: Seq<TeamId>, x: TeamId)
    ensures
        without(s, x) == s.filter(|id: TeamId| id != x),
    decreases s.len(),
{
    reveal(Seq::filter);
    if s.len() > 0 {
        lemma_without_filter(s.drop_last(), x);
    }
}

/// A change to a player's status.
#[derive(Debug, Clone, Copy, PartialEq, Eq, Structural)]
pub enum JoinUpdate {
    /// Go back to spawning.
    Quit,
    /// Join team and clear joins.
    Join(TeamId),
    /// Add new join request.
    AddJoin(TeamId),
    /// Remove existing join request.
    RemoveJoin(TeamId),
}

/// Whether the player is spawning or on a team.
#[derive(Debug)]
pub enum PlayerStatus {
    Spawning,
    Joined(JoinedStatus),
}

/// The mathematical value of a `PlayerStatus`.
pub enum StatusView {
    Spawning,
    Joined { team_id: TeamId, joins: Seq<TeamId> },
}

impl View for PlayerStatus {
    type V = StatusView;

    open spec fn view(&self) -> StatusView {
        match self {
            PlayerStatus::Spawning => StatusView::Spawning,
            PlayerStatus::Joined(j) => StatusView::Joined { team_id: j.team_id, joins: join_items(j.joins) },
        }
    }
}

impl Default for PlayerStatus {
    fn default() -> (r: Self)
        ensures
            r@ is Spawning,
    {
        PlayerStatus::Spawning
    }
}

/// Whether `update` may be applied to `s`: adding or removing a join
/// request needs a joined player, and adding one needs room for it.
pub open spec fn update_applies(s: StatusView, update: JoinUpdate) -> bool {
    match update {
        JoinUpdate::AddJoin(_) => s matches StatusView::Joined { joins, .. } && joins.len() < MAX_JOINS,
        JoinUpdate::RemoveJoin(_) => s is Joined,
        _ => true,
    }
}

/// The status after applying `update`: removal drops every occurrence.
pub open spec fn apply_update(s: StatusView, update: JoinUpdate) -> StatusView {
    match update {
        JoinUpdate::Quit => StatusView::Spawning,
        JoinUpdate::Join(team_id) => StatusView::Joined { team_id, joins: Seq::empty() },
        JoinUpdate::AddJoin(team_id) => match s {
            StatusView::Joined { team_id: t, joins } => StatusView::Joined {
                team_id: t,
                joins: joins.push(team_id),
            },
            StatusView::Spawning => s,
        },
        JoinUpdate::RemoveJoin(team_id) => match s {
            StatusView::Joined { team_id: t, joins } => StatusView::Joined {
                team_id: t,
                joins: without(joins, team_id),
            },
            StatusView::Spawning => s,
        },
    }
}

/// Asking to join a team not yet asked for and then withdrawing the request
/// restores the status.
pub proof fn law_add_then_remove_join(s: StatusView, t: TeamId)
    requires
        update_applies(s, JoinUpdate::AddJoin(t)),
        !s->joins.contains(t),
    ensures
        apply_update(apply_update(s, JoinUpdate::AddJoin(t)), JoinUpdate::RemoveJoin(t)) == s,
{
    let joins = s->joins;
    assert(joins.push(t).drop_last() =~= joins);
    crate::seq_util::lemma_without_len(joins, t);
}

/// The joined team of a status, if any.
pub open spec fn status_team(s: StatusView) -> Option<TeamId> {
    match s {
        StatusView::Joined { team_id, .. } => Some(team_id),
        StatusView::Spawning => None,
    }
}

/// The join requests as a vector, in order.
pub fn joins_vec(joins: &ArrayVec<TeamId, MAX_JOINS>) -> (r: Vec<TeamId>)
    ensures
        r@ == join_items(*joins),
{
    let n = joins_len(joins);
    let mut r: Vec<TeamId> = Vec::new();
    let mut i: usize = 0;
    while i < n
        invariant
            n == join_items(*joins).len(),
            i <= n,
            r@ == join_items(*joins).subrange(0, i as int),
        decreases n - i,
    {
        r.push(join_at(joins, i));
        i = i + 1;
        proof {
            assert(r@ =~= join_items(*joins).subrange(0, i as int));
        }
    }
    proof {
        assert(join_items(*joins).subrange(0, n as int) =~= join_items(*joins));
    }
    r
}

/// Whether the id occurs in the vector.
pub fn contains_team(v: &Vec<TeamId>, id: TeamId) -> (r: bool)
    ensures
        r == v@.contains(id),
{
    let mut i: usize = 0;
    while i < v.len()
        invariant
            i <= v.len(),
            forall|j: int| 0 <= j < i ==> v@[j] != id,
        decreases v.len() - i,
    {
        if v[i] == id {
            assert(v@[i as int] == id);
            return true;
        }
        i = i + 1;
    }
    false
}

impl PlayerStatus {
    /// A copy of this status.
    pub fn duplicate(&self) -> (r: Self)
        ensures
            r@ == self@,
    {
        match self {
            PlayerStatus::Spawning => PlayerStatus::Spawning,
            PlayerStatus::Joined(j) => PlayerStatus::Joined(JoinedStatus {
                team_id: j.team_id,
                joins: copy_joins(&j.joins),
            }),
        }
    }

    pub fn is_spawning(&self) -> (r: bool)
        ensures
            r == (self@ is Spawning),
    {
        matches!(self, PlayerStatus::Spawning)
    }

    pub fn is_joined(&self) -> (r: bool)
        ensures
            r == (self@ is Joined),
    {
        matches!(self, PlayerStatus::Joined(_))
    }

    pub fn team_id(&self) -> (r: Option<TeamId>)
        ensures
            r == status_team(self@),
    {
        if let PlayerStatus::Joined(joined) = self {
            Some(joined.team_id)
        } else {
            None
        }
    }

    pub fn joins(&self) -> (r: Option<ArrayVec<TeamId, MAX_JOINS>>)
        ensures
            r is Some <==> self@ is Joined,
            r matches Some(v) ==> join_items(v) == self@->joins,
    {
        if let PlayerStatus::Joined(joined) = self {
            Some(copy_joins(&joined.joins))
        } else {
            None
        }
    }

    pub fn player_update(&mut self, update: &JoinUpdate)
        requires
            update_applies(old(self)@, *update),
        ensures
            final(self)@ == apply_update(old(self)@, *update),
    {
        match update {
            JoinUpdate::Quit => {
                *self = PlayerStatus::Spawning;
            },
            JoinUpdate::Join(team_id) => {
                *self = PlayerStatus::Joined(JoinedStatus { team_id: *team_id, joins: new_joins() });
            },
            JoinUpdate::AddJoin(team_id) => {
                if let PlayerStatus::Joined(joined) = self {
                    push_join(&mut joined.joins, *team_id);
                }
            },
            JoinUpdate::RemoveJoin(team_id) => {
                if let PlayerStatus::Joined(joined) = self {
                    proof {
                        lemma_without_filter(join_items(joined.joins), *team_id);
                    }
                    retain_other_teams(&mut joined.joins, *team_id);
                }
            },
        }
    }
}

} // verus!
