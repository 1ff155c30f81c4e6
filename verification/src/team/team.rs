//! A team: an optional name, game data, members (the first is the leader)
//! and players asking to join.
use super::members::{has_member, member_ids, member_index, Members};
use crate::ids::{PlayerAlias, PlayerId, TeamId, TeamName};
use crate::seq_util::without;
use vstd::prelude::*;

verus! {

/// How a team member appears in the game (for example an entity).
pub trait Manifestation: Sized {
    /// Members per team.
    const MAX_MEMBERS: usize = 6;
    /// Members and joiners per team together.
    const MAX_MEMBERS_AND_JOINERS: usize = 8;
    /// Whether the leader may voluntarily leave (as opposed to quitting the game).
    const LEADER_CAN_LEAVE: bool = true;
    /// Whether members may leave.
    const MEMBERS_CAN_LEAVE: bool = true;
    /// Whether a player alone on a named team may leave it.
    const CAN_LEAVE_SOLO_TEAM: bool = true;
    /// Whether a player leaving a team of one keeps that team, unnamed.
    const CAN_REUSE_SOLO_TEAM: bool = true;

    /// Whether this kind of manifestation can tell if it is alive.
    spec fn has_liveness(&self) -> bool;

    /// What `is_alive` reports.
    spec fn alive(&self) -> bool;

    fn new(alias: PlayerAlias) -> Self;

    /// Cannot be pruned when its owner leaves.
    fn is_alive(&self) -> (r: bool)
        requires
            self.has_liveness(),
        ensures
            r == self.alive(),
    ;

    /// Can be pruned when its owner leaves.
    fn is_dead(&self) -> (r: bool)
        requires
            self.has_liveness(),
        ensures
            r == !self.alive(),
    {
        !self.is_alive()
    }
}

/// Games without manifestations: nothing can be asked of their liveness.
impl Manifestation for () {
    open spec fn has_liveness(&self) -> bool {
        false
    }

    open spec fn alive(&self) -> bool {
        false
    }

    fn new(alias: PlayerAlias) -> Self {
    }

    fn is_alive(&self) -> (r: bool) {
        false
    }
}

/// A member of a team.
#[derive(Debug)]
pub struct Member<M> {
    pub player_id: PlayerId,
    pub manifestation: M,
}

/// A member of a team, named by both ids.
#[derive(Copy, Clone, Debug, PartialEq, Eq, Hash, Structural)]
pub struct MemberId {
    pub team_id: TeamId,
    pub player_id: PlayerId,
}

impl<M: Manifestation> Member<M> {
    pub const LIMIT: u8 = 6;

    pub fn new(player_id: PlayerId, alias: PlayerAlias) -> (r: Self)
        ensures
            r.player_id == player_id,
    {
        Self { player_id, manifestation: M::new(alias) }
    }
}

/// A team of players.
#[derive(Debug)]
pub struct Team<D, M> {
    pub name: Option<TeamName>,
    pub data: D,
    /// Leader first.
    pub members: Members<M>,
    /// Players asking to join, oldest first.
    pub joiners: Vec<PlayerId>,
}

/// The mathematical value of a team.
pub struct TeamView<D, M> {
    pub name: Option<Seq<char>>,
    pub data: D,
    pub members: Seq<Member<M>>,
    pub joiners: Seq<PlayerId>,
}

/// The view of an optional name.
pub open spec fn name_view(n: Option<TeamName>) -> Option<Seq<char>> {
    match n {
        Some(n) => Some(n@),
        None => None,
    }
}

impl<D, M> View for Team<D, M> {
    type V = TeamView<D, M>;

    open spec fn view(&self) -> TeamView<D, M> {
        TeamView {
            name: name_view(self.name),
            data: self.data,
            members: self.members@,
            joiners: self.joiners@,
        }
    }
}

/// A change to a team.
#[derive(Debug)]
pub enum TeamUpdate<M> {
    SetName(Option<TeamName>),
    AddJoiner(PlayerId),
    RemoveJoiner(PlayerId),
    /// Adds a member, who stops being a joiner.
    AddMember(Member<M>),
    /// Replaces the manifestation of an existing member.
    ReplaceMember(Member<M>),
    RemoveMember(PlayerId),
}

/// Whether an update may be applied: a joiner is not added twice, a new
/// member is not already a member, and replaced or removed members exist.
pub open spec fn team_update_applies<D, M>(t: TeamView<D, M>, u: TeamUpdate<M>) -> bool {
    match u {
        TeamUpdate::AddJoiner(j) => !t.joiners.contains(j),
        TeamUpdate::AddMember(m) => !has_member(t.members, m.player_id),
        TeamUpdate::ReplaceMember(m) => has_member(t.members, m.player_id),
        TeamUpdate::RemoveMember(id) => has_member(t.members, id),
        _ => true,
    }
}

/// The team after an update.
pub open spec fn apply_team_update<D, M>(t: TeamView<D, M>, u: TeamUpdate<M>) -> TeamView<D, M> {
    match u {
        TeamUpdate::SetName(n) => TeamView { name: name_view(n), ..t },
        TeamUpdate::AddJoiner(j) => TeamView { joiners: t.joiners.push(j), ..t },
        TeamUpdate::RemoveJoiner(j) => TeamView { joiners: without(t.joiners, j), ..t },
        TeamUpdate::AddMember(m) => TeamView {
            joiners: without(t.joiners, m.player_id),
            members: t.members.push(m),
            ..t
        },
        TeamUpdate::ReplaceMember(m) => TeamView {
            members: t.members.update(member_index(t.members, m.player_id), m),
            ..t
        },
        TeamUpdate::RemoveMember(id) => TeamView {
            members: t.members.remove(member_index(t.members, id)),
            ..t
        },
    }
}

/// Whether any member is alive.
pub open spec fn any_member_alive<M: Manifestation>(s: Seq<Member<M>>) -> bool {
    exists|i: int| 0 <= i < s.len() && (#[trigger] s[i]).manifestation.alive()
}

/// Removes every occurrence of `id`, keeping the order of the rest.
pub fn retain_other_players(v: &mut Vec<PlayerId>, id: PlayerId)
    ensures
        final(v)@ == without(old(v)@, id),
{
    let mut kept: Vec<PlayerId> = Vec::new();
    let mut i: usize = 0;
    while i < v.len()
        invariant
            i <= v.len(),
            v@ == old(v)@,
            kept@ == without(v@.subrange(0, i as int), id),
        decreases v.len() - i,
    {
        let p = v[i];
        let ghost next = v@.subrange(0, i + 1);
        proof {
            assert(next.drop_last() =~= v@.subrange(0, i as int));
            assert(next.last() == p);
        }
        if p != id {
            kept.push(p);
        }
        i = i + 1;
        assert(kept@ =~= without(next, id));
    }
    assert(v@.subrange(0, v.len() as int) =~= v@);
    *v = kept;
}

/// Copies a sequence of player ids.
pub fn copy_player_ids(v: &Vec<PlayerId>) -> (r: Vec<PlayerId>)
    ensures
        r@ == v@,
{
    let mut r: Vec<PlayerId> = Vec::new();
    let mut i: usize = 0;
    while i < v.len()
        invariant
            i <= v.len(),
            r@ == v@.subrange(0, i as int),
        decreases v.len() - i,
    {
        r.push(v[i]);
        i = i + 1;
        assert(r@ =~= v@.subrange(0, i as int));
    }
    assert(v@.subrange(0, v.len() as int) =~= v@);
    r
}

/// Whether the id occurs in the vector.
pub fn contains_player(v: &Vec<PlayerId>, id: PlayerId) -> (r: bool)
    ensures
        r == v@.contains(id),
{
    let mut i: usize = 0;
    while i < v.len()
        invariant
            i <= v.len(),
            forall|j: int| 0 <= j < i ==> v@[j] != id,
        decreases v.len() - i,
    {
        if v[i] == id {
            assert(v@[i as int] == id);
            return true;
        }
        i = i + 1;
    }
    false
}

impl<D, M: Manifestation> Team<D, M> {
    /// A new, unnamed team without members or joiners.
    pub fn new(data: D) -> (r: Self)
        ensures
            r@.name is None,
            r@.data == data,
            r@.members.len() == 0,
            r@.joiners.len() == 0,
    {
        Self { name: None, data, members: Members::default(), joiners: Vec::new() }
    }

    pub fn any_alive(&self) -> (r: bool)
        requires
            forall|i: int| 0 <= i < self@.members.len() ==> (#[trigger] self@.members[i]).manifestation.has_liveness(),
        ensures
            r == any_member_alive(self@.members),
    {
        let members = self.members.iter();
        let mut i: usize = 0;
        while i < members.len()
            invariant
                i <= members@.len(),
                members@ == self@.members,
                forall|k: int| 0 <= k < members@.len() ==> (#[trigger] members@[k]).manifestation.has_liveness(),
                forall|j: int| 0 <= j < i ==> !(#[trigger] members@[j]).manifestation.alive(),
            decreases members@.len() - i,
        {
            if members[i].manifestation.is_alive() {
                return true;
            }
            i = i + 1;
        }
        false
    }

    pub fn leader_alive(&self) -> (r: bool)
        requires
            self@.members.len() > 0 ==> self@.members[0].manifestation.has_liveness(),
        ensures
            r == (self@.members.len() > 0 && self@.members[0].manifestation.alive()),
    {
        match self.leader() {
            Some(l) => l.manifestation.is_alive(),
            None => false,
        }
    }

    /// The first member.
    pub fn leader(&self) -> (r: Option<&Member<M>>)
        ensures
            r is Some <==> self@.members.len() > 0,
            r matches Some(l) ==> *l == self@.members[0],
    {
        if self.members.0.len() > 0 {
            Some(&self.members.0[0])
        } else {
            None
        }
    }

    /// The first member, for changing in place.
    pub fn leader_mut(&mut self) -> (r: Option<&mut Member<M>>)
        ensures
            r is Some <==> old(self)@.members.len() > 0,
            r matches Some(l) ==> *l == old(self)@.members[0],
            r matches Some(l) ==> final(self)@ == (TeamView {
                members: old(self)@.members.update(0, *final(l)),
                ..old(self)@
            }),
            r is None ==> final(self)@ == old(self)@,
    {
        if self.members.0.len() > 0 {
            Some(&mut self.members.0[0])
        } else {
            None
        }
    }

    /// The member with the id, if any.
    pub fn get(&self, player_id: PlayerId) -> (r: Option<&Member<M>>)
        ensures
            r is Some <==> has_member(self@.members, player_id),
            r matches Some(m) ==> *m == self@.members[member_index(self@.members, player_id)],
    {
        let members = self.members.iter();
        let mut i: usize = 0;
        while i < members.len()
            invariant
                i <= members@.len(),
                members@ == self@.members,
                forall|j: int| 0 <= j < i ==> #[trigger] members@[j].player_id != player_id,
            decreases members@.len() - i,
        {
            if members[i].player_id == player_id {
                proof {
                    super::members::lemma_member_index(members@, player_id, i as int);
                }
                return Some(&members[i]);
            }
            i = i + 1;
        }
        None
    }

    /// The index of the member with the id, if any.
    fn position(&self, player_id: PlayerId) -> (r: Option<usize>)
        ensures
            r is Some <==> has_member(self@.members, player_id),
            r matches Some(i) ==> i == member_index(self@.members, player_id) && i < self@.members.len(),
    {
        let mut i: usize = 0;
        while i < self.members.0.len()
            invariant
                i <= self@.members.len(),
                forall|j: int| 0 <= j < i ==> #[trigger] self@.members[j].player_id != player_id,
            decreases self@.members.len() - i,
        {
            if self.members.0[i].player_id == player_id {
                proof {
                    super::members::lemma_member_index(self@.members, player_id, i as int);
                }
                return Some(i);
            }
            i = i + 1;
        }
        None
    }

    /// The member with the id, if any, for changing in place.
    pub fn get_mut(&mut self, player_id: PlayerId) -> (r: Option<&mut Member<M>>)
        ensures
            r is Some <==> has_member(old(self)@.members, player_id),
            r matches Some(m) ==> *m == old(self)@.members[member_index(old(self)@.members, player_id)],
            r matches Some(m) ==> final(self)@ == (TeamView {
                members: old(self)@.members.update(member_index(old(self)@.members, player_id), *final(m)),
                ..old(self)@
            }),
            r is None ==> final(self)@ == old(self)@,
    {
        match self.position(player_id) {
            Some(i) => Some(&mut self.members.0[i]),
            None => None,
        }
    }

    /// Adds a member for the player, who must not be a member yet.
    pub fn add(&mut self, player_id: PlayerId, alias: PlayerAlias)
        requires
            !has_member(old(self)@.members, player_id),
        ensures
            final(self)@.members.len() == old(self)@.members.len() + 1,
            final(self)@.members.drop_last() == old(self)@.members,
            final(self)@.members.last().player_id == player_id,
            final(self)@.name == old(self)@.name,
            final(self)@.data == old(self)@.data,
            final(self)@.joiners == old(self)@.joiners,
    {
        self.members.push(Member::new(player_id, alias));
        assert(self@.members.drop_last() =~= old(self)@.members);
    }

    /// Removes the member, who must be a member.
    pub fn remove(&mut self, player_id: PlayerId)
        requires
            has_member(old(self)@.members, player_id),
        ensures
            final(self)@ == apply_team_update(old(self)@, TeamUpdate::<M>::RemoveMember(player_id)),
    {
        self.members.remove(player_id);
    }

    pub fn is_empty(&self) -> (r: bool)
        ensures
            r == (self@.members.len() == 0),
    {
        self.members.is_empty()
    }

    /// The members, leader first.
    pub fn iter(&self) -> (r: &[Member<M>])
        ensures
            r@ == self@.members,
    {
        self.members.iter()
    }

    /// The members, leader first, for changing in place.
    pub fn iter_mut(&mut self) -> (r: &mut Vec<Member<M>>)
        ensures
            *r == old(self).members.0,
            final(self).members.0 == *final(r),
    {
        self.members.iter_mut()
    }

    /// Applies an update (see `apply_team_update`).
    pub fn update(&mut self, update: TeamUpdate<M>)
        requires
            team_update_applies(old(self)@, update),
        ensures
            final(self)@ == apply_team_update(old(self)@, update),
    {
        match update {
            TeamUpdate::SetName(name) => {
                self.name = name;
            },
            TeamUpdate::AddJoiner(joiner) => {
                self.joiners.push(joiner);
            },
            TeamUpdate::RemoveJoiner(joiner) => {
                retain_other_players(&mut self.joiners, joiner);
            },
            TeamUpdate::AddMember(member) => {
                retain_other_players(&mut self.joiners, member.player_id);
                self.members.push(member);
            },
            TeamUpdate::ReplaceMember(member) => {
                let i = self.position(member.player_id).unwrap();
                self.members.0.set(i, member);
            },
            TeamUpdate::RemoveMember(player_id) => {
                self.members.remove(player_id);
            },
        }
    }

    /// The members' player ids, leader first.
    pub fn member_player_ids(&self) -> (r: Vec<PlayerId>)
        ensures
            r@ == member_ids(self@.members),
    {
        let members = self.members.iter();
        let mut r: Vec<PlayerId> = Vec::new();
        let mut i: usize = 0;
        while i < members.len()
            invariant
                i <= members@.len(),
                members@ == self@.members,
                r@ == member_ids(members@.subrange(0, i as int)),
            decreases members@.len() - i,
        {
            r.push(members[i].player_id);
            i = i + 1;
            assert(r@ =~= member_ids(members@.subrange(0, i as int)));
        }
        assert(members@.subrange(0, members@.len() as int) =~= members@);
        r
    }
}

/// A random team id. Trusted: `rand::random::<u32>()`; nothing is promised
/// of the value.
#[verifier::external_body]
fn random_team_id() -> (r: TeamId) {
    TeamId(rand::random::<u32>())
}

/// How many random team ids are tried before counting up for a free one.
pub const TEAM_ID_ATTEMPTS: u32 = 8;

/// Whether `taken` holds `id`.
fn holds_team_id(taken: &Vec<TeamId>, id: TeamId) -> (r: bool)
    ensures
        r == taken@.contains(id),
{
    let mut i: usize = 0;
    while i < taken.len()
        invariant
            i <= taken@.len(),
            forall|j: int| 0 <= j < i ==> #[trigger] taken@[j] != id,
        decreases taken@.len() - i,
    {
        if taken[i] == id {
            return true;
        }
        i = i + 1;
    }
    false
}

/// Distinct positions in a list of `n` items number at most `n`.
proof fn lemma_distinct_positions(idx: Seq<int>, n: int)
    requires
        0 <= n,
        idx.no_duplicates(),
        forall|j: int| 0 <= j < idx.len() ==> 0 <= #[trigger] idx[j] < n,
    ensures
        idx.len() <= n,
{
    idx.unique_seq_to_set();
    vstd::set_lib::lemma_int_range(0, n);
    assert(idx.to_set().subset_of(vstd::set_lib::set_int_range(0, n)));
    vstd::set_lib::lemma_len_subset(idx.to_set(), vstd::set_lib::set_int_range(0, n));
}

/// A team id that `taken` does not hold: random ids are tried while they
/// collide, up to `TEAM_ID_ATTEMPTS` of them, and then the least free id.
pub fn allocate_team_id(taken: &Vec<TeamId>) -> (r: TeamId)
    requires
        taken@.len() < u32::MAX,
    ensures
        !taken@.contains(r),
{
    let mut attempts: u32 = 0;
    while attempts < TEAM_ID_ATTEMPTS
        decreases TEAM_ID_ATTEMPTS - attempts,
    {
        let candidate = random_team_id();
        if !holds_team_id(taken, candidate) {
            return candidate;
        }
        attempts = attempts + 1;
    }
    let n = taken.len();
    let ghost mut idx: Seq<int> = Seq::empty();
    let mut c: u32 = 0;
    while holds_team_id(taken, TeamId(c))
        invariant
            n == taken@.len(),
            n < u32::MAX,
            c <= n,
            idx.len() == c,
            idx.no_duplicates(),
            forall|j: int| 0 <= j < c ==> 0 <= #[trigger] idx[j] < n && taken@[idx[j]] == TeamId(j as u32),
        decreases n - c,
    {
        proof {
            let k = choose|k: int| 0 <= k < taken@.len() && taken@[k] == TeamId(c);
            let grown = idx.push(k);
            assert forall|a: int, b: int| 0 <= a < b < grown.len() implies grown[a] != grown[b] by {
                if b == idx.len() {
                    assert(taken@[grown[a]] == TeamId(a as u32));
                    assert(taken@[grown[b]] == TeamId(c));
                } else {
                    assert(idx[a] != idx[b]);
                }
            }
            assert forall|j: int| 0 <= j < c + 1 implies 0 <= #[trigger] grown[j] < n && taken@[grown[j]] == TeamId(
                j as u32,
            ) by {
                if j < c {
                    assert(grown[j] == idx[j]);
                }
            }
            lemma_distinct_positions(grown, n as int);
            idx = grown;
        }
        c = c + 1;
    }
    TeamId(c)
}

} // verus!
