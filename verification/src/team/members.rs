//! The members of a team, in order; the first is the leader.
use super::team::{Manifestation, Member};
use crate::ids::PlayerId;
use vstd::prelude::*;

verus! {

/// Members of a team, leader first.
#[derive(Debug)]
pub struct Members<M>(pub Vec<Member<M>>);

/// The player ids of a member sequence, in order.
pub open spec fn member_ids<M>(s: Seq<Member<M>>) -> Seq<PlayerId> {
    s.map_values(|m: Member<M>| m.player_id)
}

/// Whether some member has the id.
pub open spec fn has_member<M>(s: Seq<Member<M>>, id: PlayerId) -> bool {
    exists|i: int| 0 <= i < s.len() && #[trigger] s[i].player_id == id
}

/// The position of the first member with the id.
pub open spec fn member_index<M>(s: Seq<Member<M>>, id: PlayerId) -> int {
    choose|i: int|
        0 <= i < s.len() && s[i].player_id == id && forall|j: int| 0 <= j < i ==> #[trigger] s[j].player_id != id
}

/// No two members share a player id.
pub open spec fn unique_members<M>(s: Seq<Member<M>>) -> bool {
    forall|i: int, j: int| 0 <= i < j < s.len() ==> #[trigger] s[i].player_id != #[trigger] s[j].player_id
}

/// The first position of `id` is unique and is found by a left-to-right scan.
pub proof fn lemma_member_index<M>(s: Seq<Member<M>>, id: PlayerId, i: int)
    requires
        0 <= i < s.len(),
        s[i].player_id == id,
        forall|j: int| 0 <= j < i ==> #[trigger] s[j].player_id != id,
    ensures
        member_index(s, id) == i,
{
    let k = member_index(s, id);
    assert(0 <= k < s.len() && s[k].player_id == id && forall|j: int| 0 <= j < k ==> #[trigger] s[j].player_id != id);
    if k < i {
        assert(s[k].player_id != id);
    }
    if i < k {
        assert(s[i].player_id != id);
    }
}

/// Among unique members, the member with the id is found at its position.
pub proof fn lemma_member_index_of_unique<M>(s: Seq<Member<M>>, id: PlayerId, i: int)
    requires
        unique_members(s),
        0 <= i < s.len(),
        s[i].player_id == id,
    ensures
        member_index(s, id) == i,
{
    assert forall|j: int| 0 <= j < i implies #[trigger] s[j].player_id != id by {
        assert(s[j].player_id != s[i].player_id);
    }
    lemma_member_index(s, id, i);
}

impl<M> View for Members<M> {
    type V = Seq<Member<M>>;

    open spec fn view(&self) -> Seq<Member<M>> {
        self.0@
    }
}

impl<M> Default for Members<M> {
    fn default() -> (r: Self)
        ensures
            r@ == Seq::<Member<M>>::empty(),
    {
        Members(Vec::new())
    }
}

impl<M: Manifestation> Members<M> {
    pub fn contains(&self, player_id: PlayerId) -> (r: bool)
        ensures
            r == has_member(self@, player_id),
    {
        let mut i: usize = 0;
        while i < self.0.len()
            invariant
                i <= self@.len(),
                forall|j: int| 0 <= j < i ==> #[trigger] self@[j].player_id != player_id,
            decreases self@.len() - i,
        {
            if self.0[i].player_id == player_id {
                return true;
            }
            i = i + 1;
        }
        false
    }

    /// The members, leader first.
    pub fn iter(&self) -> (r: &[Member<M>])
        ensures
            r@ == self@,
    {
        self.0.as_slice()
    }

    /// The members, leader first, for changing in place.
    pub fn iter_mut(&mut self) -> (r: &mut Vec<Member<M>>)
        ensures
            *r == old(self).0,
            final(self).0 == *final(r),
    {
        &mut self.0
    }

    pub fn is_empty(&self) -> (r: bool)
        ensures
            r == (self@.len() == 0),
    {
        self.0.len() == 0
    }

    pub fn len(&self) -> (r: usize)
        ensures
            r == self@.len(),
    {
        self.0.len()
    }

    /// Adds a member at the end. The player must not already be a member.
    pub fn push(&mut self, member: Member<M>)
        requires
            !has_member(old(self)@, member.player_id),
        ensures
            final(self)@ == old(self)@.push(member),
    {
        self.0.push(member);
    }

    /// Removes the (first) member with the id, which must be a member.
    pub fn remove(&mut self, player_id: PlayerId)
        requires
            has_member(old(self)@, player_id),
        ensures
            final(self)@ == old(self)@.remove(member_index(old(self)@, player_id)),
    {
        let mut i: usize = 0;
        while i < self.0.len()
            invariant
                i <= self@.len(),
                self@ == old(self)@,
                has_member(self@, player_id),
                forall|j: int| 0 <= j < i ==> #[trigger] self@[j].player_id != player_id,
            decreases self@.len() - i,
        {
            if self.0[i].player_id == player_id {
                proof {
                    lemma_member_index(self@, player_id, i as int);
                }
                self.0.remove(i);
                return;
            }
            i = i + 1;
        }
        proof {
            let k = choose|k: int| 0 <= k < self@.len() && #[trigger] self@[k].player_id == player_id;
            assert(self@[k].player_id != player_id);
        }
    }
}

} // verus!
