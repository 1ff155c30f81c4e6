//! Invitations to play together: created by players (or for whole
//! temporary realms) and accepted by others.
use crate::ids::{ArenaId, InstanceNumber, InvitationId, PlayerId, RealmId, SceneId};
use crate::seq_util::{assoc, has_entry, lemma_assoc_at, lemma_assoc_push, lemma_assoc_remove, unique_keys};
use vstd::prelude::*;

verus! {

/// Where an invitation leads.
#[derive(Copy, Clone, Debug, PartialEq, Eq, Structural)]
pub struct Invitation {
    /// Sender arena id.
    pub arena_id: ArenaId,
    /// Sender (none for entire arenas, e.g. temporary realms).
    pub player_id: Option<PlayerId>,
}

/// An invitation as a player sees it.
#[derive(Copy, Clone, Debug, PartialEq, Eq, Structural)]
pub struct InvitationDto {
    pub player_id: PlayerId,
    pub invitation_id: InvitationId,
}

/// What a player is told about invitations.
#[derive(Copy, Clone, Debug, PartialEq, Eq, Structural)]
pub enum InvitationUpdate {
    /// The invitation now accepted (none to accept none).
    Accepted(Option<InvitationId>),
    /// The player's own invitation.
    Created(InvitationId),
}

/// What a player asks of invitations.
#[derive(Copy, Clone, Debug, PartialEq, Eq, Structural)]
pub enum InvitationRequest {
    /// Accept an invitation (none to accept none).
    Accept(Option<InvitationId>),
    /// Create (or recall) the player's own invitation.
    Create,
}

/// Why an invitation request failed.
#[derive(Copy, Clone, Debug, PartialEq, Eq, Structural)]
pub enum InvitationError {
    /// The invitation to accept does not lead to a player.
    NoSuchInvitation,
    /// No free invitation id was found.
    CouldNotCreate,
}

impl InvitationError {
    /// The message of the error.
    pub fn as_str(&self) -> (r: &'static str)
        ensures
            r@ == (match self {
                InvitationError::NoSuchInvitation => "no such invitation"@,
                InvitationError::CouldNotCreate => "could not create invitation id"@,
            }),
    {
        match self {
            InvitationError::NoSuchInvitation => "no such invitation",
            InvitationError::CouldNotCreate => "could not create invitation id",
        }
    }
}

/// Invitation related data stored in player.
#[derive(Debug)]
pub struct ClientInvitationData {
    /// Incoming invitation accepted by player.
    pub invitation_accepted: Option<InvitationDto>,
    /// Outgoing invitation created by player.
    pub invitation_created: Option<InvitationId>,
}

impl Default for ClientInvitationData {
    fn default() -> (r: Self)
        ensures
            r.invitation_accepted is None,
            r.invitation_created is None,
    {
        ClientInvitationData { invitation_accepted: None, invitation_created: None }
    }
}

impl ClientInvitationData {
    /// What a newly connected player is told: the invitation it accepted,
    /// if any.
    pub fn initializer(&self) -> (r: Option<InvitationUpdate>)
        ensures
            r == match self.invitation_accepted {
                Some(dto) => Some(InvitationUpdate::Accepted(Some(dto.invitation_id))),
                None => None,
            },
    {
        match self.invitation_accepted {
            Some(dto) => Some(InvitationUpdate::Accepted(Some(dto.invitation_id))),
            None => None,
        }
    }
}

/// How many ids are tried before giving up on creating an invitation.
pub const INVITATION_ATTEMPTS: u16 = 256;

/// Invitations, shared by all arenas (each id once).
pub struct InvitationRepo {
    invitations: Vec<(InvitationId, Invitation)>,
}

/// The invitation a temporary realm is reached by.
pub open spec fn temporary_invitation(id: InvitationId) -> Invitation {
    Invitation {
        arena_id: ArenaId {
            realm_id: RealmId::Temporary(id),
            scene_id: SceneId { tier_number: None, instance_number: InstanceNumber(0) },
        },
        player_id: None,
    }
}

/// The dto of an accepted invitation: the invitation must exist and lead to
/// a player.
pub open spec fn accepted_dto(m: Map<InvitationId, Invitation>, id: Option<InvitationId>) -> Option<InvitationDto> {
    match id {
        Some(id) => if m.contains_key(id) && m[id].player_id is Some {
            Some(InvitationDto { player_id: m[id].player_id->0, invitation_id: id })
        } else {
            None
        },
        None => None,
    }
}

/// What accepting an invitation answers: the accepted invitation, unless
/// one was named that does not lead to a player.
pub open spec fn accept_outcome(m: Map<InvitationId, Invitation>, id: Option<InvitationId>) -> Result<
    InvitationUpdate,
    InvitationError,
> {
    if id is None || accepted_dto(m, id) is Some {
        Ok(
            InvitationUpdate::Accepted(
                match accepted_dto(m, id) {
                    Some(dto) => Some(dto.invitation_id),
                    None => None,
                },
            ),
        )
    } else {
        Err(InvitationError::NoSuchInvitation)
    }
}

/// Whether a creation request was answered correctly: a player that has an
/// invitation gets it back; otherwise either a fresh id now leads to
/// `arena_id` from the player, or nothing changed and creation failed.
pub open spec fn create_outcome(
    old_m: Map<InvitationId, Invitation>,
    new_m: Map<InvitationId, Invitation>,
    old_created: Option<InvitationId>,
    new_created: Option<InvitationId>,
    arena_id: ArenaId,
    player_id: PlayerId,
    r: Result<InvitationUpdate, InvitationError>,
) -> bool {
    match old_created {
        Some(id) => r == Ok::<InvitationUpdate, InvitationError>(InvitationUpdate::Created(id)) && new_m == old_m
            && new_created == Some(id),
        None => match r {
            Ok(InvitationUpdate::Created(id)) => !old_m.contains_key(id) && new_m == old_m.insert(
                id,
                Invitation { arena_id, player_id: Some(player_id) },
            ) && new_created == Some(id),
            Ok(_) => false,
            Err(e) => e == InvitationError::CouldNotCreate && new_m == old_m && new_created is None,
        },
    }
}

/// An invitation that a player created can be accepted, and accepting it
/// names its creator.
pub proof fn law_created_can_be_accepted(
    m: Map<InvitationId, Invitation>,
    id: InvitationId,
    arena_id: ArenaId,
    player_id: PlayerId,
)
    ensures
        ({
            let m2 = m.insert(id, Invitation { arena_id, player_id: Some(player_id) });
            &&& accepted_dto(m2, Some(id)) == Some(InvitationDto { player_id, invitation_id: id })
            &&& accept_outcome(m2, Some(id)) == Ok::<InvitationUpdate, InvitationError>(
                InvitationUpdate::Accepted(Some(id)),
            )
        }),
{
}

/// A forgotten invitation, or one that leads to a temporary realm rather
/// than a player, cannot be accepted.
pub proof fn law_unacceptable_invitations(m: Map<InvitationId, Invitation>, id: InvitationId)
    ensures
        accept_outcome(m.remove(id), Some(id)) == Err::<InvitationUpdate, InvitationError>(
            InvitationError::NoSuchInvitation,
        ),
        accept_outcome(m.insert(id, temporary_invitation(id)), Some(id)) == Err::<InvitationUpdate, InvitationError>(
            InvitationError::NoSuchInvitation,
        ),
{
}

/// The invitations of a list of entries, by id.
pub open spec fn invitation_map(s: Seq<(InvitationId, Invitation)>) -> Map<InvitationId, Invitation> {
    assoc(s, |i: Invitation| i)
}

impl View for InvitationRepo {
    type V = Map<InvitationId, Invitation>;

    closed spec fn view(&self) -> Map<InvitationId, Invitation> {
        invitation_map(self.invitations@)
    }
}

impl Default for InvitationRepo {
    fn default() -> (r: Self)
        ensures
            r@ == Map::<InvitationId, Invitation>::empty(),
    {
        let r = InvitationRepo { invitations: Vec::new() };
        assert(r@ =~= Map::<InvitationId, Invitation>::empty());
        r
    }
}

impl InvitationRepo {
    #[verifier::type_invariant]
    spec fn well_formed(&self) -> bool {
        unique_keys(self.invitations@)
    }

    fn find(&self, invitation_id: InvitationId) -> (r: Option<usize>)
        ensures
            r is None <==> !self@.contains_key(invitation_id),
            r matches Some(i) ==> i < self.invitations@.len() && self.invitations@[i as int].0 == invitation_id
                && self@[invitation_id] == self.invitations@[i as int].1,
    {
        proof {
            use_type_invariant(self);
        }
        let mut i: usize = 0;
        while i < self.invitations.len()
            invariant
                i <= self.invitations@.len(),
                unique_keys(self.invitations@),
                forall|j: int| 0 <= j < i ==> #[trigger] self.invitations@[j].0 != invitation_id,
            decreases self.invitations@.len() - i,
        {
            if self.invitations[i].0 == invitation_id {
                proof {
                    lemma_assoc_at(self.invitations@, |i: Invitation| i, i as int);
                }
                return Some(i);
            }
            i = i + 1;
        }
        None
    }

    /// Looks up an invitation by id.
    pub fn get(&self, invitation_id: InvitationId) -> (r: Option<&Invitation>)
        ensures
            r is Some <==> self@.contains_key(invitation_id),
            r matches Some(inv) ==> *inv == self@[invitation_id],
    {
        match self.find(invitation_id) {
            Some(i) => Some(&self.invitations[i].1),
            None => None,
        }
    }

    /// How many invitations are cached.
    pub fn len(&self) -> (r: usize)
        ensures
            r == self@.len(),
    {
        proof {
            use_type_invariant(self);
            crate::seq_util::lemma_keys_len(self.invitations@);
            assert(self@.dom() =~= crate::seq_util::key_set(self.invitations@));
        }
        self.invitations.len()
    }

    /// Adds an invitation under a free id.
    fn insert_new(&mut self, invitation_id: InvitationId, invitation: Invitation)
        requires
            !old(self)@.contains_key(invitation_id),
        ensures
            final(self)@ == old(self)@.insert(invitation_id, invitation),
    {
        proof {
            use_type_invariant(&*self);
            lemma_assoc_push(self.invitations@, |i: Invitation| i, invitation_id, invitation);
        }
        let mut entries: Vec<(InvitationId, Invitation)> = Vec::new();
        let mut k: usize = 0;
        while k < self.invitations.len()
            invariant
                k <= self.invitations@.len(),
                entries@ == self.invitations@.subrange(0, k as int),
            decreases self.invitations@.len() - k,
        {
            entries.push(self.invitations[k]);
            k = k + 1;
        }
        entries.push((invitation_id, invitation));
        proof {
            assert(entries@ =~= self.invitations@.push((invitation_id, invitation)));
        }
        self.invitations = entries;
    }

    /// Reserves a fresh invitation id for a temporary realm, trying ids from
    /// `generate` until one is free; gives up after `INVITATION_ATTEMPTS`
    /// tries, each of which drew an id already taken (so it succeeds when
    /// `generate` cannot give a taken id). The realm is the temporary realm
    /// of that id.
    pub fn prepare_temporary_invitation<F: Fn() -> InvitationId>(&mut self, generate: F) -> (r: Option<InvitationId>)
        requires
            generate.requires(()),
        ensures
            r matches Some(id) ==> !old(self)@.contains_key(id) && final(self)@ == old(self)@.insert(
                id,
                temporary_invitation(id),
            ),
            r is None ==> final(self)@ == old(self)@,
            r is None ==> exists|id: InvitationId| #[trigger] generate.ensures((), id) && old(self)@.contains_key(id),
    {
        let mut tries: u16 = 0;
        while tries < INVITATION_ATTEMPTS
            invariant
                self@ == old(self)@,
                generate.requires(()),
                tries > 0 ==> exists|id: InvitationId| #[trigger] generate.ensures((), id) && old(self)@.contains_key(id),
            decreases INVITATION_ATTEMPTS - tries,
        {
            let invitation_id = generate();
            if self.find(invitation_id).is_none() {
                let invitation = Invitation {
                    arena_id: ArenaId {
                        realm_id: RealmId::Temporary(invitation_id),
                        scene_id: SceneId { tier_number: None, instance_number: InstanceNumber(0) },
                    },
                    player_id: None,
                };
                self.insert_new(invitation_id, invitation);
                return Some(invitation_id);
            }
            tries = tries + 1;
        }
        None
    }

    /// Forgets the invitation the player created, if any.
    pub fn forget_player_invitation(&mut self, client: &mut ClientInvitationData)
        ensures
            final(client).invitation_created is None,
            final(client).invitation_accepted == old(client).invitation_accepted,
            final(self)@ == match old(client).invitation_created {
                Some(id) => old(self)@.remove(id),
                None => old(self)@,
            },
    {
        if let Some(invitation_id) = client.invitation_created {
            if let Some(i) = self.find(invitation_id) {
                proof {
                    use_type_invariant(&*self);
                    lemma_assoc_remove(self.invitations@, |i: Invitation| i, i as int);
                }
                let entries = self.without_entry(i);
                self.invitations = entries;
            } else {
                proof {
                    assert(old(self)@.remove(invitation_id) =~= old(self)@);
                }
            }
            client.invitation_created = None;
        }
    }

    /// A copy of the entries without entry `i`.
    fn without_entry(&self, i: usize) -> (r: Vec<(InvitationId, Invitation)>)
        requires
            i < self.invitations@.len(),
        ensures
            r@ == self.invitations@.remove(i as int),
    {
        let mut r: Vec<(InvitationId, Invitation)> = Vec::new();
        let mut k: usize = 0;
        while k < self.invitations.len()
            invariant
                i < self.invitations@.len(),
                k <= self.invitations@.len(),
                r@ == if k <= i {
                    self.invitations@.subrange(0, k as int)
                } else {
                    self.invitations@.subrange(0, i as int) + self.invitations@.subrange(i + 1, k as int)
                },
            decreases self.invitations@.len() - k,
        {
            if k != i {
                r.push(self.invitations[k]);
            }
            proof {
                if k == i {
                    assert(self.invitations@.subrange(0, i as int) + self.invitations@.subrange(i + 1, k + 1) =~= self.invitations@.subrange(0, i as int));
                } else if k < i {
                    assert(self.invitations@.subrange(0, k + 1) =~= self.invitations@.subrange(0, k as int).push(self.invitations@[k as int]));
                } else {
                    assert(self.invitations@.subrange(0, i as int) + self.invitations@.subrange(i + 1, k + 1) =~= (self.invitations@.subrange(0, i as int) + self.invitations@.subrange(i + 1, k as int)).push(self.invitations@[k as int]));
                }
            }
            k = k + 1;
        }
        proof {
            assert(r@ =~= self.invitations@.remove(i as int));
        }
        r
    }

    /// Forgets every invitation to an arena.
    pub fn forget_arena_invitations(&mut self, arena_id: ArenaId)
        ensures
            final(self)@ == old(self)@.restrict(old(self)@.dom().filter(|id: InvitationId| old(self)@[id].arena_id != arena_id)),
    {
        proof {
            use_type_invariant(&*self);
        }
        let ghost m0 = self@;
        let ghost s0 = self.invitations@;
        let mut kept: Vec<(InvitationId, Invitation)> = Vec::new();
        let mut k: usize = 0;
        while k < self.invitations.len()
            invariant
                k <= s0.len(),
                s0 == self.invitations@,
                unique_keys(s0),
                m0 == invitation_map(s0),
                unique_keys(kept@),
                forall|j: int| 0 <= j < kept@.len() ==> exists|a: int| 0 <= a < k && s0[a] == #[trigger] kept@[j],
                forall|j: int| 0 <= j < kept@.len() ==> (#[trigger] kept@[j]).1.arena_id != arena_id,
                forall|a: int| 0 <= a < k && (#[trigger] s0[a]).1.arena_id != arena_id ==> has_entry(kept@, s0[a].0),
            decreases s0.len() - k,
        {
            let entry = self.invitations[k];
            if entry.1.arena_id != arena_id {
                proof {
                    assert(!has_entry(kept@, entry.0)) by {
                        if has_entry(kept@, entry.0) {
                            let j = choose|j: int| 0 <= j < kept@.len() && #[trigger] kept@[j].0 == entry.0;
                            let a = choose|a: int| 0 <= a < k && s0[a] == #[trigger] kept@[j];
                            assert(s0[a].0 == s0[k as int].0);
                        }
                    }
                    lemma_assoc_push(kept@, |i: Invitation| i, entry.0, entry.1);
                }
                let ghost old_kept = kept@;
                kept.push(entry);
                proof {
                    assert forall|a: int| 0 <= a < k + 1 && (#[trigger] s0[a]).1.arena_id != arena_id implies has_entry(kept@, s0[a].0) by {
                        if a == k {
                            assert(kept@[kept@.len() - 1].0 == s0[a].0);
                        } else {
                            assert(has_entry(old_kept, s0[a].0));
                            let j = choose|j: int| 0 <= j < old_kept.len() && #[trigger] old_kept[j].0 == s0[a].0;
                            assert(kept@[j] == old_kept[j]);
                        }
                    }
                    assert forall|j: int| 0 <= j < kept@.len() implies exists|a: int| 0 <= a < k + 1 && s0[a] == #[trigger] kept@[j] by {
                        if j == kept@.len() - 1 {
                            assert(s0[k as int] == kept@[j]);
                        } else {
                            let a = choose|a: int| 0 <= a < k && s0[a] == #[trigger] kept@[j];
                            assert(0 <= a < k + 1 && s0[a] == kept@[j]);
                        }
                    }
                }
            }
            k = k + 1;
        }
        let ghost target = m0.restrict(m0.dom().filter(|id: InvitationId| m0[id].arena_id != arena_id));
        proof {
            assert forall|id: InvitationId| #[trigger] invitation_map(kept@).contains_key(id) <==> target.contains_key(id) by {
                if has_entry(kept@, id) {
                    let j = choose|j: int| 0 <= j < kept@.len() && #[trigger] kept@[j].0 == id;
                    let a = choose|a: int| 0 <= a < s0.len() && s0[a] == #[trigger] kept@[j];
                    lemma_assoc_at(s0, |i: Invitation| i, a);
                }
                if target.contains_key(id) {
                    let a = choose|a: int| 0 <= a < s0.len() && #[trigger] s0[a].0 == id;
                    lemma_assoc_at(s0, |i: Invitation| i, a);
                    assert(s0[a].1.arena_id != arena_id);
                }
            }
            assert forall|id: InvitationId| #[trigger] invitation_map(kept@).contains_key(id) implies invitation_map(kept@)[id] == target[id] by {
                let j = choose|j: int| 0 <= j < kept@.len() && #[trigger] kept@[j].0 == id;
                let a = choose|a: int| 0 <= a < s0.len() && s0[a] == #[trigger] kept@[j];
                lemma_assoc_at(s0, |i: Invitation| i, a);
                lemma_assoc_at(kept@, |i: Invitation| i, j);
            }
            assert(invitation_map(kept@) =~= target);
        }
        self.invitations = kept;
    }

    /// Accepts an invitation for a player (or accepts none). The player
    /// learns it was invited if the invitation leads to a player. Fails
    /// when an invitation was named but does not lead to a player.
    pub fn accept(
        &self,
        client: &mut ClientInvitationData,
        invited: &mut bool,
        invitation_id: Option<InvitationId>,
    ) -> (r: Result<InvitationUpdate, InvitationError>)
        ensures
            final(client).invitation_accepted == accepted_dto(self@, invitation_id),
            final(client).invitation_created == old(client).invitation_created,
            *final(invited) == (*old(invited) || accepted_dto(self@, invitation_id) is Some),
            r == accept_outcome(self@, invitation_id),
    {
        let dto = match invitation_id {
            Some(id) => match self.get(id) {
                Some(invitation) => match invitation.player_id {
                    Some(player_id) => Some(InvitationDto { player_id, invitation_id: id }),
                    None => None,
                },
                None => None,
            },
            None => None,
        };
        client.invitation_accepted = dto;
        *invited = *invited || dto.is_some();
        if invitation_id.is_none() || dto.is_some() {
            Ok(InvitationUpdate::Accepted(
                match dto {
                    Some(d) => Some(d.invitation_id),
                    None => None,
                },
            ))
        } else {
            Err(InvitationError::NoSuchInvitation)
        }
    }

    /// Gives a player an invitation of its own to `arena_id`: the one it
    /// already created, else a fresh id from `generate` (tried up to
    /// `INVITATION_ATTEMPTS` times).
    pub fn create<F: Fn() -> InvitationId>(
        &mut self,
        client: &mut ClientInvitationData,
        req_player_id: PlayerId,
        arena_id: ArenaId,
        generate: F,
    ) -> (r: Result<InvitationUpdate, InvitationError>)
        requires
            generate.requires(()),
        ensures
            final(client).invitation_accepted == old(client).invitation_accepted,
            create_outcome(
                old(self)@,
                final(self)@,
                old(client).invitation_created,
                final(client).invitation_created,
                arena_id,
                req_player_id,
                r,
            ),
    {
        if let Some(invitation_id) = client.invitation_created {
            return Ok(InvitationUpdate::Created(invitation_id));
        }
        let mut tries: u16 = 0;
        while tries < INVITATION_ATTEMPTS
            invariant
                self@ == old(self)@,
                *client == *old(client),
                old(client).invitation_created is None,
                generate.requires(()),
            decreases INVITATION_ATTEMPTS - tries,
        {
            let invitation_id = generate();
            if self.find(invitation_id).is_none() {
                self.insert_new(invitation_id, Invitation { arena_id, player_id: Some(req_player_id) });
                client.invitation_created = Some(invitation_id);
                return Ok(InvitationUpdate::Created(invitation_id));
            }
            tries = tries + 1;
        }
        Err(InvitationError::CouldNotCreate)
    }

    /// Answers an invitation request (see `accept` and `create`).
    pub fn handle_invitation_request<F: Fn() -> InvitationId>(
        &mut self,
        client: &mut ClientInvitationData,
        invited: &mut bool,
        player_id: PlayerId,
        request: InvitationRequest,
        arena_id: ArenaId,
        generate: F,
    ) -> (r: Result<InvitationUpdate, InvitationError>)
        requires
            generate.requires(()),
        ensures
            request matches InvitationRequest::Accept(id) ==> final(self)@ == old(self)@
                && final(client).invitation_accepted == accepted_dto(old(self)@, id)
                && final(client).invitation_created == old(client).invitation_created
                && *final(invited) == (*old(invited) || accepted_dto(old(self)@, id) is Some)
                && r == accept_outcome(old(self)@, id),
            request is Create ==> *final(invited) == *old(invited) && final(client).invitation_accepted
                == old(client).invitation_accepted && create_outcome(
                old(self)@,
                final(self)@,
                old(client).invitation_created,
                final(client).invitation_created,
                arena_id,
                player_id,
                r,
            ),
    {
        match request {
            InvitationRequest::Accept(invitation_id) => self.accept(client, invited, invitation_id),
            InvitationRequest::Create => self.create(client, player_id, arena_id, generate),
        }
    }
}

} // verus!
