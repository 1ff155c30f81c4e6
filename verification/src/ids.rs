//! Identifiers and names shared by the server's services.
use vstd::prelude::*;

verus! {

/// Identifies a player (real or bot).
#[derive(Copy, Clone, Debug, PartialEq, Eq, Hash, Structural)]
pub struct PlayerId(pub u32);

/// Identifies a team.
#[derive(Copy, Clone, Debug, PartialEq, Eq, Hash, Structural)]
pub struct TeamId(pub u32);

/// A player's display name.
#[derive(Debug)]
pub struct PlayerAlias(pub String);

impl View for PlayerAlias {
    type V = Seq<char>;

    open spec fn view(&self) -> Seq<char> {
        self.0@
    }
}

impl PlayerAlias {
    /// A copy of this alias.
    pub fn duplicate(&self) -> (r: Self)
        ensures
            r@ == self@,
    {
        PlayerAlias(self.0.clone())
    }
}

/// A team's display name.
#[derive(Debug)]
pub struct TeamName(pub String);

impl View for TeamName {
    type V = Seq<char>;

    open spec fn view(&self) -> Seq<char> {
        self.0@
    }
}

impl TeamName {
    /// A copy of this name.
    pub fn duplicate(&self) -> (r: Self)
        ensures
            r@ == self@,
    {
        TeamName(self.0.clone())
    }

    /// Whether the name has no characters.
    pub fn is_empty(&self) -> (r: bool)
        ensures
            r == (self@.len() == 0),
    {
        self.0.as_str().unicode_len() == 0
    }
}

/// Identifies a server; servers are ordered by this number.
#[derive(Copy, Clone, Debug, PartialEq, Eq, Hash, Structural)]
pub struct ServerId(pub u16);

/// A numbered tier of scenes (tiers are ordered by number, and the base
/// tier, written `None`, comes before all of them).
#[derive(Copy, Clone, Debug, PartialEq, Eq, Hash, Structural)]
pub struct TierNumber(pub u8);

/// One of several copies of a scene.
#[derive(Copy, Clone, Debug, PartialEq, Eq, Hash, Structural)]
pub struct InstanceNumber(pub u8);

/// Identifies an invitation.
#[derive(Copy, Clone, Debug, PartialEq, Eq, Hash, Structural)]
pub struct InvitationId(pub u32);

/// Identifies a realm: the public one, or a temporary one opened by an
/// invitation.
#[derive(Copy, Clone, Debug, PartialEq, Eq, Hash, Structural)]
pub enum RealmId {
    Public,
    Temporary(InvitationId),
}

/// A scene within a realm.
#[derive(Copy, Clone, Debug, PartialEq, Eq, Hash, Structural)]
pub struct SceneId {
    /// `None` is the base tier, below every numbered tier.
    pub tier_number: Option<TierNumber>,
    pub instance_number: InstanceNumber,
}

/// An arena: a scene of a realm.
#[derive(Copy, Clone, Debug, PartialEq, Eq, Hash, Structural)]
pub struct ArenaId {
    pub realm_id: RealmId,
    pub scene_id: SceneId,
}

/// A region of the world, for latency estimates.
#[derive(Copy, Clone, Debug, PartialEq, Eq, Hash, Structural)]
pub enum RegionId {
    Africa,
    Asia,
    Europe,
    NorthAmerica,
    Oceania,
    SouthAmerica,
}

/// A compass direction.
#[derive(Copy, Clone, Debug, PartialEq, Eq, Hash, Structural)]
pub enum Cardinal4 {
    North,
    East,
    South,
    West,
}


/// A randomly assigned group of players, for experiments.
#[derive(Copy, Clone, Debug, PartialEq, Eq, Hash, Structural)]
pub struct CohortId(pub u8);

/// The site that referred a player, by a number that stands for its domain.
#[derive(Copy, Clone, Debug, PartialEq, Eq, Hash, Structural)]
pub struct Referrer(pub u64);

/// The kind of browser or device of a player, by its code.
#[derive(Copy, Clone, Debug, PartialEq, Eq, Hash, Structural)]
pub struct UserAgentId(pub u8);

/// Whether a session is new or renewed.
#[derive(Copy, Clone, Debug, PartialEq, Eq, Hash, Structural)]
pub enum LifecycleId {
    New,
    Renewed,
}

/// A cross-section of the metrics.
#[derive(Copy, Clone, Debug, PartialEq, Eq, Hash, Structural)]
pub enum MetricFilter {
    CohortId(CohortId),
    Referrer(Referrer),
    RegionId(RegionId),
    UserAgentId(UserAgentId),
    LifecycleId(LifecycleId),
}


/// A moment, in milliseconds since the Unix epoch.
#[derive(Copy, Clone, Debug, PartialEq, Eq, Hash, Structural)]
pub struct UnixMillis(pub u64);

/// A language, by a number that stands for its code.
#[derive(Copy, Clone, Debug, PartialEq, Eq, Hash, Structural)]
pub struct LanguageId(pub u16);

} // verus!
