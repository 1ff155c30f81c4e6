//! A reference to a player by id or by alias.
use crate::ids::{PlayerAlias, PlayerId};
use vstd::prelude::*;

verus! {

/// Names a player either by id or by alias.
#[derive(Debug)]
pub enum PlayerIdOrAlias {
    Id(PlayerId),
    Alias(PlayerAlias),
}

impl PlayerIdOrAlias {
    /// The alias, if this names a player by alias.
    pub fn alias(&self) -> (r: Option<PlayerAlias>)
        ensures
            r is Some <==> self is Alias,
            r matches Some(a) ==> a@ == self->Alias_0@,
    {
        if let PlayerIdOrAlias::Alias(alias) = self {
            Some(alias.duplicate())
        } else {
            None
        }
    }

    /// The id, if this names a player by id.
    pub fn id(&self) -> (r: Option<PlayerId>)
        ensures
            r is Some <==> self is Id,
            r matches Some(id) ==> id == self->Id_0,
    {
        if let PlayerIdOrAlias::Id(id) = self {
            Some(*id)
        } else {
            None
        }
    }

    pub fn is_alias(&self) -> (r: bool)
        ensures
            r == (self is Alias),
    {
        matches!(self, PlayerIdOrAlias::Alias(_))
    }

    pub fn is_id(&self) -> (r: bool)
        ensures
            r == (self is Id),
    {
        matches!(self, PlayerIdOrAlias::Id(_))
    }
}

} // verus!
