//! Whether a connecting client is let in, and as which player.
use crate::ids::PlayerId;
use vstd::prelude::*;

verus! {

/// Why a client was not let in.
#[derive(Copy, Clone, Debug, PartialEq, Eq, Structural)]
pub enum ClientAuthErr {
    TooManyRequests,
    UnsanctionedRealm,
    UnsanctionedArena,
    UnsanctionedServer,
    TooManyPlayers,
}

/// How long a redirecting server still lets new players in, in
/// milliseconds.
pub const REDIRECT_GRACE_MILLIS: u64 = 300_000;

/// The first of `candidates` that `taken` does not hold.
pub open spec fn first_free(candidates: Seq<PlayerId>, taken: Seq<PlayerId>) -> Option<PlayerId>
    decreases candidates.len(),
{
    if candidates.len() == 0 {
        None
    } else if !taken.contains(candidates[0]) {
        Some(candidates[0])
    } else {
        first_free(candidates.drop_first(), taken)
    }
}

/// The outcome of a client's authentication: refused when its address is
/// rate limited, or its arena is not here; a returning player keeps its
/// id; a new player is refused by a server that has been redirecting its
/// players for longer than the grace period, and otherwise gets the first
/// free client id, if any.
pub open spec fn authentication(
    rate_limited: bool,
    arena_found: bool,
    existing: Option<PlayerId>,
    redirecting_for: Option<u64>,
    candidates: Seq<PlayerId>,
    taken: Seq<PlayerId>,
) -> Result<PlayerId, ClientAuthErr> {
    if rate_limited {
        Err(ClientAuthErr::TooManyRequests)
    } else if !arena_found {
        Err(ClientAuthErr::UnsanctionedArena)
    } else if let Some(p) = existing {
        Ok(p)
    } else if redirecting_for matches Some(d) && d > REDIRECT_GRACE_MILLIS {
        Err(ClientAuthErr::UnsanctionedServer)
    } else {
        match first_free(candidates, taken) {
            Some(p) => Ok(p),
            None => Err(ClientAuthErr::TooManyPlayers),
        }
    }
}

fn holds_player(taken: &Vec<PlayerId>, id: PlayerId) -> (r: bool)
    ensures
        r == taken@.contains(id),
{
    let mut i: usize = 0;
    while i < taken.len()
        invariant
            i <= taken@.len(),
            forall|j: int| 0 <= j < i ==> #[trigger] taken@[j] != id,
        decreases taken@.len() - i,
    {
        if taken[i] == id {
            return true;
        }
        i = i + 1;
    }
    false
}

/// Authenticates a client (see `authentication`). `redirecting_for` is how
/// long the server has been redirecting its players, if it is;
/// `candidates` are the client ids in the order they are handed out and
/// `taken` the ids of the arena's players.
pub fn authenticate(
    rate_limited: bool,
    arena_found: bool,
    existing: Option<PlayerId>,
    redirecting_for: Option<u64>,
    candidates: &Vec<PlayerId>,
    taken: &Vec<PlayerId>,
) -> (r: Result<PlayerId, ClientAuthErr>)
    ensures
        r == authentication(rate_limited, arena_found, existing, redirecting_for, candidates@, taken@),
{
    if rate_limited {
        return Err(ClientAuthErr::TooManyRequests);
    }
    if !arena_found {
        return Err(ClientAuthErr::UnsanctionedArena);
    }
    if let Some(p) = existing {
        return Ok(p);
    }
    match redirecting_for {
        Some(d) => {
            if d > REDIRECT_GRACE_MILLIS {
                return Err(ClientAuthErr::UnsanctionedServer);
            }
        },
        None => {},
    }
    let mut i: usize = 0;
    proof {
        assert(candidates@.subrange(0, candidates@.len() as int) =~= candidates@);
    }
    while i < candidates.len()
        invariant
            i <= candidates@.len(),
            !rate_limited,
            arena_found,
            existing is None,
            !(redirecting_for matches Some(d) && d > REDIRECT_GRACE_MILLIS),
            first_free(candidates@, taken@) == first_free(candidates@.subrange(i as int, candidates@.len() as int), taken@),
        decreases candidates@.len() - i,
    {
        let c = candidates[i];
        proof {
            let rest = candidates@.subrange(i as int, candidates@.len() as int);
            assert(rest[0] == c);
            assert(rest.drop_first() =~= candidates@.subrange(i + 1, candidates@.len() as int));
        }
        if !holds_player(taken, c) {
            return Ok(c);
        }
        i = i + 1;
    }
    proof {
        assert(candidates@.subrange(i as int, candidates@.len() as int) =~= Seq::<PlayerId>::empty());
    }
    Err(ClientAuthErr::TooManyPlayers)
}

/// Since when the server has been redirecting its players: set when it
/// starts, kept while it goes on, cleared when it stops.
pub open spec fn redirecting_since(prev: Option<u64>, redirected: bool, now: u64) -> Option<u64> {
    if prev is Some == redirected {
        prev
    } else if redirected {
        Some(now)
    } else {
        None
    }
}

/// Updates when the server started redirecting, as its role changes at
/// `now` (see `redirecting_since`).
pub fn update_redirecting_since(since: &mut Option<u64>, redirected: bool, now: u64)
    ensures
        *final(since) == redirecting_since(*old(since), redirected, now),
{
    if since.is_some() != redirected {
        *since = if redirected {
            Some(now)
        } else {
            None
        };
    }
}

} // verus!
