//! What the server knows of a player's session: identity, roles and claims.
use crate::clock::now_millis;
use crate::ids::{ArenaId, PlayerId, UnixMillis};
use crate::seq_util::{assoc, has_entry, lemma_assoc_at, lemma_assoc_push, lemma_assoc_set, unique_keys};
use vstd::prelude::*;

verus! {

/// A claim's scope and key, by a number that stands for them.
#[derive(Copy, Clone, Debug, PartialEq, Eq, Hash, Structural)]
pub struct ScopeClaimKey(pub u64);

/// The value of a claim.
#[derive(Copy, Clone, Debug, PartialEq, Eq, Structural)]
pub struct ClaimValue {
    pub value: u64,
    /// When the claim stops holding, if ever.
    pub date_expires: Option<UnixMillis>,
    pub date_updated: UnixMillis,
}

/// Claims received from the database plus local updates (each key once).
#[derive(Debug)]
pub struct ClaimSubset {
    pub claims: Vec<(ScopeClaimKey, ClaimValue)>,
    pub date_synchronized: UnixMillis,
}

/// A player's session.
#[derive(Debug)]
pub struct SessionData {
    /// Database session id.
    pub session_token: Option<u64>,
    /// Database visitor id.
    pub visitor_id: Option<u64>,
    /// Nick name from the database.
    pub nick_name: Option<String>,
    /// Include this visitor in the active set sent to the database.
    pub active_heartbeat: bool,
    /// User, not just visitor.
    pub user: bool,
    /// Is admin (developer).
    pub admin: bool,
    /// Is moderator for in-game chat?
    pub moderator: bool,
    /// Claims received from the database + local updates.
    pub claims: ClaimSubset,
}

/// The claims by key.
pub open spec fn claim_map(claims: Seq<(ScopeClaimKey, ClaimValue)>) -> Map<ScopeClaimKey, ClaimValue> {
    assoc(claims, |v: ClaimValue| v)
}

/// Whether a claim still holds at time `now`.
pub open spec fn live_at(v: ClaimValue, now: UnixMillis) -> bool {
    match v.date_expires {
        Some(exp) => exp.0 > now.0,
        None => true,
    }
}

/// The claim under `key` at time `now`: present and not yet expired.
pub open spec fn claim_at(claims: Seq<(ScopeClaimKey, ClaimValue)>, key: ScopeClaimKey, now: UnixMillis) -> Option<
    ClaimValue,
> {
    let m = claim_map(claims);
    if m.contains_key(key) && live_at(m[key], now) {
        Some(m[key])
    } else {
        None
    }
}

/// The claims updated at or after `since`, in order.
pub open spec fn fresh_claims(claims: Seq<(ScopeClaimKey, ClaimValue)>, since: UnixMillis) -> Seq<
    (ScopeClaimKey, ClaimValue),
>
    decreases claims.len(),
{
    if claims.len() == 0 {
        Seq::empty()
    } else if claims.last().1.date_updated.0 >= since.0 {
        fresh_claims(claims.drop_last(), since).push(claims.last())
    } else {
        fresh_claims(claims.drop_last(), since)
    }
}

/// Some entry among the first `i` has key `k`.
pub open spec fn seen<V>(s: Seq<(ScopeClaimKey, V)>, i: int, k: ScopeClaimKey) -> bool {
    exists|j: int| 0 <= j < i && #[trigger] s[j].0 == k
}

/// `m1` is `m0` with `fresh` set under `key` at `now`: merged (the merge
/// may give this result) into a claim that still holds, otherwise replacing
/// or adding it; other claims are untouched.
pub open spec fn claim_updated<F: Fn(ScopeClaimKey, ClaimValue, ClaimValue) -> ClaimValue>(
    m0: Map<ScopeClaimKey, ClaimValue>,
    m1: Map<ScopeClaimKey, ClaimValue>,
    key: ScopeClaimKey,
    fresh: ClaimValue,
    now: UnixMillis,
    merge: F,
) -> bool {
    &&& m1.dom() == m0.dom().insert(key)
    &&& forall|k: ScopeClaimKey| #[trigger] m0.contains_key(k) && k != key ==> m1[k] == m0[k]
    &&& if m0.contains_key(key) && live_at(m0[key], now) {
        merge.ensures((key, m0[key], fresh), m1[key])
    } else {
        m1[key] == fresh
    }
}

/// The claims that hold at `now`, by key.
pub open spec fn live_claims(claims: Seq<(ScopeClaimKey, ClaimValue)>, now: UnixMillis) -> Map<ScopeClaimKey, ClaimValue> {
    let m = claim_map(claims);
    m.restrict(m.dom().filter(|k: ScopeClaimKey| live_at(m[k], now)))
}

/// What a client that knows the claims `prev` is sent so that it knows
/// `live`: each key it knows that no longer holds, as `None`, and each key
/// that holds and is new to it or changed, with its value.
pub open spec fn claims_delta(prev: Map<ScopeClaimKey, ClaimValue>, live: Map<ScopeClaimKey, ClaimValue>) -> Map<
    ScopeClaimKey,
    Option<ClaimValue>,
> {
    Map::new(
        |k: ScopeClaimKey|
            (prev.contains_key(k) && !live.contains_key(k)) || (live.contains_key(k) && (!prev.contains_key(k)
                || prev[k] != live[k])),
        |k: ScopeClaimKey|
            if live.contains_key(k) {
                Some(live[k])
            } else {
                None
            },
    )
}

/// The claims a client knows after applying `delta` to `prev`.
pub open spec fn apply_claims_delta(
    prev: Map<ScopeClaimKey, ClaimValue>,
    delta: Map<ScopeClaimKey, Option<ClaimValue>>,
) -> Map<ScopeClaimKey, ClaimValue> {
    Map::new(
        |k: ScopeClaimKey|
            if delta.contains_key(k) {
                delta[k] is Some
            } else {
                prev.contains_key(k)
            },
        |k: ScopeClaimKey|
            if delta.contains_key(k) {
                delta[k].unwrap()
            } else {
                prev[k]
            },
    )
}

/// A client that applies the claims sent to it to those it knew then knows
/// exactly the claims that hold.
pub proof fn law_claims_delta_catches_up(prev: Map<ScopeClaimKey, ClaimValue>, live: Map<ScopeClaimKey, ClaimValue>)
    ensures
        apply_claims_delta(prev, claims_delta(prev, live)) == live,
{
    assert(apply_claims_delta(prev, claims_delta(prev, live)) =~= live);
}

/// The entries of a delta by key.
pub open spec fn delta_map(d: Seq<(ScopeClaimKey, Option<ClaimValue>)>) -> Map<ScopeClaimKey, Option<ClaimValue>> {
    assoc(d, |v: Option<ClaimValue>| v)
}

/// Claims a player's session sends to the database.
#[derive(Debug)]
pub struct ClaimUpdateDto {
    pub visitor_id: u64,
    pub claims: ClaimSubset,
    pub arena_id: ArenaId,
    pub player_id: PlayerId,
}

impl SessionData {
    /// The claim under `key` at time `now`, unless absent or expired.
    pub fn claim_with_now(&self, key: ScopeClaimKey, now: UnixMillis) -> (r: Option<ClaimValue>)
        requires
            unique_keys(self.claims.claims@),
        ensures
            r == claim_at(self.claims.claims@, key, now),
    {
        let claims = &self.claims.claims;
        let mut i: usize = 0;
        while i < claims.len()
            invariant
                i <= claims@.len(),
                claims@ == self.claims.claims@,
                unique_keys(claims@),
                forall|j: int| 0 <= j < i ==> #[trigger] claims@[j].0 != key,
            decreases claims@.len() - i,
        {
            if claims[i].0 == key {
                let c = claims[i].1;
                proof {
                    lemma_assoc_at(claims@, |v: ClaimValue| v, i as int);
                    assert(claim_map(claims@).contains_key(key));
                    assert(claim_map(claims@)[key] == c);
                }
                let live = match c.date_expires {
                    Some(exp) => exp.0 > now.0,
                    None => true,
                };
                if live {
                    return Some(c);
                } else {
                    return None;
                }
            }
            i = i + 1;
        }
        proof {
            assert(!claim_map(claims@).contains_key(key)) by {
                if claim_map(claims@).contains_key(key) {
                    let a = choose|a: int| 0 <= a < claims@.len() && #[trigger] claims@[a].0 == key;
                    assert(claims@[a].0 != key);
                }
            }
        }
        None
    }

    /// The claims updated since the session last synchronized with the
    /// database, stamped `date_synchronized`; `None` when there are none or
    /// the visitor is not known.
    pub fn claim_update(&self, date_synchronized: UnixMillis, arena_id: ArenaId, player_id: PlayerId) -> (r: Option<
        ClaimUpdateDto,
    >)
        ensures
            r is Some <==> (self.visitor_id is Some && fresh_claims(
                self.claims.claims@,
                self.claims.date_synchronized,
            ).len() > 0),
            r matches Some(u) ==> {
                &&& Some(u.visitor_id) == self.visitor_id
                &&& u.claims.claims@ == fresh_claims(self.claims.claims@, self.claims.date_synchronized)
                &&& u.claims.date_synchronized == date_synchronized
                &&& u.arena_id == arena_id
                &&& u.player_id == player_id
            },
    {
        let since = self.claims.date_synchronized;
        let claims = &self.claims.claims;
        let mut fresh: Vec<(ScopeClaimKey, ClaimValue)> = Vec::new();
        let mut i: usize = 0;
        while i < claims.len()
            invariant
                i <= claims@.len(),
                claims@ == self.claims.claims@,
                since == self.claims.date_synchronized,
                fresh@ == fresh_claims(claims@.subrange(0, i as int), since),
            decreases claims@.len() - i,
        {
            proof {
                assert(claims@.subrange(0, i + 1).drop_last() =~= claims@.subrange(0, i as int));
            }
            if claims[i].1.date_updated.0 >= since.0 {
                fresh.push(claims[i]);
            }
            i = i + 1;
        }
        proof {
            assert(claims@.subrange(0, claims@.len() as int) =~= claims@);
        }
        if fresh.len() == 0 {
            return None;
        }
        match self.visitor_id {
            Some(visitor_id) => Some(
                ClaimUpdateDto {
                    visitor_id,
                    claims: ClaimSubset { claims: fresh, date_synchronized },
                    arena_id,
                    player_id,
                },
            ),
            None => None,
        }
    }

    /// Sets the claim under `key` locally at `now` to `value` (expiring at
    /// `date_expires`, updated `now`): merged (by `merge`) into a claim that
    /// still holds, otherwise replacing or adding it.
    pub fn update_claim_with_now<F: Fn(ScopeClaimKey, ClaimValue, ClaimValue) -> ClaimValue>(
        &mut self,
        key: ScopeClaimKey,
        value: u64,
        date_expires: Option<UnixMillis>,
        now: UnixMillis,
        merge: F,
    )
        requires
            unique_keys(old(self).claims.claims@),
            forall|k: ScopeClaimKey, a: ClaimValue, b: ClaimValue| #[trigger] merge.requires((k, a, b)),
        ensures
            final(self).session_token == old(self).session_token,
            final(self).visitor_id == old(self).visitor_id,
            final(self).nick_name == old(self).nick_name,
            final(self).active_heartbeat == old(self).active_heartbeat,
            final(self).user == old(self).user,
            final(self).admin == old(self).admin,
            final(self).moderator == old(self).moderator,
            final(self).claims.date_synchronized == old(self).claims.date_synchronized,
            unique_keys(final(self).claims.claims@),
            claim_updated(
                claim_map(old(self).claims.claims@),
                claim_map(final(self).claims.claims@),
                key,
                ClaimValue { value, date_expires, date_updated: now },
                now,
                merge,
            ),
    {
        let fresh = ClaimValue { value, date_expires, date_updated: now };
        let ghost before = self.claims.claims@;
        let mut found: Option<usize> = None;
        let mut a: usize = 0;
        while a < self.claims.claims.len() && found.is_none()
            invariant
                a <= before.len(),
                before == self.claims.claims@,
                found matches Some(x) ==> x < before.len() && before[x as int].0 == key,
                found is None ==> forall|b: int| 0 <= b < a ==> #[trigger] before[b].0 != key,
            decreases before.len() - a, if found is None { 1int } else { 0int },
        {
            if self.claims.claims[a].0 == key {
                found = Some(a);
            } else {
                a = a + 1;
            }
        }
        match found {
            Some(a) => {
                let existing = self.claims.claims[a].1;
                proof {
                    lemma_assoc_at(before, |v: ClaimValue| v, a as int);
                }
                let live = match existing.date_expires {
                    Some(exp) => exp.0 > now.0,
                    None => true,
                };
                let v = if live {
                    merge(key, existing, fresh)
                } else {
                    fresh
                };
                proof {
                    lemma_assoc_set(before, |v: ClaimValue| v, a as int, v);
                    assert(claim_map(before).dom().insert(key) =~= claim_map(before).dom());
                }
                self.claims.claims.set(a, (key, v));
            },
            None => {
                proof {
                    assert(!has_entry(before, key)) by {
                        if has_entry(before, key) {
                            let b = choose|b: int| 0 <= b < before.len() && #[trigger] before[b].0 == key;
                            assert(before[b].0 != key);
                        }
                    }
                    lemma_assoc_push(before, |v: ClaimValue| v, key, fresh);
                }
                self.claims.claims.push((key, fresh));
            },
        }
    }

    /// Sets the claim under `key` locally, now (by the system clock); see
    /// `update_claim_with_now`.
    pub fn update_claim<F: Fn(ScopeClaimKey, ClaimValue, ClaimValue) -> ClaimValue>(
        &mut self,
        key: ScopeClaimKey,
        value: u64,
        date_expires: Option<UnixMillis>,
        merge: F,
    )
        requires
            unique_keys(old(self).claims.claims@),
            forall|k: ScopeClaimKey, a: ClaimValue, b: ClaimValue| #[trigger] merge.requires((k, a, b)),
        ensures
            final(self).session_token == old(self).session_token,
            final(self).visitor_id == old(self).visitor_id,
            final(self).nick_name == old(self).nick_name,
            final(self).active_heartbeat == old(self).active_heartbeat,
            final(self).user == old(self).user,
            final(self).admin == old(self).admin,
            final(self).moderator == old(self).moderator,
            final(self).claims.date_synchronized == old(self).claims.date_synchronized,
            unique_keys(final(self).claims.claims@),
            exists|now: UnixMillis|
                #[trigger] claim_updated(
                    claim_map(old(self).claims.claims@),
                    claim_map(final(self).claims.claims@),
                    key,
                    ClaimValue { value, date_expires, date_updated: now },
                    now,
                    merge,
                ),
    {
        let now = now_millis();
        self.update_claim_with_now(key, value, date_expires, now, merge);
    }

    /// The claims to send a client that was last sent `prev`, so that it
    /// knows the claims holding at `now` (see `claims_delta`); `prev`
    /// becomes those claims.
    pub fn claims_diff(&self, prev: &mut Vec<(ScopeClaimKey, ClaimValue)>, now: UnixMillis) -> (r: Vec<
        (ScopeClaimKey, Option<ClaimValue>),
    >)
        requires
            unique_keys(self.claims.claims@),
            unique_keys(old(prev)@),
        ensures
            unique_keys(final(prev)@),
            claim_map(final(prev)@) == live_claims(self.claims.claims@, now),
            unique_keys(r@),
            delta_map(r@) == claims_delta(claim_map(old(prev)@), live_claims(self.claims.claims@, now)),
    {
        let ghost p0 = prev@;
        let ghost m0 = claim_map(p0);
        let ghost cs = self.claims.claims@;
        let ghost live = live_claims(cs, now);
        let mut old_prev: Vec<(ScopeClaimKey, ClaimValue)> = Vec::new();
        std::mem::swap(&mut old_prev, prev);
        let mut kept: Vec<(ScopeClaimKey, ClaimValue)> = Vec::new();
        let mut diff: Vec<(ScopeClaimKey, Option<ClaimValue>)> = Vec::new();
        let mut i: usize = 0;
        while i < old_prev.len()
            invariant
                old_prev@ == p0,
                unique_keys(p0),
                m0 == claim_map(p0),
                cs == self.claims.claims@,
                unique_keys(cs),
                live == live_claims(cs, now),
                i <= p0.len(),
                unique_keys(kept@),
                unique_keys(diff@),
                claim_map(kept@) == m0.restrict(Set::new(|k: ScopeClaimKey| seen(p0, i as int, k) && live.contains_key(k))),
                delta_map(diff@) == Map::new(
                    |k: ScopeClaimKey| seen(p0, i as int, k) && !live.contains_key(k),
                    |k: ScopeClaimKey| None::<ClaimValue>,
                ),
            decreases p0.len() - i,
        {
            let (key, value) = old_prev[i];
            proof {
                lemma_assoc_at(p0, |v: ClaimValue| v, i as int);
                assert forall|k: ScopeClaimKey| #[trigger] seen(p0, i + 1, k) <==> (k == key || seen(p0, i as int, k)) by {
                    if seen(p0, i + 1, k) {
                        let j = choose|j: int| 0 <= j < i + 1 && #[trigger] p0[j].0 == k;
                        if j < i {
                            assert(p0[j].0 == k);
                        }
                    }
                    if k == key {
                        assert(p0[i as int].0 == k);
                    }
                    if seen(p0, i as int, k) {
                        let j = choose|j: int| 0 <= j < i && #[trigger] p0[j].0 == k;
                        assert(p0[j].0 == k);
                    }
                }
                assert(!seen(p0, i as int, key)) by {
                    if seen(p0, i as int, key) {
                        let j = choose|j: int| 0 <= j < i && #[trigger] p0[j].0 == key;
                        assert(p0[j].0 != p0[i as int].0);
                    }
                }
            }
            let holds = self.claim_with_now(key, now).is_some();
            proof {
                assert(holds == live.contains_key(key));
            }
            if holds {
                proof {
                    assert(!claim_map(kept@).contains_key(key));
                    lemma_assoc_push(kept@, |v: ClaimValue| v, key, value);
                }
                kept.push((key, value));
                proof {
                    assert(claim_map(kept@) =~= m0.restrict(Set::new(|k: ScopeClaimKey| seen(p0, i + 1, k) && live.contains_key(k))));
                    assert(delta_map(diff@) =~= Map::new(
                        |k: ScopeClaimKey| seen(p0, i + 1, k) && !live.contains_key(k),
                        |k: ScopeClaimKey| None::<ClaimValue>,
                    ));
                }
            } else {
                proof {
                    assert(!delta_map(diff@).contains_key(key));
                    lemma_assoc_push(diff@, |v: Option<ClaimValue>| v, key, None::<ClaimValue>);
                }
                diff.push((key, None));
                proof {
                    assert(claim_map(kept@) =~= m0.restrict(Set::new(|k: ScopeClaimKey| seen(p0, i + 1, k) && live.contains_key(k))));
                    assert(delta_map(diff@) =~= Map::new(
                        |k: ScopeClaimKey| seen(p0, i + 1, k) && !live.contains_key(k),
                        |k: ScopeClaimKey| None::<ClaimValue>,
                    ));
                }
            }
            i = i + 1;
        }
        proof {
            assert forall|k: ScopeClaimKey| #[trigger] seen(p0, p0.len() as int, k) <==> m0.contains_key(k) by {
                if seen(p0, p0.len() as int, k) {
                    let j = choose|j: int| 0 <= j < p0.len() && #[trigger] p0[j].0 == k;
                    lemma_assoc_at(p0, |v: ClaimValue| v, j);
                }
            }
        }
        let ghost kept0 = claim_map(kept@);
        let ghost gone = delta_map(diff@);
        proof {
            assert(kept0 =~= m0.restrict(live.dom()));
        }
        let claims = &self.claims.claims;
        let mut j: usize = 0;
        while j < claims.len()
            invariant
                claims@ == cs,
                unique_keys(cs),
                live == live_claims(cs, now),
                m0 == claim_map(p0),
                kept0 == m0.restrict(live.dom()),
                gone == Map::new(
                    |k: ScopeClaimKey| m0.contains_key(k) && !live.contains_key(k),
                    |k: ScopeClaimKey| None::<ClaimValue>,
                ),
                j <= cs.len(),
                unique_keys(kept@),
                unique_keys(diff@),
                claim_map(kept@) == Map::new(
                    |k: ScopeClaimKey| kept0.contains_key(k) || (seen(cs, j as int, k) && live.contains_key(k)),
                    |k: ScopeClaimKey| if seen(cs, j as int, k) && live.contains_key(k) { live[k] } else { kept0[k] },
                ),
                delta_map(diff@) == Map::new(
                    |k: ScopeClaimKey|
                        gone.contains_key(k) || (seen(cs, j as int, k) && live.contains_key(k) && (!m0.contains_key(k)
                            || m0[k] != live[k])),
                    |k: ScopeClaimKey| if live.contains_key(k) { Some(live[k]) } else { None::<ClaimValue> },
                ),
            decreases cs.len() - j,
        {
            let (key, claim) = claims[j];
            proof {
                lemma_assoc_at(cs, |v: ClaimValue| v, j as int);
                assert forall|k: ScopeClaimKey| #[trigger] seen(cs, j + 1, k) <==> (k == key || seen(cs, j as int, k)) by {
                    if seen(cs, j + 1, k) {
                        let a = choose|a: int| 0 <= a < j + 1 && #[trigger] cs[a].0 == k;
                        if a < j {
                            assert(cs[a].0 == k);
                        }
                    }
                    if k == key {
                        assert(cs[j as int].0 == k);
                    }
                    if seen(cs, j as int, k) {
                        let a = choose|a: int| 0 <= a < j && #[trigger] cs[a].0 == k;
                        assert(cs[a].0 == k);
                    }
                }
                assert(!seen(cs, j as int, key)) by {
                    if seen(cs, j as int, key) {
                        let a = choose|a: int| 0 <= a < j && #[trigger] cs[a].0 == key;
                        assert(cs[a].0 != cs[j as int].0);
                    }
                }
            }
            let holds = match claim.date_expires {
                Some(exp) => exp.0 > now.0,
                None => true,
            };
            proof {
                assert(holds == live.contains_key(key));
                if holds {
                    assert(live[key] == claim);
                }
            }
            if holds {
                let ghost before = kept@;
                let mut found: Option<usize> = None;
                let mut a: usize = 0;
                while a < kept.len() && found.is_none()
                    invariant
                        a <= before.len(),
                        kept@ == before,
                        found matches Some(x) ==> x < before.len() && before[x as int].0 == key,
                        found is None ==> forall|b: int| 0 <= b < a ==> #[trigger] before[b].0 != key,
                    decreases before.len() - a, if found is None { 1int } else { 0int },
                {
                    if kept[a].0 == key {
                        found = Some(a);
                    } else {
                        a = a + 1;
                    }
                }
                match found {
                    Some(x) => {
                        let known = kept[x].1;
                        proof {
                            lemma_assoc_at(before, |v: ClaimValue| v, x as int);
                            assert(kept0.contains_key(key));
                            assert(known == m0[key]);
                        }
                        if known != claim {
                            proof {
                                lemma_assoc_set(before, |v: ClaimValue| v, x as int, claim);
                                assert(!has_entry(diff@, key)) by {
                                    if has_entry(diff@, key) {
                                        let b = choose|b: int| 0 <= b < diff@.len() && #[trigger] diff@[b].0 == key;
                                        lemma_assoc_at(diff@, |v: Option<ClaimValue>| v, b);
                                    }
                                }
                                lemma_assoc_push(diff@, |v: Option<ClaimValue>| v, key, Some(claim));
                            }
                            kept.set(x, (key, claim));
                            diff.push((key, Some(claim)));
                        }
                    },
                    None => {
                        proof {
                            assert(!has_entry(before, key)) by {
                                if has_entry(before, key) {
                                    let b = choose|b: int| 0 <= b < before.len() && #[trigger] before[b].0 == key;
                                    assert(before[b].0 != key);
                                }
                            }
                            assert(!claim_map(before).contains_key(key));
                            lemma_assoc_push(before, |v: ClaimValue| v, key, claim);
                            assert(!kept0.contains_key(key));
                            assert(!m0.contains_key(key));
                            assert(!has_entry(diff@, key)) by {
                                if has_entry(diff@, key) {
                                    let b = choose|b: int| 0 <= b < diff@.len() && #[trigger] diff@[b].0 == key;
                                    lemma_assoc_at(diff@, |v: Option<ClaimValue>| v, b);
                                }
                            }
                            lemma_assoc_push(diff@, |v: Option<ClaimValue>| v, key, Some(claim));
                        }
                        kept.push((key, claim));
                        diff.push((key, Some(claim)));
                    },
                }
            }
            proof {
                assert(claim_map(kept@) =~= Map::new(
                    |k: ScopeClaimKey| kept0.contains_key(k) || (seen(cs, j + 1, k) && live.contains_key(k)),
                    |k: ScopeClaimKey| if seen(cs, j + 1, k) && live.contains_key(k) { live[k] } else { kept0[k] },
                ));
                assert(delta_map(diff@) =~= Map::new(
                    |k: ScopeClaimKey|
                        gone.contains_key(k) || (seen(cs, j + 1, k) && live.contains_key(k) && (!m0.contains_key(k)
                            || m0[k] != live[k])),
                    |k: ScopeClaimKey| if live.contains_key(k) { Some(live[k]) } else { None::<ClaimValue> },
                ));
            }
            j = j + 1;
        }
        proof {
            assert forall|k: ScopeClaimKey| live.contains_key(k) implies #[trigger] seen(cs, cs.len() as int, k) by {
                let a = choose|a: int| 0 <= a < cs.len() && #[trigger] cs[a].0 == k;
                assert(cs[a].0 == k);
            }
            assert(claim_map(kept@) =~= live);
            assert(delta_map(diff@) =~= claims_delta(m0, live));
        }
        *prev = kept;
        diff
    }

    /// Receives claims from the database for visitor `visitor_id` at `now`;
    /// ignored (returning `false`) unless the session is that visitor's.
    /// The synchronization date becomes the later of the two; each received
    /// claim is merged (by `merge`, which knows each claim's aggregation)
    /// into a claim of the same key that still holds, and otherwise
    /// replaces or adds it.
    pub fn receive_claims<F: Fn(ScopeClaimKey, ClaimValue, ClaimValue) -> ClaimValue>(
        &mut self,
        visitor_id: u64,
        incoming: &ClaimSubset,
        now: UnixMillis,
        merge: F,
    ) -> (r: bool)
        requires
            unique_keys(old(self).claims.claims@),
            unique_keys(incoming.claims@),
            forall|k: ScopeClaimKey, a: ClaimValue, b: ClaimValue| #[trigger] merge.requires((k, a, b)),
        ensures
            r == (old(self).visitor_id == Some(visitor_id)),
            final(self).session_token == old(self).session_token,
            final(self).visitor_id == old(self).visitor_id,
            final(self).nick_name == old(self).nick_name,
            final(self).active_heartbeat == old(self).active_heartbeat,
            final(self).user == old(self).user,
            final(self).admin == old(self).admin,
            final(self).moderator == old(self).moderator,
            unique_keys(final(self).claims.claims@),
            !r ==> final(self).claims.claims@ == old(self).claims.claims@ && final(self).claims.date_synchronized
                == old(self).claims.date_synchronized,
            r ==> final(self).claims.date_synchronized.0 == if old(self).claims.date_synchronized.0
                >= incoming.date_synchronized.0 {
                old(self).claims.date_synchronized.0
            } else {
                incoming.date_synchronized.0
            },
            r ==> claim_map(final(self).claims.claims@).dom() == claim_map(old(self).claims.claims@).dom().union(
                claim_map(incoming.claims@).dom(),
            ),
            r ==> forall|k: ScopeClaimKey|
                #[trigger] claim_map(old(self).claims.claims@).contains_key(k) && !claim_map(
                    incoming.claims@,
                ).contains_key(k) ==> claim_map(final(self).claims.claims@)[k] == claim_map(
                    old(self).claims.claims@,
                )[k],
            r ==> forall|k: ScopeClaimKey|
                #[trigger] claim_map(incoming.claims@).contains_key(k) ==> {
                    let m0 = claim_map(old(self).claims.claims@);
                    let got = claim_map(final(self).claims.claims@)[k];
                    if m0.contains_key(k) && live_at(m0[k], now) {
                        merge.ensures((k, m0[k], claim_map(incoming.claims@)[k]), got)
                    } else {
                        got == claim_map(incoming.claims@)[k]
                    }
                },
    {
        match self.visitor_id {
            Some(v) => {
                if v != visitor_id {
                    return false;
                }
            },
            None => {
                return false;
            },
        }
        if incoming.date_synchronized.0 > self.claims.date_synchronized.0 {
            self.claims.date_synchronized = incoming.date_synchronized;
        }
        let ghost m0 = claim_map(self.claims.claims@);
        let ghost inc = incoming.claims@;
        let ghost mi = claim_map(inc);
        let mut claims: Vec<(ScopeClaimKey, ClaimValue)> = Vec::new();
        std::mem::swap(&mut claims, &mut self.claims.claims);
        let mut i: usize = 0;
        while i < incoming.claims.len()
            invariant
                i <= inc.len(),
                inc == incoming.claims@,
                mi == claim_map(inc),
                unique_keys(inc),
                unique_keys(claims@),
                forall|k: ScopeClaimKey, a: ClaimValue, b: ClaimValue| #[trigger] merge.requires((k, a, b)),
                claim_map(claims@).dom() == m0.dom().union(Set::new(|k: ScopeClaimKey| seen(inc, i as int, k))),
                forall|k: ScopeClaimKey|
                    #[trigger] m0.contains_key(k) && !seen(inc, i as int, k) ==> claim_map(claims@)[k] == m0[k],
                forall|j: int|
                    0 <= j < i ==> {
                        let k = (#[trigger] inc[j]).0;
                        let got = claim_map(claims@)[k];
                        if m0.contains_key(k) && live_at(m0[k], now) {
                            merge.ensures((k, m0[k], inc[j].1), got)
                        } else {
                            got == inc[j].1
                        }
                    },
            decreases inc.len() - i,
        {
            let (key, claim) = incoming.claims[i];
            let ghost before = claims@;
            proof {
                assert forall|j: int| 0 <= j < i implies #[trigger] inc[j].0 != key by {
                    assert(inc[i as int].0 == key);
                }
                assert(!seen(inc, i as int, key));
            }
            let mut found: Option<usize> = None;
            let mut a: usize = 0;
            while a < claims.len() && found.is_none()
                invariant
                    a <= claims@.len(),
                    claims@ == before,
                    found matches Some(x) ==> x < before.len() && before[x as int].0 == key,
                    found is None ==> forall|b: int| 0 <= b < a ==> #[trigger] before[b].0 != key,
                decreases claims@.len() - a, if found is None { 1int } else { 0int },
            {
                if claims[a].0 == key {
                    found = Some(a);
                } else {
                    a = a + 1;
                }
            }
            proof {
                if found is None {
                    assert(!has_entry(before, key)) by {
                        if has_entry(before, key) {
                            let b = choose|b: int| 0 <= b < before.len() && #[trigger] before[b].0 == key;
                            assert(before[b].0 != key);
                        }
                    }
                }
            }
            match found {
                Some(a) => {
                    let existing = claims[a].1;
                    proof {
                        lemma_assoc_at(before, |v: ClaimValue| v, a as int);
                        assert(existing == m0[key]);
                    }
                    let live = match existing.date_expires {
                        Some(exp) => exp.0 > now.0,
                        None => true,
                    };
                    let value = if live {
                        merge(key, existing, claim)
                    } else {
                        claim
                    };
                    proof {
                        lemma_assoc_set(before, |v: ClaimValue| v, a as int, value);
                    }
                    claims.set(a, (key, value));
                },
                None => {
                    proof {
                        assert(!claim_map(before).contains_key(key));
                        lemma_assoc_push(before, |v: ClaimValue| v, key, claim);
                        assert(!m0.contains_key(key));
                    }
                    claims.push((key, claim));
                },
            }
            proof {
                let cm = claim_map(claims@);
                assert forall|k: ScopeClaimKey| #[trigger] seen(inc, i + 1, k) <==> (k == key || seen(inc, i as int, k)) by {
                    if seen(inc, i + 1, k) {
                        let j = choose|j: int| 0 <= j < i + 1 && #[trigger] inc[j].0 == k;
                        if j < i {
                            assert(inc[j].0 == k);
                        }
                    }
                    if k == key {
                        assert(inc[i as int].0 == k);
                    }
                    if seen(inc, i as int, k) {
                        let j = choose|j: int| 0 <= j < i && #[trigger] inc[j].0 == k;
                        assert(inc[j].0 == k);
                    }
                }
                assert(cm.dom() =~= m0.dom().union(Set::new(|k: ScopeClaimKey| seen(inc, i + 1, k))));
                assert forall|j: int| 0 <= j < i + 1 implies {
                    let k = (#[trigger] inc[j]).0;
                    let got = cm[k];
                    if m0.contains_key(k) && live_at(m0[k], now) {
                        merge.ensures((k, m0[k], inc[j].1), got)
                    } else {
                        got == inc[j].1
                    }
                } by {
                    if j < i {
                        assert(inc[j].0 != key);
                    }
                }
            }
            i = i + 1;
        }
        proof {
            assert forall|k: ScopeClaimKey| #[trigger] seen(inc, inc.len() as int, k) <==> mi.contains_key(k) by {
                if seen(inc, inc.len() as int, k) {
                    let j = choose|j: int| 0 <= j < inc.len() && #[trigger] inc[j].0 == k;
                    lemma_assoc_at(inc, |v: ClaimValue| v, j);
                }
            }
            assert forall|k: ScopeClaimKey| #[trigger] mi.contains_key(k) implies {
                let got = claim_map(claims@)[k];
                if m0.contains_key(k) && live_at(m0[k], now) {
                    merge.ensures((k, m0[k], mi[k]), got)
                } else {
                    got == mi[k]
                }
            } by {
                let j = choose|j: int| 0 <= j < inc.len() && #[trigger] inc[j].0 == k;
                lemma_assoc_at(inc, |v: ClaimValue| v, j);
            }
            assert(claim_map(claims@).dom() =~= m0.dom().union(mi.dom()));
        }
        self.claims.claims = claims;
        true
    }

    /// The claim under `key` now (by the system clock), unless absent or
    /// expired.
    pub fn claim(&self, key: ScopeClaimKey) -> (r: Option<ClaimValue>)
        requires
            unique_keys(self.claims.claims@),
        ensures
            exists|now: UnixMillis| r == #[trigger] claim_at(self.claims.claims@, key, now),
    {
        let now = now_millis();
        self.claim_with_now(key, now)
    }
}

/// At most this many claim updates of forgotten players are kept to send.
pub const TRAILING_CLAIMS_LIMIT: usize = 64;

/// A claim update as values: visitor, claims, synchronization date, arena,
/// player.
pub type ClaimUpdateView = (u64, Seq<(ScopeClaimKey, ClaimValue)>, UnixMillis, ArenaId, PlayerId);

/// The value of a claim update.
pub open spec fn update_view(u: ClaimUpdateDto) -> ClaimUpdateView {
    (u.visitor_id, u.claims.claims@, u.claims.date_synchronized, u.arena_id, u.player_id)
}

/// The claim update a session sends (see `SessionData::claim_update`).
pub open spec fn session_update(s: SessionData, date_synchronized: UnixMillis, arena_id: ArenaId, player_id: PlayerId) -> Option<
    ClaimUpdateView,
> {
    let fresh = fresh_claims(s.claims.claims@, s.claims.date_synchronized);
    if s.visitor_id is Some && fresh.len() > 0 {
        Some((s.visitor_id.unwrap(), fresh, date_synchronized, arena_id, player_id))
    } else {
        None
    }
}

/// The claim updates of forgotten players, in order: each client's that has
/// one (bots, without a session, have none).
pub open spec fn forgotten_updates(
    forgotten: Seq<(PlayerId, Option<SessionData>)>,
    arena_id: ArenaId,
    now: UnixMillis,
) -> Seq<ClaimUpdateView>
    decreases forgotten.len(),
{
    if forgotten.len() == 0 {
        Seq::empty()
    } else {
        let rest = forgotten_updates(forgotten.drop_last(), arena_id, now);
        match forgotten.last().1 {
            Some(s) => match session_update(s, now, arena_id, forgotten.last().0) {
                Some(u) => rest.push(u),
                None => rest,
            },
            None => rest,
        }
    }
}

/// How many more updates fit below the limit.
pub open spec fn trailing_room(len: nat) -> int {
    if len >= TRAILING_CLAIMS_LIMIT {
        0
    } else {
        TRAILING_CLAIMS_LIMIT - len
    }
}

/// Keeps the claim updates of forgotten players to send later: their
/// updates (stamped `now`) are appended in order while fewer than
/// `TRAILING_CLAIMS_LIMIT` are kept; the rest are dropped.
pub fn collect_trailing_claims(
    trailing: &mut Vec<ClaimUpdateDto>,
    forgotten: &Vec<(PlayerId, Option<SessionData>)>,
    arena_id: ArenaId,
    now: UnixMillis,
)
    ensures
        ({
            let u = forgotten_updates(forgotten@, arena_id, now);
            let k = if u.len() <= trailing_room(old(trailing)@.len()) {
                u.len() as int
            } else {
                trailing_room(old(trailing)@.len())
            };
            final(trailing)@.map_values(|d: ClaimUpdateDto| update_view(d)) == old(trailing)@.map_values(
                |d: ClaimUpdateDto| update_view(d),
            ) + u.take(k)
        }),
{
    let ghost t0 = trailing@.map_values(|d: ClaimUpdateDto| update_view(d));
    let ghost room = trailing_room(trailing@.len());
    let mut i: usize = 0;
    proof {
        assert(forgotten@.subrange(0, 0) =~= Seq::<(PlayerId, Option<SessionData>)>::empty());
        assert(trailing@.map_values(|d: ClaimUpdateDto| update_view(d)) =~= t0 + Seq::<ClaimUpdateView>::empty().take(0));
    }
    while i < forgotten.len()
        invariant
            i <= forgotten@.len(),
            room == trailing_room((t0.len()) as nat),
            ({
                let u = forgotten_updates(forgotten@.subrange(0, i as int), arena_id, now);
                let k = if u.len() <= room { u.len() as int } else { room };
                trailing@.map_values(|d: ClaimUpdateDto| update_view(d)) == t0 + u.take(k)
            }),
        decreases forgotten@.len() - i,
    {
        let ghost before = forgotten_updates(forgotten@.subrange(0, i as int), arena_id, now);
        let ghost tv = trailing@.map_values(|d: ClaimUpdateDto| update_view(d));
        proof {
            assert(forgotten@.subrange(0, i + 1).drop_last() =~= forgotten@.subrange(0, i as int));
            let k = if before.len() <= room { before.len() as int } else { room };
            assert(tv.len() == trailing@.len());
            assert((t0 + before.take(k)).len() == t0.len() + k);
            assert(trailing@.len() == t0.len() + k);
        }
        if trailing.len() < TRAILING_CLAIMS_LIMIT {
            match &forgotten[i].1 {
                Some(session) => {
                    match session.claim_update(now, arena_id, forgotten[i].0) {
                        Some(update) => {
                            proof {
                                assert(before.len() < room);
                            }
                            trailing.push(update);
                            proof {
                                let after = before.push(update_view(update));
                                assert(after.take(before.len() + 1int) =~= before.take(before.len() as int).push(update_view(update)));
                                assert(trailing@.map_values(|d: ClaimUpdateDto| update_view(d)) =~= tv.push(update_view(update)));
                            }
                        },
                        None => {},
                    }
                },
                None => {},
            }
        } else {
            proof {
                let after = forgotten_updates(forgotten@.subrange(0, i + 1), arena_id, now);
                assert(before.len() >= room);
                assert(after.take(room) =~= before.take(room));
            }
        }
        i = i + 1;
    }
    proof {
        assert(forgotten@.subrange(0, forgotten@.len() as int) =~= forgotten@);
    }
}

/// The claim updates of players in arenas, in order: each client's that has
/// one (bots, without a session, have none), stamped `now`.
pub open spec fn live_updates(players: Seq<(ArenaId, PlayerId, Option<SessionData>)>, now: UnixMillis) -> Seq<
    ClaimUpdateView,
>
    decreases players.len(),
{
    if players.len() == 0 {
        Seq::empty()
    } else {
        let rest = live_updates(players.drop_last(), now);
        let (arena_id, player_id, session) = players.last();
        match session {
            Some(s) => match session_update(s, now, arena_id, player_id) {
                Some(u) => rest.push(u),
                None => rest,
            },
            None => rest,
        }
    }
}

/// The claims a heartbeat carries: the kept updates of forgotten players
/// (taken out of `trailing`, which is left empty), then the updates of the
/// players in arenas, stamped `date_synchronized`.
pub fn heartbeat_claims(
    trailing: &mut Vec<ClaimUpdateDto>,
    players: &Vec<(ArenaId, PlayerId, Option<SessionData>)>,
    date_synchronized: UnixMillis,
) -> (r: Vec<ClaimUpdateDto>)
    ensures
        r@.map_values(|d: ClaimUpdateDto| update_view(d)) == old(trailing)@.map_values(
            |d: ClaimUpdateDto| update_view(d),
        ) + live_updates(players@, date_synchronized),
        final(trailing)@.len() == 0,
{
    let mut out: Vec<ClaimUpdateDto> = Vec::new();
    std::mem::swap(&mut out, trailing);
    let ghost t0 = out@.map_values(|d: ClaimUpdateDto| update_view(d));
    let mut i: usize = 0;
    proof {
        assert(players@.subrange(0, 0) =~= Seq::<(ArenaId, PlayerId, Option<SessionData>)>::empty());
        assert(out@.map_values(|d: ClaimUpdateDto| update_view(d)) =~= t0 + Seq::<ClaimUpdateView>::empty());
    }
    while i < players.len()
        invariant
            i <= players@.len(),
            trailing@.len() == 0,
            out@.map_values(|d: ClaimUpdateDto| update_view(d)) == t0 + live_updates(
                players@.subrange(0, i as int),
                date_synchronized,
            ),
        decreases players@.len() - i,
    {
        let ghost before = live_updates(players@.subrange(0, i as int), date_synchronized);
        let ghost ov = out@.map_values(|d: ClaimUpdateDto| update_view(d));
        proof {
            assert(players@.subrange(0, i + 1).drop_last() =~= players@.subrange(0, i as int));
            assert(players@.subrange(0, i + 1).last() == players@[i as int]);
        }
        match &players[i].2 {
            Some(session) => {
                match session.claim_update(date_synchronized, players[i].0, players[i].1) {
                    Some(update) => {
                        out.push(update);
                        proof {
                            assert(out@.map_values(|d: ClaimUpdateDto| update_view(d)) =~= ov.push(update_view(update)));
                        }
                    },
                    None => {},
                }
            },
            None => {},
        }
        i = i + 1;
    }
    proof {
        assert(players@.subrange(0, players@.len() as int) =~= players@);
    }
    out
}

/// A day, in milliseconds.
pub const DAY_MILLIS: u64 = 86_400_000;

/// The number of the day that `t` (milliseconds since the epoch) falls on
/// in a time zone `offset` minutes behind UTC, counted from a start 23 days
/// before the epoch so that it is never negative.
pub open spec fn local_day(t: int, offset: int) -> int {
    (t + 23 * DAY_MILLIS - offset * 60_000) / (DAY_MILLIS as int)
}

/// The UTC time of the local midnight that ends the day after `t`'s day.
pub open spec fn end_of_tomorrow(t: int, offset: int) -> int {
    (local_day(t + DAY_MILLIS, offset) + 1) * DAY_MILLIS - 23 * DAY_MILLIS + offset * 60_000
}

/// Whether `now` falls on a later local day than the claim's last update (a
/// missing claim counts as never updated).
pub open spec fn later_day(now: u64, offset: i16, claim: Option<ClaimValue>) -> bool {
    match claim {
        Some(c) => local_day(now as int, offset as int) > local_day(c.date_updated.0 as int, offset as int),
        None => true,
    }
}

/// A claim's value plus one, held within `u64` (a missing claim counts as 0).
pub open spec fn next_count(claim: Option<ClaimValue>) -> u64 {
    match claim {
        Some(c) => if c.value == u64::MAX {
            u64::MAX
        } else {
            (c.value + 1) as u64
        },
        None => 1,
    }
}

/// What an active player's day counts become on a new local day: the new
/// number of days played, and the new streak with when it expires.
#[derive(Clone, Copy, Debug)]
pub struct DailyClaims {
    pub days: Option<u64>,
    pub streak: Option<(u64, UnixMillis)>,
}

/// The local day of `t`, computed (see `local_day`).
fn day_of(t: u64, offset: i16) -> (r: u128)
    ensures
        r == local_day(t as int, offset as int),
{
    let shift: i64 = offset as i64 * 60_000;
    let base: u128 = t as u128 + 23 * DAY_MILLIS as u128;
    let x: u128 = if shift >= 0 {
        base - shift as u128
    } else {
        base + (-shift) as u128
    };
    x / DAY_MILLIS as u128
}

/// The updates of an active player's days and streak claims at `now`, given
/// those claims as they hold now (`None` when missing or expired) and the
/// player's time zone (`offset` minutes behind UTC). On a later local day
/// than a claim's last update, the claim counts one more (a missing one
/// starts at 1); the streak then holds until the end of tomorrow, local
/// time, or longer if it already did.
pub fn daily_claims(now: UnixMillis, offset: i16, days: Option<ClaimValue>, streak: Option<ClaimValue>) -> (r:
    DailyClaims)
    requires
        now.0 <= u64::MAX - 4 * DAY_MILLIS,
    ensures
        r.days == (if later_day(now.0, offset, days) {
            Some(next_count(days))
        } else {
            None::<u64>
        }),
        r.streak == (if later_day(now.0, offset, streak) {
            let end = end_of_tomorrow(now.0 as int, offset as int);
            Some(
                (
                    next_count(streak),
                    UnixMillis(
                        match streak {
                            Some(c) => match c.date_expires {
                                Some(e) => if e.0 > end {
                                    e.0
                                } else {
                                    end as u64
                                },
                                None => end as u64,
                            },
                            None => end as u64,
                        },
                    ),
                ),
            )
        } else {
            None::<(u64, UnixMillis)>
        }),
        r.streak matches Some((_, e)) ==> now.0 + DAY_MILLIS < e.0,
{
    let today = day_of(now.0, offset);
    let new_days = match days {
        Some(c) => if today > day_of(c.date_updated.0, offset) {
            Some(c.value.saturating_add(1))
        } else {
            None
        },
        None => Some(1),
    };
    let streak_due = match streak {
        Some(c) => today > day_of(c.date_updated.0, offset),
        None => true,
    };
    if !streak_due {
        return DailyClaims { days: new_days, streak: None };
    }
    let tomorrow_day = day_of(now.0 + DAY_MILLIS, offset);
    let ghost x: int = now.0 + DAY_MILLIS + 23 * DAY_MILLIS - offset * 60_000;
    proof {
        let d = tomorrow_day as int;
        assert(x >= 0);
        assert(d * DAY_MILLIS <= x < (d + 1) * DAY_MILLIS) by (nonlinear_arith)
            requires
                x >= 0,
                d == x / (DAY_MILLIS as int),
        ;
    }
    let shift: i64 = offset as i64 * 60_000;
    let start: u128 = (tomorrow_day + 1) * DAY_MILLIS as u128;
    let end_wide: u128 = if shift >= 0 {
        start + shift as u128 - 23 * DAY_MILLIS as u128
    } else {
        start - 23 * DAY_MILLIS as u128 - (-shift) as u128
    };
    let end: u64 = end_wide as u64;
    let expires: u64 = match streak {
        Some(c) => match c.date_expires {
            Some(e) => if e.0 > end {
                e.0
            } else {
                end
            },
            None => end,
        },
        None => end,
    };
    DailyClaims { days: new_days, streak: Some((next_count_of(streak), UnixMillis(expires))) }
}

/// A claim's value plus one, held within `u64` (see `next_count`).
fn next_count_of(claim: Option<ClaimValue>) -> (r: u64)
    ensures
        r == next_count(claim),
{
    match claim {
        Some(c) => c.value.saturating_add(1),
        None => 1,
    }
}

} // verus!
