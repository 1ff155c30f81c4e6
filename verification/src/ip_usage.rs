//! Per-address connection accounting: how many connections, and how many
//! active (playing) connections, each address holds, and whether it is
//! admitted one more connection. Addresses are written as 128-bit numbers
//! (IPv4 addresses mapped into IPv6).
use crate::seq_util::{assoc, has_entry, lemma_assoc_at, lemma_assoc_push, lemma_assoc_set, unique_keys};
use vstd::prelude::*;

verus! {

/// What an address holds.
#[derive(Clone, Copy, Debug, Default)]
pub struct Usage {
    pub connections: u32,
    pub active: u32,
}

/// An address's counts as a pair: connections, active.
pub open spec fn counts(u: Usage) -> (u32, u32) {
    (u.connections, u.active)
}

/// The counts of every address that has an entry.
pub struct IpUsage {
    usage: Vec<(u128, Usage)>,
    /// When idle entries are next pruned (milliseconds since the epoch).
    next_prune: u64,
}

/// How often idle entries are pruned, in milliseconds.
pub const PRUNE_INTERVAL_MILLIS: u64 = 5000;

/// The entries a prune keeps: those of addresses whose rate limit still
/// runs (`limited`) or that hold a connection or an active connection.
pub open spec fn pruned(m: Map<u128, (u32, u32)>, limited: Seq<u128>) -> Map<u128, (u32, u32)> {
    Map::new(
        |ip: u128| m.contains_key(ip) && (limited.contains(ip) || m[ip].0 > 0 || m[ip].1 > 0),
        |ip: u128| m[ip],
    )
}

/// The counts of `ip`, zero without an entry.
pub open spec fn usage_of(m: Map<u128, (u32, u32)>, ip: u128) -> (u32, u32) {
    if m.contains_key(ip) {
        m[ip]
    } else {
        (0, 0)
    }
}

/// The map with an entry for `ip` (zero counts where there was none).
pub open spec fn with_entry(m: Map<u128, (u32, u32)>, ip: u128) -> Map<u128, (u32, u32)> {
    m.insert(ip, usage_of(m, ip))
}

/// Connections below this are always admitted.
pub open spec fn soft_limit(active: u32) -> int {
    active * 3 + 12
}

/// Connections at or above this are always refused.
pub open spec fn hard_limit(active: u32) -> int {
    soft_limit(active) + 3
}

/// The counts after `ip` is admitted a connection.
pub open spec fn connected(m: Map<u128, (u32, u32)>, ip: u128) -> Map<u128, (u32, u32)> {
    m.insert(ip, ((usage_of(m, ip).0 + 1) as u32, usage_of(m, ip).1))
}

/// The counts after a connection of `ip` ends (no change without an entry;
/// the count never goes below zero).
pub open spec fn disconnected(m: Map<u128, (u32, u32)>, ip: u128) -> Map<u128, (u32, u32)> {
    if m.contains_key(ip) {
        m.insert(ip, (if m[ip].0 > 0 { (m[ip].0 - 1) as u32 } else { 0u32 }, m[ip].1))
    } else {
        m
    }
}

/// The counts after a connection of `ip` becomes active.
pub open spec fn activated(m: Map<u128, (u32, u32)>, ip: u128) -> Map<u128, (u32, u32)> {
    m.insert(ip, (usage_of(m, ip).0, (usage_of(m, ip).1 + 1) as u32))
}

/// The counts after an active connection of `ip` ends (no change without an
/// entry; the count never goes below zero).
pub open spec fn deactivated(m: Map<u128, (u32, u32)>, ip: u128) -> Map<u128, (u32, u32)> {
    if m.contains_key(ip) {
        m.insert(ip, (m[ip].0, if m[ip].1 > 0 { (m[ip].1 - 1) as u32 } else { 0u32 }))
    } else {
        m
    }
}

/// A fair coin. Trusted: `rand::random::<bool>()`; either value may come.
#[verifier::external_body]
fn coin_flip() -> (r: bool) {
    rand::random::<bool>()
}

impl View for IpUsage {
    type V = Map<u128, (u32, u32)>;

    closed spec fn view(&self) -> Map<u128, (u32, u32)> {
        assoc(self.usage@, |u: Usage| counts(u))
    }
}

impl IpUsage {
    /// Each address has at most one entry.
    #[verifier::type_invariant]
    closed spec fn well_formed(&self) -> bool {
        unique_keys(self.usage@)
    }

    /// When idle entries are next pruned.
    pub closed spec fn prune_at(&self) -> u64 {
        self.next_prune
    }

    /// No address has an entry; the first chance to prune is taken.
    pub fn new() -> (r: Self)
        ensures
            r@ == Map::<u128, (u32, u32)>::empty(),
            r.prune_at() == 0,
    {
        let r = IpUsage { usage: Vec::new(), next_prune: 0 };
        proof {
            assert(r@ =~= Map::<u128, (u32, u32)>::empty());
        }
        r
    }

    /// The position of `ip`'s entry.
    fn find(&self, ip: u128) -> (r: Option<usize>)
        ensures
            r is None <==> !self@.contains_key(ip),
            r matches Some(i) ==> i < self.usage@.len() && self.usage@[i as int].0 == ip && self@[ip]
                == counts(self.usage@[i as int].1),
    {
        proof {
            use_type_invariant(self);
        }
        let mut i: usize = 0;
        while i < self.usage.len()
            invariant
                i <= self.usage@.len(),
                unique_keys(self.usage@),
                forall|j: int| 0 <= j < i ==> #[trigger] self.usage@[j].0 != ip,
            decreases self.usage@.len() - i,
        {
            if self.usage[i].0 == ip {
                proof {
                    lemma_assoc_at(self.usage@, |u: Usage| counts(u), i as int);
                }
                return Some(i);
            }
            i = i + 1;
        }
        None
    }

    /// The counts of `ip`, if it has an entry.
    pub fn usage(&self, ip: u128) -> (r: Option<(u32, u32)>)
        ensures
            r == (if self@.contains_key(ip) { Some(self@[ip]) } else { None::<(u32, u32)> }),
    {
        match self.find(ip) {
            Some(i) => Some((self.usage[i].1.connections, self.usage[i].1.active)),
            None => None,
        }
    }

    /// The position of `ip`'s entry, made (with zero counts) if missing.
    fn entry(&mut self, ip: u128) -> (r: usize)
        ensures
            final(self)@ == with_entry(old(self)@, ip),
            r < final(self).usage@.len(),
            final(self).usage@[r as int].0 == ip,
    {
        proof {
            use_type_invariant(&*self);
        }
        match self.find(ip) {
            Some(i) => {
                proof {
                    assert(with_entry(old(self)@, ip) =~= old(self)@);
                }
                i
            },
            None => {
                let ghost s = self.usage@;
                proof {
                    assert(!has_entry(s, ip)) by {
                        if has_entry(s, ip) {
                            let j = choose|j: int| 0 <= j < s.len() && #[trigger] s[j].0 == ip;
                            lemma_assoc_at(s, |u: Usage| counts(u), j);
                        }
                    }
                    lemma_assoc_push(s, |u: Usage| counts(u), ip, Usage { connections: 0, active: 0 });
                }
                let mut usage: Vec<(u128, Usage)> = Vec::new();
                std::mem::swap(&mut usage, &mut self.usage);
                usage.push((ip, Usage { connections: 0, active: 0 }));
                self.usage = usage;
                proof {
                    assert(self@ =~= with_entry(old(self)@, ip));
                }
                self.usage.len() - 1
            },
        }
    }

    /// Sets the counts at position `i`.
    fn set_counts(&mut self, i: usize, u: Usage)
        requires
            i < old(self).usage@.len(),
        ensures
            final(self)@ == old(self)@.insert(old(self).usage@[i as int].0, counts(u)),
            final(self).usage@.len() == old(self).usage@.len(),
    {
        proof {
            use_type_invariant(&*self);
            lemma_assoc_set(self.usage@, |u: Usage| counts(u), i as int, u);
        }
        let ip = self.usage[i].0;
        let mut usage: Vec<(u128, Usage)> = Vec::new();
        std::mem::swap(&mut usage, &mut self.usage);
        usage.set(i, (ip, u));
        self.usage = usage;
    }

    /// Whether `ip`, not rate limited, is admitted one more connection,
    /// counting it if so. Below the soft limit it is admitted; at or above
    /// the hard limit it is refused; in between a fair coin decides, flipped
    /// only there. A rate limited address is refused. Either way the address
    /// gets an entry.
    pub fn admit_connection(&mut self, ip: u128, rate_limited: bool) -> (r: bool)
        requires
            usage_of(old(self)@, ip).0 < u32::MAX,
        ensures
            rate_limited ==> !r,
            !rate_limited && usage_of(old(self)@, ip).0 < soft_limit(usage_of(old(self)@, ip).1) ==> r,
            usage_of(old(self)@, ip).0 >= hard_limit(usage_of(old(self)@, ip).1) ==> !r,
            r ==> final(self)@ == connected(old(self)@, ip),
            !r ==> final(self)@ == with_entry(old(self)@, ip),
    {
        let (connections, active) = match self.usage(ip) {
            Some(c) => c,
            None => (0, 0),
        };
        let soft: u64 = active as u64 * 3 + 12;
        let hard: u64 = soft + 3;
        let c = connections as u64;
        let coin = if !rate_limited && soft <= c && c < hard {
            coin_flip()
        } else {
            false
        };
        self.admit_with_coin(ip, rate_limited, coin)
    }

    /// Whether `ip` is admitted one more connection, given the coin that
    /// decides between the soft and the hard limit (`true` refuses), counting
    /// it if so. Either way the address gets an entry.
    pub fn admit_with_coin(&mut self, ip: u128, rate_limited: bool, coin: bool) -> (r: bool)
        requires
            usage_of(old(self)@, ip).0 < u32::MAX,
        ensures
            r == (!rate_limited && (usage_of(old(self)@, ip).0 < soft_limit(usage_of(old(self)@, ip).1)
                || (usage_of(old(self)@, ip).0 < hard_limit(usage_of(old(self)@, ip).1) && !coin))),
            r ==> final(self)@ == connected(old(self)@, ip),
            !r ==> final(self)@ == with_entry(old(self)@, ip),
    {
        let i = self.entry(ip);
        proof {
            use_type_invariant(&*self);
            lemma_assoc_at(self.usage@, |u: Usage| counts(u), i as int);
        }
        if rate_limited {
            return false;
        }
        let u = self.usage[i].1;
        let soft: u64 = u.active as u64 * 3 + 12;
        let hard: u64 = soft + 3;
        let connections = u.connections as u64;
        if connections >= hard || (connections >= soft && coin) {
            return false;
        }
        self.set_counts(i, Usage { connections: u.connections + 1, active: u.active });
        proof {
            assert(self@ =~= connected(old(self)@, ip));
        }
        true
    }

    /// Ends a connection of `ip`.
    pub fn release_connection(&mut self, ip: u128)
        ensures
            final(self)@ == disconnected(old(self)@, ip),
    {
        match self.find(ip) {
            Some(i) => {
                let u = self.usage[i].1;
                let c = if u.connections > 0 { u.connections - 1 } else { 0 };
                self.set_counts(i, Usage { connections: c, active: u.active });
            },
            None => {},
        }
    }

    /// Marks a connection of `ip` active.
    pub fn add_active(&mut self, ip: u128)
        requires
            usage_of(old(self)@, ip).1 < u32::MAX,
        ensures
            final(self)@ == activated(old(self)@, ip),
    {
        let i = self.entry(ip);
        proof {
            use_type_invariant(&*self);
            lemma_assoc_at(self.usage@, |u: Usage| counts(u), i as int);
        }
        let u = self.usage[i].1;
        self.set_counts(i, Usage { connections: u.connections, active: u.active + 1 });
        proof {
            assert(self@ =~= activated(old(self)@, ip));
        }
    }

    /// Ends an active connection of `ip`.
    pub fn release_active(&mut self, ip: u128)
        ensures
            final(self)@ == deactivated(old(self)@, ip),
    {
        match self.find(ip) {
            Some(i) => {
                let u = self.usage[i].1;
                let a = if u.active > 0 { u.active - 1 } else { 0 };
                self.set_counts(i, Usage { connections: u.connections, active: a });
            },
            None => {},
        }
    }
}

/// Whether `ip` is among the addresses.
fn listed(addresses: &Vec<u128>, ip: u128) -> (r: bool)
    ensures
        r == addresses@.contains(ip),
{
    let mut i: usize = 0;
    while i < addresses.len()
        invariant
            i <= addresses@.len(),
            forall|j: int| 0 <= j < i ==> addresses@[j] != ip,
        decreases addresses@.len() - i,
    {
        if addresses[i] == ip {
            return true;
        }
        i = i + 1;
    }
    false
}

impl IpUsage {
    /// Drops the entries of idle addresses: those with no connection, no
    /// active connection, and no rate limit running (`limited` lists the
    /// addresses whose rate limit still runs).
    pub fn prune(&mut self, limited: &Vec<u128>)
        ensures
            final(self)@ == pruned(old(self)@, limited@),
            final(self).prune_at() == old(self).prune_at(),
    {
        proof {
            use_type_invariant(&*self);
        }
        let ghost s = self.usage@;
        let ghost f = |u: Usage| counts(u);
        let mut kept: Vec<(u128, Usage)> = Vec::new();
        let mut i: usize = 0;
        proof {
            assert(assoc(s.take(0), f) =~= Map::<u128, (u32, u32)>::empty());
            assert(assoc(kept@, f) =~= pruned(assoc(s.take(0), f), limited@));
        }
        while i < self.usage.len()
            invariant
                i <= s.len(),
                s == self.usage@,
                f == (|u: Usage| counts(u)),
                unique_keys(s),
                unique_keys(kept@),
                forall|j: int| 0 <= j < kept@.len() ==> has_entry(s.take(i as int), #[trigger] kept@[j].0),
                assoc(kept@, f) == pruned(assoc(s.take(i as int), f), limited@),
            decreases s.len() - i,
        {
            let (ip, u) = self.usage[i];
            let ghost t = s.take(i as int);
            proof {
                assert(s.take(i + 1) =~= t.push((ip, u)));
                assert(unique_keys(t)) by {
                    assert forall|a: int, b: int| 0 <= a < b < t.len() implies #[trigger] t[a].0 != #[trigger] t[b].0 by {
                        assert(t[a] == s[a] && t[b] == s[b]);
                    }
                }
                assert(!has_entry(t, ip)) by {
                    if has_entry(t, ip) {
                        let a = choose|a: int| 0 <= a < t.len() && #[trigger] t[a].0 == ip;
                        assert(s[a].0 == s[i as int].0);
                    }
                }
                lemma_assoc_push(t, f, ip, u);
            }
            let keep = listed(limited, ip) || u.connections > 0 || u.active > 0;
            if keep {
                proof {
                    assert(!has_entry(kept@, ip)) by {
                        if has_entry(kept@, ip) {
                            let a = choose|a: int| 0 <= a < kept@.len() && #[trigger] kept@[a].0 == ip;
                            assert(has_entry(t, kept@[a].0));
                        }
                    }
                    lemma_assoc_push(kept@, f, ip, u);
                }
                kept.push((ip, u));
                proof {
                    let m = assoc(t, f);
                    assert(assoc(s.take(i + 1), f) == m.insert(ip, counts(u)));
                    assert(pruned(m.insert(ip, counts(u)), limited@) =~= pruned(m, limited@).insert(ip, counts(u)));
                }
            } else {
                proof {
                    let m = assoc(t, f);
                    assert(assoc(s.take(i + 1), f) == m.insert(ip, counts(u)));
                    assert(!m.contains_key(ip));
                    assert(pruned(m.insert(ip, counts(u)), limited@) =~= pruned(m, limited@));
                }
            }
            proof {
                assert forall|j: int| 0 <= j < kept@.len() implies has_entry(s.take(i + 1), #[trigger] kept@[j].0) by {
                    let k = kept@[j].0;
                    if k != ip {
                        let a = choose|a: int| 0 <= a < t.len() && #[trigger] t[a].0 == k;
                        assert(s.take(i + 1)[a].0 == k);
                    } else {
                        assert(s.take(i + 1)[i as int].0 == k);
                    }
                }
            }
            i = i + 1;
        }
        proof {
            assert(s.take(s.len() as int) =~= s);
        }
        self.usage = kept;
    }

    /// Prunes idle entries (see `prune`) when due at `now`, the next time
    /// `PRUNE_INTERVAL_MILLIS` later; returns whether it pruned.
    pub fn maybe_prune(&mut self, now: u64, limited: &Vec<u128>) -> (r: bool)
        ensures
            r == (now >= old(self).prune_at()),
            !r ==> *final(self) == *old(self),
            r ==> final(self)@ == pruned(old(self)@, limited@) && final(self).prune_at() == (if now + PRUNE_INTERVAL_MILLIS
                > u64::MAX {
                u64::MAX as int
            } else {
                now + PRUNE_INTERVAL_MILLIS
            }),
    {
        proof {
            use_type_invariant(&*self);
        }
        if now < self.next_prune {
            return false;
        }
        self.next_prune = now.saturating_add(PRUNE_INTERVAL_MILLIS);
        self.prune(limited);
        true
    }
}

/// Ending an admitted connection undoes its admission: the counts are as
/// before, but for the address's entry, which stays.
pub proof fn law_release_undoes_admit(m: Map<u128, (u32, u32)>, ip: u128)
    requires
        usage_of(m, ip).0 < u32::MAX,
    ensures
        disconnected(connected(m, ip), ip) == with_entry(m, ip),
{
    assert(disconnected(connected(m, ip), ip) =~= with_entry(m, ip));
}

/// Ending an active connection undoes its activation: the counts are as
/// before, but for the address's entry, which stays.
pub proof fn law_deactivate_undoes_activate(m: Map<u128, (u32, u32)>, ip: u128)
    requires
        usage_of(m, ip).1 < u32::MAX,
    ensures
        deactivated(activated(m, ip), ip) == with_entry(m, ip),
{
    assert(deactivated(activated(m, ip), ip) =~= with_entry(m, ip));
}

} // verus!
