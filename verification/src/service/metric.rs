//! Metrics kept in total and for each cross-section of the players (cohort,
//! referrer, region, user agent and lifecycle).
use crate::ids::{CohortId, LifecycleId, MetricFilter, Referrer, RegionId, UserAgentId};
use crate::seq_util::{
    assoc, has_entry, lemma_assoc_at, lemma_assoc_push, lemma_assoc_set, lemma_entry_index, lemma_keys_len, unique_keys,
};
use vstd::prelude::*;

verus! {

/// A value that metrics start from before anything is counted.
pub trait Zero: Sized {
    /// The starting value.
    spec fn zero_value() -> Self;

    /// Makes the starting value.
    fn zero() -> (r: Self)
        ensures
            r == Self::zero_value(),
    ;
}

impl Zero for u32 {
    open spec fn zero_value() -> u32 {
        0
    }

    fn zero() -> (r: u32) {
        0
    }
}

/// The most referrers that get an entry of their own.
pub const MAX_REFERRERS: usize = 128;

/// The value of an entry, or the starting value when there is none.
pub open spec fn or_zero<T: Zero>(m: Map<MetricFilter, T>, k: MetricFilter) -> T {
    if m.contains_key(k) {
        m[k]
    } else {
        T::zero_value()
    }
}

/// The entries of a table by key.
pub open spec fn table<T>(entries: Seq<(MetricFilter, T)>) -> Map<MetricFilter, T> {
    assoc(entries, |v: T| v)
}

/// Whether `cur` is `old` with the entries of `keys` each passed through
/// `f` (from the starting value where `old` has none).
pub open spec fn visited<T: Zero, F: Fn(T) -> T>(
    old: Map<MetricFilter, T>,
    cur: Map<MetricFilter, T>,
    keys: Set<MetricFilter>,
    f: F,
) -> bool {
    &&& cur.dom() == old.dom().union(keys)
    &&& forall|k: MetricFilter| #[trigger] keys.contains(k) ==> f.ensures((or_zero(old, k),), cur[k])
    &&& forall|k: MetricFilter| old.contains_key(k) && !keys.contains(k) ==> #[trigger] cur[k] == old[k]
}

/// Whether `cur` is `old` with each entry of `src` whose key is in `keys`
/// merged in through `f`.
pub open spec fn merged<T: Zero, O, F: Fn(T, O) -> T>(
    old: Map<MetricFilter, T>,
    cur: Map<MetricFilter, T>,
    src: Map<MetricFilter, O>,
    keys: Set<MetricFilter>,
    f: F,
) -> bool {
    &&& cur.dom() == old.dom().union(keys)
    &&& forall|k: MetricFilter| #[trigger] keys.contains(k) ==> src.contains_key(k) && f.ensures((or_zero(old, k), src[k]), cur[k])
    &&& forall|k: MetricFilter| old.contains_key(k) && !keys.contains(k) ==> #[trigger] cur[k] == old[k]
}

proof fn lemma_visited_step<T: Zero, F: Fn(T) -> T>(
    old: Map<MetricFilter, T>,
    cur: Map<MetricFilter, T>,
    keys: Set<MetricFilter>,
    f: F,
    k: MetricFilter,
    v: T,
)
    requires
        visited(old, cur, keys, f),
        !keys.contains(k),
        f.ensures((or_zero(cur, k),), v),
    ensures
        visited(old, cur.insert(k, v), keys.insert(k), f),
{
    assert(or_zero(cur, k) == or_zero(old, k));
    assert(cur.insert(k, v).dom() =~= old.dom().union(keys.insert(k)));
}

proof fn lemma_merged_step<T: Zero, O, F: Fn(T, O) -> T>(
    old: Map<MetricFilter, T>,
    cur: Map<MetricFilter, T>,
    src: Map<MetricFilter, O>,
    keys: Set<MetricFilter>,
    f: F,
    k: MetricFilter,
    v: T,
)
    requires
        merged(old, cur, src, keys, f),
        !keys.contains(k),
        src.contains_key(k),
        f.ensures((or_zero(cur, k), src[k]), v),
    ensures
        merged(old, cur.insert(k, v), src, keys.insert(k), f),
{
    assert(or_zero(cur, k) == or_zero(old, k));
    assert(cur.insert(k, v).dom() =~= old.dom().union(keys.insert(k)));
}

fn find_entry<T>(entries: &Vec<(MetricFilter, T)>, k: MetricFilter) -> (r: Option<usize>)
    requires
        unique_keys(entries@),
    ensures
        r is None <==> !has_entry(entries@, k),
        r matches Some(i) ==> i < entries@.len() && entries@[i as int].0 == k,
{
    let mut i: usize = 0;
    while i < entries.len()
        invariant
            i <= entries@.len(),
            forall|j: int| 0 <= j < i ==> #[trigger] entries@[j].0 != k,
        decreases entries@.len() - i,
    {
        if entries[i].0 == k {
            return Some(i);
        }
        i = i + 1;
    }
    None
}

/// Passes the entry `k` through `f`, starting it from zero if absent.
fn visit_entry<T: Zero, F: Fn(T) -> T>(entries: &mut Vec<(MetricFilter, T)>, k: MetricFilter, f: &F)
    requires
        unique_keys(old(entries)@),
        forall|v: T| #[trigger] f.requires((v,)),
    ensures
        unique_keys(final(entries)@),
        table(final(entries)@) == table(old(entries)@).insert(k, table(final(entries)@)[k]),
        f.ensures((or_zero(table(old(entries)@), k),), table(final(entries)@)[k]),
        forall|j: int|
            0 <= j < final(entries)@.len() ==> (#[trigger] final(entries)@[j]).0 == k || has_entry(
                old(entries)@,
                final(entries)@[j].0,
            ),
{
    let ghost before = entries@;
    match find_entry(entries, k) {
        Some(i) => {
            proof {
                lemma_assoc_at(before, |v: T| v, i as int);
            }
            let (key, v) = entries.remove(i);
            let nv = f(v);
            entries.insert(i, (key, nv));
            proof {
                assert(entries@ =~= before.update(i as int, (k, nv)));
                lemma_assoc_set(before, |v: T| v, i as int, nv);
                assert forall|j: int| 0 <= j < entries@.len() implies (#[trigger] entries@[j]).0 == k || has_entry(
                    before,
                    entries@[j].0,
                ) by {
                    assert(entries@[j].0 == before[j].0);
                }
            }
        },
        None => {
            let nv = f(T::zero());
            entries.push((k, nv));
            proof {
                lemma_assoc_push(before, |v: T| v, k, nv);
                assert forall|j: int| 0 <= j < entries@.len() implies (#[trigger] entries@[j]).0 == k || has_entry(
                    before,
                    entries@[j].0,
                ) by {
                    if j < before.len() {
                        assert(entries@[j] == before[j]);
                    }
                }
            }
        },
    }
}

/// Merges `o` into the entry `k` through `f`, starting it from zero if
/// absent.
fn merge_entry<T: Zero, O, F: Fn(T, O) -> T>(entries: &mut Vec<(MetricFilter, T)>, k: MetricFilter, o: O, f: &F)
    requires
        unique_keys(old(entries)@),
        forall|v: T, w: O| #[trigger] f.requires((v, w)),
    ensures
        unique_keys(final(entries)@),
        table(final(entries)@) == table(old(entries)@).insert(k, table(final(entries)@)[k]),
        f.ensures((or_zero(table(old(entries)@), k), o), table(final(entries)@)[k]),
        forall|j: int|
            0 <= j < final(entries)@.len() ==> (#[trigger] final(entries)@[j]).0 == k || has_entry(
                old(entries)@,
                final(entries)@[j].0,
            ),
{
    let ghost before = entries@;
    match find_entry(entries, k) {
        Some(i) => {
            proof {
                lemma_assoc_at(before, |v: T| v, i as int);
            }
            let (key, v) = entries.remove(i);
            let nv = f(v, o);
            entries.insert(i, (key, nv));
            proof {
                assert(entries@ =~= before.update(i as int, (k, nv)));
                lemma_assoc_set(before, |v: T| v, i as int, nv);
                assert forall|j: int| 0 <= j < entries@.len() implies (#[trigger] entries@[j]).0 == k || has_entry(
                    before,
                    entries@[j].0,
                ) by {
                    assert(entries@[j].0 == before[j].0);
                }
            }
        },
        None => {
            let nv = f(T::zero(), o);
            entries.push((k, nv));
            proof {
                lemma_assoc_push(before, |v: T| v, k, nv);
                assert forall|j: int| 0 <= j < entries@.len() implies (#[trigger] entries@[j]).0 == k || has_entry(
                    before,
                    entries@[j].0,
                ) by {
                    if j < before.len() {
                        assert(entries@[j] == before[j]);
                    }
                }
            }
        },
    }
}


/// A value for the total and for each cross-section of the metrics. Only the
/// first `MAX_REFERRERS` referrers visited get an entry of their own.
pub struct Bundle<T> {
    total: T,
    /// Entries by cohort, region, user agent and lifecycle.
    by_filter: Vec<(MetricFilter, T)>,
    /// Entries by referrer.
    by_referrer: Vec<(MetricFilter, T)>,
}

/// The mathematical value of a bundle: the total and the entry of each
/// cross-section that has one.
pub struct BundleView<T> {
    pub total: T,
    pub entries: Map<MetricFilter, T>,
}

/// The referrers that have an entry.
pub open spec fn referrers<T>(v: BundleView<T>) -> Set<MetricFilter> {
    v.entries.dom().filter(|k: MetricFilter| k is Referrer)
}

/// The value for a filter: the total for none, else the entry if any.
pub open spec fn filtered<T>(v: BundleView<T>, filter: Option<MetricFilter>) -> Option<T> {
    match filter {
        None => Some(v.total),
        Some(k) => if v.entries.contains_key(k) {
            Some(v.entries[k])
        } else {
            None
        },
    }
}

/// The referrer a visit is counted under: a aliases referrer's alias, else
/// `other_referrer`; `no_referrer` when the player came without one.
pub open spec fn counted_referrer(
    referrer: Option<Referrer>,
    no_referrer: Option<Referrer>,
    other_referrer: Option<Referrer>,
    aliases: Map<Referrer, Referrer>,
) -> Option<Referrer> {
    match referrer {
        Some(r) => if aliases.contains_key(r) {
            Some(aliases[r])
        } else {
            other_referrer
        },
        None => no_referrer,
    }
}

/// The entries that a visit touches: the cohort, lifecycle, region and user
/// agent when known, and the counted referrer when it already has an entry
/// or there is room for one more.
pub open spec fn visited_keys<T>(
    old: BundleView<T>,
    cohort_id: CohortId,
    counted: Option<Referrer>,
    region_id: Option<RegionId>,
    user_agent_id: Option<UserAgentId>,
    lifecycle: LifecycleId,
) -> Set<MetricFilter> {
    let base = set![MetricFilter::CohortId(cohort_id), MetricFilter::LifecycleId(lifecycle)];
    let with_referrer = match counted {
        Some(r) => if old.entries.contains_key(MetricFilter::Referrer(r)) || referrers(old).len() < MAX_REFERRERS {
            base.insert(MetricFilter::Referrer(r))
        } else {
            base
        },
        None => base,
    };
    let with_region = match region_id {
        Some(x) => with_referrer.insert(MetricFilter::RegionId(x)),
        None => with_referrer,
    };
    match user_agent_id {
        Some(x) => with_region.insert(MetricFilter::UserAgentId(x)),
        None => with_region,
    }
}

/// A visit never lets the referrers with an entry of their own outgrow
/// `MAX_REFERRERS`.
pub proof fn law_referrers_capped<T: Zero, F: Fn(T) -> T>(
    old: BundleView<T>,
    new: BundleView<T>,
    cohort_id: CohortId,
    counted: Option<Referrer>,
    region_id: Option<RegionId>,
    user_agent_id: Option<UserAgentId>,
    lifecycle: LifecycleId,
    f: F,
)
    requires
        referrers(old).finite(),
        referrers(old).len() <= MAX_REFERRERS,
        visited(old.entries, new.entries, visited_keys(old, cohort_id, counted, region_id, user_agent_id, lifecycle), f),
    ensures
        referrers(new).finite(),
        referrers(new).len() <= MAX_REFERRERS,
{
    let keys = visited_keys(old, cohort_id, counted, region_id, user_agent_id, lifecycle);
    let ro = referrers(old);
    let rn = referrers(new);
    match counted {
        Some(r) => {
            let k = MetricFilter::Referrer(r);
            if old.entries.contains_key(k) || ro.len() < MAX_REFERRERS {
                assert(rn.subset_of(ro.insert(k)));
                vstd::set_lib::lemma_set_subset_finite(ro.insert(k), rn);
                vstd::set_lib::lemma_len_subset(rn, ro.insert(k));
                if old.entries.contains_key(k) {
                    assert(ro.insert(k) =~= ro);
                }
            } else {
                assert(rn.subset_of(ro));
                vstd::set_lib::lemma_set_subset_finite(ro, rn);
                vstd::set_lib::lemma_len_subset(rn, ro);
            }
        },
        None => {
            assert(rn.subset_of(ro));
            vstd::set_lib::lemma_set_subset_finite(ro, rn);
            vstd::set_lib::lemma_len_subset(rn, ro);
        },
    }
}

fn referrer_alias(aliases: &Vec<(Referrer, Referrer)>, referrer: Referrer) -> (r: Option<Referrer>)
    requires
        unique_keys(aliases@),
    ensures
        r == (if assoc(aliases@, |v: Referrer| v).contains_key(referrer) {
            Some(assoc(aliases@, |v: Referrer| v)[referrer])
        } else {
            None
        }),
{
    let mut i: usize = 0;
    while i < aliases.len()
        invariant
            i <= aliases@.len(),
            unique_keys(aliases@),
            forall|j: int| 0 <= j < i ==> #[trigger] aliases@[j].0 != referrer,
        decreases aliases@.len() - i,
    {
        if aliases[i].0 == referrer {
            proof {
                lemma_assoc_at(aliases@, |v: Referrer| v, i as int);
            }
            return Some(aliases[i].1);
        }
        i = i + 1;
    }
    None
}

/// A list that holds the total first and then each entry of `entries` once
/// has one item more than `entries`.
proof fn lemma_listing_len<T>(r: Seq<(Option<MetricFilter>, T)>, entries: Map<MetricFilter, T>)
    requires
        r.len() > 0,
        r[0].0 is None,
        forall|i: int| 1 <= i < r.len() ==> ((#[trigger] r[i]).0 matches Some(k) && entries.contains_key(k)),
        forall|k: MetricFilter| #[trigger] entries.contains_key(k) ==> exists|i: int| 1 <= i < r.len() && r[i].0 == Some(k),
        unique_keys(r),
    ensures
        r.len() == entries.len() + 1,
{
    let ks = r.subrange(1, r.len() as int).map_values(|e: (Option<MetricFilter>, T)| e.0.unwrap());
    assert forall|a: int, b: int| 0 <= a < ks.len() && 0 <= b < ks.len() && a != b implies ks[a] != ks[b] by {
        assert(r[a + 1].0 is Some && r[b + 1].0 is Some);
        if a < b {
            assert(r[a + 1].0 != r[b + 1].0);
        } else {
            assert(r[b + 1].0 != r[a + 1].0);
        }
    }
    assert(ks.no_duplicates());
    ks.unique_seq_to_set();
    assert(ks.to_set() =~= entries.dom()) by {
        assert forall|k: MetricFilter| ks.to_set().contains(k) <==> entries.dom().contains(k) by {
            if ks.to_set().contains(k) {
                let a = choose|a: int| 0 <= a < ks.len() && ks[a] == k;
                assert(r[a + 1].0 matches Some(x) && entries.contains_key(x));
            }
            if entries.dom().contains(k) {
                let i = choose|i: int| 1 <= i < r.len() && r[i].0 == Some(k);
                assert(ks[i - 1] == k);
            }
        }
    }
}

impl<T> Bundle<T> {
    #[verifier::type_invariant]
    spec fn well_formed(&self) -> bool {
        &&& unique_keys(self.by_filter@)
        &&& unique_keys(self.by_referrer@)
        &&& forall|i: int| 0 <= i < self.by_filter@.len() ==> !((#[trigger] self.by_filter@[i]).0 is Referrer)
        &&& forall|i: int| 0 <= i < self.by_referrer@.len() ==> (#[trigger] self.by_referrer@[i]).0 is Referrer
    }

    /// The total and the entries.
    pub closed spec fn model(&self) -> BundleView<T> {
        BundleView {
            total: self.total,
            entries: table(self.by_filter@).union_prefer_right(table(self.by_referrer@)),
        }
    }

    proof fn lemma_referrers(&self)
        requires
            self.well_formed(),
        ensures
            referrers(self.model()).finite(),
            referrers(self.model()).len() == self.by_referrer@.len(),
    {
        lemma_keys_len(self.by_referrer@);
        assert forall|k: MetricFilter| referrers(self.model()).contains(k) <==> crate::seq_util::key_set(
            self.by_referrer@,
        ).contains(k) by {
            if has_entry(self.by_filter@, k) && k is Referrer {
                let a = choose|a: int| 0 <= a < self.by_filter@.len() && #[trigger] self.by_filter@[a].0 == k;
                assert(!(self.by_filter@[a].0 is Referrer));
            }
            if has_entry(self.by_referrer@, k) {
                let a = choose|a: int| 0 <= a < self.by_referrer@.len() && #[trigger] self.by_referrer@[a].0 == k;
                assert(self.by_referrer@[a].0 is Referrer);
            }
        }
        assert(referrers(self.model()) =~= crate::seq_util::key_set(self.by_referrer@));
    }
}

impl<T> View for Bundle<T> {
    type V = BundleView<T>;

    open spec fn view(&self) -> BundleView<T> {
        self.model()
    }
}

impl<T: Zero> Default for Bundle<T> {
    /// A bundle with a zero total and no entries.
    fn default() -> (r: Self)
        ensures
            r@.total == T::zero_value(),
            r@.entries == Map::<MetricFilter, T>::empty(),
    {
        let r = Bundle { total: T::zero(), by_filter: Vec::new(), by_referrer: Vec::new() };
        assert(r@.entries =~= Map::<MetricFilter, T>::empty());
        r
    }
}

impl<T: Zero> Bundle<T> {
    /// Passes the total and each cross-section that a player belongs to
    /// through `mutation` (see `visited_keys`).
    pub fn visit_specific_mut<F: Fn(T) -> T>(
        &mut self,
        mutation: F,
        cohort_id: CohortId,
        referrer: Option<Referrer>,
        region_id: Option<RegionId>,
        user_agent_id: Option<UserAgentId>,
        lifecycle: LifecycleId,
        no_referrer: Option<Referrer>,
        other_referrer: Option<Referrer>,
        tracked_referrers: &Vec<(Referrer, Referrer)>,
    )
        requires
            forall|v: T| #[trigger] mutation.requires((v,)),
            unique_keys(tracked_referrers@),
        ensures
            mutation.ensures((old(self)@.total,), final(self)@.total),
            visited(
                old(self)@.entries,
                final(self)@.entries,
                visited_keys(
                    old(self)@,
                    cohort_id,
                    counted_referrer(referrer, no_referrer, other_referrer, assoc(tracked_referrers@, |v: Referrer| v)),
                    region_id,
                    user_agent_id,
                    lifecycle,
                ),
                mutation,
            ),
    {
        proof {
            use_type_invariant(&*self);
            self.lemma_referrers();
        }
        let ghost old_entries = self@.entries;
        let ghost old_view = self@;
        let mut total = T::zero();
        std::mem::swap(&mut total, &mut self.total);
        self.total = mutation(total);
        let ghost mut keys = Set::<MetricFilter>::empty();
        proof {
            assert(self@.entries == old_entries);
            assert(old_entries.dom().union(keys) =~= old_entries.dom());
            assert(visited(old_entries, self@.entries, keys, mutation));
        }
        let k = MetricFilter::CohortId(cohort_id);
        self.visit_filter(k, &mutation);
        proof {
            lemma_visited_step(old_entries, old_entries, keys, mutation, k, self@.entries[k]);
            keys = keys.insert(k);
        }
        let counted = match referrer {
            Some(r) => match referrer_alias(tracked_referrers, r) {
                Some(alias) => Some(alias),
                None => other_referrer,
            },
            None => no_referrer,
        };
        if let Some(r) = counted {
            let k = MetricFilter::Referrer(r);
            let full = self.by_referrer.len() >= MAX_REFERRERS;
            let present = find_entry(&self.by_referrer, k).is_some();
            proof {
                use_type_invariant(&*self);
                assert(present == old_entries.contains_key(k)) by {
                    if has_entry(self.by_filter@, k) {
                        let a = choose|a: int| 0 <= a < self.by_filter@.len() && #[trigger] self.by_filter@[a].0 == k;
                        assert(!(self.by_filter@[a].0 is Referrer));
                    }
                }
            }
            if present || !full {
                let ghost cur = self@.entries;
                self.visit_referrer(k, &mutation);
                proof {
                    lemma_visited_step(old_entries, cur, keys, mutation, k, self@.entries[k]);
                    keys = keys.insert(k);
                }
            }
        }
        if let Some(x) = region_id {
            let k = MetricFilter::RegionId(x);
            let ghost cur = self@.entries;
            self.visit_filter(k, &mutation);
            proof {
                lemma_visited_step(old_entries, cur, keys, mutation, k, self@.entries[k]);
                keys = keys.insert(k);
            }
        }
        if let Some(x) = user_agent_id {
            let k = MetricFilter::UserAgentId(x);
            let ghost cur = self@.entries;
            self.visit_filter(k, &mutation);
            proof {
                lemma_visited_step(old_entries, cur, keys, mutation, k, self@.entries[k]);
                keys = keys.insert(k);
            }
        }
        let k = MetricFilter::LifecycleId(lifecycle);
        let ghost cur = self@.entries;
        self.visit_filter(k, &mutation);
        proof {
            lemma_visited_step(old_entries, cur, keys, mutation, k, self@.entries[k]);
            keys = keys.insert(k);
            assert(keys =~= visited_keys(
                old_view,
                cohort_id,
                counted_referrer(referrer, no_referrer, other_referrer, assoc(tracked_referrers@, |v: Referrer| v)),
                region_id,
                user_agent_id,
                lifecycle,
            ));
        }
    }

    /// Passes a non-referrer entry through `f`.
    fn visit_filter<F: Fn(T) -> T>(&mut self, k: MetricFilter, f: &F)
        requires
            !(k is Referrer),
            forall|v: T| #[trigger] f.requires((v,)),
        ensures
            final(self)@.total == old(self)@.total,
            final(self)@.entries == old(self)@.entries.insert(k, final(self)@.entries[k]),
            f.ensures((or_zero(old(self)@.entries, k),), final(self)@.entries[k]),
            final(self).by_referrer@ == old(self).by_referrer@,
    {
        proof {
            use_type_invariant(&*self);
        }
        let ghost before = self.by_filter@;
        let ghost rt = table(self.by_referrer@);
        let mut entries: Vec<(MetricFilter, T)> = Vec::new();
        std::mem::swap(&mut entries, &mut self.by_filter);
        proof {
            assert(entries@ == before);
        }
        visit_entry(&mut entries, k, f);
        proof {
            assert forall|i: int| 0 <= i < entries@.len() implies !((#[trigger] entries@[i]).0 is Referrer) by {
                if entries@[i].0 != k {
                    let a = choose|a: int| 0 <= a < before.len() && #[trigger] before[a].0 == entries@[i].0;
                    assert(!(before[a].0 is Referrer));
                }
            }
        }
        self.by_filter = entries;
        proof {
            assert(!rt.contains_key(k)) by {
                if has_entry(self.by_referrer@, k) {
                    let a = choose|a: int| 0 <= a < self.by_referrer@.len() && #[trigger] self.by_referrer@[a].0 == k;
                    assert(self.by_referrer@[a].0 is Referrer);
                }
            }
            assert(or_zero(old(self)@.entries, k) == or_zero(table(before), k));
            assert(self@.entries =~= old(self)@.entries.insert(k, self@.entries[k]));
            assert forall|i: int| 0 <= i < self.by_filter@.len() implies !((#[trigger] self.by_filter@[i]).0 is Referrer) by {
                if self.by_filter@[i].0 != k {
                    let a = choose|a: int| 0 <= a < before.len() && #[trigger] before[a].0 == self.by_filter@[i].0;
                    assert(!(before[a].0 is Referrer));
                }
            }
        }
    }

    /// Passes a referrer entry through `f`.
    fn visit_referrer<F: Fn(T) -> T>(&mut self, k: MetricFilter, f: &F)
        requires
            k is Referrer,
            forall|v: T| #[trigger] f.requires((v,)),
        ensures
            final(self)@.total == old(self)@.total,
            final(self)@.entries == old(self)@.entries.insert(k, final(self)@.entries[k]),
            f.ensures((or_zero(old(self)@.entries, k),), final(self)@.entries[k]),
    {
        proof {
            use_type_invariant(&*self);
        }
        let ghost before = self.by_referrer@;
        let ghost ft = table(self.by_filter@);
        let mut entries: Vec<(MetricFilter, T)> = Vec::new();
        std::mem::swap(&mut entries, &mut self.by_referrer);
        proof {
            assert(entries@ == before);
        }
        visit_entry(&mut entries, k, f);
        proof {
            assert forall|i: int| 0 <= i < entries@.len() implies ((#[trigger] entries@[i]).0 is Referrer) by {
                if entries@[i].0 != k {
                    let a = choose|a: int| 0 <= a < before.len() && #[trigger] before[a].0 == entries@[i].0;
                    assert((before[a].0 is Referrer));
                }
            }
        }
        self.by_referrer = entries;
        proof {
            assert(!ft.contains_key(k)) by {
                if has_entry(self.by_filter@, k) {
                    let a = choose|a: int| 0 <= a < self.by_filter@.len() && #[trigger] self.by_filter@[a].0 == k;
                    assert(!(self.by_filter@[a].0 is Referrer));
                }
            }
            assert(or_zero(old(self)@.entries, k) == or_zero(table(before), k));
            assert(self@.entries =~= old(self)@.entries.insert(k, self@.entries[k]));
            assert forall|i: int| 0 <= i < self.by_referrer@.len() implies (#[trigger] self.by_referrer@[i]).0 is Referrer by {
                if self.by_referrer@[i].0 != k {
                    let a = choose|a: int| 0 <= a < before.len() && #[trigger] before[a].0 == self.by_referrer@[i].0;
                    assert(before[a].0 is Referrer);
                }
            }
        }
    }
}


impl<T> Bundle<T> {
    /// The value for a filter: the total for none, else its entry if any.
    pub fn get(&self, filter: Option<MetricFilter>) -> (r: Option<&T>)
        ensures
            r matches Some(v) ==> filtered(self@, filter) == Some(*v),
            r is None ==> filtered(self@, filter) is None,
    {
        proof {
            use_type_invariant(self);
        }
        match filter {
            None => Some(&self.total),
            Some(k) => {
                if matches!(k, MetricFilter::Referrer(_)) {
                    match find_entry(&self.by_referrer, k) {
                        Some(i) => {
                            proof {
                                lemma_assoc_at(self.by_referrer@, |v: T| v, i as int);
                            }
                            Some(&self.by_referrer[i].1)
                        },
                        None => None,
                    }
                } else {
                    proof {
                        assert(!has_entry(self.by_referrer@, k)) by {
                            if has_entry(self.by_referrer@, k) {
                                let a = choose|a: int| 0 <= a < self.by_referrer@.len() && #[trigger] self.by_referrer@[a].0 == k;
                                assert(self.by_referrer@[a].0 is Referrer);
                            }
                        }
                    }
                    match find_entry(&self.by_filter, k) {
                        Some(i) => {
                            proof {
                                lemma_assoc_at(self.by_filter@, |v: T| v, i as int);
                            }
                            Some(&self.by_filter[i].1)
                        },
                        None => None,
                    }
                }
            },
        }
    }

    /// All values, each with its filter: the total first (with none), then
    /// every entry once, in no particular order.
    pub fn into_iter(self) -> (r: Vec<(Option<MetricFilter>, T)>)
        ensures
            r@.len() > 0,
            r@[0] == (None::<MetricFilter>, self@.total),
            forall|i: int|
                1 <= i < r@.len() ==> ((#[trigger] r@[i]).0 matches Some(k) && self@.entries.contains_key(k)
                    && r@[i].1 == self@.entries[k]),
            forall|k: MetricFilter|
                #[trigger] self@.entries.contains_key(k) ==> exists|i: int| 1 <= i < r@.len() && r@[i].0 == Some(k),
            unique_keys(r@),
            r@.len() == self@.entries.len() + 1,
    {
        proof {
            use_type_invariant(&self);
        }
        let ghost view = self@;
        let ghost f0 = self.by_filter@;
        let ghost r0 = self.by_referrer@;
        let Bundle { total, by_filter, by_referrer } = self;
        let mut out: Vec<(Option<MetricFilter>, T)> = Vec::new();
        out.push((None, total));
        let mut rest = by_filter;
        let nf = rest.len();
        let mut i: usize = 0;
        proof {
            assert(rest@ =~= f0.subrange(0, f0.len() as int));
        }
        while rest.len() > 0
            invariant
                f0.len() == i + rest@.len(),
                f0.len() == nf,
                rest@ == f0.subrange(i as int, f0.len() as int),
                out@.len() == i + 1,
                out@[0] == (None::<MetricFilter>, view.total),
                forall|j: int| 1 <= j < out@.len() ==> #[trigger] out@[j] == (Some(f0[j - 1].0), f0[j - 1].1),
            decreases rest@.len(),
        {
            let (k, v) = rest.remove(0);
            out.push((Some(k), v));
            i = i + 1;
        }
        let mut rest = by_referrer;
        let nr = rest.len();
        let mut m: usize = 0;
        proof {
            assert(rest@ =~= r0.subrange(0, r0.len() as int));
        }
        while rest.len() > 0
            invariant
                r0.len() == m + rest@.len(),
                r0.len() == nr,
                rest@ == r0.subrange(m as int, r0.len() as int),
                out@.len() == f0.len() + m + 1,
                out@[0] == (None::<MetricFilter>, view.total),
                forall|j: int| 1 <= j <= f0.len() ==> #[trigger] out@[j] == (Some(f0[j - 1].0), f0[j - 1].1),
                forall|j: int|
                    f0.len() < j < out@.len() ==> #[trigger] out@[j] == (Some(r0[j - 1 - f0.len()].0), r0[j - 1 - f0.len()].1),
            decreases rest@.len(),
        {
            let (k, v) = rest.remove(0);
            out.push((Some(k), v));
            m = m + 1;
        }
        proof {
            let n = f0.len() as int;
            assert forall|i: int| 1 <= i < out@.len() implies ((#[trigger] out@[i]).0 matches Some(k) && view.entries.contains_key(k)
                && out@[i].1 == view.entries[k]) by {
                if i <= n {
                    lemma_assoc_at(f0, |v: T| v, i - 1);
                    let k = f0[i - 1].0;
                    assert(!(k is Referrer));
                    assert(!has_entry(r0, k)) by {
                        if has_entry(r0, k) {
                            let a = choose|a: int| 0 <= a < r0.len() && #[trigger] r0[a].0 == k;
                            assert(r0[a].0 is Referrer);
                        }
                    }
                } else {
                    lemma_assoc_at(r0, |v: T| v, i - 1 - n);
                }
            }
            assert forall|k: MetricFilter| #[trigger] view.entries.contains_key(k) implies exists|i: int|
                1 <= i < out@.len() && out@[i].0 == Some(k) by {
                if has_entry(r0, k) {
                    let a = choose|a: int| 0 <= a < r0.len() && #[trigger] r0[a].0 == k;
                    assert(out@[a + 1 + n].0 == Some(k));
                } else {
                    let a = choose|a: int| 0 <= a < f0.len() && #[trigger] f0[a].0 == k;
                    assert(out@[a + 1].0 == Some(k));
                }
            }
            assert forall|a: int, b: int| 0 <= a < b < out@.len() implies #[trigger] out@[a].0 != #[trigger] out@[b].0 by {
                if a > 0 {
                    if b <= n {
                        assert(f0[a - 1].0 != f0[b - 1].0);
                    } else if a > n {
                        assert(r0[a - 1 - n].0 != r0[b - 1 - n].0);
                    } else {
                        assert(!(f0[a - 1].0 is Referrer));
                        assert(r0[b - 1 - n].0 is Referrer);
                    }
                }
            }
            lemma_listing_len(out@, view.entries);
        }
        out
    }
}

impl<T: Zero> Bundle<T> {
    /// Merges another bundle into this one through `map`: the totals, and
    /// each entry of `other` into the same entry here (started from zero if
    /// absent).
    pub fn apply<O, F: Fn(T, O) -> T>(&mut self, other: Bundle<O>, map: F)
        requires
            forall|v: T, w: O| #[trigger] map.requires((v, w)),
        ensures
            map.ensures((old(self)@.total, other@.total), final(self)@.total),
            merged(old(self)@.entries, final(self)@.entries, other@.entries, other@.entries.dom(), map),
    {
        proof {
            use_type_invariant(&*self);
            use_type_invariant(&other);
        }
        let ghost old_entries = self@.entries;
        let ghost src = other@.entries;
        let ghost of0 = other.by_filter@;
        let ghost or0 = other.by_referrer@;
        let Bundle { total: other_total, by_filter: mut of, by_referrer: mut orr } = other;
        let mut total = T::zero();
        std::mem::swap(&mut total, &mut self.total);
        self.total = map(total, other_total);
        let ghost new_total = self@.total;
        let ghost mut keys = Set::<MetricFilter>::empty();
        proof {
            assert(old_entries.dom().union(keys) =~= old_entries.dom());
            assert(of@ =~= of0.subrange(0, of@.len() as int));
            assert(orr@ =~= or0.subrange(0, orr@.len() as int));
            assert(keys =~= Set::new(|k: MetricFilter| exists|j: int| of@.len() <= j < of0.len() && #[trigger] of0[j].0 == k));
        }
        while of.len() > 0
            invariant
                forall|v: T, w: O| #[trigger] map.requires((v, w)),
                of@.len() <= of0.len(),
                of@ == of0.subrange(0, of@.len() as int),
                self@.total == new_total,
                unique_keys(of0),
                forall|i: int| 0 <= i < of0.len() ==> !((#[trigger] of0[i]).0 is Referrer),
                unique_keys(or0),
                forall|i: int| 0 <= i < or0.len() ==> (#[trigger] or0[i]).0 is Referrer,
                src == table(of0).union_prefer_right(table(or0)),
                keys == Set::new(|k: MetricFilter| exists|j: int| of@.len() <= j < of0.len() && #[trigger] of0[j].0 == k),
                merged(old_entries, self@.entries, src, keys, map),
                orr@ == or0,
            decreases of@.len(),
        {
            let ghost n = of@.len() as int;
            let (k, o) = of.pop().unwrap();
            let ghost cur = self@.entries;
            proof {
                assert(of0[n - 1] == (k, o));
                lemma_assoc_at(of0, |v: O| v, n - 1);
                assert(!has_entry(or0, k)) by {
                    if has_entry(or0, k) {
                        let a = choose|a: int| 0 <= a < or0.len() && #[trigger] or0[a].0 == k;
                        assert(or0[a].0 is Referrer);
                    }
                }
                assert(src.contains_key(k) && src[k] == o);
                assert(!keys.contains(k)) by {
                    if keys.contains(k) {
                        let j = choose|j: int| n <= j < of0.len() && #[trigger] of0[j].0 == k;
                        assert(of0[n - 1].0 != of0[j].0);
                    }
                }
            }
            self.merge_filter(k, o, &map);
            proof {
                lemma_merged_step(old_entries, cur, src, keys, map, k, self@.entries[k]);
                keys = keys.insert(k);
                assert(keys =~= Set::new(|k: MetricFilter| exists|j: int| of@.len() <= j < of0.len() && #[trigger] of0[j].0 == k)) by {
                    assert forall|x: MetricFilter| keys.contains(x) implies exists|j: int| of@.len() <= j < of0.len() && #[trigger] of0[j].0 == x by {
                        if x == k {
                            assert(of0[n - 1].0 == x);
                        }
                    }
                }
            }
        }
        let ghost fkeys = keys;
        proof {
            assert(orr@ =~= or0.subrange(0, orr@.len() as int));
            assert(keys =~= fkeys.union(Set::new(|k: MetricFilter| exists|j: int| orr@.len() <= j < or0.len() && #[trigger] or0[j].0 == k)));
            assert forall|x: MetricFilter| fkeys.contains(x) <==> has_entry(of0, x) by {
                if has_entry(of0, x) {
                    let a = choose|a: int| 0 <= a < of0.len() && #[trigger] of0[a].0 == x;
                    assert(0 <= a < of0.len());
                }
            }
        }
        while orr.len() > 0
            invariant
                forall|v: T, w: O| #[trigger] map.requires((v, w)),
                orr@.len() <= or0.len(),
                orr@ == or0.subrange(0, orr@.len() as int),
                self@.total == new_total,
                unique_keys(of0),
                forall|i: int| 0 <= i < of0.len() ==> !((#[trigger] of0[i]).0 is Referrer),
                unique_keys(or0),
                forall|i: int| 0 <= i < or0.len() ==> (#[trigger] or0[i]).0 is Referrer,
                src == table(of0).union_prefer_right(table(or0)),
                forall|x: MetricFilter| fkeys.contains(x) <==> has_entry(of0, x),
                keys == fkeys.union(Set::new(|k: MetricFilter| exists|j: int| orr@.len() <= j < or0.len() && #[trigger] or0[j].0 == k)),
                merged(old_entries, self@.entries, src, keys, map),
            decreases orr@.len(),
        {
            let ghost n = orr@.len() as int;
            let (k, o) = orr.pop().unwrap();
            let ghost cur = self@.entries;
            proof {
                assert(or0[n - 1] == (k, o));
                lemma_assoc_at(or0, |v: O| v, n - 1);
                assert(src.contains_key(k) && src[k] == o);
                assert(!keys.contains(k)) by {
                    if fkeys.contains(k) {
                        let a = choose|a: int| 0 <= a < of0.len() && #[trigger] of0[a].0 == k;
                        assert(!(of0[a].0 is Referrer));
                        assert(or0[n - 1].0 is Referrer);
                    } else if keys.contains(k) {
                        let j = choose|j: int| n <= j < or0.len() && #[trigger] or0[j].0 == k;
                        assert(or0[n - 1].0 != or0[j].0);
                    }
                }
            }
            self.merge_referrer(k, o, &map);
            proof {
                lemma_merged_step(old_entries, cur, src, keys, map, k, self@.entries[k]);
                keys = keys.insert(k);
                assert(keys =~= fkeys.union(Set::new(|k: MetricFilter| exists|j: int| orr@.len() <= j < or0.len() && #[trigger] or0[j].0 == k))) by {
                    assert forall|x: MetricFilter| keys.contains(x) && !fkeys.contains(x) implies exists|j: int| orr@.len() <= j < or0.len() && #[trigger] or0[j].0 == x by {
                        if x == k {
                            assert(or0[n - 1].0 == x);
                        }
                    }
                }
            }
        }
        proof {
            assert forall|x: MetricFilter| #[trigger] keys.contains(x) <==> src.contains_key(x) by {
                if has_entry(or0, x) {
                    let a = choose|a: int| 0 <= a < or0.len() && #[trigger] or0[a].0 == x;
                    assert(0 <= a < or0.len());
                }
            }
            assert(keys =~= src.dom());
        }
    }

    /// Merges into a non-referrer entry.
    fn merge_filter<O, F: Fn(T, O) -> T>(&mut self, k: MetricFilter, o: O, f: &F)
        requires
            !(k is Referrer),
            forall|v: T, w: O| #[trigger] f.requires((v, w)),
        ensures
            final(self)@.total == old(self)@.total,
            final(self)@.entries == old(self)@.entries.insert(k, final(self)@.entries[k]),
            f.ensures((or_zero(old(self)@.entries, k), o), final(self)@.entries[k]),
    {
        proof {
            use_type_invariant(&*self);
        }
        let ghost before = self.by_filter@;
        let ghost rt = table(self.by_referrer@);
        let mut entries: Vec<(MetricFilter, T)> = Vec::new();
        std::mem::swap(&mut entries, &mut self.by_filter);
        merge_entry(&mut entries, k, o, f);
        proof {
            assert forall|i: int| 0 <= i < entries@.len() implies !((#[trigger] entries@[i]).0 is Referrer) by {
                if entries@[i].0 != k {
                    let a = choose|a: int| 0 <= a < before.len() && #[trigger] before[a].0 == entries@[i].0;
                    assert(!(before[a].0 is Referrer));
                }
            }
        }
        self.by_filter = entries;
        proof {
            assert(!rt.contains_key(k)) by {
                if has_entry(self.by_referrer@, k) {
                    let a = choose|a: int| 0 <= a < self.by_referrer@.len() && #[trigger] self.by_referrer@[a].0 == k;
                    assert(self.by_referrer@[a].0 is Referrer);
                }
            }
            assert(or_zero(old(self)@.entries, k) == or_zero(table(before), k));
            assert(self@.entries =~= old(self)@.entries.insert(k, self@.entries[k]));
        }
    }

    /// Merges into a referrer entry.
    fn merge_referrer<O, F: Fn(T, O) -> T>(&mut self, k: MetricFilter, o: O, f: &F)
        requires
            k is Referrer,
            forall|v: T, w: O| #[trigger] f.requires((v, w)),
        ensures
            final(self)@.total == old(self)@.total,
            final(self)@.entries == old(self)@.entries.insert(k, final(self)@.entries[k]),
            f.ensures((or_zero(old(self)@.entries, k), o), final(self)@.entries[k]),
    {
        proof {
            use_type_invariant(&*self);
        }
        let ghost before = self.by_referrer@;
        let ghost ft = table(self.by_filter@);
        let mut entries: Vec<(MetricFilter, T)> = Vec::new();
        std::mem::swap(&mut entries, &mut self.by_referrer);
        merge_entry(&mut entries, k, o, f);
        proof {
            assert forall|i: int| 0 <= i < entries@.len() implies (#[trigger] entries@[i]).0 is Referrer by {
                if entries@[i].0 != k {
                    let a = choose|a: int| 0 <= a < before.len() && #[trigger] before[a].0 == entries@[i].0;
                    assert(before[a].0 is Referrer);
                }
            }
        }
        self.by_referrer = entries;
        proof {
            assert(!ft.contains_key(k)) by {
                if has_entry(self.by_filter@, k) {
                    let a = choose|a: int| 0 <= a < self.by_filter@.len() && #[trigger] self.by_filter@[a].0 == k;
                    assert(!(self.by_filter@[a].0 is Referrer));
                }
            }
            assert(or_zero(old(self)@.entries, k) == or_zero(table(before), k));
            assert(self@.entries =~= old(self)@.entries.insert(k, self@.entries[k]));
        }
    }
}


/// The metrics of one period: when it started (milliseconds since the
/// epoch), and the metrics in total and by cross-section.
pub struct MetricBundle<M> {
    pub start: u64,
    pub bundle: Bundle<M>,
}

impl<M: Zero> MetricBundle<M> {
    /// An empty period starting at `start`.
    pub fn new(start: u64) -> (r: Self)
        ensures
            r.start == start,
            r.bundle@.total == M::zero_value(),
            r.bundle@.entries == Map::<MetricFilter, M>::empty(),
    {
        Self { start, bundle: Bundle::default() }
    }

    /// The data point of a cross-section's metrics (of zero metrics when it
    /// has none), computed by `to_point`.
    pub fn data_point<P, F: Fn(&M) -> P>(&self, filter: Option<MetricFilter>, to_point: F) -> (r: P)
        requires
            forall|m: &M| #[trigger] to_point.requires((m,)),
        ensures
            match filtered(self.bundle@, filter) {
                Some(m) => to_point.ensures((&m,), r),
                None => to_point.ensures((&M::zero_value(),), r),
            },
    {
        match self.bundle.get(filter) {
            Some(m) => to_point(m),
            None => {
                let zero = M::zero();
                to_point(&zero)
            },
        }
    }
}

impl<M: Zero + Clone> MetricBundle<M> {
    /// A copy of a cross-section's metrics (zero metrics when it has none).
    pub fn metric(&self, filter: Option<MetricFilter>) -> (r: M)
        ensures
            match filtered(self.bundle@, filter) {
                Some(m) => cloned(m, r),
                None => r == M::zero_value(),
            },
    {
        match self.bundle.get(filter) {
            Some(m) => m.clone(),
            None => M::zero(),
        }
    }
}

/// A minute, in milliseconds.
pub const MINUTE_MILLIS: u64 = 60_000;

/// An hour, in milliseconds.
pub const HOUR_MILLIS: u64 = 3_600_000;

/// `t` rounded down to a whole `unit` since the Unix epoch.
pub open spec fn floor_to(t: u64, unit: u64) -> int {
    t - t % unit
}

/// When the metrics are next sampled (each minute) and next rotated into
/// the history (each hour). Times are in milliseconds.
#[derive(Clone, Copy, Debug, PartialEq, Eq, Structural)]
pub struct MetricSchedule {
    pub next_update: u64,
    pub next_swap: u64,
}

/// What a metrics tick does: sample the metrics, and (when due) start a new
/// hour of metrics at `swap`.
#[derive(Clone, Copy, Debug, PartialEq, Eq, Structural)]
pub struct MetricTick {
    pub sample: bool,
    pub swap: Option<u64>,
}

impl MetricSchedule {
    /// The schedule of metrics started at `now`: the next whole minute and
    /// the next whole hour.
    pub fn new(now: u64) -> (r: Self)
        requires
            now <= u64::MAX - HOUR_MILLIS,
        ensures
            r.next_update == floor_to(now, MINUTE_MILLIS) + MINUTE_MILLIS,
            r.next_swap == floor_to(now, HOUR_MILLIS) + HOUR_MILLIS,
    {
        MetricSchedule {
            next_update: now - now % MINUTE_MILLIS + MINUTE_MILLIS,
            next_swap: now - now % HOUR_MILLIS + HOUR_MILLIS,
        }
    }

    /// A tick at `now`: nothing before the next update; otherwise a sample,
    /// the next update at the next whole minute, and, once the next swap is
    /// due, a new hour starting at the current whole hour, with the next
    /// swap an hour later.
    pub fn tick(&mut self, now: u64) -> (r: MetricTick)
        requires
            now <= u64::MAX - HOUR_MILLIS,
        ensures
            now < old(self).next_update ==> *final(self) == *old(self) && r == (MetricTick { sample: false, swap: None }),
            now >= old(self).next_update ==> {
                &&& r.sample
                &&& final(self).next_update == floor_to(now, MINUTE_MILLIS) + MINUTE_MILLIS
                &&& now < old(self).next_swap ==> r.swap is None && final(self).next_swap == old(self).next_swap
                &&& now >= old(self).next_swap ==> r.swap == Some((floor_to(now, HOUR_MILLIS)) as u64)
                    && final(self).next_swap == floor_to(now, HOUR_MILLIS) + HOUR_MILLIS
            },
    {
        if now < self.next_update {
            return MetricTick { sample: false, swap: None };
        }
        self.next_update = now - now % MINUTE_MILLIS + MINUTE_MILLIS;
        if now < self.next_swap {
            return MetricTick { sample: true, swap: None };
        }
        let start = now - now % HOUR_MILLIS;
        self.next_swap = start + HOUR_MILLIS;
        MetricTick { sample: true, swap: Some(start) }
    }
}

/// How many finished periods the history keeps.
pub const METRIC_HISTORY_LEN: usize = 24;

/// A finished period as a value: its start and its metrics.
pub open spec fn period_view<M>(b: MetricBundle<M>) -> (u64, BundleView<M>) {
    (b.start, b.bundle@)
}

/// The finished periods kept, oldest first: the last `METRIC_HISTORY_LEN`
/// written.
pub struct MetricHistory<M> {
    periods: Vec<MetricBundle<M>>,
}

impl<M> View for MetricHistory<M> {
    type V = Seq<(u64, BundleView<M>)>;

    closed spec fn view(&self) -> Seq<(u64, BundleView<M>)> {
        self.periods@.map_values(|b: MetricBundle<M>| period_view(b))
    }
}

/// The periods kept after writing one more: the oldest goes when the
/// history is full.
pub open spec fn kept_after_write<T>(kept: Seq<T>, written: T) -> Seq<T> {
    if kept.len() >= METRIC_HISTORY_LEN {
        kept.push(written).drop_first()
    } else {
        kept.push(written)
    }
}

impl<M> MetricHistory<M> {
    /// Never more than `METRIC_HISTORY_LEN` periods.
    #[verifier::type_invariant]
    closed spec fn bounded(&self) -> bool {
        self.periods@.len() <= METRIC_HISTORY_LEN
    }

    /// An empty history.
    pub fn new() -> (r: Self)
        ensures
            r@ == Seq::<(u64, BundleView<M>)>::empty(),
    {
        let r = MetricHistory { periods: Vec::new() };
        proof {
            assert(r@ =~= Seq::<(u64, BundleView<M>)>::empty());
        }
        r
    }

    /// How many periods are kept.
    pub fn len(&self) -> (r: usize)
        ensures
            r == self@.len(),
            r <= METRIC_HISTORY_LEN,
    {
        proof {
            use_type_invariant(self);
        }
        self.periods.len()
    }

    /// The kept period at position `i`, oldest first.
    pub fn get(&self, i: usize) -> (r: Option<&MetricBundle<M>>)
        ensures
            match r {
                Some(b) => i < self@.len() && period_view(*b) == self@[i as int],
                None => i >= self@.len(),
            },
    {
        if i < self.periods.len() {
            Some(&self.periods[i])
        } else {
            None
        }
    }

    /// Keeps a finished period, dropping the oldest when full.
    pub fn write(&mut self, period: MetricBundle<M>)
        ensures
            final(self)@ == kept_after_write(old(self)@, period_view(period)),
    {
        proof {
            use_type_invariant(&*self);
        }
        let ghost v = period_view(period);
        let mut periods: Vec<MetricBundle<M>> = Vec::new();
        std::mem::swap(&mut periods, &mut self.periods);
        let ghost p0 = periods@;
        periods.push(period);
        if periods.len() > METRIC_HISTORY_LEN {
            let _oldest = periods.remove(0);
        }
        self.periods = periods;
        proof {
            let m0 = p0.map_values(|b: MetricBundle<M>| period_view(b));
            if p0.len() >= METRIC_HISTORY_LEN {
                assert(self.periods@ =~= p0.push(period).drop_first());
                assert(self@ =~= m0.push(v).drop_first());
            } else {
                assert(self.periods@ =~= p0.push(period));
                assert(self@ =~= m0.push(v));
            }
        }
    }
}

impl<M: Zero> MetricBundle<M> {
    /// Ends the current period at an hour's turn: `finished` (the current
    /// period's final metrics) goes into the history, the current period
    /// starts afresh at `new_start`, and the finished period's start is
    /// returned.
    pub fn rotate(&mut self, finished: MetricBundle<M>, history: &mut MetricHistory<M>, new_start: u64) -> (r: u64)
        ensures
            r == finished.start,
            final(history)@ == kept_after_write(old(history)@, period_view(finished)),
            final(self).start == new_start,
            final(self).bundle@.total == M::zero_value(),
            final(self).bundle@.entries == Map::<MetricFilter, M>::empty(),
    {
        let start = finished.start;
        history.write(finished);
        *self = MetricBundle::new(new_start);
        start
    }
}

} // verus!
