//! Facts about sequences used by the team and board bookkeeping.
use vstd::prelude::*;

verus! {

/// `s` with every occurrence of `x` removed, the rest in order.
pub open spec fn without<T>(s: Seq<T>, x: T) -> Seq<T>
    decreases s.len(),
{
    if s.len() == 0 {
        s
    } else {
        let rest = without(s.drop_last(), x);
        if s.last() == x {
            rest
        } else {
            rest.push(s.last())
        }
    }
}

/// Membership in a sequence extended at the end.
pub proof fn lemma_push_contains<T>(s: Seq<T>, v: T, y: T)
    ensures
        s.push(v).contains(y) <==> (s.contains(y) || y == v),
{
    let p = s.push(v);
    if s.contains(y) {
        let i = choose|i: int| 0 <= i < s.len() && s[i] == y;
        assert(p[i] == y);
    }
    if y == v {
        assert(p[s.len() as int] == y);
    }
    if p.contains(y) {
        let i = choose|i: int| 0 <= i < p.len() && p[i] == y;
        if i < s.len() {
            assert(s[i] == y);
        }
    }
}

/// Membership after removal: exactly the other members remain.
pub proof fn lemma_without_contains<T>(s: Seq<T>, x: T, y: T)
    ensures
        without(s, x).contains(y) <==> (s.contains(y) && y != x),
    decreases s.len(),
{
    if s.len() > 0 {
        let d = s.drop_last();
        let l = s.last();
        lemma_without_contains(d, x, y);
        assert(d.push(l) =~= s);
        lemma_push_contains(d, l, y);
        if l != x {
            lemma_push_contains(without(d, x), l, y);
        }
    }
}

/// Removal never lengthens a sequence, and removing an absent value is a no-op.
pub proof fn lemma_without_len<T>(s: Seq<T>, x: T)
    ensures
        without(s, x).len() <= s.len(),
        !s.contains(x) ==> without(s, x) == s,
    decreases s.len(),
{
    if s.len() > 0 {
        let d = s.drop_last();
        lemma_without_len(d, x);
        if !s.contains(x) {
            assert(!d.contains(x)) by {
                if d.contains(x) {
                    let i = choose|i: int| 0 <= i < d.len() && d[i] == x;
                    assert(s[i] == x);
                }
            }
            assert(s.last() != x) by {
                assert(s[s.len() - 1] == s.last());
            }
            assert(d.push(s.last()) =~= s);
        }
    }
}

/// Removing a value from a sequence without duplicates keeps it without
/// duplicates.
pub proof fn lemma_without_no_duplicates<T>(s: Seq<T>, x: T)
    requires
        s.no_duplicates(),
    ensures
        without(s, x).no_duplicates(),
    decreases s.len(),
{
    if s.len() > 0 {
        let d = s.drop_last();
        assert(d.no_duplicates()) by {
            assert forall|i: int, j: int| 0 <= i < d.len() && 0 <= j < d.len() && i != j implies d[i] != d[j] by {
                assert(d[i] == s[i] && d[j] == s[j]);
            }
        }
        lemma_without_no_duplicates(d, x);
        if s.last() != x {
            let w = without(d, x);
            lemma_without_contains(d, x, s.last());
            assert(!d.contains(s.last())) by {
                if d.contains(s.last()) {
                    let i = choose|i: int| 0 <= i < d.len() && d[i] == s.last();
                    assert(s[i] == s[s.len() - 1]);
                }
            }
            let p = w.push(s.last());
            assert forall|i: int, j: int| 0 <= i < p.len() && 0 <= j < p.len() && i != j implies p[i] != p[j] by {
                if i == w.len() {
                    assert(w[j] == p[j]);
                } else if j == w.len() {
                    assert(w[i] == p[i]);
                } else {
                    assert(w[i] == p[i] && w[j] == p[j]);
                }
            }
        }
    }
}

/// Removing a value that occurs makes the sequence shorter.
pub proof fn lemma_without_shorter<T>(s: Seq<T>, x: T)
    requires
        s.contains(x),
    ensures
        without(s, x).len() < s.len(),
    decreases s.len(),
{
    let d = s.drop_last();
    lemma_without_len(d, x);
    assert(d.push(s.last()) =~= s);
    lemma_push_contains(d, s.last(), x);
    if s.last() != x {
        lemma_without_shorter(d, x);
    }
}

/// Removing a value twice is removing it once.
pub proof fn lemma_without_twice<T>(s: Seq<T>, x: T)
    ensures
        without(without(s, x), x) == without(s, x),
{
    lemma_without_contains(s, x, x);
    lemma_without_len(without(s, x), x);
}

/// Removing the first element, when it occurs nowhere else, drops it.
pub proof fn lemma_without_first<T>(s: Seq<T>)
    requires
        s.len() > 0,
        !s.drop_first().contains(s[0]),
    ensures
        without(s, s[0]) == s.drop_first(),
    decreases s.len(),
{
    let x = s[0];
    if s.len() == 1 {
        assert(s.drop_last().len() == 0);
        assert(without(s.drop_last(), x) == s.drop_last());
        assert(s.last() == x);
        assert(s.drop_first() =~= Seq::<T>::empty());
        assert(s.drop_last() =~= Seq::<T>::empty());
    } else {
        let d = s.drop_last();
        assert(d[0] == x);
        assert(!d.drop_first().contains(x)) by {
            if d.drop_first().contains(x) {
                let i = choose|i: int| 0 <= i < d.drop_first().len() && d.drop_first()[i] == x;
                assert(s.drop_first()[i] == x);
            }
        }
        lemma_without_first(d);
        assert(s.last() != x) by {
            assert(s.drop_first()[s.len() - 2] == s.last());
        }
        assert(d.drop_first().push(s.last()) =~= s.drop_first());
        assert(without(s, x) == without(d, x).push(s.last()));
    }
}

/// The position of the (unique) entry with key `k`.
pub open spec fn entry_index<K, V>(s: Seq<(K, V)>, k: K) -> int {
    choose|i: int| 0 <= i < s.len() && s[i].0 == k
}

/// Whether some entry has key `k`.
pub open spec fn has_entry<K, V>(s: Seq<(K, V)>, k: K) -> bool {
    exists|i: int| 0 <= i < s.len() && #[trigger] s[i].0 == k
}

/// No two entries share a key.
pub open spec fn unique_keys<K, V>(s: Seq<(K, V)>) -> bool {
    forall|i: int, j: int| 0 <= i < j < s.len() ==> #[trigger] s[i].0 != #[trigger] s[j].0
}

pub proof fn lemma_entry_index<K, V>(s: Seq<(K, V)>, k: K, i: int)
    requires
        unique_keys(s),
        0 <= i < s.len(),
        s[i].0 == k,
    ensures
        entry_index(s, k) == i,
{
    let j = entry_index(s, k);
    assert(0 <= j < s.len() && s[j].0 == k);
    if j < i {
        assert(s[j].0 != s[i].0);
    } else if i < j {
        assert(s[i].0 != s[j].0);
    }
}

/// The map that a list of entries with unique keys denotes, each value
/// taken through `f`.
pub open spec fn assoc<K, V, W>(s: Seq<(K, V)>, f: spec_fn(V) -> W) -> Map<K, W> {
    Map::new(|k: K| has_entry(s, k), |k: K| f(s[entry_index(s, k)].1))
}

pub proof fn lemma_assoc_at<K, V, W>(s: Seq<(K, V)>, f: spec_fn(V) -> W, i: int)
    requires
        unique_keys(s),
        0 <= i < s.len(),
    ensures
        assoc(s, f).contains_key(s[i].0),
        assoc(s, f)[s[i].0] == f(s[i].1),
{
    lemma_entry_index(s, s[i].0, i);
}

pub proof fn lemma_assoc_set<K, V, W>(s: Seq<(K, V)>, f: spec_fn(V) -> W, i: int, v: V)
    requires
        unique_keys(s),
        0 <= i < s.len(),
    ensures
        unique_keys(s.update(i, (s[i].0, v))),
        assoc(s.update(i, (s[i].0, v)), f) == assoc(s, f).insert(s[i].0, f(v)),
{
    let t = s.update(i, (s[i].0, v));
    assert forall|a: int, b: int| 0 <= a < b < t.len() implies #[trigger] t[a].0 != #[trigger] t[b].0 by {
        assert(t[a].0 == s[a].0 && t[b].0 == s[b].0);
    }
    assert forall|k: K| has_entry(t, k) <==> has_entry(s, k) by {
        if has_entry(t, k) {
            let a = choose|a: int| 0 <= a < t.len() && #[trigger] t[a].0 == k;
            assert(s[a].0 == k);
        }
        if has_entry(s, k) {
            let a = choose|a: int| 0 <= a < s.len() && #[trigger] s[a].0 == k;
            assert(t[a].0 == k);
        }
    }
    assert forall|k: K| has_entry(s, k) implies #[trigger] assoc(t, f)[k] == assoc(s, f).insert(s[i].0, f(v))[k] by {
        let a = choose|a: int| 0 <= a < s.len() && #[trigger] s[a].0 == k;
        lemma_entry_index(s, k, a);
        lemma_entry_index(t, k, a);
    }
    assert(assoc(t, f) =~= assoc(s, f).insert(s[i].0, f(v)));
}

pub proof fn lemma_assoc_push<K, V, W>(s: Seq<(K, V)>, f: spec_fn(V) -> W, k: K, v: V)
    requires
        unique_keys(s),
        !has_entry(s, k),
    ensures
        unique_keys(s.push((k, v))),
        assoc(s.push((k, v)), f) == assoc(s, f).insert(k, f(v)),
{
    let t = s.push((k, v));
    assert forall|a: int, b: int| 0 <= a < b < t.len() implies #[trigger] t[a].0 != #[trigger] t[b].0 by {
        if b == s.len() {
            assert(t[a] == s[a]);
            if s[a].0 == k {
                assert(has_entry(s, k));
            }
        } else {
            assert(t[a] == s[a] && t[b] == s[b]);
        }
    }
    assert forall|x: K| has_entry(t, x) <==> (has_entry(s, x) || x == k) by {
        if has_entry(t, x) {
            let a = choose|a: int| 0 <= a < t.len() && #[trigger] t[a].0 == x;
            if a < s.len() {
                assert(s[a].0 == x);
            }
        }
        if has_entry(s, x) {
            let a = choose|a: int| 0 <= a < s.len() && #[trigger] s[a].0 == x;
            assert(t[a].0 == x);
        }
        if x == k {
            assert(t[s.len() as int].0 == x);
        }
    }
    assert forall|x: K| #[trigger] assoc(t, f).contains_key(x) implies assoc(t, f)[x] == assoc(s, f).insert(k, f(v))[x] by {
        if x == k {
            lemma_entry_index(t, x, s.len() as int);
        } else {
            let a = choose|a: int| 0 <= a < s.len() && #[trigger] s[a].0 == x;
            lemma_entry_index(s, x, a);
            assert(t[a] == s[a]);
            lemma_entry_index(t, x, a);
        }
    }
    assert(assoc(t, f) =~= assoc(s, f).insert(k, f(v)));
}

pub proof fn lemma_assoc_remove<K, V, W>(s: Seq<(K, V)>, f: spec_fn(V) -> W, i: int)
    requires
        unique_keys(s),
        0 <= i < s.len(),
    ensures
        unique_keys(s.remove(i)),
        assoc(s.remove(i), f) == assoc(s, f).remove(s[i].0),
{
    let t = s.remove(i);
    let k = s[i].0;
    assert forall|a: int, b: int| 0 <= a < b < t.len() implies #[trigger] t[a].0 != #[trigger] t[b].0 by {
        let ja = if a < i { a } else { a + 1 };
        let jb = if b < i { b } else { b + 1 };
        assert(t[a] == s[ja] && t[b] == s[jb]);
    }
    assert forall|x: K| has_entry(t, x) <==> (has_entry(s, x) && x != k) by {
        if has_entry(t, x) {
            let a = choose|a: int| 0 <= a < t.len() && #[trigger] t[a].0 == x;
            let ja = if a < i { a } else { a + 1 };
            assert(s[ja].0 == x);
            assert(ja != i);
        }
        if has_entry(s, x) && x != k {
            let a = choose|a: int| 0 <= a < s.len() && #[trigger] s[a].0 == x;
            assert(a != i);
            let ta = if a < i { a } else { a - 1 };
            assert(t[ta].0 == x);
        }
    }
    assert forall|x: K| #[trigger] assoc(t, f).contains_key(x) implies assoc(t, f)[x] == assoc(s, f).remove(k)[x] by {
        let a = choose|a: int| 0 <= a < s.len() && #[trigger] s[a].0 == x;
        lemma_entry_index(s, x, a);
        assert(a != i);
        let ta = if a < i { a } else { a - 1 };
        assert(t[ta] == s[a]);
        lemma_entry_index(t, x, ta);
    }
    assert(assoc(t, f) =~= assoc(s, f).remove(k));
}


pub proof fn lemma_assoc_insert<K, V, W>(s: Seq<(K, V)>, f: spec_fn(V) -> W, p: int, k: K, v: V)
    requires
        unique_keys(s),
        !has_entry(s, k),
        0 <= p <= s.len(),
    ensures
        unique_keys(s.insert(p, (k, v))),
        assoc(s.insert(p, (k, v)), f) == assoc(s, f).insert(k, f(v)),
{
    let t = s.insert(p, (k, v));
    assert forall|a: int| 0 <= a < t.len() implies #[trigger] t[a] == (if a < p { s[a] } else if a == p { (k, v) } else { s[a - 1] }) by {}
    assert forall|a: int, b: int| 0 <= a < b < t.len() implies #[trigger] t[a].0 != #[trigger] t[b].0 by {
        if a == p {
            let jb = b - 1;
            assert(t[b] == s[jb]);
            if s[jb].0 == k {
                assert(has_entry(s, k));
            }
        } else if b == p {
            assert(t[a] == s[a]);
            if s[a].0 == k {
                assert(has_entry(s, k));
            }
        } else {
            let ja = if a < p { a } else { a - 1 };
            let jb = if b < p { b } else { b - 1 };
            assert(t[a] == s[ja] && t[b] == s[jb]);
        }
    }
    assert forall|x: K| has_entry(t, x) <==> (has_entry(s, x) || x == k) by {
        if has_entry(t, x) {
            let a = choose|a: int| 0 <= a < t.len() && #[trigger] t[a].0 == x;
            if a < p {
                assert(s[a].0 == x);
            } else if a > p {
                assert(s[a - 1].0 == x);
            }
        }
        if has_entry(s, x) {
            let a = choose|a: int| 0 <= a < s.len() && #[trigger] s[a].0 == x;
            let ta = if a < p { a } else { a + 1 };
            assert(t[ta].0 == x);
        }
        if x == k {
            assert(t[p].0 == x);
        }
    }
    assert forall|x: K| #[trigger] assoc(t, f).contains_key(x) implies assoc(t, f)[x] == assoc(s, f).insert(k, f(v))[x] by {
        if x == k {
            lemma_entry_index(t, x, p);
        } else {
            let a = choose|a: int| 0 <= a < s.len() && #[trigger] s[a].0 == x;
            lemma_entry_index(s, x, a);
            let ta = if a < p { a } else { a + 1 };
            assert(t[ta] == s[a]);
            lemma_entry_index(t, x, ta);
        }
    }
    assert(assoc(t, f) =~= assoc(s, f).insert(k, f(v)));
}


/// The keys of a list of entries.
pub open spec fn key_set<K, V>(s: Seq<(K, V)>) -> Set<K> {
    Set::new(|k: K| has_entry(s, k))
}

/// Entries with distinct keys have as many keys as entries.
pub proof fn lemma_keys_len<K, V>(s: Seq<(K, V)>)
    requires
        unique_keys(s),
    ensures
        key_set(s).finite(),
        key_set(s).len() == s.len(),
    decreases s.len(),
{
    if s.len() == 0 {
        assert(key_set(s) =~= Set::<K>::empty());
    } else {
        let d = s.drop_last();
        let x = s.last().0;
        assert(unique_keys(d)) by {
            assert forall|a: int, b: int| 0 <= a < b < d.len() implies #[trigger] d[a].0 != #[trigger] d[b].0 by {
                assert(d[a] == s[a] && d[b] == s[b]);
            }
        }
        lemma_keys_len(d);
        assert(!has_entry(d, x)) by {
            if has_entry(d, x) {
                let a = choose|a: int| 0 <= a < d.len() && #[trigger] d[a].0 == x;
                assert(s[a].0 == s[s.len() - 1].0);
            }
        }
        assert forall|k: K| key_set(s).contains(k) <==> key_set(d).insert(x).contains(k) by {
            if has_entry(s, k) {
                let a = choose|a: int| 0 <= a < s.len() && #[trigger] s[a].0 == k;
                if a < d.len() {
                    assert(d[a].0 == k);
                }
            }
            if has_entry(d, k) {
                let a = choose|a: int| 0 <= a < d.len() && #[trigger] d[a].0 == k;
                assert(s[a].0 == k);
            }
            if k == x {
                assert(s[s.len() - 1].0 == k);
            }
        }
        assert(key_set(s) =~= key_set(d).insert(x));
    }
}

} // verus!
