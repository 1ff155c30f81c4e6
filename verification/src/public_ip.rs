//! Choosing this server's public address from the answers of several
//! outside services: the most common answer wins.
use crate::seq_util::{assoc, has_entry, lemma_assoc_at, lemma_assoc_push, lemma_assoc_set, unique_keys};
use vstd::prelude::*;

verus! {

/// The tallies of a list of (answer, votes) entries.
pub open spec fn tally(entries: Seq<(u32, usize)>) -> Map<u32, usize> {
    assoc(entries, |c: usize| c)
}

/// How many of the answers are `ip`.
pub open spec fn votes(answers: Seq<Option<u32>>, ip: u32) -> nat
    decreases answers.len(),
{
    if answers.len() == 0 {
        0
    } else {
        votes(answers.drop_last(), ip) + if answers.last() == Some(ip) {
            1nat
        } else {
            0nat
        }
    }
}

/// The leading answer and its votes after counting the answers in order: an
/// answer takes the lead when its votes exceed the leader's, so among equally
/// common answers the first to reach that count leads.
pub open spec fn leader(answers: Seq<Option<u32>>) -> (Option<u32>, nat)
    decreases answers.len(),
{
    if answers.len() == 0 {
        (None, 0)
    } else {
        let (lead, most) = leader(answers.drop_last());
        match answers.last() {
            Some(ip) => if votes(answers, ip) > most {
                (Some(ip), votes(answers, ip))
            } else {
                (lead, most)
            },
            None => (lead, most),
        }
    }
}

/// The leader has the most votes, and there is one exactly when some
/// service answered.
pub proof fn law_leader_is_most_common(answers: Seq<Option<u32>>)
    ensures
        leader(answers).0 is None <==> forall|i: int| 0 <= i < answers.len() ==> answers[i] is None,
        leader(answers).0 matches Some(ip) ==> leader(answers).1 == votes(answers, ip),
        leader(answers).0 is None ==> leader(answers).1 == 0,
        forall|other: u32| #[trigger] votes(answers, other) <= leader(answers).1,
    decreases answers.len(),
{
    if answers.len() > 0 {
        let d = answers.drop_last();
        law_leader_is_most_common(d);
        assert forall|other: u32| #[trigger] votes(answers, other) <= leader(answers).1 by {
            assert(votes(d, other) <= leader(d).1);
        }
        if leader(answers).0 is None {
            assert forall|i: int| 0 <= i < answers.len() implies answers[i] is None by {
                if i < d.len() {
                    assert(d[i] == answers[i]);
                } else {
                    if answers.last() is Some {
                        let ip = answers.last()->0;
                        assert(votes(answers, ip) == votes(d, ip) + 1);
                    }
                }
            }
        }
        if leader(answers).0 is Some && leader(d).0 is Some && answers.last() != Some(leader(d).0->0) {
            let l = leader(d).0->0;
            assert(votes(answers, l) == votes(d, l));
        }
        if forall|i: int| 0 <= i < answers.len() ==> answers[i] is None {
            assert forall|i: int| 0 <= i < d.len() implies d[i] is None by {
                assert(answers[i] is None);
            }
            assert(answers[answers.len() - 1] is None);
        }
    }
}

/// The most common answer (see `leader`), if any service answered.
pub fn most_common_answer(answers: &Vec<Option<u32>>) -> (r: Option<u32>)
    ensures
        r == leader(answers@).0,
{
    let mut guesses: Vec<(u32, usize)> = Vec::new();
    let mut max: usize = 0;
    let mut arg_max: Option<u32> = None;
    let mut k: usize = 0;
    while k < answers.len()
        invariant
            k <= answers@.len(),
            unique_keys(guesses@),
            forall|ip: u32|
                #[trigger] tally(guesses@).contains_key(ip) ==> tally(guesses@)[ip] == votes(
                    answers@.take(k as int),
                    ip,
                ),
            forall|ip: u32|
                !(#[trigger] tally(guesses@).contains_key(ip)) ==> votes(answers@.take(k as int), ip) == 0,
            leader(answers@.take(k as int)) == (arg_max, max as nat),
            max <= k,
        decreases answers@.len() - k,
    {
        let ghost prefix = answers@.take(k as int);
        let ghost next = answers@.take(k + 1);
        proof {
            assert(next.drop_last() =~= prefix);
            assert(next.last() == answers@[k as int]);
        }
        if let Some(ip) = answers[k] {
            let mut i: usize = 0;
            let mut found = false;
            let mut count: usize = 0;
            while i < guesses.len() && !found
                invariant
                    i <= guesses@.len(),
                    !found ==> forall|j: int| 0 <= j < i ==> #[trigger] guesses@[j].0 != ip,
                    found ==> i < guesses@.len() && guesses@[i as int].0 == ip && count == guesses@[i as int].1,
                decreases guesses@.len() - i + if found {
                    0int
                } else {
                    1
                },
            {
                if guesses[i].0 == ip {
                    found = true;
                    count = guesses[i].1;
                } else {
                    i = i + 1;
                }
            }
            let ghost before = guesses@;
            if found {
                proof {
                    lemma_assoc_at(before, |c: usize| c, i as int);
                    assert(tally(before).contains_key(ip));
                    assert(tally(before)[ip] == count);
                    assert(count == votes(prefix, ip));
                    assert(count <= k) by {
                        lemma_votes_bound(prefix, ip);
                    }
                }
                count = count + 1;
                guesses.set(i, (ip, count));
                proof {
                    lemma_assoc_set(before, |c: usize| c, i as int, count);
                }
            } else {
                proof {
                    assert(!has_entry(before, ip)) by {
                        if has_entry(before, ip) {
                            let j = choose|j: int| 0 <= j < before.len() && #[trigger] before[j].0 == ip;
                            assert(before[j].0 != ip);
                        }
                    }
                    lemma_assoc_push(before, |c: usize| c, ip, 1);
                    assert(!tally(before).contains_key(ip));
                    assert(votes(prefix, ip) == 0);
                }
                count = 1;
                guesses.push((ip, 1));
            }
            proof {
                assert(votes(next, ip) == votes(prefix, ip) + 1);
                assert forall|other: u32| other != ip implies #[trigger] votes(next, other) == votes(prefix, other) by {}
                assert(tally(guesses@) == tally(before).insert(ip, count));
                assert forall|x: u32| #[trigger] tally(guesses@).contains_key(x) implies tally(guesses@)[x] == votes(next, x) by {
                    if x != ip {
                        assert(tally(before).contains_key(x));
                        assert(votes(next, x) == votes(prefix, x));
                    } else {
                        if !tally(before).contains_key(ip) {
                            assert(votes(prefix, ip) == 0);
                        }
                    }
                }
                assert forall|x: u32| !(#[trigger] tally(guesses@).contains_key(x)) implies votes(next, x) == 0 by {
                    assert(!tally(before).contains_key(x));
                    assert(x != ip);
                    assert(votes(next, x) == votes(prefix, x));
                }
            }
            proof {
                assert(count == votes(next, ip));
                assert(leader(next) == (if votes(next, ip) > leader(prefix).1 {
                    (Some(ip), votes(next, ip))
                } else {
                    leader(prefix)
                }));
            }
            if count > max {
                max = count;
                arg_max = Some(ip);
            }
        } else {
            proof {
                assert forall|other: u32| #[trigger] votes(next, other) == votes(prefix, other) by {}
                assert(leader(next) == leader(prefix));
            }
        }
        k = k + 1;
    }
    proof {
        assert(answers@.take(answers@.len() as int) =~= answers@);
    }
    arg_max
}

proof fn lemma_votes_bound(answers: Seq<Option<u32>>, ip: u32)
    ensures
        votes(answers, ip) <= answers.len(),
    decreases answers.len(),
{
    if answers.len() > 0 {
        lemma_votes_bound(answers.drop_last(), ip);
    }
}

} // verus!
