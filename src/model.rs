//! Mathematical model of the search: the kept items and the order in which
//! their combinations are tried.

use vstd::prelude::*;

verus! {

/// The positions of the items flagged as nonzero, in increasing order.
pub open spec fn nonzero_indices(flags: Seq<bool>) -> Seq<usize>
    decreases flags.len(),
{
    if flags.len() == 0 {
        Seq::empty()
    } else {
        let rest = nonzero_indices(flags.drop_last());
        if flags.last() {
            rest.push((flags.len() - 1) as usize)
        } else {
            rest
        }
    }
}

/// All `k`-element subsets of `s`, each written in the order of `s`, listed
/// lexicographically by position: those holding `s[0]` come first.
pub open spec fn k_subsets(s: Seq<usize>, k: nat) -> Seq<Seq<usize>>
    decreases s.len(),
{
    if k == 0 {
        seq![Seq::empty()]
    } else if s.len() < k {
        Seq::empty()
    } else {
        let rest = s.drop_first();
        k_subsets(rest, (k - 1) as nat).map_values(|c: Seq<usize>| seq![s[0]] + c) + k_subsets(
            rest,
            k,
        )
    }
}

/// The combinations of sizes `k` up to `s.len() - 1`, by increasing size,
/// each size in lexicographic order.
pub open spec fn schedule_from(s: Seq<usize>, k: nat) -> Seq<Seq<usize>>
    decreases s.len() - k,
{
    if k >= s.len() {
        Seq::empty()
    } else {
        k_subsets(s, k) + schedule_from(s, k + 1)
    }
}

/// Every combination a search over `s` tries, in the order it tries them.
/// The combination of all of `s` is not among them.
pub open spec fn schedule(s: Seq<usize>) -> Seq<Seq<usize>> {
    schedule_from(s, 1)
}

/// The matches that a search ends with when it judges the combinations of
/// `todo` in order by `verdict`, having drawn `iterations` combinations and
/// found `found` so far. Once the matches number `max_matches` nothing more is
/// drawn; drawing a combination when the count would reach `max_iterations`
/// ends the search with that combination unjudged.
pub open spec fn judged(
    todo: Seq<Seq<usize>>,
    verdict: spec_fn(Seq<usize>) -> bool,
    iterations: nat,
    max_iterations: nat,
    max_matches: nat,
    found: Seq<Seq<usize>>,
) -> Seq<Seq<usize>>
    decreases todo.len(),
{
    if found.len() >= max_matches || todo.len() == 0 || iterations + 1 >= max_iterations {
        found
    } else {
        let next = if verdict(todo[0]) {
            found.push(todo[0])
        } else {
            found
        };
        judged(todo.drop_first(), verdict, iterations + 1, max_iterations, max_matches, next)
    }
}

/// The matches of a whole search over the items flagged in `flags`, when
/// each combination's sum falls in the window exactly where `verdict` says.
pub open spec fn search_outcome(
    flags: Seq<bool>,
    verdict: spec_fn(Seq<usize>) -> bool,
    max_iterations: nat,
    max_matches: nat,
) -> Seq<Seq<usize>> {
    judged(schedule(nonzero_indices(flags)), verdict, 0, max_iterations, max_matches, Seq::empty())
}

/// `c` is a combination that a search over the flags may try: at least one
/// item, fewer than all the kept ones, each of them flagged nonzero.
pub open spec fn proper(flags: Seq<bool>, c: Seq<usize>) -> bool {
    &&& 1 <= c.len() < nonzero_indices(flags).len()
    &&& forall|j: int| 0 <= j < c.len() ==> (#[trigger] c[j] as int) < flags.len() && flags[c[j] as int]
}

pub proof fn lemma_nonzero_indices_flagged(flags: Seq<bool>)
    requires
        flags.len() <= usize::MAX,
    ensures
        forall|j: int|
            0 <= j < nonzero_indices(flags).len() ==> (#[trigger] nonzero_indices(flags)[j] as int)
                < flags.len() && flags[nonzero_indices(flags)[j] as int],
        nonzero_indices(flags).len() <= flags.len(),
    decreases flags.len(),
{
    if flags.len() > 0 {
        let init = flags.drop_last();
        lemma_nonzero_indices_flagged(init);
        let rest = nonzero_indices(init);
        assert forall|j: int| 0 <= j < nonzero_indices(flags).len() implies (
        #[trigger] nonzero_indices(flags)[j] as int) < flags.len() && flags[nonzero_indices(
            flags,
        )[j] as int] by {
            if j < rest.len() {
                assert(nonzero_indices(flags)[j] == rest[j]);
                assert(flags[rest[j] as int] == init[rest[j] as int]);
            } else {
                assert(nonzero_indices(flags)[j] as int == flags.len() - 1);
            }
        }
    }
}

pub proof fn lemma_k_subsets_members(s: Seq<usize>, k: nat)
    ensures
        forall|i: int|
            0 <= i < k_subsets(s, k).len() ==> {
                let c = #[trigger] k_subsets(s, k)[i];
                &&& c.len() == k
                &&& forall|j: int| 0 <= j < c.len() ==> s.contains(#[trigger] c[j])
            },
    decreases s.len(),
{
    if k > 0 && s.len() >= k {
        let rest = s.drop_first();
        lemma_k_subsets_members(rest, (k - 1) as nat);
        lemma_k_subsets_members(rest, k);
        let left = k_subsets(rest, (k - 1) as nat).map_values(|c: Seq<usize>| seq![s[0]] + c);
        let right = k_subsets(rest, k);
        assert forall|i: int| 0 <= i < k_subsets(s, k).len() implies {
            let c = #[trigger] k_subsets(s, k)[i];
            &&& c.len() == k
            &&& forall|j: int| 0 <= j < c.len() ==> s.contains(#[trigger] c[j])
        } by {
            let c = k_subsets(s, k)[i];
            if i < left.len() {
                let d = k_subsets(rest, (k - 1) as nat)[i];
                assert(c == seq![s[0]] + d);
                assert forall|j: int| 0 <= j < c.len() implies s.contains(#[trigger] c[j]) by {
                    if j == 0 {
                        assert(s[0] == c[j]);
                    } else {
                        assert(c[j] == d[j - 1]);
                        let w = choose|w: int| 0 <= w < rest.len() && rest[w] == d[j - 1];
                        assert(s[w + 1] == c[j]);
                    }
                }
            } else {
                let d = right[i - left.len()];
                assert(c == d);
                assert forall|j: int| 0 <= j < c.len() implies s.contains(#[trigger] c[j]) by {
                    let w = choose|w: int| 0 <= w < rest.len() && rest[w] == d[j];
                    assert(s[w + 1] == c[j]);
                }
            }
        }
    }
}

pub proof fn lemma_schedule_from_proper(flags: Seq<bool>, k: nat)
    requires
        flags.len() <= usize::MAX,
        k >= 1,
    ensures
        forall|i: int|
            0 <= i < schedule_from(nonzero_indices(flags), k).len() ==> proper(
                flags,
                #[trigger] schedule_from(nonzero_indices(flags), k)[i],
            ),
    decreases nonzero_indices(flags).len() - k,
{
    let s = nonzero_indices(flags);
    if k < s.len() {
        lemma_schedule_from_proper(flags, k + 1);
        lemma_k_subsets_members(s, k);
        lemma_nonzero_indices_flagged(flags);
        let head = k_subsets(s, k);
        let tail = schedule_from(s, k + 1);
        assert(schedule_from(s, k) == head + tail);
        assert forall|i: int| 0 <= i < schedule_from(s, k).len() implies proper(
            flags,
            #[trigger] schedule_from(s, k)[i],
        ) by {
            if i < head.len() {
                let c = head[i];
                assert(schedule_from(s, k)[i] == c);
                assert forall|j: int| 0 <= j < c.len() implies (#[trigger] c[j] as int)
                    < flags.len() && flags[c[j] as int] by {
                    assert(s.contains(c[j]));
                    let w = choose|w: int| 0 <= w < s.len() && s[w] == c[j];
                    assert(s[w] == c[j]);
                }
            } else {
                assert(schedule_from(s, k)[i] == tail[i - head.len()]);
            }
        }
    }
}

/// What `judged` adds to `found` is drawn from `todo` in order, only from the
/// combinations that are drawn before the iteration count reaches
/// `max_iterations`, and never past `max_matches` matches.
pub proof fn lemma_judged_shape(
    todo: Seq<Seq<usize>>,
    verdict: spec_fn(Seq<usize>) -> bool,
    iterations: nat,
    max_iterations: nat,
    max_matches: nat,
    found: Seq<Seq<usize>>,
)
    requires
        found.len() <= max_matches,
    ensures
        judged(todo, verdict, iterations, max_iterations, max_matches, found).len() <= max_matches,
        found.len() <= judged(todo, verdict, iterations, max_iterations, max_matches, found).len(),
        judged(todo, verdict, iterations, max_iterations, max_matches, found).subrange(
            0,
            found.len() as int,
        ) == found,
        forall|i: int|
            found.len() <= i < judged(
                todo,
                verdict,
                iterations,
                max_iterations,
                max_matches,
                found,
            ).len() ==> exists|j: int|
                0 <= j < todo.len() && iterations + j + 1 < max_iterations && #[trigger] judged(
                    todo,
                    verdict,
                    iterations,
                    max_iterations,
                    max_matches,
                    found,
                )[i] == todo[j],
    decreases todo.len(),
{
    let r = judged(todo, verdict, iterations, max_iterations, max_matches, found);
    if found.len() >= max_matches || todo.len() == 0 || iterations + 1 >= max_iterations {
        assert(r.subrange(0, found.len() as int) =~= found);
    } else {
        let next = if verdict(todo[0]) {
            found.push(todo[0])
        } else {
            found
        };
        let rest = todo.drop_first();
        lemma_judged_shape(rest, verdict, iterations + 1, max_iterations, max_matches, next);
        assert(r == judged(rest, verdict, iterations + 1, max_iterations, max_matches, next));
        assert(r.subrange(0, found.len() as int) =~= next.subrange(0, found.len() as int));
        assert(next.subrange(0, found.len() as int) =~= found);
        assert(r.subrange(0, found.len() as int) =~= found);
        assert forall|i: int| found.len() <= i < r.len() implies exists|j: int|
            0 <= j < todo.len() && iterations + j + 1 < max_iterations && #[trigger] r[i]
                == todo[j] by {
            if i < next.len() {
                assert(r[i] == r.subrange(0, next.len() as int)[i]);
                assert(r[i] == todo[0]);
            } else {
                let k = choose|k: int|
                    0 <= k < rest.len() && iterations + 1 + k + 1 < max_iterations && #[trigger] r[i]
                        == rest[k];
                assert(r[i] == todo[k + 1]);
            }
        }
    }
}

/// Whatever the verdicts, a search ends with at most `max_matches` matches,
/// each of at least one item, fewer than all nonzero items, and only nonzero
/// ones; each is among the first `max_iterations - 1` combinations of the
/// schedule, so there is none at all when `max_iterations <= 1`.
pub proof fn lemma_outcome_bounds(
    flags: Seq<bool>,
    verdict: spec_fn(Seq<usize>) -> bool,
    max_iterations: nat,
    max_matches: nat,
)
    requires
        flags.len() <= usize::MAX,
    ensures
        search_outcome(flags, verdict, max_iterations, max_matches).len() <= max_matches,
        forall|i: int|
            0 <= i < search_outcome(flags, verdict, max_iterations, max_matches).len() ==> proper(
                flags,
                #[trigger] search_outcome(flags, verdict, max_iterations, max_matches)[i],
            ),
        forall|i: int|
            0 <= i < search_outcome(flags, verdict, max_iterations, max_matches).len() ==> exists|
                j: int,
            |
                0 <= j < schedule(nonzero_indices(flags)).len() && j + 1 < max_iterations
                    && #[trigger] search_outcome(flags, verdict, max_iterations, max_matches)[i]
                    == schedule(nonzero_indices(flags))[j],
        max_iterations <= 1 ==> search_outcome(flags, verdict, max_iterations, max_matches).len()
            == 0,
{
    let sched = schedule(nonzero_indices(flags));
    let r = search_outcome(flags, verdict, max_iterations, max_matches);
    lemma_judged_shape(sched, verdict, 0, max_iterations, max_matches, Seq::empty());
    lemma_schedule_from_proper(flags, 1);
    assert forall|i: int| 0 <= i < r.len() implies proper(flags, #[trigger] r[i]) by {
        let j = choose|j: int| 0 <= j < sched.len() && 0 + j + 1 < max_iterations && #[trigger] r[i] == sched[j];
        assert(proper(flags, sched[j]));
    }
}

} // verus!
