//! One search for combinations near a target, as a state machine.
//!
//! The search hands out one candidate combination at a time and takes back
//! whether its sum fell inside the tolerance window. Between the two it
//! keeps the iteration count, the matches found, and decides when a budget
//! ends the search.

use vstd::prelude::*;
use crate::model::{nonzero_indices, schedule, schedule_from, proper, judged, search_outcome};
use crate::model::lemma_schedule_from_proper;
use crate::combos::{ComboStream, pending, combinations_of, next_combination};
use crate::filter::nonzero_positions;

verus! {

/// A search in progress: the kept items, the stream of combinations of the
/// current size, the budgets and what has been found.
pub struct Search {
    nonzero: Ghost<Seq<bool>>,
    filtered: Vec<usize>,
    size: usize,
    stream: ComboStream,
    candidate: Option<Vec<usize>>,
    matches: Vec<Vec<usize>>,
    iterations: u32,
    max_iterations: u32,
    max_matches: usize,
    finished: bool,
    evaluated: Ghost<nat>,
}

/// `c` as a sequence, if there is one.
pub open spec fn opt_view(c: Option<Vec<usize>>) -> Option<Seq<usize>> {
    match c {
        Some(v) => Some(v@),
        None => None,
    }
}

impl Search {
    /// Which items are nonzero, by original position.
    pub closed spec fn nonzero(&self) -> Seq<bool> {
        self.nonzero@
    }

    /// The combinations not yet handed out, in the order they will come.
    pub closed spec fn upcoming(&self) -> Seq<Seq<usize>> {
        pending(self.stream) + schedule_from(self.filtered@, (self.size + 1) as nat)
    }

    /// The combination handed out and awaiting its verdict.
    pub closed spec fn candidate(&self) -> Option<Seq<usize>> {
        opt_view(self.candidate)
    }

    /// The matches found so far, in the order they were found.
    pub closed spec fn matches(&self) -> Seq<Seq<usize>> {
        self.matches@.map_values(|m: Vec<usize>| m@)
    }

    /// How many combinations were drawn, the one that ended the search included.
    pub closed spec fn iterations(&self) -> nat {
        self.iterations as nat
    }

    /// How many verdicts were taken.
    pub closed spec fn evaluated(&self) -> nat {
        self.evaluated@
    }

    /// The iteration budget.
    pub closed spec fn max_iterations(&self) -> nat {
        self.max_iterations as nat
    }

    /// The match budget.
    pub closed spec fn max_matches(&self) -> nat {
        self.max_matches as nat
    }

    /// No more candidates will be handed out.
    pub closed spec fn finished(&self) -> bool {
        self.finished
    }

    /// The combination handed out and not yet judged, counted as 0 or 1.
    pub open spec fn in_flight(&self) -> nat {
        if self.candidate() is Some {
            1
        } else {
            0
        }
    }

    /// The matches this search ends with if every verdict still to come is
    /// the one `verdict` gives.
    pub closed spec fn outcome(&self, verdict: spec_fn(Seq<usize>) -> bool) -> Seq<Seq<usize>> {
        if self.finished {
            self.matches()
        } else {
            match self.candidate() {
                Some(c) => judged(
                    self.upcoming(),
                    verdict,
                    self.iterations(),
                    self.max_iterations(),
                    self.max_matches(),
                    if verdict(c) {
                        self.matches().push(c)
                    } else {
                        self.matches()
                    },
                ),
                None => judged(
                    self.upcoming(),
                    verdict,
                    self.iterations(),
                    self.max_iterations(),
                    self.max_matches(),
                    self.matches(),
                ),
            }
        }
    }

    /// The state is consistent: the kept items are the nonzero ones, every
    /// combination still to come, handed out or found is a proper one, and
    /// the counts stay within the budgets.
    pub closed spec fn wf(&self) -> bool {
        &&& self.nonzero@.len() <= usize::MAX
        &&& self.filtered@ == nonzero_indices(self.nonzero@)
        &&& self.size <= self.filtered.len()
        &&& forall|i: int|
            0 <= i < self.upcoming().len() ==> proper(self.nonzero@, #[trigger] self.upcoming()[i])
        &&& forall|i: int|
            0 <= i < self.matches().len() ==> proper(self.nonzero@, #[trigger] self.matches()[i])
        &&& self.candidate() is Some ==> proper(self.nonzero@, self.candidate()->0)
            && !self.finished
        &&& self.evaluated() + self.in_flight() <= self.iterations
        &&& self.evaluated() + self.in_flight() < self.max_iterations || self.evaluated()
            + self.in_flight() == 0
        &&& !self.finished ==> self.iterations < self.max_iterations || self.iterations == 0
        &&& !self.finished ==> self.matches.len() < self.max_matches
        &&& self.matches.len() <= self.max_matches
    }
}

impl Search {
    /// A search over the items whose flag in `nonzero` is set, with the given
    /// budgets. No combination has been drawn yet; with a match budget of
    /// zero the search is over before any is drawn.
    pub fn new(nonzero: &Vec<bool>, max_iterations: u32, max_matches: usize) -> (s: Search)
        ensures
            s.wf(),
            s.nonzero() == nonzero@,
            s.upcoming() == schedule(nonzero_indices(nonzero@)),
            s.candidate() is None,
            s.matches() == Seq::<Seq<usize>>::empty(),
            s.iterations() == 0,
            s.evaluated() == 0,
            s.max_iterations() == max_iterations,
            s.max_matches() == max_matches,
            s.finished() == (max_matches == 0),
            forall|v: spec_fn(Seq<usize>) -> bool| #[trigger]
                s.outcome(v) == search_outcome(nonzero@, v, max_iterations as nat, max_matches as nat),
    {
        let filtered = nonzero_positions(nonzero);
        let size: usize;
        let stream: ComboStream;
        if filtered.len() >= 2 {
            size = 1;
            stream = combinations_of(&filtered, 1);
        } else {
            size = filtered.len();
            stream = combinations_of(&Vec::new(), 1);
        }
        let s = Search {
            nonzero: Ghost(nonzero@),
            filtered,
            size,
            stream,
            candidate: None,
            matches: Vec::new(),
            iterations: 0,
            max_iterations,
            max_matches,
            finished: max_matches == 0,
            evaluated: Ghost(0),
        };
        proof {
            assert(nonzero@.len() == nonzero.len());
            lemma_schedule_from_proper(nonzero@, 1);
            assert(s.upcoming() =~= schedule(nonzero_indices(nonzero@)));
            assert(s.matches() =~= Seq::<Seq<usize>>::empty());
        }
        s
    }
}

impl Search {
    /// Draws the next combination and counts it against the iteration
    /// budget. Gives `None`, and ends the search, when every combination has
    /// been drawn, or when the count has reached `max_iterations`: then the
    /// combination drawn is never handed out.
    pub fn next_candidate(&mut self) -> (r: Option<Vec<usize>>)
        requires
            old(self).wf(),
            old(self).candidate() is None,
        ensures
            final(self).wf(),
            final(self).nonzero() == old(self).nonzero(),
            final(self).matches() == old(self).matches(),
            final(self).evaluated() == old(self).evaluated(),
            final(self).max_iterations() == old(self).max_iterations(),
            final(self).max_matches() == old(self).max_matches(),
            final(self).candidate() == opt_view(r),
            old(self).finished() ==> r is None && final(self).finished() && final(self).iterations()
                == old(self).iterations(),
            !old(self).finished() && old(self).upcoming().len() == 0 ==> r is None
                && final(self).finished() && final(self).iterations() == old(self).iterations(),
            !old(self).finished() && old(self).upcoming().len() > 0 ==> final(self).iterations()
                == old(self).iterations() + 1,
            !old(self).finished() && old(self).upcoming().len() > 0 && old(self).iterations() + 1
                >= old(self).max_iterations() ==> r is None && final(self).finished(),
            !old(self).finished() && old(self).upcoming().len() > 0 && old(self).iterations() + 1
                < old(self).max_iterations() ==> r is Some && r->0@ == old(self).upcoming()[0]
                && final(self).upcoming() == old(self).upcoming().drop_first()
                && !final(self).finished(),
            r is None ==> final(self).finished(),
            forall|v: spec_fn(Seq<usize>) -> bool| #[trigger]
                final(self).outcome(v) == old(self).outcome(v),
    {
        if self.finished {
            return None;
        }
        loop
            invariant
                self.wf(),
                !self.finished,
                !old(self).finished,
                old(self).candidate is None,
                self.candidate is None,
                self.upcoming() == old(self).upcoming(),
                self.nonzero@ == old(self).nonzero@,
                self.matches == old(self).matches,
                self.evaluated@ == old(self).evaluated@,
                self.iterations == old(self).iterations,
                self.max_iterations == old(self).max_iterations,
                self.max_matches == old(self).max_matches,
            decreases self.filtered.len() - self.size, pending(self.stream).len(),
        {
            let ghost before = self.upcoming();
            let ghost found = self.matches();
            match next_combination(&mut self.stream) {
                Some(c) => {
                    proof {
                        assert(before[0] == c@);
                        assert(self.upcoming() =~= before.drop_first());
                        assert(proper(self.nonzero@, before[0]));
                        assert forall|i: int| 0 <= i < self.upcoming().len() implies proper(
                            self.nonzero@,
                            #[trigger] self.upcoming()[i],
                        ) by {
                            assert(self.upcoming()[i] == before[i + 1]);
                        }
                    }
                    self.iterations = self.iterations + 1;
                    if self.iterations >= self.max_iterations {
                        self.finished = true;
                        assert(self.matches() =~= found);
                        proof {
                            assert forall|v: spec_fn(Seq<usize>) -> bool| #[trigger]
                                self.outcome(v) == old(self).outcome(v) by {
                                assert(old(self).outcome(v) == judged(
                                    before,
                                    v,
                                    old(self).iterations(),
                                    old(self).max_iterations(),
                                    old(self).max_matches(),
                                    found,
                                ));
                            }
                        }
                        return None;
                    }
                    let out = c.clone();
                    proof {
                        assert(out@ =~= c@);
                    }
                    self.candidate = Some(c);
                    assert(self.matches() =~= found);
                    proof {
                        assert forall|v: spec_fn(Seq<usize>) -> bool| #[trigger]
                            self.outcome(v) == old(self).outcome(v) by {
                            assert(old(self).outcome(v) == judged(
                                before,
                                v,
                                old(self).iterations(),
                                old(self).max_iterations(),
                                old(self).max_matches(),
                                found,
                            ));
                        }
                    }
                    return Some(out);
                },
                None => {
                    if self.filtered.len() > 0 && self.size < self.filtered.len() - 1 {
                        self.size = self.size + 1;
                        self.stream = combinations_of(&self.filtered, self.size);
                        proof {
                            assert(self.upcoming() =~= before);
                            assert(self.matches() =~= found);
                        }
                    } else {
                        proof {
                            assert(self.upcoming() =~= Seq::<Seq<usize>>::empty());
                        }
                        self.finished = true;
                        assert(self.matches() =~= found);
                        proof {
                            assert forall|v: spec_fn(Seq<usize>) -> bool| #[trigger]
                                self.outcome(v) == old(self).outcome(v) by {
                                assert(old(self).outcome(v) == judged(
                                    before,
                                    v,
                                    old(self).iterations(),
                                    old(self).max_iterations(),
                                    old(self).max_matches(),
                                    found,
                                ));
                            }
                        }
                        return None;
                    }
                },
            }
        }
    }
}

impl Search {
    /// Takes the verdict on the candidate: whether its sum fell inside the
    /// tolerance window. An accepted candidate joins the matches; once the
    /// matches number `max_matches`, the search ends.
    pub fn record(&mut self, accepted: bool)
        requires
            old(self).wf(),
            old(self).candidate() is Some,
        ensures
            final(self).wf(),
            final(self).nonzero() == old(self).nonzero(),
            final(self).upcoming() == old(self).upcoming(),
            final(self).iterations() == old(self).iterations(),
            final(self).max_iterations() == old(self).max_iterations(),
            final(self).max_matches() == old(self).max_matches(),
            final(self).evaluated() == old(self).evaluated() + 1,
            final(self).candidate() is None,
            final(self).matches() == if accepted {
                old(self).matches().push(old(self).candidate()->0)
            } else {
                old(self).matches()
            },
            final(self).finished() == (final(self).matches().len() >= old(self).max_matches()),
            forall|v: spec_fn(Seq<usize>) -> bool|
                v(old(self).candidate()->0) == accepted ==> #[trigger] final(self).outcome(v) == old(
                    self,
                ).outcome(v),
    {
        let ghost found = self.matches();
        let ghost up = self.upcoming();
        let taken = self.candidate.take();
        match taken {
            Some(c) => {
                if accepted {
                    self.matches.push(c);
                }
            },
            None => {},
        }
        proof {
            self.evaluated@ = self.evaluated@ + 1;
        }
        self.finished = self.matches.len() >= self.max_matches;
        proof {
            assert(self.upcoming() == up);
            if accepted {
                assert(self.matches() =~= found.push(old(self).candidate()->0));
            } else {
                assert(self.matches() =~= found);
            }
        }
    }

    /// The matches found, in the order they were found, as lists of original
    /// positions.
    pub fn into_matches(self) -> (r: Vec<Vec<usize>>)
        ensures
            r@.map_values(|m: Vec<usize>| m@) == self.matches(),
    {
        self.matches
    }
}

/// No match, and no candidate, holds the position of a zero-valued item.
pub proof fn lemma_only_nonzero_items(s: &Search)
    requires
        s.wf(),
    ensures
        forall|i: int, j: int|
            0 <= i < s.matches().len() && 0 <= j < s.matches()[i].len() ==> {
                let x = #[trigger] s.matches()[i][j] as int;
                x < s.nonzero().len() && s.nonzero()[x]
            },
        s.candidate() is Some ==> forall|j: int|
            0 <= j < s.candidate()->0.len() ==> {
                let x = #[trigger] s.candidate()->0[j] as int;
                x < s.nonzero().len() && s.nonzero()[x]
            },
{
    assert forall|i: int, j: int|
        0 <= i < s.matches().len() && 0 <= j < s.matches()[i].len() implies {
        let x = #[trigger] s.matches()[i][j] as int;
        x < s.nonzero().len() && s.nonzero()[x]
    } by {
        assert(proper(s.nonzero(), s.matches()[i]));
    }
}

/// A search never holds more matches than its match budget.
pub proof fn lemma_match_cap(s: &Search)
    requires
        s.wf(),
    ensures
        s.matches().len() <= s.max_matches(),
{
}

/// The combinations judged, with the one awaiting its verdict, never
/// number more than `max_iterations`.
pub proof fn lemma_iteration_cap(s: &Search)
    requires
        s.wf(),
    ensures
        s.evaluated() + s.in_flight() <= s.max_iterations(),
{
}

/// No match, and no candidate, takes in every nonzero item: the combination
/// of all of them is never tried.
pub proof fn lemma_never_all_items(s: &Search)
    requires
        s.wf(),
    ensures
        forall|i: int|
            0 <= i < s.matches().len() ==> (#[trigger] s.matches()[i]).len() < nonzero_indices(
                s.nonzero(),
            ).len(),
        s.candidate() is Some ==> s.candidate()->0.len() < nonzero_indices(s.nonzero()).len(),
        forall|i: int|
            0 <= i < s.upcoming().len() ==> (#[trigger] s.upcoming()[i]).len() < nonzero_indices(
                s.nonzero(),
            ).len(),
{
    assert forall|i: int| 0 <= i < s.matches().len() implies (
    #[trigger] s.matches()[i]).len() < nonzero_indices(s.nonzero()).len() by {
        assert(proper(s.nonzero(), s.matches()[i]));
    }
    assert forall|i: int| 0 <= i < s.upcoming().len() implies (
    #[trigger] s.upcoming()[i]).len() < nonzero_indices(s.nonzero()).len() by {
        assert(proper(s.nonzero(), s.upcoming()[i]));
    }
}

/// Every match, and the candidate, holds at least one item.
pub proof fn lemma_matches_not_empty(s: &Search)
    requires
        s.wf(),
    ensures
        forall|i: int| 0 <= i < s.matches().len() ==> 1 <= (#[trigger] s.matches()[i]).len(),
        s.candidate() is Some ==> 1 <= s.candidate()->0.len(),
{
    assert forall|i: int| 0 <= i < s.matches().len() implies 1 <= (
    #[trigger] s.matches()[i]).len() by {
        assert(proper(s.nonzero(), s.matches()[i]));
    }
}

/// Identical inputs give identical, identically ordered matches: two finished
/// searches over the same flags and budgets, whose verdicts all agreed with
/// one `verdict` (so that each still has `search_outcome` as its outcome, as
/// `new`, `next_candidate` and `record` keep it), hold the same matches,
/// which are `search_outcome`.
pub proof fn lemma_same_inputs_same_matches(
    s1: &Search,
    s2: &Search,
    verdict: spec_fn(Seq<usize>) -> bool,
)
    requires
        s1.wf(),
        s2.wf(),
        s1.finished(),
        s2.finished(),
        s1.nonzero() == s2.nonzero(),
        s1.max_iterations() == s2.max_iterations(),
        s1.max_matches() == s2.max_matches(),
        s1.outcome(verdict) == search_outcome(
            s1.nonzero(),
            verdict,
            s1.max_iterations(),
            s1.max_matches(),
        ),
        s2.outcome(verdict) == search_outcome(
            s2.nonzero(),
            verdict,
            s2.max_iterations(),
            s2.max_matches(),
        ),
    ensures
        s1.matches() == s2.matches(),
        s1.matches() == search_outcome(
            s1.nonzero(),
            verdict,
            s1.max_iterations(),
            s1.max_matches(),
        ),
{
}

} // verus!
