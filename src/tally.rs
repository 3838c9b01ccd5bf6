use vstd::prelude::*;
use crate::judge::Verdict;
use crate::model::{Pos, TestResult, TestSpec};

verus! {

/// How many of the recorded outcomes of test `t` passed.
pub open spec fn passed_count(log: Seq<(usize, bool)>, t: int) -> nat
    decreases log.len(),
{
    if log.len() == 0 {
        0
    } else {
        passed_count(log.drop_last(), t) + if log.last().0 == t && log.last().1 {
            1nat
        } else {
            0nat
        }
    }
}

/// How many of the recorded outcomes of test `t` failed.
pub open spec fn failed_count(log: Seq<(usize, bool)>, t: int) -> nat
    decreases log.len(),
{
    if log.len() == 0 {
        0
    } else {
        failed_count(log.drop_last(), t) + if log.last().0 == t && !log.last().1 {
            1nat
        } else {
            0nat
        }
    }
}

proof fn lemma_counts_bounded(log: Seq<(usize, bool)>, t: int)
    ensures
        passed_count(log, t) + failed_count(log, t) <= log.len(),
    decreases log.len(),
{
    if log.len() > 0 {
        lemma_counts_bounded(log.drop_last(), t);
    }
}

/// Pass and fail counters per test, filled as outcomes arrive.
pub struct Tally {
    counts: Vec<(usize, usize)>,
    total: usize,
    log: Ghost<Seq<(usize, bool)>>,
}

impl Tally {
    /// The outcomes recorded so far, in order: the test and whether it passed.
    pub closed spec fn outcomes(&self) -> Seq<(usize, bool)> {
        self.log@
    }

    /// The number of tests counted.
    pub closed spec fn size(&self) -> nat {
        self.counts@.len()
    }

    pub closed spec fn wf(&self) -> bool {
        &&& self.total as nat == self.log@.len()
        &&& forall|i: int| 0 <= i < self.log@.len() ==> (#[trigger] self.log@[i]).0 < self.counts@.len()
        &&& forall|t: int|
            0 <= t < self.counts@.len() ==> (#[trigger] self.counts@[t]).0 as nat == passed_count(
                self.log@,
                t,
            ) && self.counts@[t].1 as nat == failed_count(self.log@, t)
    }

    /// Counters at zero for `n` tests.
    pub fn new(n: usize) -> (r: Tally)
        ensures
            r.wf(),
            r.size() == n,
            r.outcomes() == Seq::<(usize, bool)>::empty(),
    {
        let mut counts: Vec<(usize, usize)> = Vec::new();
        let mut i: usize = 0;
        while i < n
            invariant
                i <= n,
                counts@.len() == i,
                forall|t: int| 0 <= t < i ==> #[trigger] counts@[t] == (0usize, 0usize),
            decreases n - i,
        {
            counts.push((0, 0));
            i += 1;
        }
        Tally { counts, total: 0, log: Ghost(Seq::empty()) }
    }

    /// How many outcomes have been recorded.
    pub fn recorded(&self) -> (r: usize)
        requires
            self.wf(),
        ensures
            r as nat == self.outcomes().len(),
    {
        self.total
    }

    /// Records one judged outcome of test `test`.
    pub fn record(&mut self, test: usize, verdict: &Verdict)
        requires
            old(self).wf(),
            test < old(self).size(),
            old(self).outcomes().len() < usize::MAX,
        ensures
            final(self).wf(),
            final(self).size() == old(self).size(),
            final(self).outcomes() == old(self).outcomes().push((test, verdict is Passed)),
    {
        let passed = match verdict {
            Verdict::Passed => true,
            Verdict::Failed(_) => false,
        };
        let ghost log = self.log@.push((test, passed));
        proof {
            assert(log.drop_last() =~= self.log@);
            lemma_counts_bounded(self.log@, test as int);
        }
        let (p, f) = self.counts[test];
        if passed {
            self.counts.set(test, (p + 1, f));
        } else {
            self.counts.set(test, (p, f + 1));
        }
        self.log = Ghost(log);
        self.total = self.total + 1;
        proof {
            assert forall|t: int| 0 <= t < self.counts@.len() implies (#[trigger] self.counts@[t]).0 as nat
                == passed_count(self.log@, t) && self.counts@[t].1 as nat == failed_count(self.log@, t) by {
                assert(self.log@.drop_last() =~= old(self).log@);
            }
        }
    }

    /// One result per test, in test order: its name, its counters, and
    /// success when nothing failed.
    pub fn finish(&self, tests: &Vec<(TestSpec, Pos)>) -> (r: Vec<TestResult>)
        requires
            self.wf(),
            tests@.len() == self.size(),
        ensures
            r@.len() == tests@.len(),
            forall|t: int|
                0 <= t < r@.len() ==> {
                    &&& (#[trigger] r@[t]).test_name == tests@[t].0.name
                    &&& r@[t].passed as nat == passed_count(self.outcomes(), t)
                    &&& r@[t].failed as nat == failed_count(self.outcomes(), t)
                    &&& r@[t].success == (r@[t].failed == 0)
                },
    {
        let mut r: Vec<TestResult> = Vec::new();
        let mut t: usize = 0;
        while t < tests.len()
            invariant
                self.wf(),
                tests@.len() == self.size(),
                t <= tests@.len(),
                r@.len() == t,
                forall|i: int|
                    0 <= i < t ==> {
                        &&& (#[trigger] r@[i]).test_name == tests@[i].0.name
                        &&& r@[i].passed as nat == passed_count(self.outcomes(), i)
                        &&& r@[i].failed as nat == failed_count(self.outcomes(), i)
                        &&& r@[i].success == (r@[i].failed == 0)
                    },
            decreases tests@.len() - t,
        {
            let (passed, failed) = self.counts[t];
            r.push(TestResult { test_name: tests[t].0.name.clone(), passed, failed, success: failed == 0 });
            t += 1;
        }
        r
    }
}

/// A failure is charged to its own test alone: when test `a` has a failed
/// outcome and every outcome of test `b` passed, `a` ends with at least one
/// failure, hence without success, and `b` with none, hence with success,
/// whichever ticks the outcomes came from.
pub proof fn lemma_failure_stays_in_its_test(log: Seq<(usize, bool)>, a: usize, b: usize)
    requires
        exists|j: int| 0 <= j < log.len() && #[trigger] log[j] == (a, false),
        forall|j: int| 0 <= j < log.len() && (#[trigger] log[j]).0 == b ==> log[j].1,
    ensures
        failed_count(log, a as int) >= 1,
        failed_count(log, b as int) == 0,
{
    let j = choose|j: int| 0 <= j < log.len() && #[trigger] log[j] == (a, false);
    lemma_failed_none(log, b as int);
    lemma_failed_some(log, a, j);
}

proof fn lemma_failed_none(log: Seq<(usize, bool)>, b: int)
    requires
        forall|j: int| 0 <= j < log.len() && (#[trigger] log[j]).0 == b ==> log[j].1,
    ensures
        failed_count(log, b) == 0,
    decreases log.len(),
{
    if log.len() > 0 {
        let s = log.drop_last();
        assert forall|j: int| 0 <= j < s.len() && (#[trigger] s[j]).0 == b implies s[j].1 by {
            assert(s[j] == log[j]);
        }
        lemma_failed_none(s, b);
        assert(log.last() == log[log.len() - 1]);
    }
}

proof fn lemma_failed_some(log: Seq<(usize, bool)>, a: usize, j: int)
    requires
        0 <= j < log.len(),
        log[j] == (a, false),
    ensures
        failed_count(log, a as int) >= 1,
    decreases log.len(),
{
    if j < log.len() - 1 {
        assert(log.drop_last()[j] == log[j]);
        lemma_failed_some(log.drop_last(), a, j);
    } else {
        assert(log.last() == log[j]);
    }
}

/// The outcomes recorded for test `t`, in order: whether each passed.
pub open spec fn outcomes_of(log: Seq<(usize, bool)>, t: int) -> Seq<bool>
    decreases log.len(),
{
    if log.len() == 0 {
        Seq::empty()
    } else if log.last().0 == t {
        outcomes_of(log.drop_last(), t).push(log.last().1)
    } else {
        outcomes_of(log.drop_last(), t)
    }
}

/// How many of `s` are `b`.
pub open spec fn count_of(s: Seq<bool>, b: bool) -> nat
    decreases s.len(),
{
    if s.len() == 0 {
        0
    } else {
        count_of(s.drop_last(), b) + if s.last() == b {
            1nat
        } else {
            0nat
        }
    }
}

proof fn lemma_counts_from_own(log: Seq<(usize, bool)>, t: int)
    ensures
        passed_count(log, t) == count_of(outcomes_of(log, t), true),
        failed_count(log, t) == count_of(outcomes_of(log, t), false),
    decreases log.len(),
{
    if log.len() > 0 {
        lemma_counts_from_own(log.drop_last(), t);
        if log.last().0 == t {
            let s = outcomes_of(log.drop_last(), t);
            assert(s.push(log.last().1).drop_last() =~= s);
        }
    }
}

/// A test's counters depend on its own outcomes alone: two runs whose
/// outcomes for test `t` are the same, in the same order, give `t` the same
/// counts, whatever the other tests' outcomes were and whichever ticks they
/// shared.
pub proof fn lemma_counts_isolated(a: Seq<(usize, bool)>, b: Seq<(usize, bool)>, t: int)
    requires
        outcomes_of(a, t) == outcomes_of(b, t),
    ensures
        passed_count(a, t) == passed_count(b, t),
        failed_count(a, t) == failed_count(b, t),
{
    lemma_counts_from_own(a, t);
    lemma_counts_from_own(b, t);
}

} // verus!
