use vstd::prelude::*;
use crate::model::{max_of, max_tick_of, Pos, TestSpec, TimelineEntry};

verus! {

/// One firing of a timeline entry: at `tick`, entry `entry` of test `test`
/// fires for its `occurrence`-th time.
#[derive(Clone, Copy, Debug, PartialEq, Eq, Structural)]
pub struct Due {
    pub tick: u32,
    pub test: usize,
    pub entry: usize,
    pub occurrence: usize,
}

/// The firings of one entry, in the order of its ticks.
pub open spec fn entry_dues(test: int, entry: int, at: Seq<u32>) -> Seq<Due> {
    Seq::new(
        at.len(),
        |k: int| Due { tick: at[k], test: test as usize, entry: entry as usize, occurrence: k as usize },
    )
}

/// The firings of a test's timeline, entry by entry.
pub open spec fn timeline_dues(test: int, timeline: Seq<TimelineEntry>) -> Seq<Due>
    decreases timeline.len(),
{
    if timeline.len() == 0 {
        Seq::empty()
    } else {
        timeline_dues(test, timeline.drop_last()) + entry_dues(
            test,
            timeline.len() - 1,
            timeline.last().at@,
        )
    }
}

/// The firings of all tests, test by test.
pub open spec fn all_dues(tests: Seq<(TestSpec, Pos)>) -> Seq<Due>
    decreases tests.len(),
{
    if tests.len() == 0 {
        Seq::empty()
    } else {
        all_dues(tests.drop_last()) + timeline_dues(tests.len() - 1, tests.last().0.timeline@)
    }
}

/// The largest tick over all tests, 0 for none.
pub open spec fn max_global(tests: Seq<(TestSpec, Pos)>) -> nat
    decreases tests.len(),
{
    if tests.len() == 0 {
        0
    } else {
        let rest = max_global(tests.drop_last());
        let here = max_tick_of(tests.last().0.timeline@);
        if here > rest {
            here
        } else {
            rest
        }
    }
}

/// The firings of `dues` at tick `t`, in their order.
pub open spec fn at_tick(dues: Seq<Due>, t: int) -> Seq<Due>
    decreases dues.len(),
{
    if dues.len() == 0 {
        dues
    } else if dues.last().tick == t {
        at_tick(dues.drop_last(), t).push(dues.last())
    } else {
        at_tick(dues.drop_last(), t)
    }
}

/// The firings due at tick `t` in a run of `tests`.
pub open spec fn due_at(tests: Seq<(TestSpec, Pos)>, t: int) -> Seq<Due> {
    at_tick(all_dues(tests), t)
}

/// The merged schedule of a run: every firing of every test, and the last
/// tick of the run.
pub struct GlobalTimeline {
    dues: Vec<Due>,
    max_global_tick: u32,
    by_tick: Vec<Vec<Due>>,
}

impl GlobalTimeline {
    /// Every firing of the run, test by test.
    pub closed spec fn firings(&self) -> Seq<Due> {
        self.dues@
    }

    /// The last tick of the run.
    pub closed spec fn last_tick(&self) -> nat {
        self.max_global_tick as nat
    }

    /// This timeline is the one built from `tests`.
    pub open spec fn built_from(&self, tests: Seq<(TestSpec, Pos)>) -> bool {
        &&& self.firings() == all_dues(tests)
        &&& self.last_tick() == max_global(tests)
    }

    /// The last tick of the run.
    pub fn max_global_tick(&self) -> (r: u32)
        ensures
            r as nat == self.last_tick(),
    {
        self.max_global_tick
    }

    /// The firings are grouped by tick, from 0 to the last tick, and no firing
    /// comes after the last tick.
    pub closed spec fn wf(&self) -> bool {
        &&& self.by_tick@.len() == self.max_global_tick + 1
        &&& forall|t: int| 0 <= t < self.by_tick@.len() ==> (#[trigger] self.by_tick@[t])@ == at_tick(self.dues@, t)
        &&& forall|i: int| 0 <= i < self.dues@.len() ==> (#[trigger] self.dues@[i]).tick <= self.max_global_tick
    }

    /// Merges the timelines of `tests` into one schedule.
    pub fn build(tests: &Vec<(TestSpec, Pos)>) -> (r: GlobalTimeline)
        ensures
            r.built_from(tests@),
            r.wf(),
    {
        let mut dues: Vec<Due> = Vec::new();
        let mut max_global_tick: u32 = 0;
        let mut i: usize = 0;
        while i < tests.len()
            invariant
                i <= tests@.len(),
                dues@ == all_dues(tests@.subrange(0, i as int)),
                max_global_tick as nat == max_global(tests@.subrange(0, i as int)),
            decreases tests@.len() - i,
        {
            let test = &tests[i].0;
            proof {
                assert(tests@.subrange(0, i + 1).drop_last() =~= tests@.subrange(0, i as int));
            }
            let here = test.max_tick();
            if here > max_global_tick {
                max_global_tick = here;
            }
            let ghost before = dues@;
            let mut j: usize = 0;
            while j < test.timeline.len()
                invariant
                    i < tests@.len(),
                    *test == tests@[i as int].0,
                    j <= test.timeline@.len(),
                    dues@ == before + timeline_dues(i as int, test.timeline@.subrange(0, j as int)),
                decreases test.timeline@.len() - j,
            {
                let at = &test.timeline[j].at;
                proof {
                    assert(test.timeline@.subrange(0, j + 1).drop_last() =~= test.timeline@.subrange(
                        0,
                        j as int,
                    ));
                }
                let ghost mid = dues@;
                let mut k: usize = 0;
                while k < at.len()
                    invariant
                        j < test.timeline@.len(),
                        *at == test.timeline@[j as int].at,
                        k <= at@.len(),
                        dues@ == mid + entry_dues(i as int, j as int, at@.subrange(0, k as int)),
                    decreases at@.len() - k,
                {
                    dues.push(Due { tick: at[k], test: i, entry: j, occurrence: k });
                    k += 1;
                    proof {
                        assert(dues@ =~= mid + entry_dues(i as int, j as int, at@.subrange(0, k as int)));
                    }
                }
                proof {
                    assert(at@.subrange(0, k as int) =~= at@);
                }
                j += 1;
                proof {
                    assert(dues@ =~= before + timeline_dues(i as int, test.timeline@.subrange(0, j as int)));
                }
            }
            i += 1;
            proof {
                assert(test.timeline@.subrange(0, j as int) =~= test.timeline@);
            }
        }
        proof {
            assert(tests@.subrange(0, i as int) =~= tests@);
        }
        proof {
            lemma_all_dues_ticks(tests@);
        }
        let mut by_tick: Vec<Vec<Due>> = Vec::new();
        let mut t: u64 = 0;
        while t <= max_global_tick as u64
            invariant
                t <= max_global_tick + 1,
                by_tick@.len() == t,
                forall|k: int| 0 <= k < t ==> (#[trigger] by_tick@[k])@ == Seq::<Due>::empty(),
            decreases max_global_tick + 1 - t,
        {
            by_tick.push(Vec::new());
            t += 1;
        }
        let mut i: usize = 0;
        while i < dues.len()
            invariant
                i <= dues@.len(),
                by_tick@.len() == max_global_tick + 1,
                forall|j: int| 0 <= j < dues@.len() ==> (#[trigger] dues@[j]).tick <= max_global_tick,
                forall|k: int|
                    0 <= k < by_tick@.len() ==> (#[trigger] by_tick@[k])@ == at_tick(
                        dues@.subrange(0, i as int),
                        k,
                    ),
            decreases dues@.len() - i,
        {
            let d = dues[i];
            let k = d.tick as usize;
            let ghost before = by_tick@;
            by_tick[k].push(d);
            proof {
                assert(dues@.subrange(0, i + 1).drop_last() =~= dues@.subrange(0, i as int));
                assert(dues@.subrange(0, i + 1).last() == d);
                assert forall|k2: int| 0 <= k2 < by_tick@.len() implies (#[trigger] by_tick@[k2])@ == at_tick(
                    dues@.subrange(0, i + 1),
                    k2,
                ) by {
                    if k2 != k {
                        assert(by_tick@[k2] == before[k2]);
                    }
                }
            }
            i += 1;
        }
        proof {
            assert(dues@.subrange(0, i as int) =~= dues@);
        }
        GlobalTimeline { dues, max_global_tick, by_tick }
    }

    /// The firings due at `tick`, in the order of the tests, then of their
    /// entries, then of the entries' ticks.
    pub fn due_at(&self, tick: u32) -> (r: Vec<Due>)
        requires
            self.wf(),
        ensures
            r@ == at_tick(self.firings(), tick as int),
    {
        let mut r: Vec<Due> = Vec::new();
        if tick as usize >= self.by_tick.len() {
            proof {
                lemma_at_tick_none(self.dues@, tick as int);
            }
            return r;
        }
        let group = &self.by_tick[tick as usize];
        let mut i: usize = 0;
        while i < group.len()
            invariant
                i <= group@.len(),
                r@ == group@.subrange(0, i as int),
            decreases group@.len() - i,
        {
            r.push(group[i]);
            i += 1;
            proof {
                assert(r@ =~= group@.subrange(0, i as int));
            }
        }
        proof {
            assert(group@.subrange(0, i as int) =~= group@);
        }
        r
    }
}

proof fn lemma_at_tick_none(s: Seq<Due>, t: int)
    requires
        forall|i: int| 0 <= i < s.len() ==> (#[trigger] s[i]).tick != t,
    ensures
        at_tick(s, t) == Seq::<Due>::empty(),
    decreases s.len(),
{
    if s.len() > 0 {
        let rest = s.drop_last();
        assert forall|i: int| 0 <= i < rest.len() implies (#[trigger] rest[i]).tick != t by {
            assert(rest[i] == s[i]);
        }
        lemma_at_tick_none(rest, t);
        assert(s.last() == s[s.len() - 1]);
    }
}

proof fn lemma_max_of_bound(ticks: Seq<u32>)
    ensures
        forall|i: int| 0 <= i < ticks.len() ==> ticks[i] as nat <= max_of(ticks),
    decreases ticks.len(),
{
    if ticks.len() > 0 {
        lemma_max_of_bound(ticks.drop_last());
        assert(forall|i: int| 0 <= i < ticks.len() - 1 ==> ticks[i] == ticks.drop_last()[i]);
    }
}

proof fn lemma_timeline_dues_ticks(test: int, timeline: Seq<TimelineEntry>)
    ensures
        forall|i: int|
            0 <= i < timeline_dues(test, timeline).len() ==> (#[trigger] timeline_dues(test, timeline)[i]).tick
                <= max_tick_of(timeline),
    decreases timeline.len(),
{
    if timeline.len() > 0 {
        lemma_timeline_dues_ticks(test, timeline.drop_last());
        lemma_max_of_bound(timeline.last().at@);
        let left = timeline_dues(test, timeline.drop_last());
        let right = entry_dues(test, timeline.len() - 1, timeline.last().at@);
        assert forall|i: int| 0 <= i < (left + right).len() implies (#[trigger] (left + right)[i]).tick
            <= max_tick_of(timeline) by {
            if i < left.len() {
                assert((left + right)[i] == left[i]);
            } else {
                assert((left + right)[i] == right[i - left.len()]);
            }
        }
    }
}

proof fn lemma_all_dues_ticks(tests: Seq<(TestSpec, Pos)>)
    ensures
        forall|i: int| 0 <= i < all_dues(tests).len() ==> (#[trigger] all_dues(tests)[i]).tick <= max_global(tests),
    decreases tests.len(),
{
    if tests.len() > 0 {
        lemma_all_dues_ticks(tests.drop_last());
        let t = tests.len() - 1;
        lemma_timeline_dues_ticks(t, tests.last().0.timeline@);
        let left = all_dues(tests.drop_last());
        let right = timeline_dues(t, tests.last().0.timeline@);
        assert forall|i: int| 0 <= i < (left + right).len() implies (#[trigger] (left + right)[i]).tick
            <= max_global(tests) by {
            if i < left.len() {
                assert((left + right)[i] == left[i]);
            } else {
                assert((left + right)[i] == right[i - left.len()]);
            }
        }
    }
}

/// Building the timeline is deterministic: two timelines built from the same
/// tests hold the same firings at every tick, in the same order, and end at
/// the same tick.
pub proof fn lemma_build_deterministic(
    tests: Seq<(TestSpec, Pos)>,
    a: GlobalTimeline,
    b: GlobalTimeline,
)
    requires
        a.built_from(tests),
        b.built_from(tests),
    ensures
        forall|t: int| at_tick(a.firings(), t) == at_tick(b.firings(), t),
        a.last_tick() == b.last_tick(),
{
}

/// Whether `a` comes before `b` by test, then entry, then occurrence.
pub open spec fn precedes(a: Due, b: Due) -> bool {
    a.test < b.test || (a.test == b.test && (a.entry < b.entry || (a.entry == b.entry
        && a.occurrence < b.occurrence)))
}

/// Whether every firing of `s` precedes every later one.
pub open spec fn ordered(s: Seq<Due>) -> bool {
    forall|i: int, j: int| 0 <= i < j < s.len() ==> precedes(#[trigger] s[i], #[trigger] s[j])
}

/// Whether every test, entry and tick of `tests` can be numbered by a `usize`,
/// as it is for values held in vectors.
pub open spec fn addressable(tests: Seq<(TestSpec, Pos)>) -> bool {
    &&& tests.len() <= usize::MAX
    &&& forall|i: int|
        0 <= i < tests.len() ==> (#[trigger] tests[i]).0.timeline@.len() <= usize::MAX && forall|
            j: int,
        |
            0 <= j < tests[i].0.timeline@.len() ==> (#[trigger] tests[i].0.timeline@[j]).at@.len()
                <= usize::MAX
}

proof fn lemma_ordered_concat(a: Seq<Due>, b: Seq<Due>)
    requires
        ordered(a),
        ordered(b),
        forall|i: int, j: int| 0 <= i < a.len() && 0 <= j < b.len() ==> precedes(#[trigger] a[i], #[trigger] b[j]),
    ensures
        ordered(a + b),
{
    assert forall|i: int, j: int| 0 <= i < j < (a + b).len() implies precedes(
        #[trigger] (a + b)[i],
        #[trigger] (a + b)[j],
    ) by {
        if j < a.len() {
            assert(precedes(a[i], a[j]));
        } else if i >= a.len() {
            assert(precedes(b[i - a.len()], b[j - a.len()]));
        } else {
            assert(precedes(a[i], b[j - a.len()]));
        }
    }
}

proof fn lemma_timeline_dues_ordered(test: int, timeline: Seq<TimelineEntry>)
    requires
        0 <= test <= usize::MAX,
        timeline.len() <= usize::MAX,
        forall|j: int| 0 <= j < timeline.len() ==> (#[trigger] timeline[j]).at@.len() <= usize::MAX,
    ensures
        ordered(timeline_dues(test, timeline)),
        forall|i: int|
            0 <= i < timeline_dues(test, timeline).len() ==> (#[trigger] timeline_dues(test, timeline)[i]).test
                == test && timeline_dues(test, timeline)[i].entry < timeline.len(),
    decreases timeline.len(),
{
    if timeline.len() > 0 {
        let rest = timeline.drop_last();
        assert forall|j: int| 0 <= j < rest.len() implies (#[trigger] rest[j]).at@.len() <= usize::MAX by {
            assert(rest[j] == timeline[j]);
        }
        lemma_timeline_dues_ordered(test, rest);
        let e = timeline.len() - 1;
        assert(timeline.last() == timeline[e]);
        let here = entry_dues(test, e, timeline.last().at@);
        assert(ordered(here));
        lemma_ordered_concat(timeline_dues(test, rest), here);
    }
}

proof fn lemma_all_dues_ordered(tests: Seq<(TestSpec, Pos)>)
    requires
        addressable(tests),
    ensures
        ordered(all_dues(tests)),
        forall|i: int| 0 <= i < all_dues(tests).len() ==> (#[trigger] all_dues(tests)[i]).test < tests.len(),
    decreases tests.len(),
{
    if tests.len() > 0 {
        let rest = tests.drop_last();
        assert forall|i: int| 0 <= i < rest.len() implies (#[trigger] rest[i]).0.timeline@.len() <= usize::MAX
            && forall|j: int|
            0 <= j < rest[i].0.timeline@.len() ==> (#[trigger] rest[i].0.timeline@[j]).at@.len()
                <= usize::MAX by {
            assert(rest[i] == tests[i]);
        }
        lemma_all_dues_ordered(rest);
        let t = tests.len() - 1;
        assert(tests.last() == tests[t]);
        lemma_timeline_dues_ordered(t, tests.last().0.timeline@);
        lemma_ordered_concat(all_dues(rest), timeline_dues(t, tests.last().0.timeline@));
    }
}

proof fn lemma_at_tick_ordered(s: Seq<Due>, t: int)
    requires
        ordered(s),
    ensures
        ordered(at_tick(s, t)),
        forall|i: int| 0 <= i < at_tick(s, t).len() ==> (#[trigger] at_tick(s, t)[i]).tick == t,
        forall|i: int|
            0 <= i < at_tick(s, t).len() ==> exists|j: int| 0 <= j < s.len() && s[j] == #[trigger] at_tick(s, t)[i],
    decreases s.len(),
{
    if s.len() > 0 {
        let rest = s.drop_last();
        assert forall|i: int, j: int| 0 <= i < j < rest.len() implies precedes(#[trigger] rest[i], #[trigger] rest[j]) by {
            assert(precedes(s[i], s[j]));
        }
        lemma_at_tick_ordered(rest, t);
        let sub = at_tick(rest, t);
        assert forall|i: int| 0 <= i < sub.len() implies exists|j: int| 0 <= j < s.len() && s[j] == #[trigger] sub[i] by {
            let j = choose|j: int| 0 <= j < rest.len() && rest[j] == sub[i];
            assert(s[j] == rest[j]);
        }
        if s.last().tick == t {
            assert forall|i: int| 0 <= i < sub.len() implies precedes(#[trigger] sub[i], s.last()) by {
                let j = choose|j: int| 0 <= j < rest.len() && rest[j] == sub[i];
                assert(s[j] == rest[j]);
                assert(precedes(s[j], s[s.len() - 1]));
            }
            let r = sub.push(s.last());
            assert forall|i: int, j: int| 0 <= i < j < r.len() implies precedes(#[trigger] r[i], #[trigger] r[j]) by {
                if j < sub.len() {
                    assert(precedes(sub[i], sub[j]));
                } else {
                    assert(precedes(sub[i], s.last()));
                }
            }
            assert forall|i: int| 0 <= i < r.len() implies exists|j: int| 0 <= j < s.len() && s[j] == #[trigger] r[i] by {
                if i < sub.len() {
                    assert(r[i] == sub[i]);
                } else {
                    assert(s[s.len() - 1] == r[i]);
                }
            }
        }
    }
}

/// The firings due at one tick all belong to that tick and come in the order
/// of their tests, then of the entries within a test, then of the entry's
/// ticks: the order in which a run carries them out.
pub proof fn lemma_due_order(tests: Seq<(TestSpec, Pos)>, t: int)
    requires
        addressable(tests),
    ensures
        ordered(due_at(tests, t)),
        forall|i: int| 0 <= i < due_at(tests, t).len() ==> (#[trigger] due_at(tests, t)[i]).tick == t,
{
    lemma_all_dues_ordered(tests);
    lemma_at_tick_ordered(all_dues(tests), t);
}

/// Whether a firing names an existing test, entry and tick of that entry.
pub open spec fn in_range(tests: Seq<(TestSpec, Pos)>, d: Due) -> bool {
    &&& d.test < tests.len()
    &&& d.entry < tests[d.test as int].0.timeline@.len()
    &&& d.occurrence < tests[d.test as int].0.timeline@[d.entry as int].at@.len()
}

proof fn lemma_timeline_dues_in_range(test: int, timeline: Seq<TimelineEntry>)
    requires
        0 <= test <= usize::MAX,
        timeline.len() <= usize::MAX,
        forall|j: int| 0 <= j < timeline.len() ==> (#[trigger] timeline[j]).at@.len() <= usize::MAX,
    ensures
        forall|i: int|
            0 <= i < timeline_dues(test, timeline).len() ==> {
                let d = #[trigger] timeline_dues(test, timeline)[i];
                d.test == test && d.entry < timeline.len() && d.occurrence < timeline[d.entry as int].at@.len()
            },
    decreases timeline.len(),
{
    if timeline.len() > 0 {
        let rest = timeline.drop_last();
        assert forall|j: int| 0 <= j < rest.len() implies (#[trigger] rest[j]).at@.len() <= usize::MAX by {
            assert(rest[j] == timeline[j]);
        }
        lemma_timeline_dues_in_range(test, rest);
        let all = timeline_dues(test, timeline);
        assert forall|i: int| 0 <= i < all.len() implies {
            let d = #[trigger] all[i];
            d.test == test && d.entry < timeline.len() && d.occurrence < timeline[d.entry as int].at@.len()
        } by {
            let left = timeline_dues(test, rest);
            if i < left.len() {
                assert(all[i] == left[i]);
                assert(rest[left[i].entry as int] == timeline[left[i].entry as int]);
            } else {
                assert(timeline.last() == timeline[timeline.len() - 1]);
            }
        }
    }
}

proof fn lemma_all_dues_in_range(tests: Seq<(TestSpec, Pos)>)
    requires
        addressable(tests),
    ensures
        forall|i: int| 0 <= i < all_dues(tests).len() ==> in_range(tests, #[trigger] all_dues(tests)[i]),
    decreases tests.len(),
{
    if tests.len() > 0 {
        let rest = tests.drop_last();
        assert forall|i: int| 0 <= i < rest.len() implies (#[trigger] rest[i]).0.timeline@.len() <= usize::MAX
            && forall|j: int|
            0 <= j < rest[i].0.timeline@.len() ==> (#[trigger] rest[i].0.timeline@[j]).at@.len()
                <= usize::MAX by {
            assert(rest[i] == tests[i]);
        }
        lemma_all_dues_in_range(rest);
        let t = tests.len() - 1;
        assert(tests.last() == tests[t]);
        lemma_timeline_dues_in_range(t, tests.last().0.timeline@);
        let all = all_dues(tests);
        let left = all_dues(rest);
        assert forall|i: int| 0 <= i < all.len() implies in_range(tests, #[trigger] all[i]) by {
            if i < left.len() {
                assert(all[i] == left[i]);
                assert(in_range(rest, left[i]));
                assert(rest[left[i].test as int] == tests[left[i].test as int]);
            } else {
                let right = timeline_dues(t, tests.last().0.timeline@);
                assert(all[i] == right[i - left.len()]);
            }
        }
    }
}

/// Every firing due at a tick names an existing test, one of its entries and
/// one of that entry's ticks.
pub proof fn lemma_due_in_range(tests: Seq<(TestSpec, Pos)>, t: int)
    requires
        addressable(tests),
    ensures
        forall|i: int| 0 <= i < due_at(tests, t).len() ==> in_range(tests, #[trigger] due_at(tests, t)[i]),
{
    lemma_all_dues_in_range(tests);
    lemma_all_dues_ordered(tests);
    lemma_at_tick_ordered(all_dues(tests), t);
    let s = all_dues(tests);
    assert forall|i: int| 0 <= i < due_at(tests, t).len() implies in_range(tests, #[trigger] due_at(tests, t)[i]) by {
        let j = choose|j: int| 0 <= j < s.len() && s[j] == at_tick(s, t)[i];
        assert(in_range(tests, s[j]));
    }
}

/// The firing of entry `entry` of test `test` for its `k`-th tick.
pub open spec fn firing(tests: Seq<(TestSpec, Pos)>, test: int, entry: int, k: int) -> Due {
    Due {
        tick: tests[test].0.timeline@[entry].at@[k],
        test: test as usize,
        entry: entry as usize,
        occurrence: k as usize,
    }
}

proof fn lemma_timeline_dues_has(test: int, timeline: Seq<TimelineEntry>, entry: int, k: int)
    requires
        0 <= entry < timeline.len(),
        0 <= k < timeline[entry].at@.len(),
    ensures
        exists|i: int| 0 <= i < timeline_dues(test, timeline).len() && #[trigger] timeline_dues(test, timeline)[i]
            == (Due { tick: timeline[entry].at@[k], test: test as usize, entry: entry as usize, occurrence: k as usize }),
    decreases timeline.len(),
{
    let d = Due { tick: timeline[entry].at@[k], test: test as usize, entry: entry as usize, occurrence: k as usize };
    let left = timeline_dues(test, timeline.drop_last());
    let right = entry_dues(test, timeline.len() - 1, timeline.last().at@);
    if entry < timeline.len() - 1 {
        assert(timeline.drop_last()[entry] == timeline[entry]);
        lemma_timeline_dues_has(test, timeline.drop_last(), entry, k);
        let i = choose|i: int| 0 <= i < left.len() && #[trigger] left[i] == d;
        assert(timeline_dues(test, timeline) == left + right);
        assert(timeline_dues(test, timeline)[i] == d);
    } else {
        assert(timeline.last() == timeline[entry]);
        assert(timeline_dues(test, timeline) == left + right);
        assert(timeline_dues(test, timeline)[left.len() + k] == right[k]);
    }
}

proof fn lemma_all_dues_has(tests: Seq<(TestSpec, Pos)>, test: int, entry: int, k: int)
    requires
        0 <= test < tests.len(),
        0 <= entry < tests[test].0.timeline@.len(),
        0 <= k < tests[test].0.timeline@[entry].at@.len(),
    ensures
        exists|i: int| 0 <= i < all_dues(tests).len() && #[trigger] all_dues(tests)[i] == firing(tests, test, entry, k),
    decreases tests.len(),
{
    let d = firing(tests, test, entry, k);
    let rest = tests.drop_last();
    let left = all_dues(rest);
    let t = tests.len() - 1;
    let right = timeline_dues(t, tests.last().0.timeline@);
    if test < t {
        assert(rest[test] == tests[test]);
        lemma_all_dues_has(rest, test, entry, k);
        assert(firing(rest, test, entry, k) == d);
        let i = choose|i: int| 0 <= i < left.len() && #[trigger] left[i] == firing(rest, test, entry, k);
        assert(all_dues(tests) == left + right);
        assert(all_dues(tests)[i] == d);
    } else {
        assert(tests.last() == tests[test]);
        lemma_timeline_dues_has(t, tests.last().0.timeline@, entry, k);
        let i = choose|i: int| 0 <= i < right.len() && #[trigger] right[i] == d;
        assert(all_dues(tests) == left + right);
        assert(all_dues(tests)[left.len() + i] == d);
    }
}

proof fn lemma_at_tick_has(s: Seq<Due>, j: int)
    requires
        0 <= j < s.len(),
    ensures
        exists|i: int| 0 <= i < at_tick(s, s[j].tick as int).len() && #[trigger] at_tick(s, s[j].tick as int)[i] == s[j],
    decreases s.len(),
{
    let t = s[j].tick as int;
    if j < s.len() - 1 {
        assert(s.drop_last()[j] == s[j]);
        lemma_at_tick_has(s.drop_last(), j);
        let sub = at_tick(s.drop_last(), t);
        let i = choose|i: int| 0 <= i < sub.len() && #[trigger] sub[i] == s[j];
        if s.last().tick == t {
            assert(at_tick(s, t) == sub.push(s.last()));
            assert(at_tick(s, t)[i] == s[j]);
        } else {
            assert(at_tick(s, t) == sub);
            assert(at_tick(s, t)[i] == s[j]);
        }
    } else {
        assert(s.last() == s[j]);
        let sub = at_tick(s.drop_last(), t);
        assert(at_tick(s, t) == sub.push(s.last()));
        assert(at_tick(s, t)[sub.len() as int] == s[j]);
    }
}

/// An entry fires once for each of its ticks: for its `k`-th tick it is due at
/// that tick, with occurrence index `k`.
pub proof fn lemma_entry_fires_at_each_tick(tests: Seq<(TestSpec, Pos)>, test: int, entry: int, k: int)
    requires
        0 <= test < tests.len(),
        0 <= entry < tests[test].0.timeline@.len(),
        0 <= k < tests[test].0.timeline@[entry].at@.len(),
    ensures
        exists|i: int|
            0 <= i < due_at(tests, tests[test].0.timeline@[entry].at@[k] as int).len()
                && #[trigger] due_at(tests, tests[test].0.timeline@[entry].at@[k] as int)[i] == firing(
                tests,
                test,
                entry,
                k,
            ),
{
    lemma_all_dues_has(tests, test, entry, k);
    let s = all_dues(tests);
    let j = choose|j: int| 0 <= j < s.len() && #[trigger] s[j] == firing(tests, test, entry, k);
    lemma_at_tick_has(s, j);
    let t = tests[test].0.timeline@[entry].at@[k] as int;
    assert(s[j].tick as int == t);
    let i = choose|i: int| 0 <= i < at_tick(s, t).len() && #[trigger] at_tick(s, t)[i] == s[j];
    assert(due_at(tests, t)[i] == firing(tests, test, entry, k));
}

} // verus!
