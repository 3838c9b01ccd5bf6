use vstd::prelude::*;
use crate::commands::{
    air, clear_command, fill_command, fill_text, freeze_command, freeze_text, remove_command,
    setblock_command, setblock_text, step_command, step_text, unfreeze_command, unfreeze_text,
};
use crate::model::{ActionType, BlockPlacement, Pos, TestSpec};
use crate::offset::{apply_offset, translated};
use crate::timeline::{due_at, max_global, Due, GlobalTimeline};

verus! {

/// Pause after the test areas are cleared, in milliseconds.
pub const CLEAR_SETTLE_MS: u64 = 200;

/// Pause after the world clock is frozen, in milliseconds.
pub const FREEZE_SETTLE_MS: u64 = 100;

/// Pause after each single tick step, in milliseconds.
pub const STEP_SETTLE_MS: u64 = 50;

/// Pause between the placements of one `PlaceEach`, in milliseconds.
pub const PLACE_PACE_MS: u64 = 10;

/// Pause before an assertion reads the world, in milliseconds.
pub const ASSERT_SETTLE_MS: u64 = 100;

/// One step of a run, as the driver carries it out.
#[derive(Clone, Debug)]
pub enum Op {
    /// Send this command to the backend.
    Command(String),
    /// Wait this many milliseconds.
    Settle(u64),
    /// Query the world and judge the assertion of this firing.
    Check(Due),
}

/// What an `Op` is, with its command as text.
pub enum OpView {
    Command(Seq<char>),
    Settle(u64),
    Check(Due),
}

impl View for Op {
    type V = OpView;

    open spec fn view(&self) -> OpView {
        match self {
            Op::Command(c) => OpView::Command(c@),
            Op::Settle(ms) => OpView::Settle(*ms),
            Op::Check(d) => OpView::Check(*d),
        }
    }
}

/// The views of a list of ops.
pub open spec fn views(ops: Seq<Op>) -> Seq<OpView> {
    ops.map_values(|o: Op| o@)
}

/// The command that empties the cleanup region of a placed test.
pub open spec fn clear_text_of(t: (TestSpec, Pos)) -> Seq<char> {
    fill_text(translated(t.0.cleanup[0], t.1), translated(t.0.cleanup[1], t.1), air())
}

/// One clearing command per test, in test order.
pub open spec fn clear_ops(tests: Seq<(TestSpec, Pos)>) -> Seq<OpView>
    decreases tests.len(),
{
    if tests.len() == 0 {
        Seq::empty()
    } else {
        clear_ops(tests.drop_last()).push(OpView::Command(clear_text_of(tests.last())))
    }
}

/// The commands of a `PlaceEach`, each followed by a short pause.
pub open spec fn place_each_ops(blocks: Seq<BlockPlacement>, offset: Pos) -> Seq<OpView>
    decreases blocks.len(),
{
    if blocks.len() == 0 {
        Seq::empty()
    } else {
        place_each_ops(blocks.drop_last(), offset) + seq![
            OpView::Command(setblock_text(translated(blocks.last().pos, offset), blocks.last().block@)),
            OpView::Settle(PLACE_PACE_MS),
        ]
    }
}

/// Whether a firing names an existing test and entry.
pub open spec fn names_entry(tests: Seq<(TestSpec, Pos)>, d: Due) -> bool {
    d.test < tests.len() && d.entry < tests[d.test as int].0.timeline@.len()
}

/// The ops of one firing: the commands of an action, or a pause and a check
/// for an assertion.
pub open spec fn action_ops(tests: Seq<(TestSpec, Pos)>, d: Due) -> Seq<OpView> {
    if !names_entry(tests, d) {
        Seq::empty()
    } else {
        let offset = tests[d.test as int].1;
        match tests[d.test as int].0.timeline@[d.entry as int].action_type {
            ActionType::Place { pos, block } => seq![
                OpView::Command(setblock_text(translated(pos, offset), block@)),
            ],
            ActionType::PlaceEach { blocks } => place_each_ops(blocks@, offset),
            ActionType::Fill { region, with } => seq![
                OpView::Command(
                    fill_text(translated(region[0], offset), translated(region[1], offset), with@),
                ),
            ],
            ActionType::Remove { pos } => seq![
                OpView::Command(setblock_text(translated(pos, offset), air())),
            ],
            ActionType::Assert { .. } => seq![OpView::Settle(ASSERT_SETTLE_MS), OpView::Check(d)],
            ActionType::AssertState { .. } => seq![
                OpView::Settle(ASSERT_SETTLE_MS),
                OpView::Check(d),
            ],
        }
    }
}

/// The ops of a list of firings, in order.
pub open spec fn dues_ops(tests: Seq<(TestSpec, Pos)>, ds: Seq<Due>) -> Seq<OpView>
    decreases ds.len(),
{
    if ds.len() == 0 {
        Seq::empty()
    } else {
        dues_ops(tests, ds.drop_last()) + action_ops(tests, ds.last())
    }
}

/// The single step that advances the frozen clock, with its pause.
pub open spec fn step_ops() -> Seq<OpView> {
    seq![OpView::Command(step_text()), OpView::Settle(STEP_SETTLE_MS)]
}

/// The ops of tick `k` of a run that ends at tick `last`: the firings due
/// at `k`, then a step to the next tick unless `k` is the last.
pub open spec fn tick_ops(tests: Seq<(TestSpec, Pos)>, k: int, last: int) -> Seq<OpView> {
    dues_ops(tests, due_at(tests, k)) + if k < last {
        step_ops()
    } else {
        Seq::empty()
    }
}

/// The ops of ticks `0` to `n - 1`, tick by tick.
pub open spec fn ticks_ops(tests: Seq<(TestSpec, Pos)>, n: nat, last: int) -> Seq<OpView>
    decreases n,
{
    if n == 0 {
        Seq::empty()
    } else {
        ticks_ops(tests, (n - 1) as nat, last) + tick_ops(tests, n - 1, last)
    }
}

/// What comes before the first tick: every test area cleared, a pause, the
/// clock frozen, a pause.
pub open spec fn setup_ops(tests: Seq<(TestSpec, Pos)>) -> Seq<OpView> {
    clear_ops(tests) + seq![
        OpView::Settle(CLEAR_SETTLE_MS),
        OpView::Command(freeze_text()),
        OpView::Settle(FREEZE_SETTLE_MS),
    ]
}

/// What comes after the last tick: the clock unfrozen, every test area
/// cleared, a pause.
pub open spec fn teardown_ops(tests: Seq<(TestSpec, Pos)>) -> Seq<OpView> {
    seq![OpView::Command(unfreeze_text())] + clear_ops(tests) + seq![
        OpView::Settle(CLEAR_SETTLE_MS),
    ]
}

/// The whole run of `tests`: setup, every tick from 0 to the last one
/// inclusive, teardown.
pub open spec fn run_plan(tests: Seq<(TestSpec, Pos)>) -> Seq<OpView> {
    let last = max_global(tests);
    setup_ops(tests) + ticks_ops(tests, last + 1, last as int) + teardown_ops(tests)
}

fn push_clear_ops(out: &mut Vec<Op>, tests: &Vec<(TestSpec, Pos)>)
    ensures
        views(final(out)@) == views(old(out)@) + clear_ops(tests@),
{
    let mut i: usize = 0;
    while i < tests.len()
        invariant
            i <= tests@.len(),
            views(out@) == views(old(out)@) + clear_ops(tests@.subrange(0, i as int)),
        decreases tests@.len() - i,
    {
        let offset = tests[i].1;
        let cmd = clear_command(
            apply_offset(tests[i].0.cleanup[0], offset),
            apply_offset(tests[i].0.cleanup[1], offset),
        );
        let ghost prev = views(out@);
        proof {
            assert(cmd@ == clear_text_of(tests@[i as int]));
        }
        out.push(Op::Command(cmd));
        proof {
            assert(views(out@) =~= prev.push(OpView::Command(clear_text_of(tests@[i as int]))));
            assert(tests@.subrange(0, i + 1).drop_last() =~= tests@.subrange(0, i as int));
            assert(tests@.subrange(0, i + 1).last() == tests@[i as int]);
        }
        i += 1;
        proof {
            assert(views(out@) =~= views(old(out)@) + clear_ops(tests@.subrange(0, i as int)));
        }
    }
    proof {
        assert(tests@.subrange(0, i as int) =~= tests@);
    }
}

fn push_action_ops(out: &mut Vec<Op>, tests: &Vec<(TestSpec, Pos)>, d: Due)
    ensures
        views(final(out)@) == views(old(out)@) + action_ops(tests@, d),
{
    if d.test >= tests.len() || d.entry >= tests[d.test].0.timeline.len() {
        proof {
            assert(views(out@) =~= views(old(out)@) + action_ops(tests@, d));
        }
        return;
    }
    let offset = tests[d.test].1;
    match &tests[d.test].0.timeline[d.entry].action_type {
        ActionType::Place { pos, block } => {
            out.push(Op::Command(setblock_command(apply_offset(*pos, offset), block.as_str())));
        },
        ActionType::PlaceEach { blocks } => {
            let mut i: usize = 0;
            while i < blocks.len()
                invariant
                    i <= blocks@.len(),
                    views(out@) == views(old(out)@) + place_each_ops(
                        blocks@.subrange(0, i as int),
                        offset,
                    ),
                decreases blocks@.len() - i,
            {
                let cmd = setblock_command(apply_offset(blocks[i].pos, offset), blocks[i].block.as_str());
                let ghost prev = views(out@);
                let ghost c = cmd@;
                out.push(Op::Command(cmd));
                out.push(Op::Settle(PLACE_PACE_MS));
                proof {
                    assert(views(out@) =~= prev + seq![OpView::Command(c), OpView::Settle(PLACE_PACE_MS)]);
                    assert(blocks@.subrange(0, i + 1).last() == blocks@[i as int]);
                    assert(blocks@.subrange(0, i + 1).drop_last() =~= blocks@.subrange(0, i as int));
                }
                i += 1;
                proof {
                    assert(views(out@) =~= views(old(out)@) + place_each_ops(
                        blocks@.subrange(0, i as int),
                        offset,
                    ));
                }
            }
            proof {
                assert(blocks@.subrange(0, i as int) =~= blocks@);
            }
        },
        ActionType::Fill { region, with } => {
            let cmd = fill_command(
                apply_offset(region[0], offset),
                apply_offset(region[1], offset),
                with.as_str(),
            );
            out.push(Op::Command(cmd));
        },
        ActionType::Remove { pos } => {
            out.push(Op::Command(remove_command(apply_offset(*pos, offset))));
        },
        ActionType::Assert { .. } => {
            out.push(Op::Settle(ASSERT_SETTLE_MS));
            out.push(Op::Check(d));
        },
        ActionType::AssertState { .. } => {
            out.push(Op::Settle(ASSERT_SETTLE_MS));
            out.push(Op::Check(d));
        },
    }
    proof {
        assert(views(out@) =~= views(old(out)@) + action_ops(tests@, d));
    }
}

/// The ops of a whole run of `tests`, each placed at its offset: clear every
/// test area, freeze the clock, run every tick from 0 to the last one
/// inclusive (the firings due at it in timeline order, then one step unless
/// it is the last), unfreeze the clock and clear every test area again.
pub fn plan_run(tests: &Vec<(TestSpec, Pos)>) -> (r: Vec<Op>)
    ensures
        views(r@) == run_plan(tests@),
{
    let timeline = GlobalTimeline::build(tests);
    let last = timeline.max_global_tick();
    let mut out: Vec<Op> = Vec::new();
    push_clear_ops(&mut out, tests);
    out.push(Op::Settle(CLEAR_SETTLE_MS));
    out.push(Op::Command(freeze_command()));
    out.push(Op::Settle(FREEZE_SETTLE_MS));
    proof {
        assert(views(out@) =~= setup_ops(tests@));
    }
    let mut k: u64 = 0;
    while k <= last as u64
        invariant
            timeline.built_from(tests@),
            timeline.wf(),
            last as nat == timeline.last_tick(),
            k <= last + 1,
            views(out@) == setup_ops(tests@) + ticks_ops(tests@, k as nat, last as int),
        decreases last + 1 - k,
    {
        let ghost before = views(out@);
        let dues = timeline.due_at(k as u32);
        let mut i: usize = 0;
        while i < dues.len()
            invariant
                i <= dues@.len(),
                views(out@) == before + dues_ops(tests@, dues@.subrange(0, i as int)),
            decreases dues@.len() - i,
        {
            push_action_ops(&mut out, tests, dues[i]);
            proof {
                assert(dues@.subrange(0, i + 1).drop_last() =~= dues@.subrange(0, i as int));
            }
            i += 1;
            proof {
                assert(views(out@) =~= before + dues_ops(tests@, dues@.subrange(0, i as int)));
            }
        }
        proof {
            assert(dues@.subrange(0, i as int) =~= dues@);
        }
        let ghost mid = views(out@);
        if k < last as u64 {
            out.push(Op::Command(step_command()));
            out.push(Op::Settle(STEP_SETTLE_MS));
            proof {
                assert(views(out@) =~= mid + step_ops());
            }
        } else {
            proof {
                assert(views(out@) =~= mid + Seq::<OpView>::empty());
            }
        }
        proof {
            assert(dues@ == due_at(tests@, k as int));
            assert(views(out@) == before + tick_ops(tests@, k as int, last as int));
        }
        k += 1;
        proof {
            assert(views(out@) =~= setup_ops(tests@) + ticks_ops(tests@, k as nat, last as int));
        }
    }
    let ghost body = views(out@);
    out.push(Op::Command(unfreeze_command()));
    proof {
        assert(views(out@) =~= body + seq![OpView::Command(unfreeze_text())]);
    }
    push_clear_ops(&mut out, tests);
    let ghost cleared = views(out@);
    out.push(Op::Settle(CLEAR_SETTLE_MS));
    proof {
        assert(views(out@) =~= cleared.push(OpView::Settle(CLEAR_SETTLE_MS)));
        assert(views(out@) =~= body + teardown_ops(tests@));
        assert(k as nat == max_global(tests@) + 1);
        assert(views(out@) =~= run_plan(tests@));
    }
    out
}

/// Whether an op is the command that steps the clock.
pub open spec fn is_step(o: OpView) -> bool {
    o == OpView::Command(step_text())
}

/// How many times a list of ops steps the clock.
pub open spec fn count_steps(ops: Seq<OpView>) -> nat
    decreases ops.len(),
{
    if ops.len() == 0 {
        0
    } else {
        count_steps(ops.drop_last()) + if is_step(ops.last()) {
            1nat
        } else {
            0nat
        }
    }
}

proof fn lemma_count_push(s: Seq<OpView>, o: OpView)
    ensures
        count_steps(s.push(o)) == count_steps(s) + if is_step(o) {
            1nat
        } else {
            0nat
        },
{
    assert(s.push(o).drop_last() =~= s);
}

proof fn lemma_count_concat(a: Seq<OpView>, b: Seq<OpView>)
    ensures
        count_steps(a + b) == count_steps(a) + count_steps(b),
    decreases b.len(),
{
    if b.len() > 0 {
        assert((a + b).drop_last() =~= a + b.drop_last());
        lemma_count_concat(a, b.drop_last());
    }
}

proof fn lemma_count_two(o1: OpView, o2: OpView)
    ensures
        count_steps(seq![o1, o2]) == count_steps(seq![o1]) + if is_step(o2) {
            1nat
        } else {
            0nat
        },
        count_steps(seq![o1]) == if is_step(o1) {
            1nat
        } else {
            0nat
        },
{
    lemma_count_push(Seq::empty(), o1);
    assert(Seq::<OpView>::empty().push(o1) =~= seq![o1]);
    lemma_count_push(seq![o1], o2);
    assert(seq![o1].push(o2) =~= seq![o1, o2]);
}

proof fn lemma_setblock_not_step(p: crate::model::WorldPos, block: Seq<char>)
    ensures
        !is_step(OpView::Command(setblock_text(p, block))),
{
    assert(setblock_text(p, block)[0] == 's');
    assert(step_text()[0] == 't');
}

proof fn lemma_fill_not_step(a: crate::model::WorldPos, b: crate::model::WorldPos, block: Seq<char>)
    ensures
        !is_step(OpView::Command(fill_text(a, b, block))),
{
    assert(fill_text(a, b, block)[0] == 'f');
    assert(step_text()[0] == 't');
}

proof fn lemma_place_each_no_step(blocks: Seq<BlockPlacement>, offset: Pos)
    ensures
        count_steps(place_each_ops(blocks, offset)) == 0,
    decreases blocks.len(),
{
    if blocks.len() > 0 {
        let c = OpView::Command(setblock_text(translated(blocks.last().pos, offset), blocks.last().block@));
        lemma_place_each_no_step(blocks.drop_last(), offset);
        lemma_setblock_not_step(translated(blocks.last().pos, offset), blocks.last().block@);
        lemma_count_two(c, OpView::Settle(PLACE_PACE_MS));
        lemma_count_concat(place_each_ops(blocks.drop_last(), offset), seq![c, OpView::Settle(PLACE_PACE_MS)]);
    }
}

proof fn lemma_action_no_step(tests: Seq<(TestSpec, Pos)>, d: Due)
    ensures
        count_steps(action_ops(tests, d)) == 0,
{
    if names_entry(tests, d) {
        let offset = tests[d.test as int].1;
        match tests[d.test as int].0.timeline@[d.entry as int].action_type {
            ActionType::Place { pos, block } => {
                let c = OpView::Command(setblock_text(translated(pos, offset), block@));
                lemma_setblock_not_step(translated(pos, offset), block@);
                lemma_count_two(c, c);
            },
            ActionType::PlaceEach { blocks } => {
                lemma_place_each_no_step(blocks@, offset);
            },
            ActionType::Fill { region, with } => {
                let c = OpView::Command(fill_text(translated(region[0], offset), translated(region[1], offset), with@));
                lemma_fill_not_step(translated(region[0], offset), translated(region[1], offset), with@);
                lemma_count_two(c, c);
            },
            ActionType::Remove { pos } => {
                let c = OpView::Command(setblock_text(translated(pos, offset), air()));
                lemma_setblock_not_step(translated(pos, offset), air());
                lemma_count_two(c, c);
            },
            _ => {
                lemma_count_two(OpView::Settle(ASSERT_SETTLE_MS), OpView::Check(d));
            },
        }
    }
}

proof fn lemma_dues_no_step(tests: Seq<(TestSpec, Pos)>, ds: Seq<Due>)
    ensures
        count_steps(dues_ops(tests, ds)) == 0,
    decreases ds.len(),
{
    if ds.len() > 0 {
        lemma_dues_no_step(tests, ds.drop_last());
        lemma_action_no_step(tests, ds.last());
        lemma_count_concat(dues_ops(tests, ds.drop_last()), action_ops(tests, ds.last()));
    }
}

proof fn lemma_clear_no_step(tests: Seq<(TestSpec, Pos)>)
    ensures
        count_steps(clear_ops(tests)) == 0,
    decreases tests.len(),
{
    if tests.len() > 0 {
        let t = tests.last();
        lemma_clear_no_step(tests.drop_last());
        lemma_fill_not_step(translated(t.0.cleanup[0], t.1), translated(t.0.cleanup[1], t.1), air());
        lemma_count_push(clear_ops(tests.drop_last()), OpView::Command(clear_text_of(t)));
    }
}

proof fn lemma_tick_steps(tests: Seq<(TestSpec, Pos)>, k: int, last: int)
    ensures
        count_steps(tick_ops(tests, k, last)) == if k < last {
            1nat
        } else {
            0nat
        },
{
    lemma_dues_no_step(tests, due_at(tests, k));
    let tail = if k < last {
        step_ops()
    } else {
        Seq::empty()
    };
    lemma_count_concat(dues_ops(tests, due_at(tests, k)), tail);
    lemma_count_two(OpView::Command(step_text()), OpView::Settle(STEP_SETTLE_MS));
}

proof fn lemma_ticks_steps(tests: Seq<(TestSpec, Pos)>, n: nat, last: int)
    requires
        0 <= last,
        n <= last + 1,
    ensures
        count_steps(ticks_ops(tests, n, last)) == if n <= last {
            n
        } else {
            last as nat
        },
    decreases n,
{
    if n > 0 {
        lemma_ticks_steps(tests, (n - 1) as nat, last);
        lemma_tick_steps(tests, n - 1, last);
        lemma_count_concat(ticks_ops(tests, (n - 1) as nat, last), tick_ops(tests, n - 1, last));
    }
}

/// Over a run, the clock is stepped exactly once after each tick before the
/// last one, and never after the last tick: a run that ends at tick `m`
/// steps the clock `m` times.
pub proof fn lemma_one_step_per_tick(tests: Seq<(TestSpec, Pos)>)
    ensures
        run_plan(tests) == setup_ops(tests) + ticks_ops(
            tests,
            max_global(tests) + 1,
            max_global(tests) as int,
        ) + teardown_ops(tests),
        count_steps(setup_ops(tests)) == 0,
        count_steps(teardown_ops(tests)) == 0,
        forall|k: int|
            0 <= k <= max_global(tests) ==> count_steps(#[trigger] tick_ops(
                tests,
                k,
                max_global(tests) as int,
            )) == if k < max_global(tests) {
                1nat
            } else {
                0nat
            },
        count_steps(run_plan(tests)) == max_global(tests),
{
    let last = max_global(tests);
    lemma_clear_no_step(tests);
    assert(freeze_text()[5] != step_text()[5]);
    assert(unfreeze_text().len() != step_text().len());
    let s1 = OpView::Settle(CLEAR_SETTLE_MS);
    let f = OpView::Command(freeze_text());
    let s2 = OpView::Settle(FREEZE_SETTLE_MS);
    lemma_count_two(s1, f);
    lemma_count_push(seq![s1, f], s2);
    assert(seq![s1, f].push(s2) =~= seq![s1, f, s2]);
    lemma_count_concat(clear_ops(tests), seq![s1, f, s2]);
    let u = OpView::Command(unfreeze_text());
    lemma_count_two(u, s1);
    lemma_count_concat(seq![u], clear_ops(tests));
    lemma_count_concat(seq![u] + clear_ops(tests), seq![s1]);
    assert forall|k: int| 0 <= k <= last implies count_steps(
        #[trigger] tick_ops(tests, k, last as int),
    ) == if k < last {
        1nat
    } else {
        0nat
    } by {
        lemma_tick_steps(tests, k, last as int);
    }
    lemma_ticks_steps(tests, last + 1, last as int);
    lemma_count_concat(setup_ops(tests), ticks_ops(tests, last + 1, last as int));
    lemma_count_concat(
        setup_ops(tests) + ticks_ops(tests, last + 1, last as int),
        teardown_ops(tests),
    );
}

proof fn lemma_clear_ops_shape(tests: Seq<(TestSpec, Pos)>)
    ensures
        clear_ops(tests).len() == tests.len(),
        forall|i: int|
            0 <= i < tests.len() ==> #[trigger] clear_ops(tests)[i] == OpView::Command(
                clear_text_of(tests[i]),
            ),
    decreases tests.len(),
{
    if tests.len() > 0 {
        lemma_clear_ops_shape(tests.drop_last());
    }
}

/// Every test area is cleared twice in a run, whatever its assertions find:
/// the run opens with one clearing command per test, in test order, and
/// closes with the same commands followed by a pause.
pub proof fn lemma_cleanup_twice(tests: Seq<(TestSpec, Pos)>)
    ensures
        clear_ops(tests).len() == tests.len(),
        forall|i: int|
            0 <= i < tests.len() ==> #[trigger] clear_ops(tests)[i] == OpView::Command(
                clear_text_of(tests[i]),
            ),
        run_plan(tests).subrange(0, tests.len() as int) == clear_ops(tests),
        run_plan(tests).subrange(
            run_plan(tests).len() - tests.len() - 1,
            run_plan(tests).len() - 1,
        ) == clear_ops(tests),
        run_plan(tests).last() == OpView::Settle(CLEAR_SETTLE_MS),
{
    lemma_clear_ops_shape(tests);
    let p = run_plan(tests);
    let n = tests.len() as int;
    assert(p.subrange(0, n) =~= clear_ops(tests));
    assert(p.subrange(p.len() - n - 1, p.len() - 1) =~= clear_ops(tests));
}

} // verus!
