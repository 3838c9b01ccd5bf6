use vstd::prelude::*;
use crate::judge::{blocks_pending, blocks_verdict, judge_blocks, next_block_query, judge_state, state_verdict, JudgeError, Verdict};
use crate::model::{ActionType, Pos, TestSpec, WorldPos};
use crate::offset::{apply_offset, translated};
use crate::schedule::names_entry;
use crate::timeline::{addressable, due_at, in_range, lemma_due_in_range, Due};

verus! {

/// What the world must be asked to judge an assertion.
#[derive(Clone, Debug)]
pub enum Probe {
    /// Blocks, one check at a time, as `next_block_for` names them.
    Blocks,
    /// The state of the block at `pos`, as it shows `property`.
    Property { pos: WorldPos, property: String },
    /// Nothing: the firing is no assertion.
    Nothing,
}

/// What to ask the world for the firing `d` of `tests`: blocks for an
/// `Assert`, the world position and property of an `AssertState`, nothing for
/// any other action.
pub fn probe_for(tests: &Vec<(TestSpec, Pos)>, d: Due) -> (r: Probe)
    ensures
        !names_entry(tests@, d) ==> r is Nothing,
        names_entry(tests@, d) ==> {
            let offset = tests@[d.test as int].1;
            match tests@[d.test as int].0.timeline@[d.entry as int].action_type {
                ActionType::Assert { .. } => r is Blocks,
                ActionType::AssertState { pos, state, .. } => r matches Probe::Property {
                    pos: p,
                    property,
                } && p == translated(pos, offset) && property == state,
                _ => r is Nothing,
            }
        },
{
    if d.test >= tests.len() || d.entry >= tests[d.test].0.timeline.len() {
        return Probe::Nothing;
    }
    let offset = tests[d.test].1;
    match &tests[d.test].0.timeline[d.entry].action_type {
        ActionType::Assert { .. } => Probe::Blocks,
        ActionType::AssertState { pos, state, .. } => Probe::Property {
            pos: apply_offset(*pos, offset),
            property: state.clone(),
        },
        _ => Probe::Nothing,
    }
}

/// The world position to query next for the firing `d` of `tests`, given the
/// answers so far: for an `Assert`, that of its first check without an
/// answer while every answer so far holds; nothing otherwise.
pub fn next_block_for(tests: &Vec<(TestSpec, Pos)>, d: Due, answers: &Vec<Option<String>>) -> (r: Option<
    WorldPos,
>)
    ensures
        names_entry(tests@, d) ==> match tests@[d.test as int].0.timeline@[d.entry as int].action_type {
            ActionType::Assert { checks } => (r is Some <==> blocks_pending(checks@, answers@)) && (r matches Some(
                p,
            ) ==> p == translated(checks@[answers@.len() as int].pos, tests@[d.test as int].1)),
            _ => r is None,
        },
        !names_entry(tests@, d) ==> r is None,
{
    if d.test >= tests.len() || d.entry >= tests[d.test].0.timeline.len() {
        return None;
    }
    match &tests[d.test].0.timeline[d.entry].action_type {
        ActionType::Assert { checks } => {
            if answers.len() > checks.len() {
                None
            } else {
                next_block_query(checks, tests[d.test].1, answers)
            }
        },
        _ => None,
    }
}

/// Judges the firing `d` of `tests` from the answers to its probe: for an
/// `Assert`, the answers that `next_block_for` asked for, up to the first
/// failing one; one answer for an `AssertState`.
pub fn judge_due(tests: &Vec<(TestSpec, Pos)>, d: Due, answers: &Vec<Option<String>>) -> (r: Result<
    Verdict,
    JudgeError,
>)
    ensures
        !names_entry(tests@, d) ==> r == Err::<Verdict, JudgeError>(JudgeError::NotAnAssertion),
        names_entry(tests@, d) ==> match tests@[d.test as int].0.timeline@[d.entry as int].action_type {
            ActionType::Assert { checks } => if answers@.len() > checks@.len() || blocks_pending(
                checks@,
                answers@,
            ) {
                r == Err::<Verdict, JudgeError>(JudgeError::AnswerCount)
            } else {
                r matches Ok(v) && blocks_verdict(checks@, answers@, v)
            },
            ActionType::AssertState { pos, state, values } => if answers@.len() != 1 {
                r == Err::<Verdict, JudgeError>(JudgeError::AnswerCount)
            } else if d.occurrence >= values@.len() {
                r == Err::<Verdict, JudgeError>(JudgeError::OccurrenceOutOfRange)
            } else {
                r matches Ok(v) && state_verdict(pos, state, values@[d.occurrence as int], answers@[0], v)
            },
            _ => r == Err::<Verdict, JudgeError>(JudgeError::NotAnAssertion),
        },
{
    if d.test >= tests.len() || d.entry >= tests[d.test].0.timeline.len() {
        return Err(JudgeError::NotAnAssertion);
    }
    match &tests[d.test].0.timeline[d.entry].action_type {
        ActionType::Assert { checks } => {
            if answers.len() > checks.len() {
                Err(JudgeError::AnswerCount)
            } else {
                match judge_blocks(checks, answers) {
                    Some(v) => Ok(v),
                    None => Err(JudgeError::AnswerCount),
                }
            }
        },
        ActionType::AssertState { pos, state, values } => {
            if answers.len() != 1 {
                Err(JudgeError::AnswerCount)
            } else {
                judge_state(*pos, state, values, d.occurrence, &answers[0])
            }
        },
        _ => Err(JudgeError::NotAnAssertion),
    }
}

/// Whether every `AssertState` entry of `tests` has one expected value per tick.
pub open spec fn all_consistent(tests: Seq<(TestSpec, Pos)>) -> bool {
    forall|i: int, j: int|
        0 <= i < tests.len() && 0 <= j < tests[i].0.timeline@.len() ==> (#[trigger] tests[i].0.timeline@[j]).consistent()
}

/// When every state assertion has one expected value per tick, each firing
/// due at a tick names an entry, and a state assertion's occurrence has its
/// expected value: judging such a firing never runs out of range.
pub proof fn lemma_occurrence_in_range(tests: Seq<(TestSpec, Pos)>, t: int)
    requires
        addressable(tests),
        all_consistent(tests),
    ensures
        forall|i: int| 0 <= i < due_at(tests, t).len() ==> {
            let d = #[trigger] due_at(tests, t)[i];
            &&& names_entry(tests, d)
            &&& match tests[d.test as int].0.timeline@[d.entry as int].action_type {
                ActionType::AssertState { values, .. } => d.occurrence < values@.len(),
                _ => true,
            }
        },
{
    lemma_due_in_range(tests, t);
    assert forall|i: int| 0 <= i < due_at(tests, t).len() implies {
        let d = #[trigger] due_at(tests, t)[i];
        &&& names_entry(tests, d)
        &&& match tests[d.test as int].0.timeline@[d.entry as int].action_type {
            ActionType::AssertState { values, .. } => d.occurrence < values@.len(),
            _ => true,
        }
    } by {
        let d = due_at(tests, t)[i];
        assert(in_range(tests, d));
        assert(tests[d.test as int].0.timeline@[d.entry as int].consistent());
    }
}

} // verus!
