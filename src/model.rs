use vstd::prelude::*;

verus! {

/// A position in a scenario's own coordinates.
#[derive(Clone, Copy, Debug, PartialEq, Eq, Structural)]
pub struct Pos {
    pub x: i32,
    pub y: i32,
    pub z: i32,
}

/// An absolute position in the shared world.
///
/// The axes are wider than those of `Pos` so that adding an offset never
/// overflows.
#[derive(Clone, Copy, Debug, PartialEq, Eq, Structural)]
pub struct WorldPos {
    pub x: i64,
    pub y: i64,
    pub z: i64,
}

/// One block to set, as part of a `PlaceEach` action.
#[derive(Clone, Debug)]
pub struct BlockPlacement {
    pub pos: Pos,
    pub block: String,
}

/// One expected block, as part of an `Assert` action.
#[derive(Clone, Debug)]
pub struct BlockCheck {
    pub pos: Pos,
    pub is: String,
}

/// What a timeline entry does each time it fires.
#[derive(Clone, Debug)]
pub enum ActionType {
    Place { pos: Pos, block: String },
    PlaceEach { blocks: Vec<BlockPlacement> },
    Fill { region: [Pos; 2], with: String },
    Remove { pos: Pos },
    Assert { checks: Vec<BlockCheck> },
    AssertState { pos: Pos, state: String, values: Vec<String> },
}

/// An action together with the ticks at which it fires.
#[derive(Clone, Debug)]
pub struct TimelineEntry {
    pub at: Vec<u32>,
    pub action_type: ActionType,
}

/// A scenario: its timeline and the region to clear around it.
#[derive(Clone, Debug)]
pub struct TestSpec {
    pub name: String,
    pub description: Option<String>,
    pub timeline: Vec<TimelineEntry>,
    pub cleanup: [Pos; 2],
}

/// The largest tick in a list of ticks, 0 for none.
pub open spec fn max_of(ticks: Seq<u32>) -> nat
    decreases ticks.len(),
{
    if ticks.len() == 0 {
        0
    } else {
        let rest = max_of(ticks.drop_last());
        if ticks.last() as nat > rest {
            ticks.last() as nat
        } else {
            rest
        }
    }
}

/// The largest tick that any entry of a timeline names, 0 for none.
pub open spec fn max_tick_of(timeline: Seq<TimelineEntry>) -> nat
    decreases timeline.len(),
{
    if timeline.len() == 0 {
        0
    } else {
        let rest = max_tick_of(timeline.drop_last());
        let here = max_of(timeline.last().at@);
        if here > rest {
            here
        } else {
            rest
        }
    }
}

impl TimelineEntry {
    /// Whether an `AssertState` entry has one expected value per tick; any
    /// other entry is consistent.
    pub open spec fn consistent(&self) -> bool {
        match self.action_type {
            ActionType::AssertState { values, .. } => values@.len() == self.at@.len(),
            _ => true,
        }
    }

    /// Whether an `AssertState` entry has one expected value per tick.
    pub fn is_consistent(&self) -> (r: bool)
        ensures
            r == self.consistent(),
    {
        match &self.action_type {
            ActionType::AssertState { values, .. } => values.len() == self.at.len(),
            _ => true,
        }
    }
}

impl TestSpec {
    /// The largest tick that the timeline names.
    pub open spec fn max_tick_spec(&self) -> nat {
        max_tick_of(self.timeline@)
    }

    /// The largest tick that the timeline names, 0 for an empty timeline.
    pub fn max_tick(&self) -> (r: u32)
        ensures
            r as nat == self.max_tick_spec(),
    {
        let mut best: u32 = 0;
        let mut i: usize = 0;
        while i < self.timeline.len()
            invariant
                i <= self.timeline@.len(),
                best as nat == max_tick_of(self.timeline@.subrange(0, i as int)),
            decreases self.timeline@.len() - i,
        {
            let at = &self.timeline[i].at;
            let mut here: u32 = 0;
            let mut j: usize = 0;
            while j < at.len()
                invariant
                    j <= at@.len(),
                    here as nat == max_of(at@.subrange(0, j as int)),
                decreases at@.len() - j,
            {
                proof {
                    assert(at@.subrange(0, j + 1).drop_last() =~= at@.subrange(0, j as int));
                }
                if at[j] > here {
                    here = at[j];
                }
                j += 1;
            }
            proof {
                assert(at@.subrange(0, j as int) =~= at@);
                assert(self.timeline@.subrange(0, i + 1).drop_last() =~= self.timeline@.subrange(0, i as int));
            }
            if here > best {
                best = here;
            }
            i += 1;
        }
        proof {
            assert(self.timeline@.subrange(0, i as int) =~= self.timeline@);
        }
        best
    }

    /// The two corners of the region that is cleared before and after a run.
    pub fn cleanup_region(&self) -> (r: [Pos; 2])
        ensures
            r@ == self.cleanup@,
    {
        self.cleanup
    }
}

/// The outcome of one scenario over a run.
#[derive(Clone, Debug)]
pub struct TestResult {
    pub test_name: String,
    pub passed: usize,
    pub failed: usize,
    pub success: bool,
}

} // verus!
