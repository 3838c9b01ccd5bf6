use flint::{
    apply_offset, plan_run, ActionType, BlockCheck, BlockPlacement, Due, GlobalTimeline, Op, Pos,
    TestSpec, TimelineEntry, WorldPos, ASSERT_SETTLE_MS, CLEAR_SETTLE_MS, PLACE_PACE_MS,
};

fn p(x: i32, y: i32, z: i32) -> Pos {
    Pos { x, y, z }
}

fn spec(name: &str, timeline: Vec<TimelineEntry>) -> TestSpec {
    TestSpec {
        name: name.to_string(),
        description: None,
        timeline,
        cleanup: [p(0, 0, 0), p(2, 2, 2)],
    }
}

fn place(at: Vec<u32>, x: i32) -> TimelineEntry {
    TimelineEntry { at, action_type: ActionType::Place { pos: p(x, 0, 0), block: "stone".to_string() } }
}

fn assert_stone(at: Vec<u32>) -> TimelineEntry {
    TimelineEntry {
        at,
        action_type: ActionType::Assert {
            checks: vec![BlockCheck { pos: p(0, 0, 0), is: "stone".to_string() }],
        },
    }
}

fn commands(ops: &[Op]) -> Vec<String> {
    ops.iter()
        .filter_map(|o| match o {
            Op::Command(c) => Some(c.clone()),
            _ => None,
        })
        .collect()
}

#[test]
fn offset_adds_each_axis() {
    let w = apply_offset(p(1, -2, 3), p(10, 20, -30));
    assert_eq!(w, WorldPos { x: 11, y: 18, z: -27 });
}

#[test]
fn offset_is_reversible() {
    let pos = p(-7, 64, 12345);
    let off = p(100, -5, -12345);
    let w = apply_offset(pos, off);
    assert_eq!((w.x - off.x as i64, w.y - off.y as i64, w.z - off.z as i64), (-7, 64, 12345));
}

#[test]
fn offset_extremes_do_not_overflow() {
    let w = apply_offset(p(i32::MAX, i32::MIN, 0), p(i32::MAX, i32::MIN, 0));
    assert_eq!(w.x, 2 * i32::MAX as i64);
    assert_eq!(w.y, 2 * i32::MIN as i64);
}

#[test]
fn max_tick_of_timeline() {
    let t = spec("a", vec![place(vec![3, 9, 1], 0), place(vec![4], 1)]);
    assert_eq!(t.max_tick(), 9);
    assert_eq!(spec("empty", vec![]).max_tick(), 0);
}

#[test]
fn timeline_orders_by_test_entry_occurrence() {
    let a = spec("a", vec![place(vec![7, 2], 0), assert_stone(vec![7])]);
    let b = spec("b", vec![place(vec![7], 1)]);
    let tests = vec![(a, p(0, 0, 0)), (b, p(10, 0, 0))];
    let tl = GlobalTimeline::build(&tests);
    assert_eq!(tl.max_global_tick(), 7);
    let at7 = tl.due_at(7);
    assert_eq!(
        at7,
        vec![
            Due { tick: 7, test: 0, entry: 0, occurrence: 0 },
            Due { tick: 7, test: 0, entry: 1, occurrence: 0 },
            Due { tick: 7, test: 1, entry: 0, occurrence: 0 },
        ]
    );
    assert_eq!(tl.due_at(2), vec![Due { tick: 2, test: 0, entry: 0, occurrence: 1 }]);
    assert!(tl.due_at(3).is_empty());
}

#[test]
fn timeline_build_is_deterministic() {
    let a = spec("a", vec![place(vec![1, 4], 0), assert_stone(vec![4, 1])]);
    let b = spec("b", vec![assert_stone(vec![4]), place(vec![0], 2)]);
    let tests = vec![(a, p(0, 0, 0)), (b, p(5, 0, 0))];
    let first = GlobalTimeline::build(&tests);
    let second = GlobalTimeline::build(&tests);
    assert_eq!(first.max_global_tick(), second.max_global_tick());
    for t in 0..=first.max_global_tick() {
        assert_eq!(first.due_at(t), second.due_at(t));
    }
}

#[test]
fn one_step_per_tick_and_none_after_last() {
    let a = spec("a", vec![place(vec![0], 0), assert_stone(vec![3])]);
    let b = spec("b", vec![place(vec![5], 0)]);
    let ops = plan_run(&vec![(a, p(0, 0, 0)), (b, p(10, 0, 0))]);
    let cmds = commands(&ops);
    assert_eq!(cmds.iter().filter(|c| c.as_str() == "tick step 1").count(), 5);
    let last_step = cmds.iter().rposition(|c| c.as_str() == "tick step 1").unwrap();
    let unfreeze = cmds.iter().position(|c| c.as_str() == "tick unfreeze").unwrap();
    let last_place = cmds.iter().rposition(|c| c.starts_with("setblock")).unwrap();
    assert!(last_step < last_place && last_place < unfreeze);
}

#[test]
fn single_tick_run_never_steps() {
    let a = spec("a", vec![place(vec![0], 0)]);
    let cmds = commands(&plan_run(&vec![(a, p(0, 0, 0))]));
    assert_eq!(
        cmds,
        vec![
            "fill 0 0 0 2 2 2 air".to_string(),
            "tick freeze".to_string(),
            "setblock 0 0 0 stone".to_string(),
            "tick unfreeze".to_string(),
            "fill 0 0 0 2 2 2 air".to_string(),
        ]
    );
}

#[test]
fn cleanup_region_cleared_twice_per_test() {
    let a = spec("a", vec![assert_stone(vec![2])]);
    let b = spec("b", vec![place(vec![1], 0)]);
    let ops = plan_run(&vec![(a, p(0, 0, 0)), (b, p(100, 0, -4))]);
    let cmds = commands(&ops);
    let clear_a = "fill 0 0 0 2 2 2 air";
    let clear_b = "fill 100 0 -4 102 2 -2 air";
    assert_eq!(cmds.iter().filter(|c| c.as_str() == clear_a).count(), 2);
    assert_eq!(cmds.iter().filter(|c| c.as_str() == clear_b).count(), 2);
    assert_eq!(&cmds[0], clear_a);
    assert_eq!(&cmds[1], clear_b);
    assert_eq!(&cmds[cmds.len() - 2], clear_a);
    assert_eq!(&cmds[cmds.len() - 1], clear_b);
    assert!(matches!(ops.last(), Some(Op::Settle(ms)) if *ms == CLEAR_SETTLE_MS));
}

#[test]
fn actions_become_commands_at_world_positions() {
    let timeline = vec![
        TimelineEntry {
            at: vec![0],
            action_type: ActionType::Fill {
                region: [p(0, 0, 0), p(1, 1, 1)],
                with: "minecraft:glass".to_string(),
            },
        },
        TimelineEntry { at: vec![0], action_type: ActionType::Remove { pos: p(1, 2, 3) } },
        TimelineEntry {
            at: vec![0],
            action_type: ActionType::PlaceEach {
                blocks: vec![
                    BlockPlacement { pos: p(0, 0, 0), block: "dirt".to_string() },
                    BlockPlacement { pos: p(0, 1, 0), block: "sand".to_string() },
                ],
            },
        },
        assert_stone(vec![0]),
    ];
    let ops = plan_run(&vec![(spec("a", timeline), p(-10, 5, 0))]);
    let cmds = commands(&ops);
    assert_eq!(
        &cmds[2..6],
        &[
            "fill -10 5 0 -9 6 1 minecraft:glass".to_string(),
            "setblock -9 7 3 air".to_string(),
            "setblock -10 5 0 dirt".to_string(),
            "setblock -10 6 0 sand".to_string(),
        ]
    );
    let paces = ops.iter().filter(|o| matches!(o, Op::Settle(ms) if *ms == PLACE_PACE_MS)).count();
    assert_eq!(paces, 2);
    let checks: Vec<Due> = ops
        .iter()
        .filter_map(|o| match o {
            Op::Check(d) => Some(*d),
            _ => None,
        })
        .collect();
    assert_eq!(checks, vec![Due { tick: 0, test: 0, entry: 3, occurrence: 0 }]);
    let i = ops.iter().position(|o| matches!(o, Op::Check(_))).unwrap();
    assert!(matches!(ops[i - 1], Op::Settle(ms) if ms == ASSERT_SETTLE_MS));
}

#[test]
fn state_entry_fires_once_per_tick_with_its_value() {
    let entry = TimelineEntry {
        at: vec![0, 5, 10],
        action_type: ActionType::AssertState {
            pos: p(0, 0, 0),
            state: "power".to_string(),
            values: vec!["0".to_string(), "1".to_string(), "2".to_string()],
        },
    };
    let tests = vec![(spec("s", vec![entry]), p(0, 0, 0))];
    let tl = GlobalTimeline::build(&tests);
    assert_eq!(tl.max_global_tick(), 10);
    let mut fired = Vec::new();
    for t in 0..=tl.max_global_tick() {
        for d in tl.due_at(t) {
            let answer = Some(format!("Wire {{ power: {} }}", d.occurrence));
            let v = flint::judge_due(&tests, d, &vec![answer]).unwrap();
            assert!(matches!(v, flint::Verdict::Passed));
            fired.push((d.tick, d.occurrence));
        }
    }
    assert_eq!(fired, vec![(0, 0), (5, 1), (10, 2)]);
}
