use flint::{
    block_matches, clear_command, command_with_slash, fill_command, judge_blocks, judge_due,
    judge_state, matches_folded, next_block_for, next_block_query, plan_run, probe_for, property_probe, push_decimal,
    setblock_command, step_command, ActionType, BlockCheck, Due, JudgeError, Op, Pos, Probe,
    Readiness, SetupError, Tally, TestSpec, TimelineEntry, Verdict, WorldPos, GAME_POLLS,
    HANDLE_POLLS,
};

fn p(x: i32, y: i32, z: i32) -> Pos {
    Pos { x, y, z }
}

fn check(x: i32, is: &str) -> BlockCheck {
    BlockCheck { pos: p(x, 0, 0), is: is.to_string() }
}

#[test]
fn assert_passes_on_namespaced_state() {
    let v = judge_blocks(&vec![check(1, "stone")], &vec![Some("minecraft:stone".to_string())]);
    assert!(matches!(v, Some(Verdict::Passed)));
}

#[test]
fn assert_fails_citing_position_expected_and_actual() {
    let v = judge_blocks(&vec![check(1, "stone")], &vec![Some("minecraft:dirt".to_string())]);
    match v {
        Some(Verdict::Failed(m)) => {
            assert_eq!(m.pos, p(1, 0, 0));
            assert_eq!(m.expected, "stone");
            assert_eq!(m.actual, Some("minecraft:dirt".to_string()));
            assert_eq!(m.property, None);
        }
        _ => panic!("dirt is not stone"),
    }
}

#[test]
fn assert_reports_first_failing_check() {
    let checks = vec![check(0, "stone"), check(1, "glass"), check(2, "sand")];
    let offset = p(100, 0, 0);
    let world = [Some("Stone".to_string()), None, Some("Sand".to_string())];
    let mut answers: Vec<Option<String>> = Vec::new();
    let mut asked = Vec::new();
    while let Some(pos) = next_block_query(&checks, offset, &answers) {
        asked.push(pos);
        answers.push(world[(pos.x - 100) as usize].clone());
    }
    assert_eq!(asked, vec![WorldPos { x: 100, y: 0, z: 0 }, WorldPos { x: 101, y: 0, z: 0 }]);
    match judge_blocks(&checks, &answers) {
        Some(Verdict::Failed(m)) => {
            assert_eq!(m.pos, p(1, 0, 0));
            assert_eq!(m.actual, None);
        }
        _ => panic!("missing block"),
    }
    assert!(judge_blocks(&checks, &vec![Some("stone".to_string())]).is_none());
}

#[test]
fn empty_assert_passes() {
    assert!(matches!(judge_blocks(&vec![], &vec![]), Some(Verdict::Passed)));
    assert_eq!(next_block_query(&vec![], p(0, 0, 0), &vec![]), None);
}

#[test]
fn matching_folds_case_and_separators() {
    assert!(block_matches("BlockState { RedstoneWire }", "minecraft:redstone_wire"));
    assert!(block_matches("STONE", "stone"));
    assert!(block_matches("oak_planks", "OAK_PLANKS"));
    assert!(block_matches("x", "minecraft:minecraft:"));
    assert!(!block_matches("minecraft:dirt", "stone"));
    assert!(block_matches("ston", "stone"));
    assert!(block_matches("minecraft:stone", "smooth_stone"));
    assert!(block_matches("Smooth_Stone", "minecraft:stone"));
    assert!(!block_matches("minecraft:dirt", "minecraft:stone"));
}

#[test]
fn folded_matching_on_lower_case_text() {
    assert!(matches_folded("redstonewire", "redstone_wire"));
    assert!(matches_folded("redstone_wire", "redstonewire"));
    assert!(matches_folded("red_stone", "redstone"));
    assert!(!matches_folded("Stone", "stone"));
    assert!(matches_folded("anything", ""));
    assert!(matches_folded("stone", "smooth_stone"));
    assert!(!matches_folded("dirt", "stone"));
}

#[test]
fn state_judged_per_occurrence() {
    let values = vec!["1".to_string(), "5".to_string(), "10".to_string()];
    let prop = "power".to_string();
    let answer = Some("RedstoneWire { power: 5 }".to_string());
    assert!(matches!(judge_state(p(0, 0, 0), &prop, &values, 1, &answer), Ok(Verdict::Passed)));
    match judge_state(p(0, 0, 0), &prop, &values, 2, &answer) {
        Ok(Verdict::Failed(m)) => {
            assert_eq!(m.expected, "10");
            assert_eq!(m.property, Some("power".to_string()));
            assert_eq!(m.actual, answer);
        }
        _ => panic!("10 is not shown"),
    }
    assert!(matches!(judge_state(p(0, 0, 0), &prop, &values, 0, &None), Ok(Verdict::Failed(_))));
}

#[test]
fn occurrence_past_values_fails_fast() {
    let entry = TimelineEntry {
        at: vec![0, 5, 10],
        action_type: ActionType::AssertState {
            pos: p(0, 0, 0),
            state: "power".to_string(),
            values: vec!["0".to_string(), "1".to_string(), "2".to_string()],
        },
    };
    assert!(entry.is_consistent());
    let short = TimelineEntry {
        at: vec![0, 5, 10],
        action_type: ActionType::AssertState {
            pos: p(0, 0, 0),
            state: "power".to_string(),
            values: vec!["0".to_string(), "1".to_string()],
        },
    };
    assert!(!short.is_consistent());
    if let ActionType::AssertState { values, state, .. } = &entry.action_type {
        let r = judge_state(p(0, 0, 0), state, values, 3, &Some("power: 2".to_string()));
        assert!(matches!(r, Err(JudgeError::OccurrenceOutOfRange)));
    }
}

#[test]
fn property_probe_needs_marker() {
    let s = "Lever { powered: true, face: wall }".to_string();
    assert_eq!(property_probe(s.clone(), "powered"), Some(s.clone()));
    assert_eq!(property_probe(s.clone(), "face"), Some(s.clone()));
    assert_eq!(property_probe(s.clone(), "facing"), None);
    assert_eq!(property_probe(s, "wall"), None);
}

#[test]
fn command_text() {
    let a = WorldPos { x: -3, y: 0, z: 1234567890123 };
    let b = WorldPos { x: 9, y: -64, z: i64::MIN };
    assert_eq!(
        fill_command(a, b, "stone"),
        "fill -3 0 1234567890123 9 -64 -9223372036854775808 stone"
    );
    assert_eq!(clear_command(a, a), "fill -3 0 1234567890123 -3 0 1234567890123 air");
    assert_eq!(setblock_command(WorldPos { x: 10, y: 70, z: -1 }, "oak_log"), "setblock 10 70 -1 oak_log");
    assert_eq!(step_command(), "tick step 1");
    let mut s = String::new();
    push_decimal(&mut s, 0);
    push_decimal(&mut s, i64::MAX);
    assert_eq!(s, "09223372036854775807");
}

#[test]
fn commands_get_one_slash() {
    assert_eq!(command_with_slash("tick freeze"), "/tick freeze");
    assert_eq!(command_with_slash("/tick freeze"), "/tick freeze");
    assert_eq!(command_with_slash(""), "/");
}

#[test]
fn readiness_polls_are_bounded() {
    let mut r = Readiness::start();
    for _ in 0..HANDLE_POLLS {
        r = r.observe(false, false);
    }
    assert_eq!(r, Readiness::Failed(SetupError::NoHandle));
    let mut r = Readiness::start().observe(true, false);
    assert_eq!(r, Readiness::AwaitingGame(0));
    for _ in 0..GAME_POLLS - 1 {
        r = r.observe(true, false);
    }
    assert!(!r.settled());
    r = r.observe(true, false);
    assert_eq!(r, Readiness::Failed(SetupError::NotInGame));
    let ok = Readiness::start().observe(true, true).observe(true, true);
    assert_eq!(ok, Readiness::Ready);
    assert!(ok.settled());
}

fn stone_test(name: &str) -> TestSpec {
    TestSpec {
        name: name.to_string(),
        description: Some("one check".to_string()),
        timeline: vec![TimelineEntry {
            at: vec![7],
            action_type: ActionType::Assert { checks: vec![check(0, "stone")] },
        }],
        cleanup: [p(0, 0, 0), p(1, 1, 1)],
    }
}

#[test]
fn same_tick_failure_stays_in_its_test() {
    let tests = vec![(stone_test("a"), p(0, 0, 0)), (stone_test("b"), p(50, 0, 0))];
    let mut tally = Tally::new(tests.len());
    for op in plan_run(&tests) {
        if let Op::Check(d) = op {
            assert_eq!(d.tick, 7);
            assert!(matches!(probe_for(&tests, d), Probe::Blocks));
            let mut answers = Vec::new();
            while let Some(pos) = next_block_for(&tests, d, &answers) {
                let answer = if pos.x == 0 { "minecraft:dirt" } else { "minecraft:stone" };
                answers.push(Some(answer.to_string()));
            }
            assert_eq!(answers.len(), 1);
            let v = judge_due(&tests, d, &answers).unwrap();
            tally.record(d.test, &v);
        }
    }
    assert_eq!(tally.recorded(), 2);
    let results = tally.finish(&tests);
    assert_eq!(results[0].test_name, "a");
    assert!(results[0].failed >= 1);
    assert!(!results[0].success);
    assert_eq!(results[1].failed, 0);
    assert_eq!(results[1].passed, 1);
    assert!(results[1].success);
}

#[test]
fn judge_due_rejects_mismatched_answers() {
    let tests = vec![(stone_test("a"), p(0, 0, 0))];
    let d = Due { tick: 7, test: 0, entry: 0, occurrence: 0 };
    assert!(matches!(judge_due(&tests, d, &vec![]), Err(JudgeError::AnswerCount)));
    let bad = Due { tick: 7, test: 1, entry: 0, occurrence: 0 };
    assert!(matches!(judge_due(&tests, bad, &vec![]), Err(JudgeError::NotAnAssertion)));
    assert!(matches!(probe_for(&tests, bad), Probe::Nothing));
}

#[test]
fn state_probe_translates_position() {
    let t = TestSpec {
        name: "s".to_string(),
        description: None,
        timeline: vec![TimelineEntry {
            at: vec![0, 5, 10],
            action_type: ActionType::AssertState {
                pos: p(1, 2, 3),
                state: "power".to_string(),
                values: vec!["0".to_string(), "7".to_string(), "15".to_string()],
            },
        }],
        cleanup: [p(0, 0, 0), p(1, 1, 1)],
    };
    let tests = vec![(t, p(10, 20, 30))];
    let d = Due { tick: 5, test: 0, entry: 0, occurrence: 1 };
    match probe_for(&tests, d) {
        Probe::Property { pos, property } => {
            assert_eq!(pos, WorldPos { x: 11, y: 22, z: 33 });
            assert_eq!(property, "power");
        }
        _ => panic!("a state assertion probes a property"),
    }
    let v = judge_due(&tests, d, &vec![Some("Wire { power: 7 }".to_string())]).unwrap();
    assert!(matches!(v, Verdict::Passed));
    let out = Due { tick: 10, test: 0, entry: 0, occurrence: 3 };
    assert!(matches!(
        judge_due(&tests, out, &vec![Some("power: 15".to_string())]),
        Err(JudgeError::OccurrenceOutOfRange)
    ));
}

#[test]
fn fresh_tally_reports_success() {
    let tests = vec![(stone_test("a"), p(0, 0, 0))];
    let r = Tally::new(1).finish(&tests);
    assert_eq!((r[0].passed, r[0].failed, r[0].success), (0, 0, true));
}
