use sovereign_os::execution_mode::ExecutionMode;
use sovereign_os::replay_cursor::{CursorError, PlaybackState, ReplayCursor, TurnRole};

const TH: &str = "th-1";

fn roles_3() -> Vec<TurnRole> {
    vec![TurnRole::Operator, TurnRole::Model, TurnRole::Tool]
}

#[test]
fn open_requires_replay_mode() {
    let th = roles_3();
    assert!(matches!(
        ReplayCursor::open(TH, th.len(), ExecutionMode::Execute).unwrap_err(),
        CursorError::NotReplayMode(_)
    ));
}

#[test]
fn step_walks_all_turns() {
    let th = roles_3();
    let mut c = ReplayCursor::open(TH, th.len(), ExecutionMode::Replay).unwrap();
    for _ in 0..3 {
        assert!(c.step(TH, &th).unwrap().is_some());
    }
    assert!(c.is_finished());
    assert!(c.step(TH, &th).unwrap().is_none());
}

#[test]
fn breakpoint_pauses_before_role() {
    let th = roles_3();
    let mut c = ReplayCursor::open(TH, th.len(), ExecutionMode::Replay)
        .unwrap()
        .with_breakpoint(TurnRole::Tool);
    assert!(c.step(TH, &th).unwrap().is_some());
    assert!(c.step(TH, &th).unwrap().is_some());
    let err = c.step(TH, &th).unwrap_err();
    assert!(matches!(err, CursorError::Paused));
    assert_eq!(c.state, PlaybackState::Paused);
}

#[test]
fn resume_after_breakpoint_advances() {
    let th = roles_3();
    let mut c = ReplayCursor::open(TH, th.len(), ExecutionMode::Replay)
        .unwrap()
        .with_breakpoint(TurnRole::Tool);
    c.step(TH, &th).unwrap();
    c.step(TH, &th).unwrap();
    c.step(TH, &th).unwrap_err();
    c.resume();
    let t = c.step(TH, &th).unwrap().unwrap();
    assert_eq!(th[t], TurnRole::Tool);
}

#[test]
fn jump_to_seeks() {
    let th = roles_3();
    let mut c = ReplayCursor::open(TH, th.len(), ExecutionMode::Replay).unwrap();
    c.jump_to(2).unwrap();
    assert_eq!(c.next_index, 2);
    let t = c.step(TH, &th).unwrap().unwrap();
    assert_eq!(th[t], TurnRole::Tool);
}

#[test]
fn jump_out_of_bounds_rejected() {
    let th = roles_3();
    let mut c = ReplayCursor::open(TH, th.len(), ExecutionMode::Replay).unwrap();
    assert!(matches!(
        c.jump_to(10).unwrap_err(),
        CursorError::JumpOutOfBounds { .. }
    ));
}

#[test]
fn pause_then_step_blocked() {
    let th = roles_3();
    let mut c = ReplayCursor::open(TH, th.len(), ExecutionMode::Replay).unwrap();
    c.step(TH, &th).unwrap();
    c.pause();
    assert!(matches!(c.step(TH, &th).unwrap_err(), CursorError::Paused));
}

#[test]
fn validate_mismatch_caught() {
    let th = roles_3();
    let mut c = ReplayCursor::open(TH, th.len(), ExecutionMode::Replay).unwrap();
    c.thread_id = "wrong".into();
    assert!(matches!(
        c.validate(TH, th.len()).unwrap_err(),
        CursorError::ThreadMismatch { .. }
    ));
}

#[test]
fn validate_count_mismatch_caught() {
    let th = roles_3();
    let mut c = ReplayCursor::open(TH, th.len(), ExecutionMode::Replay).unwrap();
    c.total_turns = 99;
    assert!(matches!(
        c.validate(TH, th.len()).unwrap_err(),
        CursorError::CountMismatch {
            cursor: 99,
            thread: 3
        }
    ));
}

#[test]
fn jump_to_end_marks_finished() {
    let th = roles_3();
    let mut c = ReplayCursor::open(TH, th.len(), ExecutionMode::Replay).unwrap();
    c.jump_to(3).unwrap();
    assert!(c.is_finished());
}

#[test]
fn cursor_step_reports_played_index_and_finishes() {
    let th = roles_3();
    let mut c = ReplayCursor::open(TH, th.len(), ExecutionMode::Replay).unwrap();
    assert_eq!(c.state, PlaybackState::Idle);
    assert_eq!(c.step(TH, &th).unwrap(), Some(0));
    assert_eq!(c.state, PlaybackState::Running);
    assert_eq!(c.step(TH, &th).unwrap(), Some(1));
    assert_eq!(c.step(TH, &th).unwrap(), Some(2));
    assert_eq!(c.state, PlaybackState::Finished);
    assert!(matches!(c.step("other", &th).unwrap_err(), CursorError::ThreadMismatch { .. }));
    c.mode = ExecutionMode::Plan;
    assert!(matches!(c.step(TH, &th).unwrap_err(), CursorError::NotReplayMode(ExecutionMode::Plan)));
    let mut d = ReplayCursor::open(TH, 0, ExecutionMode::Replay).unwrap();
    assert!(d.is_finished());
    assert_eq!(d.step(TH, &[]).unwrap(), None);
    d.schema_version = "9.9.9".into();
    assert!(matches!(d.validate(TH, 0).unwrap_err(), CursorError::SchemaMismatch));
}
