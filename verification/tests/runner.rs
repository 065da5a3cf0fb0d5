use tequio::readiness::ReadySignal;
use tequio::runner::{run_task, Runner, RunnerAction, RunnerEvent, RunnerState};

fn line(text: &str) -> RunnerAction {
    RunnerAction::Line(text.to_string())
}

fn count(actions: &[RunnerAction], wanted: &RunnerAction) -> usize {
    actions.iter().filter(|a| *a == wanted).count()
}

#[test]
fn readiness_signal_starts_unset_and_latches() {
    let mut signal = ReadySignal::new();
    assert!(!signal.is_ready());
    assert!(signal.set_true());
    assert!(signal.is_ready());
}

#[test]
fn set_true_is_idempotent() {
    let mut once = ReadySignal::new();
    once.set_true();
    let mut twice = ReadySignal::new();
    twice.set_true();
    assert!(!twice.set_true());
    assert_eq!(once.is_ready(), twice.is_ready());
    assert!(twice.is_ready());
}

#[test]
fn state_labels() {
    assert_eq!(RunnerState::Waiting.label(), "waiting");
    assert_eq!(RunnerState::Running.label(), "running");
    assert_eq!(RunnerState::Succeeded.label(), "succeeded");
    assert_eq!(RunnerState::Failed.label(), "failed");
}

#[test]
fn task_without_dependencies_is_spawned_at_once() {
    let (runner, actions) = Runner::new(0, None, false);
    assert_eq!(
        actions,
        vec![RunnerAction::Start, RunnerAction::Status(RunnerState::Running), RunnerAction::Spawn]
    );
    assert_eq!(runner.state(), RunnerState::Running);
    assert!(!runner.is_ready());
    assert!(!runner.is_finished());
    assert_eq!(runner.child(), None);
    assert!(runner.dependencies_ready());
}

#[test]
fn task_with_dependencies_waits() {
    let (runner, actions) = Runner::new(2, None, false);
    assert_eq!(actions, vec![RunnerAction::Start, RunnerAction::Status(RunnerState::Waiting)]);
    assert_eq!(runner.state(), RunnerState::Waiting);
    assert!(!runner.dependencies_ready());
}

#[test]
fn shutdown_before_start_fails_without_spawning() {
    let (runner, actions) = Runner::new(0, None, true);
    assert_eq!(actions, vec![RunnerAction::Start, RunnerAction::SetReady, RunnerAction::Failed]);
    assert_eq!(runner.state(), RunnerState::Failed);
    assert!(runner.is_ready());
    let (waiting, announced) = Runner::new(1, None, true);
    assert_eq!(
        announced,
        vec![
            RunnerAction::Start,
            RunnerAction::Status(RunnerState::Waiting),
            RunnerAction::SetReady,
            RunnerAction::Failed
        ]
    );
    assert!(waiting.is_finished());
}

#[test]
fn simple_task_succeeds() {
    let (runner, actions) = run_task(
        0,
        None,
        false,
        vec![
            RunnerEvent::Spawned(100),
            RunnerEvent::Stdout("A".to_string()),
            RunnerEvent::Exited(Some(0)),
        ],
    );
    assert_eq!(
        actions,
        vec![
            RunnerAction::Start,
            RunnerAction::Status(RunnerState::Running),
            RunnerAction::Spawn,
            RunnerAction::Register(100),
            RunnerAction::SetReady,
            line("A"),
            RunnerAction::Unregister(100),
            RunnerAction::Succeeded,
        ]
    );
    assert_eq!(runner.state(), RunnerState::Succeeded);
    assert!(runner.is_ready());
    assert_eq!(runner.child(), None);
}

#[test]
fn dependent_runs_only_after_every_dependency() {
    let (mut runner, _) = Runner::new(2, None, false);
    assert_eq!(runner.step(RunnerEvent::DependencyReady { index: 1, shutdown: false }), vec![]);
    assert_eq!(runner.state(), RunnerState::Waiting);
    assert_eq!(runner.step(RunnerEvent::DependencyReady { index: 1, shutdown: false }), vec![]);
    assert_eq!(runner.step(RunnerEvent::DependencyReady { index: 7, shutdown: false }), vec![]);
    assert_eq!(runner.state(), RunnerState::Waiting);
    assert_eq!(
        runner.step(RunnerEvent::DependencyReady { index: 0, shutdown: false }),
        vec![RunnerAction::Status(RunnerState::Running), RunnerAction::Spawn]
    );
    assert_eq!(runner.state(), RunnerState::Running);
    assert!(runner.dependencies_ready());
}

#[test]
fn shutdown_while_waiting_fails_and_sets_readiness() {
    let (mut runner, _) = Runner::new(1, None, false);
    assert_eq!(
        runner.step(RunnerEvent::Shutdown),
        vec![RunnerAction::SetReady, RunnerAction::Failed]
    );
    assert_eq!(runner.state(), RunnerState::Failed);
    assert!(runner.is_ready());
    assert_eq!(runner.step(RunnerEvent::DependencyReady { index: 0, shutdown: false }), vec![]);
    assert_eq!(runner.state(), RunnerState::Failed);
}

#[test]
fn dependency_reported_with_shutdown_set_is_a_shutdown() {
    let (mut runner, _) = Runner::new(1, None, false);
    assert_eq!(
        runner.step(RunnerEvent::DependencyReady { index: 0, shutdown: true }),
        vec![RunnerAction::SetReady, RunnerAction::Failed]
    );
    assert_eq!(runner.state(), RunnerState::Failed);
}

#[test]
fn spawn_failure_is_shown_and_unblocks_dependents() {
    let (runner, actions) =
        run_task(0, None, false, vec![RunnerEvent::SpawnFailed("No such file".to_string())]);
    assert_eq!(
        &actions[3..],
        &[line("failed to spawn command: No such file"), RunnerAction::Failed, RunnerAction::SetReady]
    );
    assert_eq!(runner.state(), RunnerState::Failed);
    assert!(runner.is_ready());
}

#[test]
fn ready_check_gates_readiness_on_output() {
    let (mut runner, _) = Runner::new(0, Some("READY".to_string()), false);
    assert_eq!(runner.step(RunnerEvent::Spawned(7)), vec![RunnerAction::Register(7)]);
    assert!(!runner.is_ready());
    assert_eq!(runner.step(RunnerEvent::Stdout("starting".to_string())), vec![line("starting")]);
    assert!(!runner.is_ready());
    assert_eq!(runner.step(RunnerEvent::Stderr("READY".to_string())), vec![line("READY")]);
    assert!(!runner.is_ready());
    assert_eq!(
        runner.step(RunnerEvent::Stdout("  server READY now \r".to_string())),
        vec![RunnerAction::SetReady, line("  server READY now \r")]
    );
    assert!(runner.is_ready());
    assert_eq!(runner.step(RunnerEvent::Stdout("READY".to_string())), vec![line("READY")]);
    assert_eq!(runner.state(), RunnerState::Running);
}

#[test]
fn ready_check_never_matched_still_sets_readiness_at_exit() {
    let (runner, actions) = run_task(
        0,
        Some("READY".to_string()),
        false,
        vec![
            RunnerEvent::Spawned(7),
            RunnerEvent::Stdout("ready".to_string()),
            RunnerEvent::Exited(Some(0)),
        ],
    );
    assert_eq!(
        &actions[3..],
        &[
            RunnerAction::Register(7),
            line("ready"),
            RunnerAction::SetReady,
            RunnerAction::Unregister(7),
            RunnerAction::Succeeded
        ]
    );
    assert!(runner.is_ready());
}

#[test]
fn nonzero_exit_is_reported_with_its_code() {
    let (runner, actions) =
        run_task(0, None, false, vec![RunnerEvent::Spawned(9), RunnerEvent::Exited(Some(1))]);
    assert_eq!(
        &actions[5..],
        &[RunnerAction::Unregister(9), line("process exited with code 1"), RunnerAction::Failed]
    );
    assert_eq!(runner.state(), RunnerState::Failed);
    assert!(runner.is_ready());
}

#[test]
fn missing_exit_code_is_reported_as_minus_one() {
    let (_, actions) =
        run_task(0, None, false, vec![RunnerEvent::Spawned(9), RunnerEvent::Exited(None)]);
    assert_eq!(actions[6], line("process exited with code -1"));
    let (_, negative) =
        run_task(0, None, false, vec![RunnerEvent::Spawned(9), RunnerEvent::Exited(Some(-15))]);
    assert_eq!(negative[6], line("process exited with code -15"));
}

#[test]
fn wait_failure_is_reported() {
    let (runner, actions) = run_task(
        0,
        Some("x".to_string()),
        false,
        vec![RunnerEvent::Spawned(9), RunnerEvent::WaitFailed("gone".to_string())],
    );
    assert_eq!(
        &actions[4..],
        &[
            RunnerAction::SetReady,
            RunnerAction::Unregister(9),
            line("error waiting for process: gone"),
            RunnerAction::Failed
        ]
    );
    assert_eq!(runner.state(), RunnerState::Failed);
}

#[test]
fn shutdown_mid_run_kills_the_descendant_tree() {
    let (runner, actions) = run_task(
        0,
        Some("never".to_string()),
        false,
        vec![
            RunnerEvent::Spawned(4242),
            RunnerEvent::Stdout("tick".to_string()),
            RunnerEvent::Shutdown,
            RunnerEvent::Stdout("late".to_string()),
            RunnerEvent::Exited(Some(0)),
        ],
    );
    assert_eq!(
        &actions[4..],
        &[
            line("tick"),
            RunnerAction::KillTree(4242),
            RunnerAction::AbortStreams,
            RunnerAction::Unregister(4242),
            RunnerAction::SetReady,
            RunnerAction::Failed
        ]
    );
    assert_eq!(runner.state(), RunnerState::Failed);
    assert!(runner.is_ready());
    assert_eq!(runner.child(), None);
}

#[test]
fn every_life_sets_readiness_once_and_ends_once() {
    let traces: Vec<Vec<RunnerEvent>> = vec![
        vec![RunnerEvent::Spawned(1), RunnerEvent::Exited(Some(0))],
        vec![RunnerEvent::Spawned(1), RunnerEvent::Exited(Some(3)), RunnerEvent::Shutdown],
        vec![RunnerEvent::SpawnFailed("no".to_string()), RunnerEvent::Spawned(2)],
        vec![RunnerEvent::Shutdown, RunnerEvent::Shutdown],
        vec![
            RunnerEvent::Spawned(1),
            RunnerEvent::Stdout("ok".to_string()),
            RunnerEvent::Stdout("ok".to_string()),
            RunnerEvent::WaitFailed("x".to_string()),
        ],
        vec![RunnerEvent::Spawned(1), RunnerEvent::Shutdown, RunnerEvent::Exited(Some(0))],
    ];
    for check in [None, Some("ok".to_string())] {
        for trace in &traces {
            let (runner, actions) = run_task(0, check.clone(), false, trace.clone());
            assert!(runner.is_finished());
            assert!(runner.is_ready());
            assert_eq!(count(&actions, &RunnerAction::SetReady), 1);
            assert_eq!(
                count(&actions, &RunnerAction::Succeeded) + count(&actions, &RunnerAction::Failed),
                1
            );
            assert_eq!(count(&actions, &RunnerAction::Start), 1);
            assert_eq!(actions[0], RunnerAction::Start);
        }
    }
}

#[test]
fn events_out_of_place_are_ignored() {
    let (mut runner, _) = Runner::new(1, None, false);
    assert_eq!(runner.step(RunnerEvent::Spawned(5)), vec![]);
    assert_eq!(runner.step(RunnerEvent::Stdout("x".to_string())), vec![]);
    assert_eq!(runner.step(RunnerEvent::Exited(Some(0))), vec![]);
    assert_eq!(runner.state(), RunnerState::Waiting);
    let (mut spawning, _) = Runner::new(0, None, false);
    assert_eq!(spawning.step(RunnerEvent::Stdout("x".to_string())), vec![]);
    assert_eq!(spawning.step(RunnerEvent::Exited(Some(0))), vec![]);
    assert_eq!(spawning.state(), RunnerState::Running);
}
