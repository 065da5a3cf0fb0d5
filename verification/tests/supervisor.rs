use tequio::config::{parse_ini, topo_sort, OrderError, TaskEntry};
use tequio::pidfile::{PidFile, StoreAction};
use tequio::runner::{RunnerAction, RunnerEvent, RunnerState};
use tequio::supervisor::{
    exit_plan, manifest_path, resolved_work_dir, Command, ExitCause, ExitPlan, Supervisor,
    FINISH_GRACE_MS, SHUTDOWN_DRAIN_MS,
};

fn load(manifest: &str) -> Vec<TaskEntry> {
    topo_sort(parse_ini(manifest).unwrap()).unwrap()
}

fn cmd(task: usize, action: RunnerAction) -> Command {
    Command { task, action }
}

fn line(text: &str) -> RunnerAction {
    RunnerAction::Line(text.to_string())
}

fn asks_spawn(commands: &[Command], task: usize) -> bool {
    commands.contains(&cmd(task, RunnerAction::Spawn))
}

#[test]
fn two_tasks_without_dependencies() {
    let tasks = load("[a]\ncommand=echo A\n[b]\ncommand=echo B\n");
    let (mut supervisor, commands) = Supervisor::new(&tasks).unwrap();
    assert_eq!(
        commands,
        vec![
            cmd(0, RunnerAction::Start),
            cmd(0, RunnerAction::Status(RunnerState::Running)),
            cmd(0, RunnerAction::Spawn),
            cmd(1, RunnerAction::Start),
            cmd(1, RunnerAction::Status(RunnerState::Running)),
            cmd(1, RunnerAction::Spawn),
        ]
    );
    assert_eq!(supervisor.len(), 2);
    supervisor.handle(0, RunnerEvent::Spawned(10));
    supervisor.handle(1, RunnerEvent::Spawned(11));
    assert_eq!(supervisor.handle(0, RunnerEvent::Stdout("A".to_string())), vec![cmd(0, line("A"))]);
    assert_eq!(supervisor.handle(1, RunnerEvent::Stdout("B".to_string())), vec![cmd(1, line("B"))]);
    assert_eq!(
        supervisor.handle(0, RunnerEvent::Exited(Some(0))),
        vec![cmd(0, RunnerAction::Unregister(10)), cmd(0, RunnerAction::Succeeded)]
    );
    assert!(!supervisor.all_finished());
    supervisor.handle(1, RunnerEvent::Exited(Some(0)));
    assert!(supervisor.all_finished());
    assert_eq!(supervisor.state(0), Some(RunnerState::Succeeded));
    assert_eq!(supervisor.state(1), Some(RunnerState::Succeeded));
    assert_eq!(supervisor.state(2), None);
}

#[test]
fn chain_runs_dependent_after_dependency_is_ready() {
    let tasks = load("[a]\ncommand=echo one\n[b]\ncommand=echo two\ndepends_on=a\n");
    let (mut supervisor, commands) = Supervisor::new(&tasks).unwrap();
    assert_eq!(
        commands,
        vec![
            cmd(0, RunnerAction::Start),
            cmd(0, RunnerAction::Status(RunnerState::Running)),
            cmd(0, RunnerAction::Spawn),
            cmd(1, RunnerAction::Start),
            cmd(1, RunnerAction::Status(RunnerState::Waiting)),
        ]
    );
    assert!(asks_spawn(&commands, 0));
    assert!(!asks_spawn(&commands, 1));
    assert_eq!(supervisor.state(1), Some(RunnerState::Waiting));
    assert!(!supervisor.is_ready(0));
    let spawned = supervisor.handle(0, RunnerEvent::Spawned(10));
    assert_eq!(
        spawned,
        vec![
            cmd(0, RunnerAction::Register(10)),
            cmd(0, RunnerAction::SetReady),
            cmd(1, RunnerAction::Status(RunnerState::Running)),
            cmd(1, RunnerAction::Spawn),
        ]
    );
    assert!(supervisor.is_ready(0));
    assert_eq!(supervisor.state(1), Some(RunnerState::Running));
    supervisor.handle(1, RunnerEvent::Spawned(11));
    supervisor.handle(0, RunnerEvent::Stdout("one".to_string()));
    supervisor.handle(0, RunnerEvent::Exited(Some(0)));
    supervisor.handle(1, RunnerEvent::Stdout("two".to_string()));
    supervisor.handle(1, RunnerEvent::Exited(Some(0)));
    assert_eq!(supervisor.state(0), Some(RunnerState::Succeeded));
    assert_eq!(supervisor.state(1), Some(RunnerState::Succeeded));
    assert!(supervisor.all_finished());
}

#[test]
fn ready_check_gates_the_dependent() {
    let tasks = load(
        "[server]\ncommand=sh -c 'echo starting; echo READY; sleep 10'\nready_check=READY\n[client]\ncommand=echo go\ndepends_on=server\n",
    );
    assert_eq!(tasks[0].command, "sh -c 'echo starting; echo READY; sleep 10'");
    let (mut supervisor, _) = Supervisor::new(&tasks).unwrap();
    assert_eq!(
        supervisor.handle(0, RunnerEvent::Spawned(10)),
        vec![cmd(0, RunnerAction::Register(10))]
    );
    assert_eq!(supervisor.state(1), Some(RunnerState::Waiting));
    assert_eq!(
        supervisor.handle(0, RunnerEvent::Stdout("starting".to_string())),
        vec![cmd(0, line("starting"))]
    );
    assert_eq!(supervisor.state(1), Some(RunnerState::Waiting));
    assert!(!supervisor.is_ready(0));
    assert_eq!(
        supervisor.handle(0, RunnerEvent::Stdout("READY".to_string())),
        vec![
            cmd(0, RunnerAction::SetReady),
            cmd(1, RunnerAction::Status(RunnerState::Running)),
            cmd(1, RunnerAction::Spawn),
            cmd(0, line("READY")),
        ]
    );
    assert!(supervisor.is_ready(0));
    assert_eq!(supervisor.state(1), Some(RunnerState::Running));
    assert_eq!(supervisor.state(0), Some(RunnerState::Running));
}

#[test]
fn failed_dependency_unblocks_the_dependent() {
    let tasks = load("[a]\ncommand=false\n[b]\ncommand=echo after\ndepends_on=a\n");
    let (mut supervisor, _) = Supervisor::new(&tasks).unwrap();
    supervisor.handle(0, RunnerEvent::Spawned(10));
    assert_eq!(
        supervisor.handle(0, RunnerEvent::Exited(Some(1))),
        vec![
            cmd(0, RunnerAction::Unregister(10)),
            cmd(0, line("process exited with code 1")),
            cmd(0, RunnerAction::Failed),
        ]
    );
    assert_eq!(supervisor.state(0), Some(RunnerState::Failed));
    assert_eq!(supervisor.state(1), Some(RunnerState::Running));
    supervisor.handle(1, RunnerEvent::Spawned(11));
    supervisor.handle(1, RunnerEvent::Stdout("after".to_string()));
    supervisor.handle(1, RunnerEvent::Exited(Some(0)));
    assert_eq!(supervisor.state(1), Some(RunnerState::Succeeded));
}

#[test]
fn spawn_failure_of_dependency_unblocks_the_dependent() {
    let tasks = load("[a]\ncommand=x\nready_check=never\n[b]\ncommand=y\ndepends_on=a\n");
    let (mut supervisor, _) = Supervisor::new(&tasks).unwrap();
    assert_eq!(
        supervisor.handle(0, RunnerEvent::SpawnFailed("denied".to_string())),
        vec![
            cmd(0, line("failed to spawn command: denied")),
            cmd(0, RunnerAction::Failed),
            cmd(0, RunnerAction::SetReady),
            cmd(1, RunnerAction::Status(RunnerState::Running)),
            cmd(1, RunnerAction::Spawn),
        ]
    );
}

#[test]
fn shutdown_mid_run_ends_every_task_and_empties_the_registry() {
    let tasks = load(
        "[srv]\ncommand=sh -c 'while true; do sleep 1; done'\n[later]\ncommand=echo x\ndepends_on=srv\nready_check=x\n[other]\ncommand=y\ndepends_on=later\n",
    );
    let (mut supervisor, _) = Supervisor::new(&tasks).unwrap();
    let mut registry = PidFile::new();
    for command in supervisor.handle(0, RunnerEvent::Spawned(500)) {
        if let RunnerAction::Register(pid) = command.action {
            registry.register(pid);
        }
    }
    for command in supervisor.handle(1, RunnerEvent::Spawned(501)) {
        if let RunnerAction::Register(pid) = command.action {
            registry.register(pid);
        }
    }
    assert!(registry.contains(500));
    assert!(registry.contains(501));
    assert_eq!(supervisor.state(2), Some(RunnerState::Waiting));
    let commands = supervisor.shutdown();
    assert_eq!(
        commands,
        vec![
            cmd(0, RunnerAction::KillTree(500)),
            cmd(0, RunnerAction::AbortStreams),
            cmd(0, RunnerAction::Unregister(500)),
            cmd(0, RunnerAction::Failed),
            cmd(1, RunnerAction::KillTree(501)),
            cmd(1, RunnerAction::AbortStreams),
            cmd(1, RunnerAction::Unregister(501)),
            cmd(1, RunnerAction::SetReady),
            cmd(1, RunnerAction::Failed),
            cmd(2, RunnerAction::SetReady),
            cmd(2, RunnerAction::Failed),
        ]
    );
    let mut last = StoreAction::Write(String::new());
    for command in commands {
        if let RunnerAction::Unregister(pid) = command.action {
            last = registry.unregister(pid);
        }
    }
    assert_eq!(last, StoreAction::Remove);
    assert!(registry.is_empty());
    assert!(registry.cleanup().remove_store);
    assert!(supervisor.is_shut_down());
    assert!(supervisor.all_finished());
    for task in 0..3 {
        assert_eq!(supervisor.state(task), Some(RunnerState::Failed));
        assert!(supervisor.is_ready(task));
    }
    assert_eq!(supervisor.handle(0, RunnerEvent::Exited(Some(0))), vec![]);
    assert_eq!(supervisor.shutdown(), vec![]);
}

#[test]
fn diamond_waits_for_both_dependencies() {
    let tasks = load(
        "[a]\ncommand=1\n[b]\ncommand=2\ndepends_on=a\n[c]\ncommand=3\ndepends_on=a\n[d]\ncommand=4\ndepends_on = b, c\n",
    );
    let (mut supervisor, _) = Supervisor::new(&tasks).unwrap();
    let after_a = supervisor.handle(0, RunnerEvent::Spawned(1));
    assert!(asks_spawn(&after_a, 1));
    assert!(asks_spawn(&after_a, 2));
    assert!(!asks_spawn(&after_a, 3));
    let after_b = supervisor.handle(1, RunnerEvent::Spawned(2));
    assert!(!asks_spawn(&after_b, 3));
    assert_eq!(supervisor.state(3), Some(RunnerState::Waiting));
    let after_c = supervisor.handle(2, RunnerEvent::Spawned(3));
    assert!(asks_spawn(&after_c, 3));
    assert_eq!(supervisor.state(3), Some(RunnerState::Running));
}

#[test]
fn supervisor_ignores_events_it_does_not_take() {
    let tasks = load("[a]\ncommand=1\n[b]\ncommand=2\ndepends_on=a\n");
    let (mut supervisor, _) = Supervisor::new(&tasks).unwrap();
    assert_eq!(
        supervisor.handle(1, RunnerEvent::DependencyReady { index: 0, shutdown: false }),
        vec![]
    );
    assert_eq!(supervisor.handle(1, RunnerEvent::Shutdown), vec![]);
    assert_eq!(supervisor.handle(5, RunnerEvent::Spawned(1)), vec![]);
    assert_eq!(supervisor.state(1), Some(RunnerState::Waiting));
    assert!(!supervisor.is_shut_down());
}

#[test]
fn supervisor_rejects_unknown_dependency() {
    let tasks = vec![TaskEntry {
        name: "a".to_string(),
        command: "x".to_string(),
        work_dir: None,
        depends_on: vec!["ghost".to_string()],
        ready_check: None,
    }];
    match Supervisor::new(&tasks) {
        Err(error) => assert_eq!(
            error,
            OrderError::UnknownDependency { task: "a".to_string(), dependency: "ghost".to_string() }
        ),
        Ok(_) => panic!("an unknown dependency was accepted"),
    }
}

#[test]
fn exit_plans() {
    assert_eq!(FINISH_GRACE_MS, 2000);
    assert_eq!(SHUTDOWN_DRAIN_MS, 500);
    assert_eq!(
        exit_plan(ExitCause::AllFinished),
        ExitPlan { grace_ms: 2000, broadcast_shutdown: false, stop_ui: true, drain_ms: 500 }
    );
    assert_eq!(
        exit_plan(ExitCause::UiExited),
        ExitPlan { grace_ms: 0, broadcast_shutdown: true, stop_ui: false, drain_ms: 500 }
    );
    assert_eq!(
        exit_plan(ExitCause::Interrupt),
        ExitPlan { grace_ms: 0, broadcast_shutdown: true, stop_ui: true, drain_ms: 500 }
    );
    assert_eq!(exit_plan(ExitCause::Terminate), exit_plan(ExitCause::Interrupt));
}

#[test]
fn manifest_path_defaults() {
    assert_eq!(manifest_path(None), "tequio.ini");
    assert_eq!(manifest_path(Some("other.ini".to_string())), "other.ini");
}

#[test]
fn work_dir_defaults_to_the_current_directory() {
    let tasks = load("[a]\ncommand=1\nwork_dir=/srv/app\n[b]\ncommand=2\n");
    assert_eq!(resolved_work_dir(&tasks[0], "/home/me"), "/srv/app");
    assert_eq!(resolved_work_dir(&tasks[1], "/home/me"), "/home/me");
}
