//! The life cycle of one task as a state machine.
//!
//! A runner waits for the readiness of the tasks it depends on, asks for its
//! command to be spawned, passes the child's output on to its pane, sets its
//! own readiness, and ends as succeeded or failed. It performs nothing
//! itself: the caller hands it events (a dependency became ready, the child
//! was spawned, a line was read, the child exited, shutdown was requested)
//! and performs the actions that each event is answered with, in order,
//! before it hands over the next event.

use crate::readiness::ReadySignal;
use crate::text::{chars_of, contains, contains_chars, signed_decimal, signed_decimal_text, trim, trimmed};
use vstd::prelude::*;
use vstd::string::*;

verus! {

/// Where a task stands in its life cycle.
#[derive(Clone, Copy, Debug, PartialEq, Eq, Structural)]
pub enum RunnerState {
    /// Announced, not all dependencies ready yet.
    Waiting,
    /// Dependencies are ready; the command is being spawned or runs.
    Running,
    /// The child exited with status zero.
    Succeeded,
    /// The child failed, could not be spawned, or shutdown came first.
    Failed,
}

/// What happened, as the caller observed it.
#[derive(Clone, Debug, PartialEq, Eq)]
pub enum RunnerEvent {
    /// The readiness of the dependency with this index was observed true.
    /// `shutdown` is the value of the shutdown signal at that moment.
    DependencyReady { index: usize, shutdown: bool },
    /// The shutdown signal was observed true.
    Shutdown,
    /// The command was spawned; the child has this process identifier.
    Spawned(u32),
    /// The command could not be spawned, for the reason given.
    SpawnFailed(String),
    /// The child wrote this line to its standard output.
    Stdout(String),
    /// The child wrote this line to its standard error.
    Stderr(String),
    /// The child exited, with this code where one is available. Its output
    /// has been handed over in full before.
    Exited(Option<i32>),
    /// Waiting for the child failed, for the reason given.
    WaitFailed(String),
}

/// What the caller is to do, in the order given.
#[derive(Clone, Debug, PartialEq, Eq)]
pub enum RunnerAction {
    /// Open the task's pane, showing its full output.
    Start,
    /// Show this state as the task's status.
    Status(RunnerState),
    /// Spawn the command and answer with `Spawned` or `SpawnFailed` before
    /// any other event.
    Spawn,
    /// Add the child to the registry of live children.
    Register(u32),
    /// Set the task's readiness signal.
    SetReady,
    /// Write this line into the task's pane.
    Line(String),
    /// Terminate this process and all its descendants.
    KillTree(u32),
    /// Stop reading the child's output.
    AbortStreams,
    /// Take the child out of the registry of live children.
    Unregister(u32),
    /// Mark the pane as succeeded.
    Succeeded,
    /// Mark the pane as failed.
    Failed,
}

/// An event, with texts as sequences of characters.
pub enum EventModel {
    DependencyReady { index: nat, shutdown: bool },
    Shutdown,
    Spawned(u32),
    SpawnFailed(Seq<char>),
    Stdout(Seq<char>),
    Stderr(Seq<char>),
    Exited(Option<i32>),
    WaitFailed(Seq<char>),
}

/// An action, with texts as sequences of characters.
pub enum ActionModel {
    Start,
    Status(RunnerState),
    Spawn,
    Register(u32),
    SetReady,
    Line(Seq<char>),
    KillTree(u32),
    AbortStreams,
    Unregister(u32),
    Succeeded,
    Failed,
}

/// A runner, as the contracts see it.
pub struct RunnerModel {
    /// The state of the life cycle.
    pub state: RunnerState,
    /// For each declared dependency, whether its readiness was observed.
    pub observed: Seq<bool>,
    /// The text that marks the task as ready when a line of output holds it.
    pub ready_check: Option<Seq<char>>,
    /// Whether the runner has set its own readiness.
    pub ready: bool,
    /// The child, from the moment it is spawned.
    pub child: Option<u32>,
}

impl View for RunnerEvent {
    type V = EventModel;

    open spec fn view(&self) -> EventModel {
        match *self {
            RunnerEvent::DependencyReady { index, shutdown } => EventModel::DependencyReady {
                index: index as nat,
                shutdown,
            },
            RunnerEvent::Shutdown => EventModel::Shutdown,
            RunnerEvent::Spawned(pid) => EventModel::Spawned(pid),
            RunnerEvent::SpawnFailed(reason) => EventModel::SpawnFailed(reason@),
            RunnerEvent::Stdout(line) => EventModel::Stdout(line@),
            RunnerEvent::Stderr(line) => EventModel::Stderr(line@),
            RunnerEvent::Exited(code) => EventModel::Exited(code),
            RunnerEvent::WaitFailed(reason) => EventModel::WaitFailed(reason@),
        }
    }
}

impl DeepView for RunnerEvent {
    type V = EventModel;

    open spec fn deep_view(&self) -> EventModel {
        self@
    }
}

impl View for RunnerAction {
    type V = ActionModel;

    open spec fn view(&self) -> ActionModel {
        match *self {
            RunnerAction::Start => ActionModel::Start,
            RunnerAction::Status(state) => ActionModel::Status(state),
            RunnerAction::Spawn => ActionModel::Spawn,
            RunnerAction::Register(pid) => ActionModel::Register(pid),
            RunnerAction::SetReady => ActionModel::SetReady,
            RunnerAction::Line(line) => ActionModel::Line(line@),
            RunnerAction::KillTree(pid) => ActionModel::KillTree(pid),
            RunnerAction::AbortStreams => ActionModel::AbortStreams,
            RunnerAction::Unregister(pid) => ActionModel::Unregister(pid),
            RunnerAction::Succeeded => ActionModel::Succeeded,
            RunnerAction::Failed => ActionModel::Failed,
        }
    }
}

impl DeepView for RunnerAction {
    type V = ActionModel;

    open spec fn deep_view(&self) -> ActionModel {
        self@
    }
}

/// Whether every dependency's readiness was observed.
pub open spec fn all_observed(observed: Seq<bool>) -> bool {
    forall|i: int| 0 <= i < observed.len() ==> #[trigger] observed[i]
}

/// Whether a line of standard output marks the task as ready: a check is
/// configured and the line, trimmed of white space, holds it.
pub open spec fn line_signals_ready(ready_check: Option<Seq<char>>, line: Seq<char>) -> bool {
    match ready_check {
        Some(pattern) => contains(trimmed(line), pattern),
        None => false,
    }
}

/// The line shown when the command could not be spawned.
pub open spec fn spawn_failure_line(reason: Seq<char>) -> Seq<char> {
    "failed to spawn command: "@ + reason
}

/// The line shown when the child exited with a code other than zero, or
/// without one; the missing code shows as -1.
pub open spec fn exit_code_line(code: Option<i32>) -> Seq<char> {
    "process exited with code "@ + signed_decimal(
        match code {
            Some(c) => c as int,
            None => -1,
        },
    )
}

/// The line shown when waiting for the child failed.
pub open spec fn wait_failure_line(reason: Seq<char>) -> Seq<char> {
    "error waiting for process: "@ + reason
}

impl RunnerModel {
    /// Whether the life cycle has ended.
    pub open spec fn finished(self) -> bool {
        self.state == RunnerState::Succeeded || self.state == RunnerState::Failed
    }

    /// The actions that set the readiness signal if it is not set yet.
    pub open spec fn ready_actions(self) -> Seq<ActionModel> {
        if self.ready {
            Seq::empty()
        } else {
            seq![ActionModel::SetReady]
        }
    }

    /// The runner at its end, with its readiness set.
    pub open spec fn ended(self, state: RunnerState) -> RunnerModel {
        RunnerModel { state, ready: true, child: None, ..self }
    }

    /// The runner as it starts, with the actions that announce it. With the
    /// shutdown signal already set it fails at once. Without dependencies it
    /// asks for the spawn at once.
    pub open spec fn start(
        dependencies: nat,
        ready_check: Option<Seq<char>>,
        shutdown: bool,
    ) -> (RunnerModel, Seq<ActionModel>) {
        let fresh = RunnerModel {
            state: RunnerState::Waiting,
            observed: Seq::new(dependencies, |i: int| false),
            ready_check,
            ready: false,
            child: None,
        };
        let announce = if dependencies > 0 {
            seq![ActionModel::Start, ActionModel::Status(RunnerState::Waiting)]
        } else {
            seq![ActionModel::Start]
        };
        if shutdown {
            (
                fresh.ended(RunnerState::Failed),
                announce + seq![ActionModel::SetReady, ActionModel::Failed],
            )
        } else if dependencies > 0 {
            (fresh, announce)
        } else {
            (
                RunnerModel { state: RunnerState::Running, ..fresh },
                announce + seq![ActionModel::Status(RunnerState::Running), ActionModel::Spawn],
            )
        }
    }

    /// The answer to shutdown: a child that runs is killed with all its
    /// descendants, its output is let go, and it leaves the registry; the
    /// readiness is set; the task has failed.
    pub open spec fn on_shutdown(self) -> (RunnerModel, Seq<ActionModel>) {
        let stop = match self.child {
            Some(pid) => seq![
                ActionModel::KillTree(pid),
                ActionModel::AbortStreams,
                ActionModel::Unregister(pid),
            ],
            None => Seq::empty(),
        };
        (self.ended(RunnerState::Failed), stop + self.ready_actions() + seq![ActionModel::Failed])
    }

    /// The answer to an event while the runner waits for its dependencies.
    pub open spec fn step_waiting(self, event: EventModel) -> (RunnerModel, Seq<ActionModel>) {
        match event {
            EventModel::Shutdown => self.on_shutdown(),
            EventModel::DependencyReady { index, shutdown } => {
                if shutdown {
                    self.on_shutdown()
                } else {
                    let observed = if index < self.observed.len() {
                        self.observed.update(index as int, true)
                    } else {
                        self.observed
                    };
                    if all_observed(observed) {
                        (
                            RunnerModel { state: RunnerState::Running, observed, ..self },
                            seq![ActionModel::Status(RunnerState::Running), ActionModel::Spawn],
                        )
                    } else {
                        (RunnerModel { observed, ..self }, Seq::empty())
                    }
                }
            },
            _ => (self, Seq::empty()),
        }
    }

    /// The answer to an event after the spawn was asked for and before it
    /// was answered.
    pub open spec fn step_spawning(self, event: EventModel) -> (RunnerModel, Seq<ActionModel>) {
        match event {
            EventModel::Shutdown => self.on_shutdown(),
            EventModel::Spawned(pid) => {
                if self.ready_check is None {
                    (
                        RunnerModel { child: Some(pid), ready: true, ..self },
                        seq![ActionModel::Register(pid)] + self.ready_actions(),
                    )
                } else {
                    (RunnerModel { child: Some(pid), ..self }, seq![ActionModel::Register(pid)])
                }
            },
            EventModel::SpawnFailed(reason) => (
                self.ended(RunnerState::Failed),
                seq![ActionModel::Line(spawn_failure_line(reason)), ActionModel::Failed]
                    + self.ready_actions(),
            ),
            _ => (self, Seq::empty()),
        }
    }

    /// The answer to an event while the child with identifier `pid` runs.
    pub open spec fn step_child(self, pid: u32, event: EventModel) -> (
        RunnerModel,
        Seq<ActionModel>,
    ) {
        match event {
            EventModel::Shutdown => self.on_shutdown(),
            EventModel::Stdout(line) => {
                if line_signals_ready(self.ready_check, line) {
                    (
                        RunnerModel { ready: true, ..self },
                        self.ready_actions() + seq![ActionModel::Line(line)],
                    )
                } else {
                    (self, seq![ActionModel::Line(line)])
                }
            },
            EventModel::Stderr(line) => (self, seq![ActionModel::Line(line)]),
            EventModel::Exited(code) => {
                if code == Some(0i32) {
                    (
                        self.ended(RunnerState::Succeeded),
                        self.ready_actions() + seq![
                            ActionModel::Unregister(pid),
                            ActionModel::Succeeded,
                        ],
                    )
                } else {
                    (
                        self.ended(RunnerState::Failed),
                        self.ready_actions() + seq![
                            ActionModel::Unregister(pid),
                            ActionModel::Line(exit_code_line(code)),
                            ActionModel::Failed,
                        ],
                    )
                }
            },
            EventModel::WaitFailed(reason) => (
                self.ended(RunnerState::Failed),
                self.ready_actions() + seq![
                    ActionModel::Unregister(pid),
                    ActionModel::Line(wait_failure_line(reason)),
                    ActionModel::Failed,
                ],
            ),
            _ => (self, Seq::empty()),
        }
    }

    /// The runner after an event, and the actions that answer the event. An
    /// event that cannot come in the state at hand changes nothing and is
    /// answered with no action; so is every event after the end.
    pub open spec fn step(self, event: EventModel) -> (RunnerModel, Seq<ActionModel>) {
        match self.state {
            RunnerState::Waiting => self.step_waiting(event),
            RunnerState::Running => match self.child {
                None => self.step_spawning(event),
                Some(pid) => self.step_child(pid, event),
            },
            RunnerState::Succeeded | RunnerState::Failed => (self, Seq::empty()),
        }
    }

    /// What holds of every runner that was started and then only stepped:
    /// it waits only while a dependency is outstanding and its readiness is
    /// unset; it runs only with every dependency observed; it has a child
    /// only while it runs; and at its end its readiness is set.
    pub open spec fn inv(self) -> bool {
        &&& self.state == RunnerState::Waiting ==> !self.ready && !all_observed(self.observed)
        &&& self.state == RunnerState::Running || self.state == RunnerState::Succeeded
            ==> all_observed(self.observed)
        &&& self.child is Some ==> self.state == RunnerState::Running
        &&& self.finished() ==> self.ready
        &&& self.child is None && self.state == RunnerState::Running ==> !self.ready
        &&& self.ready_check is None && self.child is Some ==> self.ready
    }
}

/// A task's runner.
pub struct Runner {
    state: RunnerState,
    observed: Vec<bool>,
    ready_check: Option<Vec<char>>,
    ready: ReadySignal,
    child: Option<u32>,
}

impl View for Runner {
    type V = RunnerModel;

    closed spec fn view(&self) -> RunnerModel {
        RunnerModel {
            state: self.state,
            observed: self.observed@,
            ready_check: match self.ready_check {
                Some(pattern) => Some(pattern@),
                None => None,
            },
            ready: self.ready@,
            child: self.child,
        }
    }
}

impl DeepView for Runner {
    type V = RunnerModel;

    open spec fn deep_view(&self) -> RunnerModel {
        self@
    }
}

impl RunnerState {
    /// The word shown for the state.
    pub open spec fn label_text(self) -> Seq<char> {
        match self {
            RunnerState::Waiting => "waiting"@,
            RunnerState::Running => "running"@,
            RunnerState::Succeeded => "succeeded"@,
            RunnerState::Failed => "failed"@,
        }
    }

    /// The word shown for the state.
    pub fn label(&self) -> (text: String)
        ensures
            text@ == self.label_text(),
    {
        match self {
            RunnerState::Waiting => String::from_str("waiting"),
            RunnerState::Running => String::from_str("running"),
            RunnerState::Succeeded => String::from_str("succeeded"),
            RunnerState::Failed => String::from_str("failed"),
        }
    }
}

/// `prefix` followed by `rest`.
fn prefixed(prefix: &str, rest: &str) -> (line: String)
    ensures
        line@ == prefix@ + rest@,
{
    let mut line = String::from_str(prefix);
    line.append(rest);
    line
}

impl Runner {
    /// Starts the runner of a task with `dependencies` declared dependencies
    /// and the given readiness check. `shutdown` is the value of the shutdown
    /// signal now. Returns the runner and the actions that announce it.
    pub fn new(dependencies: usize, ready_check: Option<String>, shutdown: bool) -> (started: (
        Runner,
        Vec<RunnerAction>,
    ))
        ensures
            (started.0@, started.1.deep_view()) == RunnerModel::start(
                dependencies as nat,
                ready_check.deep_view(),
                shutdown,
            ),
            started.0@.inv(),
    {
        let mut observed: Vec<bool> = Vec::new();
        while observed.len() < dependencies
            invariant
                observed.len() <= dependencies,
                forall|i: int| 0 <= i < observed.len() ==> !observed@[i],
            decreases dependencies - observed.len(),
        {
            observed.push(false);
        }
        let pattern = match ready_check {
            Some(text) => Some(chars_of(text.as_str())),
            None => None,
        };
        let mut runner = Runner {
            state: RunnerState::Waiting,
            observed,
            ready_check: pattern,
            ready: ReadySignal::new(),
            child: None,
        };
        let mut actions: Vec<RunnerAction> = Vec::new();
        actions.push(RunnerAction::Start);
        if dependencies > 0 {
            actions.push(RunnerAction::Status(RunnerState::Waiting));
        }
        proof {
            assert(runner.observed@ =~= Seq::new(dependencies as nat, |i: int| false));
            if dependencies > 0 {
                assert(!runner.observed@[0]);
            }
        }
        if shutdown {
            runner.state = RunnerState::Failed;
            runner.ready.set_true();
            actions.push(RunnerAction::SetReady);
            actions.push(RunnerAction::Failed);
        } else if dependencies == 0 {
            runner.state = RunnerState::Running;
            actions.push(RunnerAction::Status(RunnerState::Running));
            actions.push(RunnerAction::Spawn);
        }
        proof {
            let expected = RunnerModel::start(
                dependencies as nat,
                ready_check.deep_view(),
                shutdown,
            );
            assert(actions.deep_view() =~= expected.1);
        }
        (runner, actions)
    }

    /// The state of the life cycle.
    pub fn state(&self) -> (state: RunnerState)
        ensures
            state == self@.state,
    {
        self.state
    }

    /// Whether the life cycle has ended.
    pub fn is_finished(&self) -> (finished: bool)
        ensures
            finished == self@.finished(),
    {
        match self.state {
            RunnerState::Succeeded | RunnerState::Failed => true,
            _ => false,
        }
    }

    /// Whether the runner has set its own readiness.
    pub fn is_ready(&self) -> (ready: bool)
        ensures
            ready == self@.ready,
    {
        self.ready.is_ready()
    }

    /// The child, from the moment it is spawned until the runner ends.
    pub fn child(&self) -> (child: Option<u32>)
        ensures
            child == self@.child,
    {
        self.child
    }

    /// Whether every dependency's readiness was observed.
    pub fn dependencies_ready(&self) -> (ready: bool)
        ensures
            ready == all_observed(self@.observed),
    {
        let mut i: usize = 0;
        while i < self.observed.len()
            invariant
                i <= self.observed.len(),
                forall|k: int| 0 <= k < i ==> self.observed@[k],
            decreases self.observed.len() - i,
        {
            if !self.observed[i] {
                return false;
            }
            i += 1;
        }
        true
    }

    /// Appends the action that sets the readiness, unless it is set.
    fn set_ready(&mut self, actions: &mut Vec<RunnerAction>)
        ensures
            final(self)@ == (RunnerModel { ready: true, ..old(self)@ }),
            final(actions).deep_view() == old(actions).deep_view() + old(self)@.ready_actions(),
    {
        let ghost before = actions.deep_view();
        if self.ready.set_true() {
            actions.push(RunnerAction::SetReady);
            proof {
                assert(actions.deep_view() =~= before + seq![ActionModel::SetReady]);
            }
        } else {
            proof {
                assert(actions.deep_view() =~= before + Seq::<ActionModel>::empty());
            }
        }
    }

    /// Ends the life cycle in `state`.
    fn end(&mut self, state: RunnerState)
        requires
            old(self)@.ready,
        ensures
            final(self)@ == old(self)@.ended(state),
    {
        self.state = state;
        self.child = None;
    }

    /// Answers shutdown.
    fn shutdown(&mut self) -> (actions: Vec<RunnerAction>)
        ensures
            (final(self)@, actions.deep_view()) == old(self)@.on_shutdown(),
    {
        let mut actions: Vec<RunnerAction> = Vec::new();
        match self.child {
            Some(pid) => {
                actions.push(RunnerAction::KillTree(pid));
                actions.push(RunnerAction::AbortStreams);
                actions.push(RunnerAction::Unregister(pid));
            },
            None => {},
        }
        let ghost stop = actions.deep_view();
        self.set_ready(&mut actions);
        let ghost mid = actions.deep_view();
        actions.push(RunnerAction::Failed);
        self.end(RunnerState::Failed);
        proof {
            assert(actions.deep_view() =~= mid + seq![ActionModel::Failed]);
            assert(stop =~= match old(self)@.child {
                Some(pid) => seq![
                    ActionModel::KillTree(pid),
                    ActionModel::AbortStreams,
                    ActionModel::Unregister(pid),
                ],
                None => Seq::empty(),
            });
        }
        actions
    }

    /// Answers an event while the runner waits for its dependencies.
    fn on_waiting(&mut self, event: RunnerEvent) -> (actions: Vec<RunnerAction>)
        requires
            old(self)@.state == RunnerState::Waiting,
        ensures
            (final(self)@, actions.deep_view()) == old(self)@.step_waiting(event@),
    {
        match event {
            RunnerEvent::Shutdown => self.shutdown(),
            RunnerEvent::DependencyReady { index, shutdown } => {
                if shutdown {
                    self.shutdown()
                } else {
                    if index < self.observed.len() {
                        self.observed.set(index, true);
                    }
                    let mut actions: Vec<RunnerAction> = Vec::new();
                    if self.dependencies_ready() {
                        self.state = RunnerState::Running;
                        actions.push(RunnerAction::Status(RunnerState::Running));
                        actions.push(RunnerAction::Spawn);
                        proof {
                            assert(actions.deep_view() =~= seq![
                                ActionModel::Status(RunnerState::Running),
                                ActionModel::Spawn,
                            ]);
                        }
                    } else {
                        proof {
                            assert(actions.deep_view() =~= Seq::<ActionModel>::empty());
                        }
                    }
                    actions
                }
            },
            _ => {
                let actions: Vec<RunnerAction> = Vec::new();
                proof {
                    assert(actions.deep_view() =~= Seq::<ActionModel>::empty());
                }
                actions
            },
        }
    }

    /// Answers an event between the request to spawn and its answer.
    fn on_spawning(&mut self, event: RunnerEvent) -> (actions: Vec<RunnerAction>)
        requires
            old(self)@.state == RunnerState::Running,
            old(self)@.child is None,
        ensures
            (final(self)@, actions.deep_view()) == old(self)@.step_spawning(event@),
    {
        match event {
            RunnerEvent::Shutdown => self.shutdown(),
            RunnerEvent::Spawned(pid) => {
                let mut actions: Vec<RunnerAction> = Vec::new();
                actions.push(RunnerAction::Register(pid));
                self.child = Some(pid);
                proof {
                    assert(actions.deep_view() =~= seq![ActionModel::Register(pid)]);
                }
                if self.ready_check.is_none() {
                    self.set_ready(&mut actions);
                }
                actions
            },
            RunnerEvent::SpawnFailed(reason) => {
                let mut actions: Vec<RunnerAction> = Vec::new();
                let line = prefixed("failed to spawn command: ", reason.as_str());
                actions.push(RunnerAction::Line(line));
                actions.push(RunnerAction::Failed);
                proof {
                    assert(actions.deep_view() =~= seq![
                        ActionModel::Line(spawn_failure_line(reason@)),
                        ActionModel::Failed,
                    ]);
                }
                self.set_ready(&mut actions);
                self.end(RunnerState::Failed);
                actions
            },
            _ => {
                let actions: Vec<RunnerAction> = Vec::new();
                proof {
                    assert(actions.deep_view() =~= Seq::<ActionModel>::empty());
                }
                actions
            },
        }
    }

    /// Whether a line of standard output marks the task as ready.
    fn signals_ready(&self, line: &String) -> (ready: bool)
        ensures
            ready == line_signals_ready(self@.ready_check, line@),
    {
        match &self.ready_check {
            Some(pattern) => {
                let text = trim(line.as_str());
                let chars = chars_of(text.as_str());
                contains_chars(&chars, pattern)
            },
            None => false,
        }
    }

    /// Answers an event while the child runs.
    fn on_child(&mut self, pid: u32, event: RunnerEvent) -> (actions: Vec<RunnerAction>)
        requires
            old(self)@.state == RunnerState::Running,
            old(self)@.child == Some(pid),
        ensures
            (final(self)@, actions.deep_view()) == old(self)@.step_child(pid, event@),
    {
        let mut actions: Vec<RunnerAction> = Vec::new();
        proof {
            assert(actions.deep_view() =~= Seq::<ActionModel>::empty());
        }
        match event {
            RunnerEvent::Shutdown => self.shutdown(),
            RunnerEvent::Stdout(line) => {
                if self.signals_ready(&line) {
                    self.set_ready(&mut actions);
                }
                let ghost before = actions.deep_view();
                let ghost text = line@;
                actions.push(RunnerAction::Line(line));
                proof {
                    assert(actions.deep_view() =~= before + seq![ActionModel::Line(text)]);
                }
                actions
            },
            RunnerEvent::Stderr(line) => {
                let ghost text = line@;
                actions.push(RunnerAction::Line(line));
                proof {
                    assert(actions.deep_view() =~= seq![ActionModel::Line(text)]);
                }
                actions
            },
            RunnerEvent::Exited(code) => {
                self.set_ready(&mut actions);
                let ghost before = actions.deep_view();
                actions.push(RunnerAction::Unregister(pid));
                let succeeded = match code {
                    Some(c) => c == 0,
                    None => false,
                };
                if succeeded {
                    actions.push(RunnerAction::Succeeded);
                    self.end(RunnerState::Succeeded);
                    proof {
                        assert(actions.deep_view() =~= before + seq![
                            ActionModel::Unregister(pid),
                            ActionModel::Succeeded,
                        ]);
                    }
                } else {
                    let shown: i32 = match code {
                        Some(c) => c,
                        None => -1,
                    };
                    let number = signed_decimal_text(shown);
                    let line = prefixed("process exited with code ", number.as_str());
                    actions.push(RunnerAction::Line(line));
                    actions.push(RunnerAction::Failed);
                    self.end(RunnerState::Failed);
                    proof {
                        assert(actions.deep_view() =~= before + seq![
                            ActionModel::Unregister(pid),
                            ActionModel::Line(exit_code_line(code)),
                            ActionModel::Failed,
                        ]);
                    }
                }
                actions
            },
            RunnerEvent::WaitFailed(reason) => {
                self.set_ready(&mut actions);
                let ghost before = actions.deep_view();
                actions.push(RunnerAction::Unregister(pid));
                let line = prefixed("error waiting for process: ", reason.as_str());
                actions.push(RunnerAction::Line(line));
                actions.push(RunnerAction::Failed);
                self.end(RunnerState::Failed);
                proof {
                    assert(actions.deep_view() =~= before + seq![
                        ActionModel::Unregister(pid),
                        ActionModel::Line(wait_failure_line(reason@)),
                        ActionModel::Failed,
                    ]);
                }
                actions
            },
            _ => actions,
        }
    }

    /// Takes an event and returns the actions that answer it, in the order
    /// in which they are to be performed.
    pub fn step(&mut self, event: RunnerEvent) -> (actions: Vec<RunnerAction>)
        ensures
            (final(self)@, actions.deep_view()) == old(self)@.step(event@),
            old(self)@.inv() ==> final(self)@.inv(),
    {
        proof {
            if self@.inv() {
                lemma_step_keeps_inv(self@, event@);
            }
        }
        match self.state {
            RunnerState::Waiting => self.on_waiting(event),
            RunnerState::Running => match self.child {
                None => self.on_spawning(event),
                Some(pid) => self.on_child(pid, event),
            },
            _ => {
                let actions: Vec<RunnerAction> = Vec::new();
                proof {
                    assert(actions.deep_view() =~= Seq::<ActionModel>::empty());
                }
                actions
            },
        }
    }
}

/// Every step keeps what holds of a started runner.
pub proof fn lemma_step_keeps_inv(runner: RunnerModel, event: EventModel)
    requires
        runner.inv(),
    ensures
        runner.step(event).0.inv(),
{
    let next = runner.step(event).0;
    if runner.state == RunnerState::Waiting {
        if let EventModel::DependencyReady { index, shutdown } = event {
            if !shutdown {
                assert(next.observed.len() == runner.observed.len());
            }
        }
    }
}

/// How often `action` stands in `actions`.
pub open spec fn times(actions: Seq<ActionModel>, action: ActionModel) -> nat
    decreases actions.len(),
{
    if actions.len() == 0 {
        0
    } else {
        times(actions.drop_last(), action) + if actions.last() == action {
            1nat
        } else {
            0nat
        }
    }
}

/// How often a pane is marked as ended in `actions`, either way.
pub open spec fn end_marks(actions: Seq<ActionModel>) -> nat {
    times(actions, ActionModel::Succeeded) + times(actions, ActionModel::Failed)
}

impl RunnerModel {
    /// The runner after a sequence of events, and all the actions that
    /// answer them, in order.
    pub open spec fn run(self, events: Seq<EventModel>) -> (RunnerModel, Seq<ActionModel>)
        decreases events.len(),
    {
        if events.len() == 0 {
            (self, Seq::empty())
        } else {
            let (before, answers) = self.run(events.drop_last());
            let (after, last) = before.step(events.last());
            (after, answers + last)
        }
    }

    /// A task's whole life: the runner as it starts, taken through a
    /// sequence of events, with the announcing actions and all answers.
    pub open spec fn life(
        dependencies: nat,
        ready_check: Option<Seq<char>>,
        shutdown: bool,
        events: Seq<EventModel>,
    ) -> (RunnerModel, Seq<ActionModel>) {
        let (fresh, announce) = RunnerModel::start(dependencies, ready_check, shutdown);
        let (end, answers) = fresh.run(events);
        (end, announce + answers)
    }
}

/// Takes a task through a recorded sequence of events: starts its runner,
/// hands it the events in order, and returns the runner as it then stands
/// with every action it asked for, in order.
pub fn run_task(
    dependencies: usize,
    ready_check: Option<String>,
    shutdown: bool,
    events: Vec<RunnerEvent>,
) -> (outcome: (Runner, Vec<RunnerAction>))
    ensures
        (outcome.0@, outcome.1.deep_view()) == RunnerModel::life(
            dependencies as nat,
            ready_check.deep_view(),
            shutdown,
            events.deep_view(),
        ),
        outcome.0@.inv(),
{
    let ghost trace = events.deep_view();
    let (mut runner, mut actions) = Runner::new(dependencies, ready_check, shutdown);
    let ghost fresh = runner@;
    let ghost announce = actions.deep_view();
    proof {
        assert(actions.deep_view() =~= announce + Seq::<ActionModel>::empty());
        assert(trace.take(0) =~= Seq::<EventModel>::empty());
    }
    for event in it: events
        invariant
            it.seq() == events@,
            trace == events.deep_view(),
            runner@.inv(),
            runner@ == fresh.run(trace.take(it.index() as int)).0,
            actions.deep_view() == announce + fresh.run(trace.take(it.index() as int)).1,
    {
        let ghost done = trace.take(it.index() as int);
        let ghost before = actions.deep_view();
        proof {
            let next = trace.take(it.index() + 1);
            assert(next.drop_last() =~= done);
            assert(next.last() == event@);
        }
        let mut answers = runner.step(event);
        let ghost last = answers.deep_view();
        actions.append(&mut answers);
        proof {
            assert(actions.deep_view() =~= before + last);
            assert(before + last =~= announce + (fresh.run(done).1 + last));
        }
    }
    proof {
        assert(trace.take(trace.len() as int) =~= trace);
    }
    (runner, actions)
}

/// Counting over a concatenation adds up.
pub proof fn lemma_times_concat(a: Seq<ActionModel>, b: Seq<ActionModel>, action: ActionModel)
    ensures
        times(a + b, action) == times(a, action) + times(b, action),
    decreases b.len(),
{
    if b.len() == 0 {
        assert(a + b =~= a);
    } else {
        assert((a + b).drop_last() =~= a + b.drop_last());
        lemma_times_concat(a, b.drop_last(), action);
    }
}

/// Whether `action` stands in `actions` at index `at`, as a number.
spec fn hit(actions: Seq<ActionModel>, at: int, action: ActionModel) -> nat {
    if at < actions.len() && actions[at] == action {
        1
    } else {
        0
    }
}

/// Counting over a sequence of at most three actions.
proof fn lemma_times_short(actions: Seq<ActionModel>, action: ActionModel)
    requires
        actions.len() <= 3,
    ensures
        times(actions, action) == hit(actions, 0, action) + hit(actions, 1, action) + hit(
            actions,
            2,
            action,
        ),
    decreases actions.len(),
{
    if actions.len() > 0 {
        lemma_times_short(actions.drop_last(), action);
    }
}

/// After its end a runner takes no notice of events.
pub proof fn lemma_end_is_final(runner: RunnerModel, event: EventModel)
    requires
        runner.finished(),
    ensures
        runner.step(event) == (runner, Seq::<ActionModel>::empty()),
{
}

/// From any state before the end, shutdown takes a runner to the end as
/// failed, with its readiness set; a child that runs is first killed with
/// its descendants, its output let go, and taken out of the registry. To a
/// runner that waits, news of a dependency that comes with the shutdown
/// signal set is a shutdown.
pub proof fn lemma_shutdown_fails(runner: RunnerModel)
    requires
        !runner.finished(),
    ensures
        runner.step(EventModel::Shutdown).0.state == RunnerState::Failed,
        runner.step(EventModel::Shutdown).0.ready,
        runner.step(EventModel::Shutdown).0.child is None,
        runner.child matches Some(pid) ==> {
            let actions = runner.step(EventModel::Shutdown).1;
            &&& actions[0] == ActionModel::KillTree(pid)
            &&& actions[1] == ActionModel::AbortStreams
            &&& actions[2] == ActionModel::Unregister(pid)
        },
        forall|index: nat|
            runner.state == RunnerState::Waiting ==> #[trigger] runner.step(
                EventModel::DependencyReady { index, shutdown: true },
            ) == runner.step(EventModel::Shutdown),
{
}

/// One step sets the readiness at most once, and exactly when the runner's
/// own record of it changes; it marks the pane as ended once, and exactly
/// when the life cycle ends; and it never opens the pane again.
pub proof fn lemma_step_marks(runner: RunnerModel, event: EventModel)
    requires
        runner.inv(),
    ensures
        ({
            let (next, actions) = runner.step(event);
            &&& runner.ready ==> next.ready
            &&& times(actions, ActionModel::SetReady) == if !runner.ready && next.ready {
                1nat
            } else {
                0nat
            }
            &&& end_marks(actions) == if !runner.finished() && next.finished() {
                1nat
            } else {
                0nat
            }
            &&& times(actions, ActionModel::Start) == 0
        }),
{
    assert forall|a: Seq<ActionModel>, b: Seq<ActionModel>, action: ActionModel|
        #[trigger] times(a + b, action) == times(a, action) + times(b, action) by {
        lemma_times_concat(a, b, action);
    }
    assert forall|a: Seq<ActionModel>, action: ActionModel| a.len() <= 3 implies #[trigger] times(
        a,
        action,
    ) == hit(a, 0, action) + hit(a, 1, action) + hit(a, 2, action) by {
        lemma_times_short(a, action);
    }
}

/// Over a whole life, however it goes: what holds of a started runner holds
/// at every point; the readiness has been set exactly once if the runner
/// records it as set, and not at all otherwise; the pane has been marked as
/// ended exactly once if the life cycle has ended, and not at all
/// otherwise; and the pane has been opened exactly once, first of all.
pub proof fn lemma_life_marks(
    dependencies: nat,
    ready_check: Option<Seq<char>>,
    shutdown: bool,
    events: Seq<EventModel>,
)
    ensures
        ({
            let (end, actions) = RunnerModel::life(dependencies, ready_check, shutdown, events);
            &&& end.inv()
            &&& end.finished() ==> end.ready
            &&& times(actions, ActionModel::SetReady) == if end.ready {
                1nat
            } else {
                0nat
            }
            &&& end_marks(actions) == if end.finished() {
                1nat
            } else {
                0nat
            }
            &&& times(actions, ActionModel::Start) == 1
            &&& actions[0] == ActionModel::Start
        }),
    decreases events.len(),
{
    let (fresh, announce) = RunnerModel::start(dependencies, ready_check, shutdown);
    assert forall|a: Seq<ActionModel>, b: Seq<ActionModel>, action: ActionModel|
        #[trigger] times(a + b, action) == times(a, action) + times(b, action) by {
        lemma_times_concat(a, b, action);
    }
    assert forall|a: Seq<ActionModel>, action: ActionModel| a.len() <= 3 implies #[trigger] times(
        a,
        action,
    ) == hit(a, 0, action) + hit(a, 1, action) + hit(a, 2, action) by {
        lemma_times_short(a, action);
    }
    if events.len() == 0 {
        let empty = Seq::<ActionModel>::empty();
        assert(times(empty, ActionModel::SetReady) == 0);
        assert(times(empty, ActionModel::Succeeded) == 0);
        assert(times(empty, ActionModel::Failed) == 0);
        assert(times(empty, ActionModel::Start) == 0);
        if dependencies > 0 {
            assert(!fresh.observed[0]);
        }
    } else {
        lemma_life_marks(dependencies, ready_check, shutdown, events.drop_last());
        let (before, answers) = fresh.run(events.drop_last());
        let (after, last) = before.step(events.last());
        lemma_step_keeps_inv(before, events.last());
        lemma_step_marks(before, events.last());
        assert(announce + (answers + last) =~= (announce + answers) + last);
    }
}

/// A runner runs only after each of its dependencies was reported ready
/// while shutdown was not requested: if at the end of a sequence of events
/// the task runs or has succeeded, then the shutdown signal was unset at
/// the start and, for every dependency, the sequence holds the event that
/// reports it ready.
pub proof fn lemma_runs_after_dependencies(
    dependencies: nat,
    ready_check: Option<Seq<char>>,
    shutdown: bool,
    events: Seq<EventModel>,
    dependency: nat,
)
    requires
        dependency < dependencies,
        ({
            let end = RunnerModel::life(dependencies, ready_check, shutdown, events).0;
            end.state == RunnerState::Running || end.state == RunnerState::Succeeded
        }),
    ensures
        !shutdown,
        exists|i: int|
            0 <= i < events.len() && #[trigger] events[i] == (EventModel::DependencyReady {
                index: dependency,
                shutdown: false,
            }),
{
    let fresh = RunnerModel::start(dependencies, ready_check, shutdown).0;
    lemma_life_marks(dependencies, ready_check, shutdown, events);
    let end = fresh.run(events).0;
    assert(end.observed.len() == dependencies && end.observed[dependency as int]) by {
        lemma_observed_was_reported(fresh, events, dependency);
    }
    lemma_observed_was_reported(fresh, events, dependency);
    if shutdown {
        lemma_ended_stays(fresh, events);
    }
}

/// A runner that has ended stays as it is, whatever comes.
pub proof fn lemma_ended_stays(runner: RunnerModel, events: Seq<EventModel>)
    requires
        runner.finished(),
    ensures
        runner.run(events) == (runner, Seq::<ActionModel>::empty()),
    decreases events.len(),
{
    if events.len() > 0 {
        lemma_ended_stays(runner, events.drop_last());
        assert(Seq::<ActionModel>::empty() + Seq::<ActionModel>::empty() =~= Seq::<
            ActionModel,
        >::empty());
    }
}

/// The record of observed dependencies keeps its length, and an entry that
/// was unset and is set after a sequence of events was reported in it.
pub proof fn lemma_observed_was_reported(
    runner: RunnerModel,
    events: Seq<EventModel>,
    dependency: nat,
)
    ensures
        runner.run(events).0.observed.len() == runner.observed.len(),
        dependency < runner.observed.len() && !runner.observed[dependency as int]
            && runner.run(events).0.observed[dependency as int] ==> exists|i: int|
            0 <= i < events.len() && #[trigger] events[i] == (EventModel::DependencyReady {
                index: dependency,
                shutdown: false,
            }),
    decreases events.len(),
{
    if events.len() > 0 {
        let front = events.drop_last();
        lemma_observed_was_reported(runner, front, dependency);
        let before = runner.run(front).0;
        let after = before.step(events.last()).0;
        if dependency < runner.observed.len() && !runner.observed[dependency as int]
            && after.observed[dependency as int] {
            if before.observed[dependency as int] {
                let i = choose|i: int|
                    0 <= i < front.len() && #[trigger] front[i] == (EventModel::DependencyReady {
                        index: dependency,
                        shutdown: false,
                    });
                assert(events[i] == front[i]);
            } else {
                assert(events[events.len() - 1] == events.last());
            }
        }
    }
}

/// What a runner makes of the news that a dependency is ready, with
/// shutdown not requested: while it waits, it records the dependency as
/// observed and goes on to run once all are; otherwise it takes no notice.
/// Its readiness, its child and its ending stay as they are.
pub proof fn lemma_step_notice(runner: RunnerModel, index: nat)
    requires
        runner.inv(),
    ensures
        ({
            let next = runner.step(EventModel::DependencyReady { index, shutdown: false }).0;
            let waits = runner.state == RunnerState::Waiting;
            &&& next.inv()
            &&& next.ready == runner.ready
            &&& next.child == runner.child
            &&& next.ready_check == runner.ready_check
            &&& next.finished() == runner.finished()
            &&& (next.state == RunnerState::Failed) == (runner.state == RunnerState::Failed)
            &&& next.observed == if waits && index < runner.observed.len() {
                runner.observed.update(index as int, true)
            } else {
                runner.observed
            }
            &&& next.state == if waits && all_observed(next.observed) {
                RunnerState::Running
            } else {
                runner.state
            }
        }),
{
    lemma_step_keeps_inv(runner, EventModel::DependencyReady { index, shutdown: false });
}

/// What a runner makes of an event that is no news of a dependency: its
/// record of observed dependencies stays as it is, a readiness that is set
/// stays set, and while it waits nothing but shutdown moves it.
pub proof fn lemma_step_other(runner: RunnerModel, event: EventModel)
    requires
        runner.inv(),
        !(event is DependencyReady),
    ensures
        ({
            let next = runner.step(event).0;
            &&& next.inv()
            &&& next.observed == runner.observed
            &&& next.ready_check == runner.ready_check
            &&& runner.ready ==> next.ready
            &&& runner.state == RunnerState::Waiting && !(event is Shutdown) ==> next == runner
            &&& next.state == RunnerState::Waiting ==> runner.state == RunnerState::Waiting
            &&& event is Shutdown ==> next.finished() && next.ready
            &&& runner.finished() ==> next == runner
        }),
{
    lemma_step_keeps_inv(runner, event);
}

} // verus!
