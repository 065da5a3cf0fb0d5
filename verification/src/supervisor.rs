//! The supervisor: all runners of a manifest, the readiness signals between
//! them, and the shutdown signal.
//!
//! The supervisor holds one runner and one readiness signal for each task.
//! The caller hands it what happened to a task's child and performs the
//! commands it is answered with. When a task sets its readiness, the
//! supervisor tells the runners that wait for it, so a task is asked to be
//! spawned only once every task it depends on has set its readiness.

use crate::config::{
    all_known, dependency_graph, dependency_indices, is_first_unknown, OrderError, TaskEntry,
    TaskModel,
};
use crate::order::{graph_of, well_formed};
use crate::readiness::ReadySignal;
use crate::runner::{
    all_observed, lemma_life_marks, lemma_step_marks, lemma_step_notice, lemma_step_other, times,
    ActionModel, EventModel, Runner, RunnerAction, RunnerEvent, RunnerModel, RunnerState,
};
use vstd::prelude::*;
use vstd::string::*;

verus! {

/// An action that the caller is to perform for a task.
#[derive(Clone, Debug, PartialEq, Eq)]
pub struct Command {
    /// The number of the task.
    pub task: usize,
    /// What is to be done.
    pub action: RunnerAction,
}

/// A command, as the contracts see it.
pub struct CommandModel {
    pub task: int,
    pub action: ActionModel,
}

impl View for Command {
    type V = CommandModel;

    open spec fn view(&self) -> CommandModel {
        CommandModel { task: self.task as int, action: self.action@ }
    }
}

impl DeepView for Command {
    type V = CommandModel;

    open spec fn deep_view(&self) -> CommandModel {
        self@
    }
}

/// A supervisor, as the contracts see it.
pub struct SupervisorModel {
    /// For each task the numbers of the tasks it depends on.
    pub graph: Seq<Seq<int>>,
    /// For each task its runner.
    pub runners: Seq<RunnerModel>,
    /// For each task whether its readiness signal is set.
    pub signals: Seq<bool>,
    /// Whether shutdown was requested.
    pub shutdown: bool,
}

/// The commands that hand a task's actions to the caller.
pub open spec fn commands_of(task: int, actions: Seq<ActionModel>) -> Seq<CommandModel> {
    actions.map_values(|action: ActionModel| CommandModel { task, action })
}

/// A runner after it was told that task `ready` is ready, for each of its
/// first `upto` dependencies that is that task, and what it answered.
pub open spec fn told(runner: RunnerModel, slots: Seq<int>, ready: int, upto: int) -> (
    RunnerModel,
    Seq<ActionModel>,
)
    decreases upto,
{
    if upto <= 0 {
        (runner, Seq::empty())
    } else {
        let (before, answers) = told(runner, slots, ready, upto - 1);
        if slots[upto - 1] == ready {
            let (after, more) = before.step(
                EventModel::DependencyReady { index: (upto - 1) as nat, shutdown: false },
            );
            (after, answers + more)
        } else {
            (before, answers)
        }
    }
}

/// The runners after the first `upto` of them were told that task `ready`
/// is ready, and the commands that this gave.
pub open spec fn spread(
    runners: Seq<RunnerModel>,
    graph: Seq<Seq<int>>,
    ready: int,
    upto: int,
) -> (Seq<RunnerModel>, Seq<CommandModel>)
    decreases upto,
{
    if upto <= 0 {
        (runners, Seq::empty())
    } else {
        let (before, commands) = spread(runners, graph, ready, upto - 1);
        let task = upto - 1;
        let (after, answers) = told(before[task], graph[task], ready, graph[task].len() as int);
        (before.update(task, after), commands + commands_of(task, answers))
    }
}

impl SupervisorModel {
    /// Whether there is one runner and one signal for each task.
    pub open spec fn complete(self) -> bool {
        self.runners.len() == self.graph.len() && self.signals.len() == self.graph.len()
    }

    /// The supervisor after the first `upto` of a task's actions were dealt
    /// with, and the commands that this gave: each action is handed on to
    /// the caller, and where the task sets its readiness, its signal is set
    /// and the runners that depend on it are told.
    pub open spec fn performed(self, task: int, actions: Seq<ActionModel>, upto: int) -> (
        SupervisorModel,
        Seq<CommandModel>,
    )
        decreases upto,
    {
        if upto <= 0 {
            (self, Seq::empty())
        } else {
            let (before, commands) = self.performed(task, actions, upto - 1);
            let action = actions[upto - 1];
            let own = commands.push(CommandModel { task, action });
            if action == ActionModel::SetReady {
                let (runners, more) = spread(
                    before.runners,
                    before.graph,
                    task,
                    before.runners.len() as int,
                );
                (
                    SupervisorModel {
                        runners,
                        signals: before.signals.update(task, true),
                        ..before
                    },
                    own + more,
                )
            } else {
                (before, own)
            }
        }
    }

    /// The supervisor after an event of a task's child, and the commands
    /// that answer it. Events for a task that is not there, and events that
    /// only the supervisor itself hands to a runner, change nothing.
    pub open spec fn handle(self, task: int, event: EventModel) -> (
        SupervisorModel,
        Seq<CommandModel>,
    ) {
        if self.complete() && 0 <= task < self.runners.len() && !(event is DependencyReady) && !(
        event is Shutdown) {
            let (runner, actions) = self.runners[task].step(event);
            let stepped = SupervisorModel { runners: self.runners.update(task, runner), ..self };
            stepped.performed(task, actions, actions.len() as int)
        } else {
            (self, Seq::empty())
        }
    }

    /// The supervisor after the first `upto` runners took shutdown, and the
    /// commands that this gave.
    pub open spec fn stopped(self, upto: int) -> (SupervisorModel, Seq<CommandModel>)
        decreases upto,
    {
        if upto <= 0 {
            (SupervisorModel { shutdown: true, ..self }, Seq::empty())
        } else {
            let (before, commands) = self.stopped(upto - 1);
            let task = upto - 1;
            let (runner, actions) = before.runners[task].step(EventModel::Shutdown);
            (
                SupervisorModel {
                    runners: before.runners.update(task, runner),
                    signals: before.signals.update(task, before.signals[task] || runner.ready),
                    ..before
                },
                commands + commands_of(task, actions),
            )
        }
    }

    /// The supervisor after shutdown was requested, and the commands that
    /// end every task.
    pub open spec fn shut_down(self) -> (SupervisorModel, Seq<CommandModel>) {
        if self.complete() {
            self.stopped(self.runners.len() as int)
        } else {
            (self, Seq::empty())
        }
    }

    /// Whether every task has ended.
    pub open spec fn all_finished(self) -> bool {
        forall|task: int| 0 <= task < self.runners.len() ==> (#[trigger] self.runners[task]).finished()
    }
}

/// The runners as they start for the first `upto` tasks, and the commands
/// that announce them.
pub open spec fn started(graph: Seq<Seq<int>>, checks: Seq<Option<Seq<char>>>, upto: int) -> (
    Seq<RunnerModel>,
    Seq<CommandModel>,
)
    decreases upto,
{
    if upto <= 0 {
        (Seq::empty(), Seq::empty())
    } else {
        let (before, commands) = started(graph, checks, upto - 1);
        let task = upto - 1;
        let (runner, actions) = RunnerModel::start(graph[task].len(), checks[task], false);
        (before.push(runner), commands + commands_of(task, actions))
    }
}

/// The readiness checks of the tasks.
pub open spec fn ready_checks(tasks: Seq<TaskModel>) -> Seq<Option<Seq<char>>> {
    tasks.map_values(|task: TaskModel| task.ready_check)
}

impl SupervisorModel {
    /// The supervisor as it starts, and the commands that announce every
    /// task and ask for the tasks without dependencies to be spawned.
    pub open spec fn start(graph: Seq<Seq<int>>, checks: Seq<Option<Seq<char>>>) -> (
        SupervisorModel,
        Seq<CommandModel>,
    ) {
        let (runners, commands) = started(graph, checks, graph.len() as int);
        (
            SupervisorModel {
                graph,
                runners,
                signals: Seq::new(graph.len(), |task: int| false),
                shutdown: false,
            },
            commands,
        )
    }
}

/// The supervisor made of the given parts.
pub open spec fn model_of(
    deps: Vec<Vec<usize>>,
    runners: Vec<Runner>,
    signals: Vec<ReadySignal>,
    shutdown: bool,
) -> SupervisorModel {
    SupervisorModel {
        graph: graph_of(deps.deep_view()),
        runners: runners.deep_view(),
        signals: signals.deep_view(),
        shutdown,
    }
}

/// The supervisor of a run.
pub struct Supervisor {
    deps: Vec<Vec<usize>>,
    runners: Vec<Runner>,
    signals: Vec<ReadySignal>,
    shutdown: ReadySignal,
}

impl View for Supervisor {
    type V = SupervisorModel;

    closed spec fn view(&self) -> SupervisorModel {
        model_of(self.deps, self.runners, self.signals, self.shutdown@)
    }
}

/// Hands a task's actions to the caller.
fn push_commands(commands: &mut Vec<Command>, task: usize, actions: Vec<RunnerAction>)
    ensures
        final(commands).deep_view() == old(commands).deep_view() + commands_of(
            task as int,
            actions.deep_view(),
        ),
{
    let ghost before = commands.deep_view();
    let ghost all = actions.deep_view();
    proof {
        assert(before + commands_of(task as int, all.take(0)) =~= before);
    }
    for action in it: actions
        invariant
            it.seq() == actions@,
            all == actions.deep_view(),
            commands.deep_view() == before + commands_of(task as int, all.take(it.index() as int)),
    {
        let ghost so_far = commands.deep_view();
        let ghost model = action@;
        commands.push(Command { task, action });
        proof {
            assert(commands.deep_view() =~= so_far.push(
                CommandModel { task: task as int, action: model },
            ));
            assert(commands_of(task as int, all.take(it.index() + 1)) =~= commands_of(
                task as int,
                all.take(it.index() as int),
            ).push(CommandModel { task: task as int, action: model }));
        }
    }
    proof {
        assert(all.take(all.len() as int) =~= all);
    }
}

/// Tells one runner that task `ready` is ready.
fn tell(runner: &mut Runner, slots: &Vec<usize>, ready: usize) -> (answers: Vec<RunnerAction>)
    ensures
        (final(runner)@, answers.deep_view()) == told(
            old(runner)@,
            crate::order::ints(slots@),
            ready as int,
            slots.len() as int,
        ),
{
    let ghost first = runner@;
    let ghost numbers = crate::order::ints(slots@);
    let mut answers: Vec<RunnerAction> = Vec::new();
    let mut k: usize = 0;
    proof {
        assert(answers.deep_view() =~= Seq::<ActionModel>::empty());
    }
    while k < slots.len()
        invariant
            k <= slots.len(),
            numbers == crate::order::ints(slots@),
            (runner@, answers.deep_view()) == told(first, numbers, ready as int, k as int),
        decreases slots.len() - k,
    {
        proof {
            assert(numbers[k as int] == slots@[k as int]);
        }
        if slots[k] == ready {
            let ghost before = answers.deep_view();
            let mut more = runner.step(RunnerEvent::DependencyReady { index: k, shutdown: false });
            let ghost added = more.deep_view();
            answers.append(&mut more);
            proof {
                assert(answers.deep_view() =~= before + added);
            }
        }
        k += 1;
    }
    answers
}

/// Tells every runner that task `ready` is ready.
fn tell_all(
    runners: &mut Vec<Runner>,
    deps: &Vec<Vec<usize>>,
    ready: usize,
    commands: &mut Vec<Command>,
)
    requires
        old(runners).len() == deps.len(),
    ensures
        final(runners).len() == old(runners).len(),
        final(runners).deep_view() == spread(
            old(runners).deep_view(),
            graph_of(deps.deep_view()),
            ready as int,
            deps.len() as int,
        ).0,
        final(commands).deep_view() == old(commands).deep_view() + spread(
            old(runners).deep_view(),
            graph_of(deps.deep_view()),
            ready as int,
            deps.len() as int,
        ).1,
{
    let ghost first = runners.deep_view();
    let ghost graph = graph_of(deps.deep_view());
    let ghost before_all = commands.deep_view();
    let n = deps.len();
    let mut task: usize = 0;
    proof {
        assert(before_all + Seq::<CommandModel>::empty() =~= before_all);
    }
    while task < n
        invariant
            task <= n,
            n == deps.len(),
            runners.len() == n,
            graph == graph_of(deps.deep_view()),
            runners.deep_view() == spread(first, graph, ready as int, task as int).0,
            commands.deep_view() == before_all + spread(first, graph, ready as int, task as int).1,
        decreases n - task,
    {
        let ghost so_far = runners.deep_view();
        let ghost given = spread(first, graph, ready as int, task as int).1;
        proof {
            assert(graph[task as int] =~= crate::order::ints(deps@[task as int]@));
            assert(so_far[task as int] == runners@[task as int]@);
        }
        let answers = tell(&mut runners[task], &deps[task], ready);
        let ghost told_answers = answers.deep_view();
        proof {
            assert(runners.deep_view() =~= so_far.update(task as int, runners@[task as int]@));
        }
        push_commands(commands, task, answers);
        proof {
            assert(before_all + given + commands_of(task as int, told_answers) =~= before_all + (
            given + commands_of(task as int, told_answers)));
        }
        task += 1;
    }
}

/// Deals with a task's actions: hands each to the caller and, where the
/// task sets its readiness, sets its signal and tells the other runners.
fn perform(
    runners: &mut Vec<Runner>,
    deps: &Vec<Vec<usize>>,
    signals: &mut Vec<ReadySignal>,
    shutdown: Ghost<bool>,
    task: usize,
    actions: Vec<RunnerAction>,
    commands: &mut Vec<Command>,
)
    requires
        old(runners).len() == deps.len(),
        old(signals).len() == deps.len(),
        task < deps.len(),
    ensures
        final(runners).len() == deps.len(),
        final(signals).len() == deps.len(),
        model_of(*deps, *final(runners), *final(signals), shutdown@) == model_of(
            *deps,
            *old(runners),
            *old(signals),
            shutdown@,
        ).performed(task as int, actions.deep_view(), actions.len() as int).0,
        final(commands).deep_view() == old(commands).deep_view() + model_of(
            *deps,
            *old(runners),
            *old(signals),
            shutdown@,
        ).performed(task as int, actions.deep_view(), actions.len() as int).1,
{
    let ghost first = model_of(*deps, *runners, *signals, shutdown@);
    let ghost before_all = commands.deep_view();
    let ghost all = actions.deep_view();
    proof {
        assert(before_all + Seq::<CommandModel>::empty() =~= before_all);
    }
    for action in it: actions
        invariant
            it.seq() == actions@,
            all == actions.deep_view(),
            runners.len() == deps.len(),
            signals.len() == deps.len(),
            task < deps.len(),
            model_of(*deps, *runners, *signals, shutdown@) == first.performed(
                task as int,
                all,
                it.index() as int,
            ).0,
            commands.deep_view() == before_all + first.performed(
                task as int,
                all,
                it.index() as int,
            ).1,
    {
        let ghost model = action@;
        let ghost before = model_of(*deps, *runners, *signals, shutdown@);
        let ghost given = first.performed(task as int, all, it.index() as int).1;
        let ghost so_far = commands.deep_view();
        proof {
            assert(all[it.index() as int] == model);
        }
        let sets_ready = match action {
            RunnerAction::SetReady => true,
            _ => false,
        };
        commands.push(Command { task, action });
        proof {
            assert(commands.deep_view() =~= so_far.push(
                CommandModel { task: task as int, action: model },
            ));
            assert(so_far.push(CommandModel { task: task as int, action: model }) =~= before_all
                + given.push(CommandModel { task: task as int, action: model }));
        }
        if sets_ready {
            let ghost flags = signals.deep_view();
            signals[task].set_true();
            proof {
                assert(signals.deep_view() =~= flags.update(task as int, true));
            }
            let ghost own = commands.deep_view();
            tell_all(runners, deps, task, commands);
            proof {
                let more = spread(before.runners, before.graph, task as int, deps.len() as int).1;
                assert(before_all + given.push(CommandModel { task: task as int, action: model })
                    + more =~= before_all + (given.push(
                    CommandModel { task: task as int, action: model },
                ) + more));
            }
        }
    }
}

impl Supervisor {
    /// Whether there is one runner and one signal for each task.
    fn is_complete(&self) -> (complete: bool)
        ensures
            complete == self@.complete(),
    {
        self.runners.len() == self.deps.len() && self.signals.len() == self.deps.len()
    }

    /// The number of tasks.
    pub fn len(&self) -> (n: usize)
        ensures
            n == self@.runners.len(),
    {
        self.runners.len()
    }

    /// The state of a task, where there is such a task.
    pub fn state(&self, task: usize) -> (state: Option<RunnerState>)
        ensures
            state == if task < self@.runners.len() {
                Some(self@.runners[task as int].state)
            } else {
                None
            },
    {
        if task < self.runners.len() {
            Some(self.runners[task].state())
        } else {
            None
        }
    }

    /// Whether the readiness signal of a task is set.
    pub fn is_ready(&self, task: usize) -> (ready: bool)
        ensures
            ready == (task < self@.signals.len() && self@.signals[task as int]),
    {
        task < self.signals.len() && self.signals[task].is_ready()
    }

    /// Whether shutdown was requested.
    pub fn is_shut_down(&self) -> (requested: bool)
        ensures
            requested == self@.shutdown,
    {
        self.shutdown.is_ready()
    }

    /// Whether every task has ended.
    pub fn all_finished(&self) -> (finished: bool)
        ensures
            finished == self@.all_finished(),
    {
        let mut task: usize = 0;
        while task < self.runners.len()
            invariant
                task <= self.runners.len(),
                forall|i: int| 0 <= i < task ==> (#[trigger] self@.runners[i]).finished(),
            decreases self.runners.len() - task,
        {
            if !self.runners[task].is_finished() {
                proof {
                    assert(!self@.runners[task as int].finished());
                }
                return false;
            }
            task += 1;
        }
        true
    }

    /// Takes what happened to a task's child and returns the commands that
    /// answer it, in the order in which they are to be performed.
    pub fn handle(&mut self, task: usize, event: RunnerEvent) -> (commands: Vec<Command>)
        ensures
            (final(self)@, commands.deep_view()) == old(self)@.handle(task as int, event@),
            old(self)@.inv() ==> final(self)@.inv(),
    {
        proof {
            if self@.inv() {
                lemma_handle_keeps_inv(self@, task as int, event@);
            }
        }
        let mut commands: Vec<Command> = Vec::new();
        proof {
            assert(commands.deep_view() =~= Seq::<CommandModel>::empty());
        }
        let internal = match event {
            RunnerEvent::DependencyReady { .. } => true,
            RunnerEvent::Shutdown => true,
            _ => false,
        };
        if !self.is_complete() || task >= self.runners.len() || internal {
            return commands;
        }
        let ghost first = self@;
        let ghost flags = self.shutdown@;
        let ghost before = self.runners.deep_view();
        let actions = self.runners[task].step(event);
        proof {
            assert(self.runners.deep_view() =~= before.update(task as int, self.runners@[task as int]@));
        }
        perform(
            &mut self.runners,
            &self.deps,
            &mut self.signals,
            Ghost(flags),
            task,
            actions,
            &mut commands,
        );
        proof {
            assert(Seq::<CommandModel>::empty() + commands.deep_view() =~= commands.deep_view());
        }
        commands
    }
}

impl Supervisor {
    /// Starts the supervisor of the given tasks: one runner and one unset
    /// readiness signal for each, with shutdown not requested. Returns it
    /// with the commands that announce every task and ask for the tasks
    /// without dependencies to be spawned. A dependency that names no task
    /// is an error.
    pub fn new(entries: &Vec<TaskEntry>) -> (started: Result<(Supervisor, Vec<Command>), OrderError>)
        ensures
            match started {
                Ok((supervisor, commands)) => {
                    &&& all_known(entries.deep_view())
                    &&& (supervisor@, commands.deep_view()) == SupervisorModel::start(
                        dependency_graph(entries.deep_view()),
                        ready_checks(entries.deep_view()),
                    )
                    &&& supervisor@.inv()
                },
                Err(OrderError::UnknownDependency { task, dependency }) => exists|v: int, j: int|
                    is_first_unknown(entries.deep_view(), v, j) && task@
                        == #[trigger] entries@[v].name@ && dependency@
                        == #[trigger] entries@[v].depends_on@[j]@,
                Err(OrderError::Cycle) => false,
            },
    {
        let deps = match dependency_indices(entries) {
            Ok(deps) => deps,
            Err(error) => {
                return Err(error);
            },
        };
        let ghost graph = dependency_graph(entries.deep_view());
        let ghost checks = ready_checks(entries.deep_view());
        let n = entries.len();
        let mut runners: Vec<Runner> = Vec::new();
        let mut signals: Vec<ReadySignal> = Vec::new();
        let mut commands: Vec<Command> = Vec::new();
        let mut task: usize = 0;
        proof {
            assert(runners.deep_view() =~= Seq::<RunnerModel>::empty());
            assert(commands.deep_view() =~= Seq::<CommandModel>::empty());
            assert(graph_of(deps.deep_view()).len() == deps.len());
            assert(graph.len() == entries.len());
        }
        while task < n
            invariant
                task <= n,
                n == entries.len(),
                deps.len() == n,
                graph == dependency_graph(entries.deep_view()),
                graph == graph_of(deps.deep_view()),
                checks == ready_checks(entries.deep_view()),
                runners.len() == task,
                signals.len() == task,
                forall|i: int| 0 <= i < task ==> !(#[trigger] signals@[i])@,
                (runners.deep_view(), commands.deep_view()) == started(graph, checks, task as int),
            decreases n - task,
        {
            let ghost before = runners.deep_view();
            let ghost given = commands.deep_view();
            let check = match &entries[task].ready_check {
                Some(text) => Some(text.clone()),
                None => None,
            };
            proof {
                assert(graph[task as int].len() == deps@[task as int]@.len());
                assert(check.deep_view() == checks[task as int]);
            }
            let (runner, actions) = Runner::new(deps[task].len(), check, false);
            let ghost model = runner@;
            runners.push(runner);
            signals.push(ReadySignal::new());
            push_commands(&mut commands, task, actions);
            proof {
                assert(runners.deep_view() =~= before.push(model));
            }
            task += 1;
        }
        proof {
            assert(signals.deep_view() =~= Seq::new(graph.len(), |task: int| false));
            lemma_start_inv(graph, checks);
        }
        Ok((Supervisor { deps, runners, signals, shutdown: ReadySignal::new() }, commands))
    }

    /// Requests shutdown: every task that has not ended fails, a child that
    /// runs is to be ended with its descendants, and every readiness signal
    /// of an ended task is set. Returns the commands for that.
    pub fn shutdown(&mut self) -> (commands: Vec<Command>)
        ensures
            (final(self)@, commands.deep_view()) == old(self)@.shut_down(),
            old(self)@.inv() ==> final(self)@.inv() && final(self)@.all_finished(),
    {
        proof {
            if self@.inv() {
                lemma_shutdown_ends_all(self@);
            }
        }
        let mut commands: Vec<Command> = Vec::new();
        proof {
            assert(commands.deep_view() =~= Seq::<CommandModel>::empty());
        }
        if !self.is_complete() {
            return commands;
        }
        let ghost first = self@;
        self.shutdown.set_true();
        let n = self.runners.len();
        let mut task: usize = 0;
        while task < n
            invariant
                task <= n,
                n == self.runners.len(),
                self.signals.len() == n,
                self.deps.len() == n,
                (self@, commands.deep_view()) == first.stopped(task as int),
            decreases n - task,
        {
            let ghost before = self.runners.deep_view();
            let ghost flags = self.signals.deep_view();
            let ghost given = commands.deep_view();
            proof {
                assert(before[task as int] == self.runners@[task as int]@);
                assert(flags[task as int] == self.signals@[task as int]@);
            }
            let actions = self.runners[task].step(RunnerEvent::Shutdown);
            if self.runners[task].is_ready() {
                self.signals[task].set_true();
            }
            push_commands(&mut commands, task, actions);
            proof {
                let runner = self.runners@[task as int]@;
                assert(self.runners.deep_view() =~= before.update(task as int, runner));
                assert(self.signals.deep_view() =~= flags.update(
                    task as int,
                    flags[task as int] || runner.ready,
                ));
            }
            task += 1;
        }
        commands
    }
}

impl SupervisorModel {
    /// Whether every runner is as a started runner is, with a record for
    /// each of its task's dependencies.
    pub open spec fn runners_sound(self) -> bool {
        &&& self.complete()
        &&& well_formed(self.graph)
        &&& forall|i: int|
            0 <= i < self.runners.len() ==> (#[trigger] self.runners[i]).inv()
                && self.runners[i].observed.len() == self.graph[i].len()
    }

    /// Whether a runner has observed the readiness only of tasks whose
    /// signal is set.
    pub open spec fn observed_are_ready(self) -> bool {
        forall|i: int, k: int|
            0 <= i < self.runners.len() && 0 <= k < self.graph[i].len()
                && self.runners[i].observed[k] ==> self.signals[#[trigger] self.graph[i][k]]
    }

    /// Whether every runner that has not failed has observed each signal
    /// that is set among those it depends on.
    pub open spec fn ready_are_observed(self) -> bool {
        forall|i: int, k: int|
            0 <= i < self.runners.len() && 0 <= k < self.graph[i].len() && self.runners[i].state
                != RunnerState::Failed && self.signals[#[trigger] self.graph[i][k]]
                ==> self.runners[i].observed[k]
    }

    /// Whether the signal of every task but `except` is set exactly if its
    /// runner has set its readiness.
    pub open spec fn signals_follow(self, except: int) -> bool {
        forall|i: int|
            0 <= i < self.runners.len() && i != except ==> #[trigger] self.signals[i]
                == self.runners[i].ready
    }

    /// What holds of a supervisor between two events.
    pub open spec fn inv(self) -> bool {
        &&& self.runners_sound()
        &&& self.observed_are_ready()
        &&& self.ready_are_observed()
        &&& self.signals_follow(-1)
        &&& self.shutdown ==> self.all_finished()
    }

    /// What holds of a supervisor while it deals with the actions of
    /// `task`, whose signal may still be behind its runner.
    pub open spec fn inv_during(self, task: int) -> bool {
        &&& self.runners_sound()
        &&& self.observed_are_ready()
        &&& self.ready_are_observed()
        &&& self.signals_follow(task)
        &&& self.shutdown ==> self.all_finished()
        &&& 0 <= task < self.runners.len()
        &&& self.signals[task] ==> self.runners[task].ready
    }
}

/// Counting up to an index and one further.
proof fn lemma_times_take(actions: Seq<ActionModel>, upto: int, action: ActionModel)
    requires
        0 <= upto < actions.len(),
    ensures
        times(actions.take(upto + 1), action) == times(actions.take(upto), action) + if actions[upto]
            == action {
            1nat
        } else {
            0nat
        },
        times(actions.take(upto + 1), action) <= times(actions, action),
    decreases actions.len() - upto,
{
    assert(actions.take(upto + 1).drop_last() =~= actions.take(upto));
    if upto + 1 == actions.len() {
        assert(actions.take(upto + 1) =~= actions);
    } else {
        lemma_times_take(actions, upto + 1, action);
    }
}

/// What telling does to a runner: one that waits records the dependencies
/// that are the ready task as observed; any other stays as it is.
proof fn lemma_told(runner: RunnerModel, slots: Seq<int>, ready: int, upto: int)
    requires
        runner.inv(),
        runner.observed.len() == slots.len(),
        0 <= upto <= slots.len(),
    ensures
        ({
            let next = told(runner, slots, ready, upto).0;
            let waits = runner.state == RunnerState::Waiting;
            &&& next.inv()
            &&& next.ready == runner.ready
            &&& next.finished() == runner.finished()
            &&& (next.state == RunnerState::Failed) == (runner.state == RunnerState::Failed)
            &&& next.observed.len() == slots.len()
            &&& forall|k: int|
                0 <= k < slots.len() ==> #[trigger] next.observed[k] == (runner.observed[k] || (waits
                    && k < upto && slots[k] == ready))
            &&& !waits ==> next == runner
        }),
    decreases upto,
{
    if upto > 0 {
        lemma_told(runner, slots, ready, upto - 1);
        let before = told(runner, slots, ready, upto - 1).0;
        if slots[upto - 1] == ready {
            lemma_step_notice(before, (upto - 1) as nat);
            let next = before.step(
                EventModel::DependencyReady { index: (upto - 1) as nat, shutdown: false },
            ).0;
            if before.state != RunnerState::Waiting {
                assert(next == before);
                if runner.state == RunnerState::Waiting {
                    assert(all_observed(before.observed));
                    assert(before.observed[upto - 1]);
                }
            }
        }
    }
}

/// What telling all runners does: each of the first `upto` is told, the
/// others stay as they are.
proof fn lemma_spread(runners: Seq<RunnerModel>, graph: Seq<Seq<int>>, ready: int, upto: int)
    requires
        runners.len() == graph.len(),
        0 <= upto <= runners.len(),
    ensures
        spread(runners, graph, ready, upto).0.len() == runners.len(),
        forall|j: int|
            0 <= j < runners.len() ==> #[trigger] spread(runners, graph, ready, upto).0[j] == if j
                < upto {
                told(runners[j], graph[j], ready, graph[j].len() as int).0
            } else {
                runners[j]
            },
    decreases upto,
{
    if upto > 0 {
        lemma_spread(runners, graph, ready, upto - 1);
    }
}

/// Dealing with the actions of a task keeps what holds of a supervisor
/// during that, and leaves the task's signal set exactly if it was set or
/// the task has set its readiness among the actions dealt with.
#[verifier::rlimit(50)]
proof fn lemma_performed(m: SupervisorModel, task: int, actions: Seq<ActionModel>, upto: int)
    requires
        m.inv_during(task),
        0 <= upto <= actions.len(),
        times(actions, ActionModel::SetReady) <= 1,
        times(actions, ActionModel::SetReady) == 1 ==> !m.signals[task] && m.runners[task].ready,
    ensures
        ({
            let after = m.performed(task, actions, upto).0;
            let set = times(actions.take(upto), ActionModel::SetReady) >= 1;
            &&& after.inv_during(task)
            &&& after.signals[task] == (m.signals[task] || set)
            &&& after.runners[task].ready == m.runners[task].ready
            &&& !set ==> after == m
        }),
    decreases upto,
{
    let set_ready = ActionModel::SetReady;
    if upto <= 0 {
        assert(actions.take(0) =~= Seq::<ActionModel>::empty());
    } else {
        lemma_performed(m, task, actions, upto - 1);
        lemma_times_take(actions, upto - 1, set_ready);
        let before = m.performed(task, actions, upto - 1).0;
        if actions[upto - 1] == set_ready {
            assert(before == m);
            let n = m.runners.len() as int;
            lemma_spread(m.runners, m.graph, task, n);
            let runners = spread(m.runners, m.graph, task, n).0;
            let signals = m.signals.update(task, true);
            let after = SupervisorModel { runners, signals, ..m };
            assert forall|j: int| 0 <= j < n implies {
                let next = #[trigger] runners[j];
                let waits = m.runners[j].state == RunnerState::Waiting;
                &&& next.inv()
                &&& next.ready == m.runners[j].ready
                &&& next.finished() == m.runners[j].finished()
                &&& (next.state == RunnerState::Failed) == (m.runners[j].state
                    == RunnerState::Failed)
                &&& next.observed.len() == m.graph[j].len()
                &&& forall|k: int|
                    0 <= k < m.graph[j].len() ==> #[trigger] next.observed[k] == (
                    m.runners[j].observed[k] || (waits && m.graph[j][k] == task))
                &&& !waits ==> next == m.runners[j]
            } by {
                lemma_told(m.runners[j], m.graph[j], task, m.graph[j].len() as int);
            }
            assert(after.runners_sound());
            assert(after.observed_are_ready()) by {
                assert forall|i: int, k: int|
                    0 <= i < after.runners.len() && 0 <= k < after.graph[i].len()
                        && after.runners[i].observed[k] implies after.signals[#[trigger] after.graph[i][k]] by {
                    assert(runners[i].inv());
                    if m.runners[i].observed[k] {
                        assert(m.signals[m.graph[i][k]]);
                    }
                }
            }
            assert(after.ready_are_observed()) by {
                assert forall|i: int, k: int|
                    0 <= i < after.runners.len() && 0 <= k < after.graph[i].len()
                        && after.runners[i].state != RunnerState::Failed
                        && after.signals[#[trigger] after.graph[i][k]] implies after.runners[i].observed[k] by {
                    assert(runners[i].inv());
                    if m.graph[i][k] == task {
                        if m.runners[i].state != RunnerState::Waiting {
                            assert(all_observed(m.runners[i].observed));
                        }
                    } else {
                        assert(m.signals[m.graph[i][k]]);
                    }
                }
            }
            assert(after.signals_follow(task)) by {
                assert forall|i: int|
                    0 <= i < after.runners.len() && i != task implies #[trigger] after.signals[i]
                    == after.runners[i].ready by {
                    assert(runners[i].inv());
                    assert(m.signals[i] == m.runners[i].ready);
                }
            }
            assert(runners[task].inv());
            if after.shutdown {
                assert forall|i: int| 0 <= i < after.runners.len() implies (
                #[trigger] after.runners[i]).finished() by {
                    assert(runners[i].inv());
                    assert(m.runners[i].finished());
                }
            }
        }
    }
}

/// The supervisor starts as a supervisor is between two events.
pub proof fn lemma_start_inv(graph: Seq<Seq<int>>, checks: Seq<Option<Seq<char>>>)
    requires
        well_formed(graph),
    ensures
        SupervisorModel::start(graph, checks).0.inv(),
{
    let n = graph.len() as int;
    lemma_started(graph, checks, n);
    let m = SupervisorModel::start(graph, checks).0;
    assert forall|i: int| 0 <= i < m.runners.len() implies (#[trigger] m.runners[i]).inv()
        && m.runners[i].observed.len() == m.graph[i].len() && !m.runners[i].ready && forall|k: int|
        0 <= k < m.graph[i].len() ==> !m.runners[i].observed[k] by {
        lemma_life_marks(graph[i].len(), checks[i], false, Seq::<EventModel>::empty());
    }
}

/// The runners as they start.
proof fn lemma_started(graph: Seq<Seq<int>>, checks: Seq<Option<Seq<char>>>, upto: int)
    requires
        0 <= upto <= graph.len(),
    ensures
        started(graph, checks, upto).0.len() == upto,
        forall|i: int|
            0 <= i < upto ==> #[trigger] started(graph, checks, upto).0[i] == RunnerModel::start(
                graph[i].len(),
                checks[i],
                false,
            ).0,
    decreases upto,
{
    if upto > 0 {
        lemma_started(graph, checks, upto - 1);
    }
}

/// Every event of a task's child leaves the supervisor as a supervisor is
/// between two events.
#[verifier::rlimit(50)]
pub proof fn lemma_handle_keeps_inv(m: SupervisorModel, task: int, event: EventModel)
    requires
        m.inv(),
    ensures
        m.handle(task, event).0.inv(),
{
    if m.complete() && 0 <= task < m.runners.len() && !(event is DependencyReady) && !(
    event is Shutdown) {
        let old_runner = m.runners[task];
        let (runner, actions) = old_runner.step(event);
        lemma_step_other(old_runner, event);
        lemma_step_marks(old_runner, event);
        let stepped = SupervisorModel { runners: m.runners.update(task, runner), ..m };
        assert(m.signals[task] == old_runner.ready);
        assert(stepped.runners_sound()) by {
            assert forall|i: int| 0 <= i < stepped.runners.len() implies (
            #[trigger] stepped.runners[i]).inv() && stepped.runners[i].observed.len()
                == stepped.graph[i].len() by {
                assert(m.runners[i].inv());
            }
        }
        assert(stepped.observed_are_ready()) by {
            assert forall|i: int, k: int|
                0 <= i < stepped.runners.len() && 0 <= k < stepped.graph[i].len()
                    && stepped.runners[i].observed[k] implies stepped.signals[#[trigger] stepped.graph[i][k]] by {
                assert(m.runners[i].observed[k]);
                assert(m.signals[m.graph[i][k]]);
            }
        }
        assert(stepped.ready_are_observed()) by {
            assert forall|i: int, k: int|
                0 <= i < stepped.runners.len() && 0 <= k < stepped.graph[i].len()
                    && stepped.runners[i].state != RunnerState::Failed
                    && stepped.signals[#[trigger] stepped.graph[i][k]] implies stepped.runners[i].observed[k] by {
                assert(m.signals[m.graph[i][k]]);
                if i == task {
                    if old_runner.state == RunnerState::Failed {
                        assert(runner == old_runner);
                    }
                }
            }
        }
        assert(stepped.signals_follow(task)) by {
            assert forall|i: int|
                0 <= i < stepped.runners.len() && i != task implies #[trigger] stepped.signals[i]
                == stepped.runners[i].ready by {
                assert(m.signals[i] == m.runners[i].ready);
            }
        }
        if stepped.shutdown {
            assert(m.runners[task].finished());
            assert forall|i: int| 0 <= i < stepped.runners.len() implies (
            #[trigger] stepped.runners[i]).finished() by {
                assert(m.runners[i].finished());
            }
        }
        lemma_performed(stepped, task, actions, actions.len() as int);
        assert(actions.take(actions.len() as int) =~= actions);
        let after = stepped.performed(task, actions, actions.len() as int).0;
        assert(after.signals_follow(-1)) by {
            assert forall|i: int| 0 <= i < after.runners.len() implies #[trigger] after.signals[i]
                == after.runners[i].ready by {
                if i != task {
                    assert(after.signals_follow(task));
                }
            }
        }
    }
}

/// What stopping the first `upto` runners leaves.
proof fn lemma_stopped(m: SupervisorModel, upto: int)
    requires
        m.inv(),
        0 <= upto <= m.runners.len(),
    ensures
        ({
            let after = m.stopped(upto).0;
            &&& after.runners_sound()
            &&& after.observed_are_ready()
            &&& after.signals_follow(-1)
            &&& after.shutdown
            &&& after.graph == m.graph
            &&& forall|i: int| 0 <= i < upto ==> (#[trigger] after.runners[i]).finished()
            &&& forall|i: int| upto <= i < m.runners.len() ==> #[trigger] after.runners[i] == m.runners[i]
            &&& forall|i: int| 0 <= i < m.runners.len() && m.signals[i] ==> #[trigger] after.signals[i]
        }),
    decreases upto,
{
    if upto > 0 {
        lemma_stopped(m, upto - 1);
        let before = m.stopped(upto - 1).0;
        let task = upto - 1;
        let runner = before.runners[task].step(EventModel::Shutdown).0;
        lemma_step_other(before.runners[task], EventModel::Shutdown);
        let after = m.stopped(upto).0;
        assert(after.runners_sound()) by {
            assert forall|i: int| 0 <= i < after.runners.len() implies (
            #[trigger] after.runners[i]).inv() && after.runners[i].observed.len()
                == after.graph[i].len() by {
                assert(before.runners[i].inv());
            }
        }
        assert(after.observed_are_ready()) by {
            assert forall|i: int, k: int|
                0 <= i < after.runners.len() && 0 <= k < after.graph[i].len()
                    && after.runners[i].observed[k] implies after.signals[#[trigger] after.graph[i][k]] by {
                assert(before.runners[i].observed[k]);
                assert(before.signals[before.graph[i][k]]);
            }
        }
        assert(after.signals_follow(-1)) by {
            assert forall|i: int| 0 <= i < after.runners.len() implies #[trigger] after.signals[i]
                == after.runners[i].ready by {
                assert(before.signals[i] == before.runners[i].ready);
            }
        }
        assert forall|i: int| 0 <= i < upto implies (#[trigger] after.runners[i]).finished() by {
            if i < task {
                assert(before.runners[i].finished());
            }
        }
        assert forall|i: int| 0 <= i < m.runners.len() && m.signals[i] implies #[trigger] after.signals[i] by {
            assert(before.signals[i]);
        }
    }
}

/// After shutdown every task has ended with its readiness signal set, and
/// the supervisor is as a supervisor is between two events.
pub proof fn lemma_shutdown_ends_all(m: SupervisorModel)
    requires
        m.inv(),
    ensures
        m.shut_down().0.inv(),
        m.shut_down().0.shutdown,
        m.shut_down().0.all_finished(),
        forall|task: int| 0 <= task < m.runners.len() ==> #[trigger] m.shut_down().0.signals[task],
{
    let n = m.runners.len() as int;
    lemma_stopped(m, n);
    let after = m.shut_down().0;
    assert(after.ready_are_observed()) by {
        assert forall|i: int, k: int|
            0 <= i < after.runners.len() && 0 <= k < after.graph[i].len() && after.runners[i].state
                != RunnerState::Failed && after.signals[#[trigger] after.graph[i][k]] implies after.runners[i].observed[k] by {
            assert(after.runners[i].finished());
            assert(after.runners[i].inv());
            assert(all_observed(after.runners[i].observed));
        }
    }
    assert forall|task: int| 0 <= task < m.runners.len() implies #[trigger] after.signals[task] by {
        assert(after.runners[task].finished());
        assert(after.runners[task].inv());
        assert(after.signals[task] == after.runners[task].ready);
    }
}

/// A task runs only with the readiness signal of every task it depends on
/// set: where a task runs or has succeeded, each of these signals is set.
pub proof fn lemma_runs_with_dependencies_ready(m: SupervisorModel, task: int, k: int)
    requires
        m.inv(),
        0 <= task < m.runners.len(),
        0 <= k < m.graph[task].len(),
        m.runners[task].state == RunnerState::Running || m.runners[task].state
            == RunnerState::Succeeded,
    ensures
        0 <= m.graph[task][k] < m.signals.len(),
        m.signals[m.graph[task][k]],
{
    assert(m.runners[task].inv());
    assert(all_observed(m.runners[task].observed));
    assert(m.runners[task].observed[k]);
}

/// A task that has ended has its readiness signal set, however it ended.
pub proof fn lemma_ended_is_ready(m: SupervisorModel, task: int)
    requires
        m.inv(),
        0 <= task < m.runners.len(),
        m.runners[task].finished(),
    ensures
        m.signals[task],
{
    assert(m.runners[task].inv());
    assert(m.signals[task] == m.runners[task].ready);
}

/// A task waits only for signals that are unset: while it waits, the signal
/// of one of the tasks it depends on is unset.
pub proof fn lemma_waits_for_unset(m: SupervisorModel, task: int)
    requires
        m.inv(),
        0 <= task < m.runners.len(),
        m.runners[task].state == RunnerState::Waiting,
    ensures
        exists|k: int| 0 <= k < m.graph[task].len() && !m.signals[#[trigger] m.graph[task][k]],
{
    let runner = m.runners[task];
    assert(runner.inv());
    assert(!all_observed(runner.observed));
    let k = choose|k: int| 0 <= k < runner.observed.len() && !#[trigger] runner.observed[k];
    assert(!m.signals[m.graph[task][k]]);
}

/// Why the supervisor stops waiting.
#[derive(Clone, Copy, Debug, PartialEq, Eq, Structural)]
pub enum ExitCause {
    /// Every task has ended.
    AllFinished,
    /// The user left the display.
    UiExited,
    /// The process was interrupted.
    Interrupt,
    /// The process was asked to terminate.
    Terminate,
}

/// What the supervisor does when it stops waiting, in this order: pause for
/// `grace_ms`, request shutdown of all tasks, stop the display, pause for
/// `drain_ms`, empty the registry of live children.
#[derive(Clone, Copy, Debug, PartialEq, Eq, Structural)]
pub struct ExitPlan {
    pub grace_ms: u64,
    pub broadcast_shutdown: bool,
    pub stop_ui: bool,
    pub drain_ms: u64,
}

/// The pause that leaves the final state on display after every task has
/// ended, in milliseconds.
pub const FINISH_GRACE_MS: u64 = 2000;

/// The pause in which ended children are given time to go before the
/// registry is emptied, in milliseconds.
pub const SHUTDOWN_DRAIN_MS: u64 = 500;

/// The name of the manifest that is read where none is given.
pub open spec fn default_manifest() -> Seq<char> {
    "tequio.ini"@
}

/// The plan for each cause. After all tasks have ended there is nothing to
/// shut down: the display stays for a while and is then stopped. A display
/// that the user left needs no stopping. An interrupt or a request to
/// terminate shuts the tasks down and stops the display.
pub open spec fn exit_plan_for(cause: ExitCause) -> ExitPlan {
    match cause {
        ExitCause::AllFinished => ExitPlan {
            grace_ms: FINISH_GRACE_MS,
            broadcast_shutdown: false,
            stop_ui: true,
            drain_ms: SHUTDOWN_DRAIN_MS,
        },
        ExitCause::UiExited => ExitPlan {
            grace_ms: 0,
            broadcast_shutdown: true,
            stop_ui: false,
            drain_ms: SHUTDOWN_DRAIN_MS,
        },
        ExitCause::Interrupt | ExitCause::Terminate => ExitPlan {
            grace_ms: 0,
            broadcast_shutdown: true,
            stop_ui: true,
            drain_ms: SHUTDOWN_DRAIN_MS,
        },
    }
}

/// What the supervisor does when it stops waiting for the given cause.
pub fn exit_plan(cause: ExitCause) -> (plan: ExitPlan)
    ensures
        plan == exit_plan_for(cause),
{
    match cause {
        ExitCause::AllFinished => ExitPlan {
            grace_ms: FINISH_GRACE_MS,
            broadcast_shutdown: false,
            stop_ui: true,
            drain_ms: SHUTDOWN_DRAIN_MS,
        },
        ExitCause::UiExited => ExitPlan {
            grace_ms: 0,
            broadcast_shutdown: true,
            stop_ui: false,
            drain_ms: SHUTDOWN_DRAIN_MS,
        },
        _ => ExitPlan {
            grace_ms: 0,
            broadcast_shutdown: true,
            stop_ui: true,
            drain_ms: SHUTDOWN_DRAIN_MS,
        },
    }
}

/// The manifest to read: the one given, or `tequio.ini` where none is.
pub fn manifest_path(given: Option<String>) -> (path: String)
    ensures
        path@ == match given {
            Some(path) => path@,
            None => default_manifest(),
        },
{
    match given {
        Some(path) => path,
        None => String::from_str("tequio.ini"),
    }
}

/// The directory a task runs in: its own where it names one, else the
/// directory the supervisor runs in.
pub fn resolved_work_dir(entry: &TaskEntry, current: &str) -> (dir: String)
    ensures
        dir@ == match entry@.work_dir {
            Some(own) => own,
            None => current@,
        },
{
    match &entry.work_dir {
        Some(own) => own.clone(),
        None => String::from_str(current),
    }
}

} // verus!
