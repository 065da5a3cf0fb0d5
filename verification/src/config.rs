//! The task manifest: its sections as the `ini` crate reads them, the task
//! declarations made from them, the tasks that their dependencies name, and
//! the tasks in launch order.

use crate::order::{
    graph_of, has_cycle, ints, is_arrangement, is_launch_order, launch_order, launch_order_of,
    lemma_cycle_or_order, lemma_launch_order_unique, lemma_position, orderable, position,
    well_formed,
};
use crate::text::{split, split_on, trim, trimmed};
use vstd::prelude::*;
use vstd::string::*;

verus! {

/// One task of the manifest.
#[derive(Clone, Debug, PartialEq, Eq)]
pub struct TaskEntry {
    /// The section's name.
    pub name: String,
    /// The command line handed to the shell.
    pub command: String,
    /// The directory to run in, where one is given.
    pub work_dir: Option<String>,
    /// The names of the tasks whose readiness the task waits for.
    pub depends_on: Vec<String>,
    /// The text that marks the task as ready when its output holds it.
    pub ready_check: Option<String>,
}

/// A task, with texts as sequences of characters.
pub struct TaskModel {
    pub name: Seq<char>,
    pub command: Seq<char>,
    pub work_dir: Option<Seq<char>>,
    pub depends_on: Seq<Seq<char>>,
    pub ready_check: Option<Seq<char>>,
}

impl View for TaskEntry {
    type V = TaskModel;

    open spec fn view(&self) -> TaskModel {
        TaskModel {
            name: self.name@,
            command: self.command@,
            work_dir: self.work_dir.deep_view(),
            depends_on: self.depends_on.deep_view(),
            ready_check: self.ready_check.deep_view(),
        }
    }
}

impl DeepView for TaskEntry {
    type V = TaskModel;

    open spec fn deep_view(&self) -> TaskModel {
        self@
    }
}

/// One section of a manifest as it was read: its name, which the part of
/// the file before the first header lacks, and its keys with their values,
/// in the order of the file.
#[derive(Clone, Debug, PartialEq, Eq)]
pub struct Section {
    pub name: Option<String>,
    pub properties: Vec<(String, String)>,
}

/// A section, with texts as sequences of characters.
pub struct SectionModel {
    pub name: Option<Seq<char>>,
    pub properties: Seq<(Seq<char>, Seq<char>)>,
}

impl View for Section {
    type V = SectionModel;

    open spec fn view(&self) -> SectionModel {
        SectionModel { name: self.name.deep_view(), properties: self.properties.deep_view() }
    }
}

impl DeepView for Section {
    type V = SectionModel;

    open spec fn deep_view(&self) -> SectionModel {
        self@
    }
}

/// Why a manifest could not be loaded.
#[derive(Debug)]
pub enum LoadError {
    /// The text is no well-formed manifest; the cause says where and why.
    Syntax(ini::ParseError),
}

/// The value of the first property with the given key, if there is one.
pub open spec fn first_value(properties: Seq<(Seq<char>, Seq<char>)>, key: Seq<char>) -> Option<
    Seq<char>,
>
    decreases properties.len(),
{
    if properties.len() == 0 {
        None
    } else if properties[0].0 == key {
        Some(properties[0].1)
    } else {
        first_value(properties.drop_first(), key)
    }
}

/// The names in a comma-separated list, each trimmed of white space. The
/// empty list text holds one name, the empty one.
pub open spec fn listed_names(list: Seq<char>) -> Seq<Seq<char>> {
    split_on(list, ',').map_values(|name: Seq<char>| trimmed(name))
}

/// The task that a section declares: its name is the section's, which must
/// be there and not be empty, and it has a command. `work_dir`, `depends_on`
/// and `ready_check` are taken where they are given. Other sections declare
/// no task.
pub open spec fn declared_task(section: SectionModel) -> Option<TaskModel> {
    match (section.name, first_value(section.properties, "command"@)) {
        (Some(name), Some(command)) => if name.len() == 0 {
            None
        } else {
            Some(
                TaskModel {
                    name,
                    command,
                    work_dir: first_value(section.properties, "work_dir"@),
                    depends_on: match first_value(section.properties, "depends_on"@) {
                        Some(list) => listed_names(list),
                        None => Seq::empty(),
                    },
                    ready_check: first_value(section.properties, "ready_check"@),
                },
            )
        },
        _ => None,
    }
}

/// The tasks that a sequence of sections declares, in the sections' order.
pub open spec fn declared_tasks(sections: Seq<SectionModel>) -> Seq<TaskModel>
    decreases sections.len(),
{
    if sections.len() == 0 {
        Seq::empty()
    } else {
        let before = declared_tasks(sections.drop_last());
        match declared_task(sections.last()) {
            Some(task) => before.push(task),
            None => before,
        }
    }
}

/// The text of a manifest without the byte-order mark that may stand at its
/// very beginning.
pub open spec fn manifest_body(text: Seq<char>) -> Seq<char> {
    if text.len() > 0 && text[0] == '\u{feff}' {
        text.drop_first()
    } else {
        text
    }
}

/// The sections that the `ini` crate reads from a text with its default
/// options, in the order of the file and with the nameless general section
/// first; nothing where it rejects the text.
pub uninterp spec fn ini_sections(text: Seq<char>) -> Option<Seq<SectionModel>>;

/// The error of the `ini` crate's parser, `ini::ParseError`, which says
/// where a text stops being a manifest and why. It is carried through as
/// it is: nothing is claimed of what it holds.
#[verifier::external_type_specification]
#[verifier::external_body]
pub struct ExParseError(ini::ParseError);

/// Calls `ini::Ini::load_from_str` and copies the document out of the
/// crate's own type: each section handed out by `Ini::iter` with its name,
/// and each of its properties handed out by `Properties::iter` as a pair of
/// key and value. The contract claims that the copy is what the crate read
/// from this text, and that the crate reads the same from the same text.
#[verifier::external_body]
fn load_sections(text: &str) -> (loaded: Result<Vec<Section>, ini::ParseError>)
    ensures
        match loaded {
            Ok(sections) => ini_sections(text@) == Some(sections.deep_view()),
            Err(_) => ini_sections(text@) is None,
        },
{
    match ini::Ini::load_from_str(text) {
        Ok(document) => Ok(
            document.iter().map(
                |(name, properties)|
                    Section {
                        name: name.map(|n| n.to_string()),
                        properties: properties.iter().map(
                            |(k, v)| (k.to_string(), v.to_string()),
                        ).collect(),
                    },
            ).collect(),
        ),
        Err(cause) => Err(cause),
    }
}

/// The value of the first property with the given key, if there is one.
pub fn property(properties: &Vec<(String, String)>, key: &str) -> (value: Option<String>)
    ensures
        value.deep_view() == first_value(properties.deep_view(), key@),
{
    let ghost all = properties.deep_view();
    let wanted = String::from_str(key);
    let mut i: usize = 0;
    proof {
        assert(all.skip(0) =~= all);
    }
    while i < properties.len()
        invariant
            i <= properties.len(),
            all == properties.deep_view(),
            wanted@ == key@,
            first_value(all, key@) == first_value(all.skip(i as int), key@),
        decreases properties.len() - i,
    {
        proof {
            let rest = all.skip(i as int);
            assert(rest[0] == all[i as int]);
            assert(rest.drop_first() =~= all.skip(i + 1));
        }
        if properties[i].0 == wanted {
            return Some(properties[i].1.clone());
        }
        i += 1;
    }
    None
}

/// The names in a comma-separated list, each trimmed of white space.
pub fn names_in_list(list: &str) -> (names: Vec<String>)
    ensures
        names.deep_view() == listed_names(list@),
{
    let pieces = split(list, ',');
    let mut names: Vec<String> = Vec::new();
    let mut i: usize = 0;
    while i < pieces.len()
        invariant
            i <= pieces.len(),
            pieces.deep_view() == split_on(list@, ','),
            names.len() == i,
            forall|k: int| 0 <= k < i ==> #[trigger] names@[k]@ == trimmed(pieces@[k]@),
        decreases pieces.len() - i,
    {
        names.push(trim(pieces[i].as_str()));
        i += 1;
    }
    proof {
        assert(names.deep_view() =~= listed_names(list@));
    }
    names
}

/// The task that a section declares, if it declares one.
pub fn task_of_section(section: &Section) -> (task: Option<TaskEntry>)
    ensures
        task.deep_view() == declared_task(section@),
{
    let name = match &section.name {
        Some(name) => name.clone(),
        None => {
            return None;
        },
    };
    let command = match property(&section.properties, "command") {
        Some(command) => command,
        None => {
            return None;
        },
    };
    if name.as_str().unicode_len() == 0 {
        return None;
    }
    let work_dir = property(&section.properties, "work_dir");
    let depends_on = match property(&section.properties, "depends_on") {
        Some(list) => names_in_list(list.as_str()),
        None => Vec::new(),
    };
    let ready_check = property(&section.properties, "ready_check");
    proof {
        if first_value(section@.properties, "depends_on"@) is None {
            assert(depends_on.deep_view() =~= Seq::<Seq<char>>::empty());
        }
    }
    Some(TaskEntry { name, command, work_dir, depends_on, ready_check })
}

/// The tasks that the sections of a manifest declare, in the order of the
/// file. Sections without a name, with an empty name or without a command
/// are passed over.
pub fn tasks_of_sections(sections: &Vec<Section>) -> (tasks: Vec<TaskEntry>)
    ensures
        tasks.deep_view() == declared_tasks(sections.deep_view()),
{
    let ghost all = sections.deep_view();
    let mut tasks: Vec<TaskEntry> = Vec::new();
    let mut i: usize = 0;
    proof {
        assert(all.take(0) =~= Seq::<SectionModel>::empty());
        assert(tasks.deep_view() =~= Seq::<TaskModel>::empty());
    }
    while i < sections.len()
        invariant
            i <= sections.len(),
            all == sections.deep_view(),
            tasks.deep_view() == declared_tasks(all.take(i as int)),
        decreases sections.len() - i,
    {
        let ghost before = tasks.deep_view();
        proof {
            let next = all.take(i + 1);
            assert(next.drop_last() =~= all.take(i as int));
            assert(next.last() == sections@[i as int]@);
        }
        match task_of_section(&sections[i]) {
            Some(task) => {
                let ghost model = task@;
                tasks.push(task);
                proof {
                    assert(tasks.deep_view() =~= before.push(model));
                }
            },
            None => {},
        }
        i += 1;
    }
    proof {
        assert(all.take(sections.len() as int) =~= all);
    }
    tasks
}

/// Reads a manifest from its text. Every named section with a `command`
/// is one task; the tasks come in the order of the file. A byte-order mark
/// at the very beginning is passed over. The text is read by the `ini`
/// crate, and a text that it rejects is a syntax error.
pub fn parse_ini(text: &str) -> (loaded: Result<Vec<TaskEntry>, LoadError>)
    ensures
        match ini_sections(manifest_body(text@)) {
            Some(sections) => loaded is Ok && loaded->Ok_0.deep_view() == declared_tasks(sections),
            None => loaded is Err,
        },
{
    let length = text.unicode_len();
    let body = if length > 0 && text.get_char(0) == '\u{feff}' {
        proof {
            assert(text@.subrange(1, length as int) =~= text@.drop_first());
        }
        text.substring_char(1, length)
    } else {
        text
    };
    match load_sections(body) {
        Ok(sections) => Ok(tasks_of_sections(&sections)),
        Err(cause) => Err(LoadError::Syntax(cause)),
    }
}

/// Why the tasks of a manifest cannot be put in launch order.
#[derive(Clone, Debug, PartialEq, Eq)]
pub enum OrderError {
    /// A task depends on a name that no task has.
    UnknownDependency { task: String, dependency: String },
    /// Dependencies run in a circle.
    Cycle,
}

/// The names of the tasks, in their order.
pub open spec fn task_names(tasks: Seq<TaskModel>) -> Seq<Seq<char>> {
    tasks.map_values(|task: TaskModel| task.name)
}

/// The number of the task that a name stands for: the last task of that
/// name, or -1 where no task has it.
pub open spec fn named_task(tasks: Seq<TaskModel>, name: Seq<char>) -> int {
    position(task_names(tasks), name)
}

/// For each task the numbers of the tasks that its dependencies name, in
/// the order in which it names them; -1 stands for a name that no task has.
pub open spec fn dependency_graph(tasks: Seq<TaskModel>) -> Seq<Seq<int>> {
    Seq::new(
        tasks.len(),
        |v: int|
            Seq::new(
                tasks[v].depends_on.len(),
                |j: int| named_task(tasks, tasks[v].depends_on[j]),
            ),
    )
}

/// Whether every dependency names a task.
pub open spec fn all_known(tasks: Seq<TaskModel>) -> bool {
    well_formed(dependency_graph(tasks))
}

/// Whether the dependency `j` of task `v` is the first in the manifest that
/// names no task.
pub open spec fn is_first_unknown(tasks: Seq<TaskModel>, v: int, j: int) -> bool {
    let graph = dependency_graph(tasks);
    &&& 0 <= v < graph.len()
    &&& 0 <= j < graph[v].len()
    &&& graph[v][j] < 0
    &&& forall|j2: int| 0 <= j2 < j ==> #[trigger] graph[v][j2] >= 0
    &&& forall|v2: int, j2: int|
        0 <= v2 < v && 0 <= j2 < graph[v2].len() ==> #[trigger] graph[v2][j2] >= 0
}

/// The tasks, put in the given order of their numbers.
pub open spec fn arranged(tasks: Seq<TaskModel>, order: Seq<int>) -> Seq<TaskModel> {
    Seq::new(order.len(), |a: int| tasks[order[a]])
}

impl OrderError {
    /// The error in words.
    pub open spec fn message_text(self) -> Seq<char> {
        match self {
            OrderError::UnknownDependency { task, dependency } => "task '"@ + task@
                + "' depends on unknown task '"@ + dependency@ + "'"@,
            OrderError::Cycle => "dependency cycle detected among tasks"@,
        }
    }

    /// The error in words.
    pub fn message(&self) -> (text: String)
        ensures
            text@ == self.message_text(),
    {
        match self {
            OrderError::UnknownDependency { task, dependency } => {
                let mut text = String::from_str("task '");
                text.append(task.as_str());
                text.append("' depends on unknown task '");
                text.append(dependency.as_str());
                text.append("'");
                text
            },
            OrderError::Cycle => String::from_str("dependency cycle detected among tasks"),
        }
    }
}

/// The number of the task that a name stands for, if a task has the name.
pub fn find_task(entries: &Vec<TaskEntry>, name: &String) -> (found: Option<usize>)
    ensures
        match found {
            Some(v) => v == named_task(entries.deep_view(), name@),
            None => named_task(entries.deep_view(), name@) == -1,
        },
{
    let ghost names = task_names(entries.deep_view());
    let mut i: usize = entries.len();
    proof {
        assert(names.take(i as int) =~= names);
    }
    while i > 0
        invariant
            i <= entries.len(),
            names == task_names(entries.deep_view()),
            position(names, name@) == position(names.take(i as int), name@),
        decreases i,
    {
        i -= 1;
        proof {
            let front = names.take(i + 1);
            assert(front.last() == entries@[i as int].name@);
            assert(front.drop_last() =~= names.take(i as int));
        }
        if entries[i].name == *name {
            return Some(i);
        }
    }
    None
}

/// For each task the numbers of the tasks that its dependencies name, or
/// the first dependency in the manifest that names no task.
pub fn dependency_indices(entries: &Vec<TaskEntry>) -> (resolved: Result<
    Vec<Vec<usize>>,
    OrderError,
>)
    ensures
        match resolved {
            Ok(deps) => all_known(entries.deep_view()) && graph_of(deps.deep_view())
                == dependency_graph(entries.deep_view()),
            Err(OrderError::UnknownDependency { task, dependency }) => exists|v: int, j: int|
                is_first_unknown(entries.deep_view(), v, j) && task@ == #[trigger] entries@[v].name@
                    && dependency@ == #[trigger] entries@[v].depends_on@[j]@,
            Err(OrderError::Cycle) => false,
        },
{
    let ghost tasks = entries.deep_view();
    let ghost graph = dependency_graph(tasks);
    let mut deps: Vec<Vec<usize>> = Vec::new();
    let mut v: usize = 0;
    while v < entries.len()
        invariant
            v <= entries.len(),
            tasks == entries.deep_view(),
            graph == dependency_graph(tasks),
            deps.len() == v,
            forall|v2: int| 0 <= v2 < v ==> ints(#[trigger] deps@[v2]@) == graph[v2],
            forall|v2: int, j2: int|
                0 <= v2 < v && 0 <= j2 < graph[v2].len() ==> 0 <= #[trigger] graph[v2][j2]
                    < graph.len(),
        decreases entries.len() - v,
    {
        let entry = &entries[v];
        let mut list: Vec<usize> = Vec::new();
        let mut j: usize = 0;
        while j < entry.depends_on.len()
            invariant
                v < entries.len(),
                entry == entries@[v as int],
                j <= entry.depends_on.len(),
                tasks == entries.deep_view(),
                graph == dependency_graph(tasks),
                list.len() == j,
                forall|j2: int| 0 <= j2 < j ==> #[trigger] list@[j2] == graph[v as int][j2],
                forall|j2: int| 0 <= j2 < j ==> 0 <= #[trigger] graph[v as int][j2] < graph.len(),
                forall|v2: int, j2: int|
                    0 <= v2 < v && 0 <= j2 < graph[v2].len() ==> 0 <= #[trigger] graph[v2][j2]
                        < graph.len(),
            decreases entry.depends_on.len() - j,
        {
            let name = &entry.depends_on[j];
            proof {
                assert(tasks[v as int].depends_on[j as int] == name@);
                lemma_position(task_names(tasks), name@);
            }
            match find_task(entries, name) {
                Some(found) => {
                    list.push(found);
                },
                None => {
                    proof {
                        assert(is_first_unknown(tasks, v as int, j as int));
                    }
                    return Err(
                        OrderError::UnknownDependency {
                            task: entry.name.clone(),
                            dependency: name.clone(),
                        },
                    );
                },
            }
            j += 1;
        }
        proof {
            assert(ints(list@) =~= graph[v as int]);
        }
        deps.push(list);
        v += 1;
    }
    proof {
        let built = graph_of(deps.deep_view());
        assert(built.len() == graph.len());
        assert forall|v2: int| 0 <= v2 < built.len() implies built[v2] =~= graph[v2] by {
            assert(ints(deps@[v2]@) == graph[v2]);
            assert(deps.deep_view()[v2] =~= deps@[v2]@);
        }
        assert(built =~= graph);
    }
    Ok(deps)
}

/// The entries, put in the given order of their numbers.
fn arrange(entries: Vec<TaskEntry>, order: &Vec<usize>) -> (list: Vec<TaskEntry>)
    requires
        is_arrangement(ints(order@), entries.len() as nat),
    ensures
        list.deep_view() == arranged(entries.deep_view(), ints(order@)),
{
    let ghost tasks = entries.deep_view();
    let n = entries.len();
    let mut slots: Vec<Option<TaskEntry>> = Vec::new();
    for entry in it: entries
        invariant
            it.seq() == entries@,
            tasks == entries.deep_view(),
            slots.len() == it.index(),
            forall|i: int|
                0 <= i < slots.len() ==> (#[trigger] slots@[i]) is Some && slots@[i]->Some_0@
                    == tasks[i],
    {
        slots.push(Some(entry));
    }
    let mut list: Vec<TaskEntry> = Vec::new();
    let mut a: usize = 0;
    while a < order.len()
        invariant
            a <= order.len(),
            n == tasks.len(),
            slots.len() == n,
            is_arrangement(ints(order@), n as nat),
            list.len() == a,
            forall|b: int| 0 <= b < a ==> (#[trigger] list@[b])@ == tasks[order@[b] as int],
            forall|i: int|
                0 <= i < n && !ints(order@).take(a as int).contains(i) ==> (
                #[trigger] slots@[i]) is Some && slots@[i]->Some_0@ == tasks[i],
        decreases order.len() - a,
    {
        let ghost numbers = ints(order@);
        let v = order[a];
        proof {
            assert(0 <= numbers[a as int] < n);
            if numbers.take(a as int).contains(v as int) {
                let b = choose|b: int|
                    0 <= b < a && numbers.take(a as int)[b] == v as int;
                assert(numbers[b] == numbers[a as int]);
            }
        }
        let taken = slots[v].take();
        match taken {
            Some(entry) => {
                list.push(entry);
            },
            None => {},
        }
        proof {
            assert forall|i: int|
                0 <= i < n && !numbers.take(a + 1).contains(i) implies (#[trigger] slots@[i]) is Some
                && slots@[i]->Some_0@ == tasks[i] by {
                if numbers.take(a as int).contains(i) {
                    let b = choose|b: int| 0 <= b < a && numbers.take(a as int)[b] == i;
                    assert(numbers.take(a + 1)[b] == i);
                }
                assert(numbers.take(a + 1)[a as int] == v);
            }
        }
        a += 1;
    }
    proof {
        assert(list.deep_view() =~= arranged(tasks, ints(order@)));
    }
    list
}

/// Puts the tasks of a manifest in launch order: every task behind the
/// tasks it depends on, and at each place the first task of the manifest
/// among those not yet placed whose dependencies are all placed. A
/// dependency names the last task of its name. The first dependency that
/// names no task is an error, and so are dependencies that run in a circle.
pub fn topo_sort(entries: Vec<TaskEntry>) -> (sorted: Result<Vec<TaskEntry>, OrderError>)
    ensures
        match sorted {
            Ok(list) => {
                &&& all_known(entries.deep_view())
                &&& orderable(dependency_graph(entries.deep_view()))
                &&& !has_cycle(dependency_graph(entries.deep_view()))
                &&& is_launch_order(
                    dependency_graph(entries.deep_view()),
                    launch_order(dependency_graph(entries.deep_view())),
                )
                &&& list.deep_view() == arranged(
                    entries.deep_view(),
                    launch_order(dependency_graph(entries.deep_view())),
                )
            },
            Err(OrderError::UnknownDependency { task, dependency }) => {
                &&& !all_known(entries.deep_view())
                &&& exists|v: int, j: int|
                    is_first_unknown(entries.deep_view(), v, j) && task@
                        == #[trigger] entries@[v].name@ && dependency@
                        == #[trigger] entries@[v].depends_on@[j]@
            },
            Err(OrderError::Cycle) => {
                &&& all_known(entries.deep_view())
                &&& !orderable(dependency_graph(entries.deep_view()))
                &&& has_cycle(dependency_graph(entries.deep_view()))
            },
        },
{
    let ghost graph = dependency_graph(entries.deep_view());
    let deps = match dependency_indices(&entries) {
        Ok(deps) => deps,
        Err(error) => {
            return Err(error);
        },
    };
    match launch_order_of(&deps) {
        Some(order) => {
            proof {
                let found = ints(order@);
                assert(is_launch_order(graph, found));
                lemma_launch_order_unique(graph, found, launch_order(graph));
                lemma_cycle_or_order(graph);
            }
            Ok(arrange(entries, &order))
        },
        None => Err(OrderError::Cycle),
    }
}

} // verus!
