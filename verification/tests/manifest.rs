use tequio::config::{
    dependency_indices, find_task, names_in_list, parse_ini, property, task_of_section,
    tasks_of_sections, topo_sort, LoadError, OrderError, Section, TaskEntry,
};
use tequio::order::{graph_is_well_formed, launch_order_of};

fn entry(name: &str, deps: &[&str]) -> TaskEntry {
    TaskEntry {
        name: name.to_string(),
        command: format!("echo {}", name),
        work_dir: None,
        depends_on: deps.iter().map(|d| d.to_string()).collect(),
        ready_check: None,
    }
}

fn names(entries: &[TaskEntry]) -> Vec<String> {
    entries.iter().map(|e| e.name.clone()).collect()
}

fn section(name: Option<&str>, properties: &[(&str, &str)]) -> Section {
    Section {
        name: name.map(|n| n.to_string()),
        properties: properties.iter().map(|(k, v)| (k.to_string(), v.to_string())).collect(),
    }
}

fn sorted_names(entries: Vec<TaskEntry>) -> Vec<String> {
    names(&topo_sort(entries).unwrap())
}

#[test]
fn chain_is_ordered_dependency_first() {
    let sorted = topo_sort(vec![entry("b", &["a"]), entry("a", &[])]).unwrap();
    assert_eq!(names(&sorted), vec!["a", "b"]);
    assert_eq!(sorted[1], entry("b", &["a"]));
}

#[test]
fn cycle_is_rejected() {
    let sorted = topo_sort(vec![entry("a", &["b"]), entry("b", &["a"])]);
    assert_eq!(sorted, Err(OrderError::Cycle));
    assert_eq!(topo_sort(vec![entry("a", &["a"])]), Err(OrderError::Cycle));
    assert_eq!(
        topo_sort(vec![entry("x", &[]), entry("a", &["c"]), entry("b", &["a"]), entry("c", &["b"])]),
        Err(OrderError::Cycle)
    );
}

#[test]
fn unknown_dependency_names_task_and_dependency() {
    let sorted = topo_sort(vec![entry("a", &[]), entry("b", &["a", "ghost", "other"])]);
    assert_eq!(
        sorted,
        Err(OrderError::UnknownDependency { task: "b".to_string(), dependency: "ghost".to_string() })
    );
}

#[test]
fn unknown_dependency_comes_before_cycle() {
    let sorted = topo_sort(vec![entry("a", &["b"]), entry("b", &["a", "nobody"])]);
    assert_eq!(
        sorted,
        Err(OrderError::UnknownDependency { task: "b".to_string(), dependency: "nobody".to_string() })
    );
}

#[test]
fn order_error_messages() {
    let unknown =
        OrderError::UnknownDependency { task: "web".to_string(), dependency: "db".to_string() };
    assert_eq!(unknown.message(), "task 'web' depends on unknown task 'db'");
    assert_eq!(OrderError::Cycle.message(), "dependency cycle detected among tasks");
}

#[test]
fn independent_tasks_keep_manifest_order() {
    assert_eq!(
        sorted_names(vec![entry("c", &[]), entry("a", &[]), entry("b", &[])]),
        vec!["c", "a", "b"]
    );
    assert_eq!(topo_sort(vec![]), Ok(vec![]));
}

#[test]
fn ties_go_by_manifest_order() {
    let tasks = vec![
        entry("late", &["root2"]),
        entry("d", &["root1"]),
        entry("root1", &[]),
        entry("c", &["root1"]),
        entry("root2", &[]),
        entry("e", &["d", "c"]),
    ];
    assert_eq!(sorted_names(tasks), vec!["root1", "d", "c", "root2", "late", "e"]);
}

#[test]
fn freed_task_comes_before_later_free_task() {
    assert_eq!(
        sorted_names(vec![entry("b", &["a"]), entry("a", &[]), entry("c", &[])]),
        vec!["a", "b", "c"]
    );
    assert_eq!(launch_order_of(&vec![vec![1], vec![], vec![]]), Some(vec![1, 0, 2]));
    assert_eq!(
        launch_order_of(&vec![vec![4], vec![0], vec![], vec![2], vec![]]),
        Some(vec![2, 3, 4, 0, 1])
    );
}

#[test]
fn repeated_dependency_counts_once_for_the_order() {
    assert_eq!(
        sorted_names(vec![entry("b", &["a", "a"]), entry("a", &[]), entry("c", &["a", "b", "a"])]),
        vec!["a", "b", "c"]
    );
}

#[test]
fn dependency_names_the_last_task_of_a_name() {
    let tasks = vec![entry("x", &["dup"]), entry("dup", &["x"]), entry("dup", &[])];
    assert_eq!(find_task(&tasks, &"dup".to_string()), Some(2));
    assert_eq!(find_task(&tasks, &"x".to_string()), Some(0));
    assert_eq!(find_task(&tasks, &"none".to_string()), None);
    assert_eq!(dependency_indices(&tasks), Ok(vec![vec![2], vec![0], vec![]]));
    assert_eq!(sorted_names(tasks), vec!["dup", "x", "dup"]);
}

#[test]
fn launch_order_of_index_graphs() {
    assert_eq!(launch_order_of(&vec![]), Some(vec![]));
    assert_eq!(launch_order_of(&vec![vec![1], vec![]]), Some(vec![1, 0]));
    assert_eq!(launch_order_of(&vec![vec![1], vec![0]]), None);
    assert_eq!(
        launch_order_of(&vec![vec![3], vec![], vec![1], vec![1], vec![2, 3]]),
        Some(vec![1, 2, 3, 0, 4])
    );
    assert_eq!(launch_order_of(&vec![vec![], vec![2], vec![1]]), None);
}

#[test]
fn long_chain_in_reverse_manifest_order() {
    let mut tasks = Vec::new();
    for i in 0..50 {
        let name = format!("t{}", i);
        let next = format!("t{}", i + 1);
        if i == 49 {
            tasks.push(entry(&name, &[]));
        } else {
            tasks.push(entry(&name, &[&next]));
        }
    }
    let sorted = sorted_names(tasks);
    assert_eq!(sorted.len(), 50);
    assert_eq!(sorted[0], "t49");
    assert_eq!(sorted[49], "t0");
}

#[test]
fn manifest_text_gives_tasks_in_file_order() {
    let tasks = parse_ini(
        "[a]\ncommand=echo A\n[b]\ncommand=echo B\ndepends_on= a , c\nready_check=READY\n",
    )
    .unwrap();
    assert_eq!(tasks.len(), 2);
    assert_eq!(tasks[0].name, "a");
    assert_eq!(tasks[0].command, "echo A");
    assert_eq!(tasks[0].depends_on, Vec::<String>::new());
    assert_eq!(tasks[0].ready_check, None);
    assert_eq!(tasks[0].work_dir, None);
    assert_eq!(tasks[1].depends_on, vec!["a", "c"]);
    assert_eq!(tasks[1].ready_check.as_deref(), Some("READY"));
}

#[test]
fn manifest_skips_sections_without_command_or_name() {
    let tasks = parse_ini(
        "command=top\n; a comment\n# another\n\n[nocmd]\nwork_dir=/tmp\n[ok]\ncommand = run it\nwork_dir = /srv\nextra = 1\n[]\ncommand=anonymous\n",
    )
    .unwrap();
    assert_eq!(names(&tasks), vec!["ok"]);
    assert_eq!(tasks[0].command, "run it");
    assert_eq!(tasks[0].work_dir.as_deref(), Some("/srv"));
}

#[test]
fn manifest_agrees_with_the_ini_crate() {
    let text = "[one]\ncommand=a\ncommand=b\ndepends_on=\n[two]\ncommand : \"quoted; value\"\nready_check=x=y\n[one]\ncommand=again\n";
    let tasks = parse_ini(text).unwrap();
    let document = ini::Ini::load_from_str(text).unwrap();
    let mut expected = Vec::new();
    for (name, properties) in document.iter() {
        if let (Some(name), Some(command)) = (name, properties.get("command")) {
            expected.push((name.to_string(), command.to_string()));
        }
    }
    let got: Vec<(String, String)> =
        tasks.iter().map(|t| (t.name.clone(), t.command.clone())).collect();
    assert_eq!(got, expected);
    assert_eq!(names(&tasks), vec!["one", "two", "one"]);
    assert_eq!(tasks[0].command, "a");
    assert_eq!(tasks[0].depends_on, vec![""]);
    assert_eq!(tasks[1].command, "quoted; value");
    assert_eq!(tasks[1].ready_check.as_deref(), Some("x=y"));
    assert_eq!(tasks[2].command, "again");
}

#[test]
fn manifest_with_byte_order_mark() {
    let tasks = parse_ini("\u{feff}[a]\ncommand=x\n").unwrap();
    assert_eq!(names(&tasks), vec!["a"]);
    assert_eq!(parse_ini("").unwrap(), vec![]);
    assert_eq!(parse_ini("\u{feff}").unwrap(), vec![]);
}

#[test]
fn manifest_syntax_error() {
    match parse_ini("[a]\ncommand=x\n=novalue\n") {
        Err(LoadError::Syntax(cause)) => {
            assert_eq!(cause.line, 3);
            assert!(format!("{}", cause).len() > 0);
        }
        Ok(tasks) => panic!("accepted: {:?}", tasks),
    }
    assert!(parse_ini("[unclosed\ncommand=x\n").is_err());
}

#[test]
fn property_is_the_first_value_of_the_key() {
    let properties = vec![
        ("a".to_string(), "1".to_string()),
        ("b".to_string(), "2".to_string()),
        ("a".to_string(), "3".to_string()),
    ];
    assert_eq!(property(&properties, "a"), Some("1".to_string()));
    assert_eq!(property(&properties, "b"), Some("2".to_string()));
    assert_eq!(property(&properties, "c"), None);
    assert_eq!(property(&properties, "A"), None);
    assert_eq!(property(&vec![], "a"), None);
}

#[test]
fn names_in_list_are_trimmed() {
    assert_eq!(names_in_list("a, b ,c"), vec!["a", "b", "c"]);
    assert_eq!(names_in_list(""), vec![""]);
    assert_eq!(names_in_list(" x "), vec!["x"]);
    assert_eq!(names_in_list("a,,b,"), vec!["a", "", "b", ""]);
}

#[test]
fn task_of_section_cases() {
    assert_eq!(task_of_section(&section(None, &[("command", "x")])), None);
    assert_eq!(task_of_section(&section(Some(""), &[("command", "x")])), None);
    assert_eq!(task_of_section(&section(Some("a"), &[("work_dir", "/")])), None);
    assert_eq!(
        task_of_section(&section(
            Some("a"),
            &[("ready_check", "up"), ("command", "x"), ("depends_on", "b, c"), ("work_dir", "/w")]
        )),
        Some(TaskEntry {
            name: "a".to_string(),
            command: "x".to_string(),
            work_dir: Some("/w".to_string()),
            depends_on: vec!["b".to_string(), "c".to_string()],
            ready_check: Some("up".to_string()),
        })
    );
}

#[test]
fn tasks_of_sections_keep_order() {
    let sections = vec![
        section(None, &[]),
        section(Some("b"), &[("command", "2")]),
        section(Some("skip"), &[]),
        section(Some("a"), &[("command", "1")]),
    ];
    assert_eq!(names(&tasks_of_sections(&sections)), vec!["b", "a"]);
    assert_eq!(tasks_of_sections(&vec![]), vec![]);
}

#[test]
fn index_graph_soundness() {
    assert!(graph_is_well_formed(&vec![]));
    assert!(graph_is_well_formed(&vec![vec![1, 1, 0], vec![]]));
    assert!(!graph_is_well_formed(&vec![vec![2], vec![]]));
    assert!(!graph_is_well_formed(&vec![vec![], vec![0, 5]]));
}
