use tequio::pidfile::{read_store, PidFile, Reaping, StoreAction};

fn written(action: StoreAction) -> String {
    match action {
        StoreAction::Write(text) => text,
        StoreAction::Remove => panic!("the store was to be written"),
    }
}

fn sorted(mut pids: Vec<u32>) -> Vec<u32> {
    pids.sort();
    pids
}

#[test]
fn new_registry_is_empty() {
    let registry = PidFile::new();
    assert!(registry.is_empty());
    assert_eq!(registry.pids(), Vec::<u32>::new());
    assert!(!registry.contains(1));
}

#[test]
fn store_file_name_is_fixed() {
    assert_eq!(PidFile::store_file_name(), "tequio-pids.txt");
}

#[test]
fn register_writes_the_registered_pids() {
    let mut registry = PidFile::new();
    assert_eq!(written(registry.register(41)), "41\n");
    let text = written(registry.register(7));
    assert_eq!(sorted(read_store(&text)), vec![7, 41]);
    assert!(text.ends_with('\n'));
    assert_eq!(text.lines().count(), 2);
    assert!(registry.contains(41));
    assert!(registry.contains(7));
    assert!(!registry.contains(8));
}

#[test]
fn register_twice_is_register_once() {
    let mut once = PidFile::new();
    let first = written(once.register(1234));
    let mut twice = PidFile::new();
    twice.register(1234);
    let second = written(twice.register(1234));
    assert_eq!(first, "1234\n");
    assert_eq!(second, "1234\n");
    assert_eq!(once.pids(), twice.pids());
}

#[test]
fn unregister_last_pid_removes_the_store() {
    let mut registry = PidFile::new();
    registry.register(5);
    assert_eq!(registry.unregister(5), StoreAction::Remove);
    assert!(registry.is_empty());
}

#[test]
fn unregister_keeps_the_others() {
    let mut registry = PidFile::new();
    registry.register(5);
    registry.register(6);
    assert_eq!(registry.unregister(5), StoreAction::Write("6\n".to_string()));
    assert!(!registry.contains(5));
    assert!(registry.contains(6));
}

#[test]
fn unregister_unknown_pid_changes_nothing() {
    let mut registry = PidFile::new();
    registry.register(5);
    assert_eq!(registry.unregister(9), StoreAction::Write("5\n".to_string()));
    assert_eq!(registry.pids(), vec![5]);
    let mut empty = PidFile::new();
    assert_eq!(empty.unregister(9), StoreAction::Remove);
}

#[test]
fn cleanup_kills_all_and_removes_the_store() {
    let mut registry = PidFile::new();
    registry.register(10);
    registry.register(20);
    registry.register(30);
    let reaping = registry.cleanup();
    assert_eq!(sorted(reaping.kill.clone()), vec![10, 20, 30]);
    assert!(reaping.remove_store);
    assert!(registry.is_empty());
    assert_eq!(registry.cleanup(), Reaping { kill: vec![], remove_store: true });
}

#[test]
fn read_store_skips_blank_and_unparseable_lines() {
    assert_eq!(read_store("12\n\n  34  \nabc\n-5\n56"), vec![12, 34, 56]);
    assert_eq!(read_store(""), Vec::<u32>::new());
    assert_eq!(read_store("\n\n"), Vec::<u32>::new());
    assert_eq!(read_store("1\r\n2\r\n"), vec![1, 2]);
    assert_eq!(read_store("4294967296\n4294967295\n+3\n"), vec![4294967295, 3]);
    assert_eq!(read_store("7\n7\n"), vec![7, 7]);
}

#[test]
fn read_store_agrees_with_std_lines() {
    let samples = ["1\n2\n3\n", "1\r\n 2 \r\nx\n\n3", "", "\n", "10 20\n30", "\u{3000}9\u{00A0}\n"];
    for text in samples {
        let expected: Vec<u32> =
            text.lines().filter_map(|line| line.trim().parse::<u32>().ok()).collect();
        assert_eq!(read_store(text), expected, "{:?}", text);
    }
}

#[test]
fn recovery_without_store_does_nothing() {
    let registry = PidFile::new();
    assert_eq!(
        registry.load_and_kill_existing(None),
        Reaping { kill: vec![], remove_store: false }
    );
}

#[test]
fn orphan_recovery_kills_stored_pids_and_removes_the_store() {
    let registry = PidFile::new();
    let reaping = registry.load_and_kill_existing(Some("4242\n"));
    assert_eq!(reaping, Reaping { kill: vec![4242], remove_store: true });
    assert!(registry.is_empty());
    let garbage = registry.load_and_kill_existing(Some("not a number\n"));
    assert_eq!(garbage, Reaping { kill: vec![], remove_store: true });
}

#[test]
fn written_store_is_read_back() {
    let mut registry = PidFile::new();
    let mut last = String::new();
    for pid in [3u32, 1, 4, 1, 5, 9, 2, 6, 4294967295, 0] {
        last = written(registry.register(pid));
    }
    assert_eq!(sorted(read_store(&last)), vec![0, 1, 2, 3, 4, 5, 6, 9, 4294967295]);
    assert_eq!(sorted(registry.pids()), vec![0, 1, 2, 3, 4, 5, 6, 9, 4294967295]);
}
