use notes_backend::{create_task, get_tasks, CallerId, TaskStore};

#[test]
fn fresh_store_returns_no_value() {
    let store = TaskStore::new().unwrap();
    let caller = CallerId::new(b"alice".to_vec());
    assert!(get_tasks(&store, &caller).is_none());
}

#[test]
fn scenario_two_tasks_then_other_caller_sees_nothing() {
    let mut store = TaskStore::new().unwrap();
    let first = CallerId::new(b"caller-one".to_vec());
    create_task(&mut store, &first, "Buy milk".to_string(), false, true);
    create_task(&mut store, &first, "Pay rent".to_string(), false, false);
    let got = get_tasks(&store, &first).unwrap();
    assert_eq!(got.len(), 2);
    assert_eq!(got[0].title, "Buy milk");
    assert!(!got[0].completed);
    assert!(got[0].important);
    assert_eq!(got[1].title, "Pay rent");
    assert!(!got[1].completed);
    assert!(!got[1].important);

    let second = CallerId::new(b"caller-two".to_vec());
    assert!(get_tasks(&store, &second).is_none());
}

#[test]
fn consecutive_creates_read_back_in_order() {
    let mut store = TaskStore::new().unwrap();
    let caller = CallerId::new(vec![7, 7, 7]);
    for i in 0..5 {
        create_task(&mut store, &caller, format!("task {}", i), i % 2 == 0, false);
    }
    let got = get_tasks(&store, &caller).unwrap();
    assert_eq!(got.len(), 5);
    for i in 0..5 {
        assert_eq!(got[i].title, format!("task {}", i));
        assert_eq!(got[i].completed, i % 2 == 0);
        assert!(!got[i].important);
    }
}

#[test]
fn tasks_are_isolated_between_callers() {
    let mut store = TaskStore::new().unwrap();
    let a = CallerId::new(b"a".to_vec());
    let b = CallerId::new(b"b".to_vec());
    create_task(&mut store, &a, "mine".to_string(), false, false);
    assert!(get_tasks(&store, &b).is_none());
    create_task(&mut store, &b, "yours".to_string(), true, true);
    let for_a = get_tasks(&store, &a).unwrap();
    assert_eq!(for_a.len(), 1);
    assert_eq!(for_a[0].title, "mine");
    let for_b = get_tasks(&store, &b).unwrap();
    assert_eq!(for_b.len(), 1);
    assert_eq!(for_b[0].title, "yours");
}

#[test]
fn repeated_reads_agree() {
    let mut store = TaskStore::new().unwrap();
    let caller = CallerId::new(b"reader".to_vec());
    create_task(&mut store, &caller, "only one".to_string(), true, false);
    let first = get_tasks(&store, &caller).unwrap();
    let second = get_tasks(&store, &caller).unwrap();
    assert_eq!(first.len(), second.len());
    for i in 0..first.len() {
        assert_eq!(first[i].title, second[i].title);
        assert_eq!(first[i].completed, second[i].completed);
        assert_eq!(first[i].important, second[i].important);
    }

    let absent = CallerId::new(b"nobody".to_vec());
    assert!(get_tasks(&store, &absent).is_none());
    assert!(get_tasks(&store, &absent).is_none());
}

#[test]
fn empty_title_task_stored_and_read() {
    let mut store = TaskStore::new().unwrap();
    let caller = CallerId::new(Vec::new());
    create_task(&mut store, &caller, String::new(), false, false);
    let got = get_tasks(&store, &caller).unwrap();
    assert_eq!(got.len(), 1);
    assert_eq!(got[0].title, "");
}
