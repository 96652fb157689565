use notes_backend::{Task, TaskList};

#[test]
fn task_round_trip_all_flag_combinations() {
    let combos = [(false, false), (false, true), (true, false), (true, true)];
    for &(completed, important) in combos.iter() {
        let t = Task::new("Grüße 日本語 🚀".to_string(), completed, important);
        let bytes = t.to_bytes();
        let back = Task::from_bytes(&bytes).unwrap();
        assert_eq!(back.title, "Grüße 日本語 🚀");
        assert_eq!(back.completed, completed);
        assert_eq!(back.important, important);
    }
}

#[test]
fn task_round_trip_empty_title() {
    let t = Task::new(String::new(), true, true);
    let back = Task::from_bytes(&t.to_bytes()).unwrap();
    assert_eq!(back.title, "");
    assert!(back.completed);
    assert!(back.important);
}

#[test]
fn task_round_trip_very_long_title() {
    let title = "étrange✓".repeat(4096);
    let t = Task::new(title.clone(), false, true);
    let back = Task::from_bytes(&t.to_bytes()).unwrap();
    assert_eq!(back.title, title);
    assert!(!back.completed);
    assert!(back.important);
}

#[test]
fn task_encoding_exact_bytes() {
    let t = Task::new("A".to_string(), false, true);
    assert_eq!(t.to_bytes(), vec![0u8, 1, 1, 0, 0, 0, 0, 0, 0, 0, 0x41]);
}

#[test]
fn list_encoding_exact_bytes() {
    let mut l = TaskList::new();
    l.add_task(Task::new("A".to_string(), true, false));
    let expected = vec![
        1u8, // format tag
        1, 0, 0, 0, 0, 0, 0, 0, // one task
        1, 0, // completed, not important
        1, 0, 0, 0, 0, 0, 0, 0, // one title byte
        0x41,
    ];
    assert_eq!(l.to_bytes(), expected);
}

#[test]
fn list_round_trip_preserves_everything() {
    let mut l = TaskList::new();
    l.add_task(Task::new(String::new(), false, false));
    l.add_task(Task::new("Buy milk".to_string(), false, true));
    l.add_task(Task::new("日本語のメモ".to_string(), true, false));
    let bytes = l.to_bytes();
    let back = TaskList::from_bytes(&bytes).unwrap();
    let original = l.get_tasks();
    let decoded = back.get_tasks();
    assert_eq!(decoded.len(), original.len());
    for i in 0..original.len() {
        assert_eq!(decoded[i].title, original[i].title);
        assert_eq!(decoded[i].completed, original[i].completed);
        assert_eq!(decoded[i].important, original[i].important);
    }
}

#[test]
fn empty_list_round_trip() {
    let l = TaskList::new();
    let bytes = l.to_bytes();
    assert_eq!(bytes.len(), 9);
    let back = TaskList::from_bytes(&bytes).unwrap();
    assert_eq!(back.get_tasks().len(), 0);
}

#[test]
fn decode_rejects_empty_input() {
    assert!(TaskList::from_bytes(&Vec::new()).is_none());
    assert!(Task::from_bytes(&Vec::new()).is_none());
}

#[test]
fn decode_rejects_wrong_tag() {
    let mut bytes = TaskList::new().to_bytes();
    bytes[0] = 2;
    assert!(TaskList::from_bytes(&bytes).is_none());
}

#[test]
fn decode_rejects_truncated_input() {
    let mut l = TaskList::new();
    l.add_task(Task::new("Buy milk".to_string(), false, true));
    let mut bytes = l.to_bytes();
    bytes.pop();
    assert!(TaskList::from_bytes(&bytes).is_none());
}

#[test]
fn decode_rejects_trailing_bytes() {
    let mut l = TaskList::new();
    l.add_task(Task::new("Buy milk".to_string(), false, true));
    let mut bytes = l.to_bytes();
    bytes.push(0);
    assert!(TaskList::from_bytes(&bytes).is_none());
}

#[test]
fn decode_rejects_bad_flag_byte() {
    let mut bytes = Task::new("A".to_string(), false, true).to_bytes();
    bytes[0] = 2;
    assert!(Task::from_bytes(&bytes).is_none());
}

#[test]
fn decode_rejects_invalid_utf8_title() {
    let mut bytes = Task::new("A".to_string(), false, true).to_bytes();
    let last = bytes.len() - 1;
    bytes[last] = 0xff;
    assert!(Task::from_bytes(&bytes).is_none());
}
