use todo_store::codec::{decode_tasks, encode_tasks};
use todo_store::store::TodoList;
use todo_store::task::{StoreError, Task};

#[test]
fn empty_collection_encodes_as_empty_list() {
    let tasks: Vec<Task> = Vec::new();
    assert_eq!(encode_tasks(&tasks), "[]");
}

#[test]
fn one_task_encodes_to_the_exact_document() {
    let tasks = vec![
        Task {
            id: 1,
            description: String::from("Buy milk"),
            completed: false,
            created_at: 1700000000,
            completed_at: None,
        },
    ];
    let expected = "[\n  {\n    \"id\": 1,\n    \"description\": \"Buy milk\",\n    \
                    \"completed\": false,\n    \"created_at\": 1700000000,\n    \
                    \"completed_at\": null\n  }\n]";
    assert_eq!(encode_tasks(&tasks), expected);
}

#[test]
fn round_trip_keeps_every_field_and_the_order() {
    let tasks = vec![
        Task {
            id: u64::MAX,
            description: String::from("quote \" back \\ nl \n tab \t cr \r end"),
            completed: true,
            created_at: -5,
            completed_at: Some(i64::MIN),
        },
        Task {
            id: 1,
            description: String::from("plain"),
            completed: false,
            created_at: i64::MAX,
            completed_at: None,
        },
    ];
    let text = encode_tasks(&tasks);
    let back = decode_tasks(&text).unwrap();
    assert_eq!(back.len(), tasks.len());
    for (a, b) in tasks.iter().zip(back.iter()) {
        assert_eq!(a.id, b.id);
        assert_eq!(a.description, b.description);
        assert_eq!(a.completed, b.completed);
        assert_eq!(a.created_at, b.created_at);
        assert_eq!(a.completed_at, b.completed_at);
    }
}

#[test]
fn decoding_the_exact_document_recovers_the_escapes() {
    let text = "[\n  {\n    \"id\": 7,\n    \"description\": \"a\\nb\\tc\\\\d\\\"e\",\n    \
                \"completed\": true,\n    \"created_at\": -42,\n    \
                \"completed_at\": 99\n  }\n]";
    let back = decode_tasks(text).unwrap();
    assert_eq!(back.len(), 1);
    assert_eq!(back[0].id, 7);
    assert_eq!(back[0].description, "a\nb\tc\\d\"e");
    assert!(back[0].completed);
    assert_eq!(back[0].created_at, -42);
    assert_eq!(back[0].completed_at, Some(99));
}

#[test]
fn missing_file_loads_as_empty_collection() {
    let list = TodoList::load_tasks(None).unwrap();
    assert_eq!(list.list_tasks(None).len(), 0);
}

#[test]
fn empty_document_loads_as_empty_collection() {
    let list = TodoList::load_tasks(Some("[]")).unwrap();
    assert_eq!(list.list_tasks(None).len(), 0);
}

#[test]
fn corrupt_documents_fail_to_load() {
    assert_eq!(TodoList::load_tasks(Some("not json")).unwrap_err(), StoreError::CorruptStore);
    assert_eq!(TodoList::load_tasks(Some("{")).unwrap_err(), StoreError::CorruptStore);
    assert_eq!(TodoList::load_tasks(Some("")).unwrap_err(), StoreError::CorruptStore);
    assert_eq!(TodoList::load_tasks(Some("[]trailing")).unwrap_err(), StoreError::CorruptStore);
    assert_eq!(decode_tasks("[\n  {\n    \"id\": oops").unwrap_err(), StoreError::CorruptStore);
    let truncated = "[\n  {\n    \"id\": 1,\n    \"description\": \"unterminated";
    assert_eq!(decode_tasks(truncated).unwrap_err(), StoreError::CorruptStore);
}

#[test]
fn add_then_save_then_load_finds_the_added_task() {
    let mut list = TodoList::new();
    list.add_task_at_time(String::from("persisted"), 123).unwrap();
    let t = list.add_task_at_time(String::from("second"), 456).unwrap();
    let text = list.save();
    let fresh = TodoList::load_tasks(Some(&text)).unwrap();
    let all = fresh.list_tasks(None);
    assert_eq!(all.len(), 2);
    assert_eq!(all[1].id, t.id);
    assert_eq!(all[1].description, "second");
    assert_eq!(all[1].created_at, 456);
    assert!(!all[1].completed);
    assert_eq!(all[1].completed_at, None);
}

#[test]
fn load_accepts_whatever_ids_the_file_holds() {
    // Order and ids come from the file as they stand; they are not
    // re-validated on load.
    let text = "[\n  {\n    \"id\": 9,\n    \"description\": \"nine\",\n    \
                \"completed\": false,\n    \"created_at\": 1,\n    \
                \"completed_at\": null\n  },\n  {\n    \"id\": 2,\n    \
                \"description\": \"two\",\n    \"completed\": false,\n    \
                \"created_at\": 2,\n    \"completed_at\": null\n  }\n]";
    let list = TodoList::load_tasks(Some(text)).unwrap();
    let all = list.list_tasks(None);
    assert_eq!(all.len(), 2);
    assert_eq!(all[0].id, 9);
    assert_eq!(all[1].id, 2);
}
