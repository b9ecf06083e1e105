use todo_store::store::TodoList;
use todo_store::task::StoreError;

#[test]
fn scenario_add_complete_list_remove() {
    let mut list = TodoList::new();

    let t1 = list.add_task_at_time(String::from("Buy milk"), 100).unwrap();
    assert_eq!(t1.id, 1);
    assert_eq!(t1.description, "Buy milk");
    assert!(!t1.completed);
    assert_eq!(t1.created_at, 100);
    assert_eq!(t1.completed_at, None);

    let t2 = list.add_task_at_time(String::from("Walk dog"), 200).unwrap();
    assert_eq!(t2.id, 2);

    assert!(list.complete_task_at_time(1, 300));
    let done = list.list_tasks(Some(true));
    assert_eq!(done.len(), 1);
    assert_eq!(done[0].id, 1);
    assert!(done[0].completed);
    assert_eq!(done[0].completed_at, Some(300));

    let pending = list.list_tasks(Some(false));
    assert_eq!(pending.len(), 1);
    assert_eq!(pending[0].id, 2);

    assert!(list.remove_task(2));
    let all = list.list_tasks(None);
    assert_eq!(all.len(), 1);
    assert_eq!(all[0].id, 1);
    assert!(all[0].completed);
}

#[test]
fn complete_on_empty_returns_false_and_writes_nothing_new() {
    let mut list = TodoList::new();
    let before = list.save();
    assert!(!list.complete_task_at_time(99, 1));
    let after = list.save();
    assert_eq!(before, after);
    assert_eq!(after, "[]");
}

#[test]
fn complete_missing_id_leaves_collection_unchanged() {
    let mut list = TodoList::new();
    list.add_task_at_time(String::from("one"), 10).unwrap();
    let before = list.save();
    assert!(!list.complete_task_at_time(5, 20));
    assert_eq!(list.save(), before);
}

#[test]
fn complete_again_overwrites_completion_time() {
    let mut list = TodoList::new();
    list.add_task_at_time(String::from("repeat"), 10).unwrap();
    assert!(list.complete_task_at_time(1, 20));
    assert!(list.complete_task_at_time(1, 30));
    let all = list.list_tasks(None);
    assert_eq!(all[0].completed_at, Some(30));
}

#[test]
fn remove_then_remove_again_returns_false() {
    let mut list = TodoList::new();
    list.add_task_at_time(String::from("one"), 1).unwrap();
    list.add_task_at_time(String::from("two"), 2).unwrap();
    assert!(list.remove_task(1));
    assert_eq!(list.list_tasks(None).len(), 1);
    assert!(!list.remove_task(1));
    assert_eq!(list.list_tasks(None).len(), 1);
}

#[test]
fn blank_descriptions_are_rejected() {
    let mut list = TodoList::new();
    assert_eq!(list.add_task_at_time(String::from(""), 1).unwrap_err(), StoreError::InvalidInput);
    assert_eq!(
        list.add_task_at_time(String::from(" \t\r\n "), 1).unwrap_err(),
        StoreError::InvalidInput
    );
    assert_eq!(list.list_tasks(None).len(), 0);
}

#[test]
fn removing_the_last_task_reuses_its_id() {
    // The next id comes from the last task in stored order, not from the
    // maximum: dropping the newest task frees its id for reuse.
    let mut list = TodoList::new();
    list.add_task_at_time(String::from("a"), 1).unwrap();
    list.add_task_at_time(String::from("b"), 2).unwrap();
    list.add_task_at_time(String::from("c"), 3).unwrap();
    assert!(list.remove_task(3));
    let t = list.add_task_at_time(String::from("d"), 4).unwrap();
    assert_eq!(t.id, 3);
}

#[test]
fn adds_alone_assign_distinct_increasing_ids() {
    let mut list = TodoList::new();
    for k in 0..5 {
        list.add_task_at_time(format!("task {}", k), k).unwrap();
    }
    let all = list.list_tasks(None);
    assert_eq!(all.len(), 5);
    for (pos, task) in all.iter().enumerate() {
        assert_eq!(task.id, pos as u64 + 1);
    }
}

#[test]
fn add_task_uses_the_clock() {
    let mut list = TodoList::new();
    let t = list.add_task(String::from("now")).unwrap();
    assert_eq!(t.id, 1);
    assert!(!t.completed);
    assert_eq!(t.completed_at, None);
    // A sanity bound only: some moment after 2020, well before the year 10000.
    assert!(t.created_at > 1577836800 && t.created_at < 253402300800);
}

#[test]
fn completed_count_counts_only_completed_tasks() {
    let mut list = TodoList::new();
    list.add_task_at_time(String::from("a"), 1).unwrap();
    list.add_task_at_time(String::from("b"), 2).unwrap();
    list.add_task_at_time(String::from("c"), 3).unwrap();
    assert_eq!(list.completed_count(), 0);
    assert!(list.complete_task_at_time(2, 9));
    assert_eq!(list.completed_count(), 1);
}
