use todo_list::registry::{TodoError, TodoList};
use todo_list::task::Task;

fn snapshot(list: &TodoList) -> Vec<(u32, String, bool)> {
    let mut v: Vec<(u32, String, bool)> = list
        .entries()
        .into_iter()
        .map(|(id, t)| (id, t.task_description, t.is_completed))
        .collect();
    v.sort();
    v
}

#[test]
fn new_task_is_not_completed() {
    let t = Task::new("read".to_string());
    assert_eq!(t.task_description, "read");
    assert!(!t.is_completed);
}

#[test]
fn new_list_is_empty() {
    let list = TodoList::new();
    assert!(list.is_empty());
    assert!(snapshot(&list).is_empty());
    assert_eq!(list.next_id(), Some(1));
}

#[test]
fn adds_number_from_one() {
    let mut list = TodoList::new();
    assert_eq!(list.add_task("a".to_string()), 1);
    assert_eq!(list.add_task("b".to_string()), 2);
    assert_eq!(list.add_task("c".to_string()), 3);
    assert_eq!(
        snapshot(&list),
        vec![
            (1, "a".to_string(), false),
            (2, "b".to_string(), false),
            (3, "c".to_string(), false)
        ]
    );
    assert!(!list.is_empty());
}

#[test]
fn deleting_top_id_lets_it_be_reused() {
    let mut list = TodoList::new();
    list.add_task("a".to_string());
    list.add_task("b".to_string());
    list.add_task("c".to_string());
    assert_eq!(list.delete_task(3), Ok(()));
    assert_eq!(list.add_task("d".to_string()), 3);
    assert_eq!(
        snapshot(&list),
        vec![
            (1, "a".to_string(), false),
            (2, "b".to_string(), false),
            (3, "d".to_string(), false)
        ]
    );
}

#[test]
fn interior_gap_is_not_filled() {
    let mut list = TodoList::new();
    list.add_task("a".to_string());
    list.add_task("b".to_string());
    list.add_task("c".to_string());
    assert_eq!(list.delete_task(2), Ok(()));
    assert_eq!(list.add_task("d".to_string()), 4);
    assert!(!list.contains(2));
}

#[test]
fn deleting_top_over_a_gap_goes_below_it() {
    let mut list = TodoList::new();
    list.add_task("a".to_string());
    list.add_task("b".to_string());
    list.add_task("c".to_string());
    list.delete_task(2).unwrap();
    list.delete_task(3).unwrap();
    assert_eq!(list.add_task("d".to_string()), 2);
}

#[test]
fn missing_id_is_not_found_and_changes_nothing() {
    let mut list = TodoList::new();
    list.add_task("a".to_string());
    let before = snapshot(&list);
    assert_eq!(list.delete_task(7), Err(TodoError::NotFound));
    assert_eq!(list.edit_task(7, "x".to_string()), Err(TodoError::NotFound));
    assert_eq!(list.mark_as_completed(7), Err(TodoError::NotFound));
    assert_eq!(snapshot(&list), before);
}

#[test]
fn operations_on_empty_list_are_not_found() {
    let mut list = TodoList::new();
    assert_eq!(list.delete_task(1), Err(TodoError::NotFound));
    assert_eq!(list.edit_task(1, "x".to_string()), Err(TodoError::NotFound));
    assert_eq!(list.mark_as_completed(1), Err(TodoError::NotFound));
    assert!(list.is_empty());
}

#[test]
fn edit_keeps_completion() {
    let mut list = TodoList::new();
    list.add_task("a".to_string());
    list.mark_as_completed(1).unwrap();
    assert_eq!(list.edit_task(1, "b".to_string()), Ok(()));
    assert_eq!(snapshot(&list), vec![(1, "b".to_string(), true)]);
}

#[test]
fn complete_twice_is_complete_once() {
    let mut once = TodoList::new();
    once.add_task("a".to_string());
    once.add_task("b".to_string());
    let mut twice = TodoList::new();
    twice.add_task("a".to_string());
    twice.add_task("b".to_string());
    assert_eq!(once.mark_as_completed(2), Ok(()));
    assert_eq!(twice.mark_as_completed(2), Ok(()));
    assert_eq!(twice.mark_as_completed(2), Ok(()));
    assert_eq!(snapshot(&once), snapshot(&twice));
    assert_eq!(
        snapshot(&twice),
        vec![(1, "a".to_string(), false), (2, "b".to_string(), true)]
    );
}

#[test]
fn delete_removes_only_that_task() {
    let mut list = TodoList::new();
    list.add_task("a".to_string());
    list.add_task("b".to_string());
    assert_eq!(list.delete_task(1), Ok(()));
    assert_eq!(snapshot(&list), vec![(2, "b".to_string(), false)]);
    assert_eq!(list.delete_task(2), Ok(()));
    assert!(list.is_empty());
    assert_eq!(list.add_task("c".to_string()), 1);
}

#[test]
fn largest_id_blocks_next_id() {
    let mut list = TodoList::new();
    assert_eq!(list.import_text("4294967295|||last|||false\n"), Ok(()));
    assert!(list.contains(u32::MAX));
    assert_eq!(list.next_id(), None);
    assert_eq!(list.import_text("4294967294|||almost|||false\n"), Ok(()));
    assert_eq!(list.next_id(), Some(u32::MAX));
    assert_eq!(list.add_task("x".to_string()), u32::MAX);
}
