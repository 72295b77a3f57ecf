use todo_list::TodoList;

#[test]
fn add_on_empty_list_assigns_id_one() {
    let mut list = TodoList::new();
    let task = list.add(String::from("buy milk"));
    assert_eq!(task.id, 1);
    assert_eq!(task.title, "buy milk");
    assert!(!task.completed);
    assert_eq!(list.items.len(), 1);
    assert_eq!(list.items[0].id, 1);
    assert_eq!(list.items[0].title, "buy milk");
    assert!(!list.items[0].completed);
}

#[test]
fn add_appends_without_touching_earlier_entries() {
    let mut list = TodoList::new();
    list.add(String::from("first"));
    list.add(String::from("second"));
    let task = list.add(String::from("third"));
    assert_eq!(task.id, 3);
    assert_eq!(list.items.len(), 3);
    assert_eq!(list.items[0].id, 1);
    assert_eq!(list.items[0].title, "first");
    assert_eq!(list.items[1].id, 2);
    assert_eq!(list.items[1].title, "second");
    assert_eq!(list.items[2].id, 3);
    assert_eq!(list.items[2].title, "third");
}

#[test]
fn complete_flips_only_the_matching_task() {
    let mut list = TodoList::new();
    list.add(String::from("a"));
    list.add(String::from("b"));
    list.add(String::from("c"));
    assert!(list.complete(2));
    assert!(!list.items[0].completed);
    assert!(list.items[1].completed);
    assert!(!list.items[2].completed);
    assert_eq!(list.items[1].id, 2);
    assert_eq!(list.items[1].title, "b");
    assert_eq!(list.items.len(), 3);
}

#[test]
fn complete_missing_id_reports_not_found_and_changes_nothing() {
    let mut list = TodoList::new();
    list.add(String::from("a"));
    assert!(!list.complete(7));
    assert_eq!(list.items.len(), 1);
    assert_eq!(list.items[0].id, 1);
    assert_eq!(list.items[0].title, "a");
    assert!(!list.items[0].completed);
}

#[test]
fn remove_drops_exactly_the_matching_task_in_order() {
    let mut list = TodoList::new();
    list.add(String::from("a"));
    list.add(String::from("b"));
    list.add(String::from("c"));
    assert!(list.remove(2));
    assert_eq!(list.items.len(), 2);
    assert_eq!(list.items[0].id, 1);
    assert_eq!(list.items[0].title, "a");
    assert_eq!(list.items[1].id, 3);
    assert_eq!(list.items[1].title, "c");
}

#[test]
fn remove_missing_id_reports_not_found_and_changes_nothing() {
    let mut list = TodoList::new();
    list.add(String::from("a"));
    list.add(String::from("b"));
    assert!(!list.remove(9));
    assert_eq!(list.items.len(), 2);
    assert_eq!(list.items[0].title, "a");
    assert_eq!(list.items[1].title, "b");
}

#[test]
fn remove_takes_the_first_match_on_duplicate_ids() {
    // Ids are assigned as length + 1, so a delete followed by an add
    // can leave two tasks with the same id; the first match wins.
    let mut list = TodoList::new();
    list.add(String::from("a"));
    list.add(String::from("b"));
    list.remove(1);
    list.add(String::from("c"));
    assert_eq!(list.items[0].id, 2);
    assert_eq!(list.items[1].id, 2);
    assert!(list.remove(2));
    assert_eq!(list.items.len(), 1);
    assert_eq!(list.items[0].title, "c");
}
