use todo_list::TodoList;
use todo_list::command::Command;
use todo_list::command::execute;

#[test]
fn listing_an_empty_list_prints_the_placeholder_line_only() {
    let list = TodoList::new();
    let lines = list.render_lines();
    assert_eq!(lines.len(), 1);
    assert_eq!(lines[0], "  (비어 있음)");
}

#[test]
fn a_task_line_shows_marker_id_and_title() {
    let mut list = TodoList::new();
    list.add(String::from("buy milk"));
    let lines = list.render_lines();
    assert_eq!(lines.len(), 1);
    assert_eq!(lines[0], "   [ ]  1 - buy milk");
    list.complete(1);
    let lines = list.render_lines();
    assert_eq!(lines[0], "  [x] 1 - buy milk");
}

#[test]
fn add_reports_the_assigned_id_and_title_and_asks_for_a_save() {
    let mut list = TodoList::new();
    let outcome = execute(&mut list, Command::Add { title: String::from("buy milk") });
    assert!(outcome.save_needed);
    assert_eq!(outcome.lines.len(), 1);
    assert_eq!(outcome.lines[0], "할 일이 추가되었습니다: [1] buy milk");
}

#[test]
fn complete_and_delete_on_a_missing_id_do_not_ask_for_a_save() {
    let mut list = TodoList::new();
    list.add(String::from("a"));
    let outcome = execute(&mut list, Command::Complete { id: 9 });
    assert!(!outcome.save_needed);
    assert_eq!(outcome.lines[0], "ID 9번 할 일을 찾을 수 없습니다.");
    let outcome = execute(&mut list, Command::Delete { id: 9 });
    assert!(!outcome.save_needed);
    assert_eq!(outcome.lines[0], "ID 9번 할 일을 찾을 수 없습니다.");
    assert_eq!(list.items.len(), 1);
}

#[test]
fn end_to_end_scenario_add_complete_delete() {
    let mut list = TodoList::new();

    execute(&mut list, Command::Add { title: String::from("a") });
    execute(&mut list, Command::Add { title: String::from("b") });
    let outcome = execute(&mut list, Command::List);
    assert!(!outcome.save_needed);
    assert_eq!(outcome.lines.len(), 2);
    assert_eq!(outcome.lines[0], "   [ ]  1 - a");
    assert_eq!(outcome.lines[1], "   [ ]  2 - b");

    let outcome = execute(&mut list, Command::Complete { id: 1 });
    assert!(outcome.save_needed);
    assert_eq!(outcome.lines[0], "할 일이 완료되었습니다");
    let outcome = execute(&mut list, Command::List);
    assert_eq!(outcome.lines[0], "  [x] 1 - a");
    assert_eq!(outcome.lines[1], "   [ ]  2 - b");

    let outcome = execute(&mut list, Command::Delete { id: 2 });
    assert!(outcome.save_needed);
    assert_eq!(outcome.lines[0], "삭제되었습니다: ID 2");
    let outcome = execute(&mut list, Command::List);
    assert_eq!(outcome.lines.len(), 1);
    assert_eq!(outcome.lines[0], "  [x] 1 - a");
}

#[test]
fn a_mutating_run_persists_and_reloads_what_it_showed() {
    let mut list = TodoList::new();
    execute(&mut list, Command::Add { title: String::from("a") });
    execute(&mut list, Command::Complete { id: 1 });
    let text = list.save_string();
    let reloaded = TodoList::load_from(Some(&text)).unwrap();
    assert_eq!(reloaded.items.len(), 1);
    assert_eq!(reloaded.items[0].id, 1);
    assert_eq!(reloaded.items[0].title, "a");
    assert!(reloaded.items[0].completed);
}
