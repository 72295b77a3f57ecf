use todo_list::TodoList;

fn sample_list() -> TodoList {
    let mut list = TodoList::new();
    list.add(String::from("buy milk"));
    list.add(String::from("say \"hi\""));
    list.add(String::from("back\\slash"));
    list.add(String::from("할 일"));
    list.add(String::from(""));
    list.complete(2);
    list
}

#[test]
fn load_from_missing_file_yields_empty_list() {
    let loaded = TodoList::load_from(None).unwrap();
    assert_eq!(loaded.items.len(), 0);
}

#[test]
fn save_then_load_round_trips_content_and_order() {
    let list = sample_list();
    let text = list.save_string();
    let loaded = TodoList::load_from(Some(&text)).unwrap();
    assert_eq!(loaded.items.len(), list.items.len());
    for (a, b) in list.items.iter().zip(loaded.items.iter()) {
        assert_eq!(a.id, b.id);
        assert_eq!(a.title, b.title);
        assert_eq!(a.completed, b.completed);
    }
}

#[test]
fn empty_list_round_trips() {
    let list = TodoList::new();
    let text = list.save_string();
    assert_eq!(text, "{\"items\":[]}");
    let loaded = TodoList::load_from(Some(&text)).unwrap();
    assert_eq!(loaded.items.len(), 0);
}

#[test]
fn save_string_writes_the_canonical_text() {
    let mut list = TodoList::new();
    list.add(String::from("a"));
    list.add(String::from("b"));
    list.complete(1);
    assert_eq!(
        list.save_string(),
        "{\"items\":[{\"id\":1,\"title\":\"a\",\"completed\":true},{\"id\":2,\"title\":\"b\",\"completed\":false}]}"
    );
}

#[test]
fn load_rejects_text_that_is_not_the_format() {
    assert!(TodoList::load_from(Some("garbage")).is_err());
    assert!(TodoList::load_from(Some("")).is_err());
    assert!(TodoList::load_from(Some("{\"items\":[]")).is_err());
    assert!(TodoList::load_from(Some("{\"items\":[]} ")).is_err());
    assert!(TodoList::load_from(Some("{\"items\":[{\"id\":x,\"title\":\"a\",\"completed\":false}]}")).is_err());
    assert!(TodoList::load_from(Some("{\"items\":[{\"id\":1,\"title\":\"a\",\"completed\":maybe}]}")).is_err());
    assert!(TodoList::load_from(Some("{ \"items\": [] }")).is_err());
}

#[test]
fn load_rejects_an_id_too_large_for_the_machine() {
    let text = "{\"items\":[{\"id\":99999999999999999999999999,\"title\":\"a\",\"completed\":false}]}";
    assert!(TodoList::load_from(Some(text)).is_err());
}

#[test]
fn load_accepts_the_canonical_text() {
    let text = "{\"items\":[{\"id\":1,\"title\":\"say \\\"hi\\\"\",\"completed\":true}]}";
    let loaded = TodoList::load_from(Some(text)).unwrap();
    assert_eq!(loaded.items.len(), 1);
    assert_eq!(loaded.items[0].id, 1);
    assert_eq!(loaded.items[0].title, "say \"hi\"");
    assert!(loaded.items[0].completed);
}

#[test]
fn saved_text_is_valid_json_with_the_expected_fields() {
    let list = sample_list();
    let text = list.save_string();
    let value: serde_json::Value = serde_json::from_str(&text).unwrap();
    let items = value.get("items").unwrap().as_array().unwrap();
    assert_eq!(items.len(), list.items.len());
    for (item, json) in list.items.iter().zip(items.iter()) {
        assert_eq!(json.get("id").unwrap().as_u64().unwrap(), item.id as u64);
        assert_eq!(json.get("title").unwrap().as_str().unwrap(), item.title);
        assert_eq!(json.get("completed").unwrap().as_bool().unwrap(), item.completed);
    }
}
