use ostore::data::get_context;
use ostore::data::Record;
use ostore::edit::edit_fields_from_tokens;
use ostore::edit::edit_records;
use ostore::edit::get_empty_notes_text;
use ostore::edit::get_full_contents;
use ostore::edit::insert_record;
use ostore::edit::remove_record;
use ostore::errors::Error;

fn rec(what: &str, what_id: usize, location: &str, location_id: usize) -> Record {
    Record {
        created: "01/01/24".to_string(),
        location: location.to_string(),
        location_id,
        notes: "N/A".to_string(),
        updated: "01/01/24".to_string(),
        what: what.to_string(),
        what_id,
    }
}

fn strings(tokens: &[&str]) -> Vec<String> {
    tokens.iter().map(|t| t.to_string()).collect()
}

#[test]
fn assembles_fields_from_tokens() {
    let fields = get_full_contents(&strings(&["Big", "Laptop", "$", "Room", "X", "$", "note"]));
    assert_eq!(fields, vec!["Big Laptop", "Room X", "note"]);
}

#[test]
fn sentinel_yields_empty_field() {
    let fields = get_full_contents(&strings(&["a", "$", "$", "c"]));
    assert_eq!(fields, vec!["a", "", "c"]);
}

#[test]
fn edit_tokens_reject_leading_sentinel() {
    assert_eq!(edit_fields_from_tokens(&strings(&["$", "x"])), Err(Error::Input));
    assert_eq!(
        edit_fields_from_tokens(&strings(&["a", "b"])),
        Ok(vec!["a b".to_string()])
    );
}

#[test]
fn insert_then_find() {
    let mut records: Vec<Record> = Vec::new();
    let r = insert_record(
        &mut records,
        &"Laptop".to_string(),
        &"Room".to_string(),
        None,
        &"02/01/24".to_string(),
    )
    .unwrap();
    assert_eq!(records.len(), 1);
    assert_eq!(r.what, "Laptop");
    assert_eq!(r.location, "Room");
    assert_ne!(r.what_id, r.location_id);
    assert_eq!(r.notes, "N/A");
    assert_eq!(r.created, "02/01/24");
    let ctx = get_context(&records);
    let idx = ctx.lookup_idx(r.what_id).unwrap();
    assert_eq!(records[idx].what, "Laptop");
}

#[test]
fn duplicate_what_is_rejected_and_store_unchanged() {
    let mut records = vec![rec("Laptop", 5, "Room", 2)];
    let before = vec![rec("Laptop", 5, "Room", 2)];
    let res = insert_record(
        &mut records,
        &"Laptop".to_string(),
        &"Desk".to_string(),
        None,
        &"02/01/24".to_string(),
    );
    assert_eq!(res, Err(Error::Conflict("Laptop".to_string())));
    assert_eq!(records, before);
}

#[test]
fn numeric_what_resolving_to_existing_name_conflicts() {
    let mut records = vec![rec("Laptop", 5, "Room", 2)];
    let res = insert_record(
        &mut records,
        &"5".to_string(),
        &"Desk".to_string(),
        None,
        &"02/01/24".to_string(),
    );
    assert_eq!(res, Err(Error::Conflict("Laptop".to_string())));
    assert_eq!(records.len(), 1);
}

#[test]
fn insert_unknown_numeric_id_fails() {
    let mut records = vec![rec("Laptop", 5, "Room", 2)];
    let res = insert_record(
        &mut records,
        &"9".to_string(),
        &"Desk".to_string(),
        None,
        &"02/01/24".to_string(),
    );
    assert_eq!(res, Err(Error::NotFound(9)));
    assert_eq!(records.len(), 1);
}

#[test]
fn insert_resolves_numeric_location() {
    let mut records = vec![rec("Laptop", 5, "Room", 2)];
    let r = insert_record(
        &mut records,
        &"Desk".to_string(),
        &"5".to_string(),
        Some("wooden".to_string()),
        &"02/01/24".to_string(),
    )
    .unwrap();
    assert_eq!(r.what_id, 6);
    assert_eq!(r.location, "Laptop");
    assert_eq!(r.location_id, 5);
    assert_eq!(r.notes, "wooden");
}

#[test]
fn fresh_ids_of_one_insert_never_collide() {
    let mut records = vec![rec("Laptop", 5, "Room", 2)];
    let r = insert_record(
        &mut records,
        &"Desk".to_string(),
        &"Hall".to_string(),
        None,
        &"02/01/24".to_string(),
    )
    .unwrap();
    assert_eq!(r.what_id, 6);
    assert_eq!(r.location_id, 7);
}

#[test]
fn rename_propagates_to_dependent_records() {
    let mut records = vec![rec("Laptop", 5, "Room", 2), rec("Charger", 7, "Laptop", 5)];
    let res = edit_records(
        &mut records,
        5,
        &strings(&["Notebook"]),
        &"03/01/24".to_string(),
    );
    assert_eq!(res, Ok(()));
    assert_eq!(records[0].what, "Notebook");
    assert_eq!(records[0].what_id, 8);
    assert_eq!(records[0].location, "Room");
    assert_eq!(records[0].updated, "03/01/24");
    assert_eq!(records[1].location, "Notebook");
    assert_eq!(records[1].location_id, 8);
    assert_eq!(records[1].what, "Charger");
    assert_eq!(records[1].updated, "01/01/24");
}

#[test]
fn edit_location_and_notes_fields() {
    let mut records = vec![rec("Laptop", 5, "Room", 2)];
    let res = edit_records(
        &mut records,
        5,
        &strings(&["_", "Hall", "fragile"]),
        &"03/01/24".to_string(),
    );
    assert_eq!(res, Ok(()));
    assert_eq!(records[0].what, "Laptop");
    assert_eq!(records[0].what_id, 5);
    assert_eq!(records[0].location, "Hall");
    assert_eq!(records[0].location_id, 6);
    assert_eq!(records[0].notes, "fragile");
    assert_eq!(records[0].updated, "03/01/24");
}

#[test]
fn dash_resets_notes_to_placeholder() {
    let mut records = vec![rec("Laptop", 5, "Room", 2)];
    records[0].notes = "old note".to_string();
    let res = edit_records(
        &mut records,
        5,
        &strings(&["_", "_", "-"]),
        &"03/01/24".to_string(),
    );
    assert_eq!(res, Ok(()));
    assert_eq!(records[0].notes, "N/A");
    assert_eq!(get_empty_notes_text(), "N/A");
}

#[test]
fn edit_numeric_what_naming_another_record_conflicts() {
    let mut records = vec![rec("Laptop", 5, "Room", 2), rec("Charger", 7, "Desk", 3)];
    let res = edit_records(&mut records, 7, &strings(&["5"]), &"03/01/24".to_string());
    assert_eq!(res, Err(Error::Conflict("Laptop".to_string())));
    assert_eq!(records[1].what, "Charger");
}

#[test]
fn location_only_node_rename_retargets_all_pointers() {
    let mut records = vec![rec("Laptop", 5, "Room", 2), rec("Chair", 6, "Room", 2)];
    let res = edit_records(&mut records, 2, &strings(&["Shelf"]), &"03/01/24".to_string());
    assert_eq!(res, Ok(()));
    assert_eq!(records[0].location, "Shelf");
    assert_eq!(records[0].location_id, 7);
    assert_eq!(records[1].location, "Shelf");
    assert_eq!(records[1].location_id, 7);
    assert_eq!(records[0].updated, "01/01/24");
}

#[test]
fn location_only_node_takes_exactly_one_field() {
    let mut records = vec![rec("Laptop", 5, "Room", 2)];
    let res = edit_records(
        &mut records,
        2,
        &strings(&["Shelf", "Extra"]),
        &"03/01/24".to_string(),
    );
    assert_eq!(res, Err(Error::Input));
    assert_eq!(records[0].location, "Room");
}

#[test]
fn edit_unknown_id_fails() {
    let mut records = vec![rec("Laptop", 5, "Room", 2)];
    let res = edit_records(&mut records, 99, &strings(&["x"]), &"03/01/24".to_string());
    assert_eq!(res, Err(Error::NotFound(99)));
}

#[test]
fn remove_deletes_only_the_owning_record() {
    let mut records = vec![rec("Laptop", 5, "Room", 2), rec("Charger", 7, "Laptop", 5)];
    let res = remove_record(&mut records, 5);
    assert_eq!(res, Ok(()));
    assert_eq!(records.len(), 1);
    assert_eq!(records[0].what, "Charger");
    assert_eq!(records[0].location_id, 5);
}

#[test]
fn remove_unknown_id_fails() {
    let mut records = vec![rec("Laptop", 5, "Room", 2)];
    assert_eq!(remove_record(&mut records, 2), Err(Error::NotFound(2)));
    assert_eq!(records.len(), 1);
}

#[test]
fn hierarchy_of_one_record() {
    let records = vec![rec("Laptop", 5, "Room", 2)];
    let ctx = get_context(&records);
    let node5 = ctx.forest_node(5).unwrap();
    assert_eq!(node5.parent, Some(2));
    assert!(node5.children.is_empty());
    let node2 = ctx.forest_node(2).unwrap();
    assert_eq!(node2.parent, None);
    assert_eq!(node2.children, vec![5]);
    assert_eq!(ctx.max_id, 5);
    assert_eq!(ctx.lookup_idx(5), Some(0));
    assert_eq!(ctx.lookup_idx(2), None);
    assert_eq!(ctx.lookup_str_to_id(&"Room".to_string()), Some(2));
    assert_eq!(ctx.lookup_id_to_str(2), Some("Room".to_string()));
}
