use ostore::compact::optimize_records_ids;
use ostore::data::Record;

fn rec(what: &str, what_id: usize, location: &str, location_id: usize) -> Record {
    Record {
        created: "01/01/24".to_string(),
        location: location.to_string(),
        location_id,
        notes: "N/A".to_string(),
        updated: "01/01/24".to_string(),
        what: what.to_string(),
        what_id,
    }
}

#[test]
fn compaction_maps_ids_to_their_rank() {
    let mut records = vec![rec("a", 5, "x", 2), rec("b", 7, "y", 9)];
    optimize_records_ids(&mut records);
    assert_eq!(records[0].what_id, 1);
    assert_eq!(records[0].location_id, 0);
    assert_eq!(records[1].what_id, 2);
    assert_eq!(records[1].location_id, 3);
    assert_eq!(records[0].what, "a");
    assert_eq!(records[1].location, "y");
}

#[test]
fn compaction_is_idempotent() {
    let mut once = vec![rec("a", 10, "x", 3), rec("b", 4, "x", 3), rec("c", 20, "b", 4)];
    optimize_records_ids(&mut once);
    let mut twice = once.clone();
    optimize_records_ids(&mut twice);
    assert_eq!(once, twice);
}

#[test]
fn compaction_preserves_id_order() {
    let mut records = vec![rec("a", 30, "x", 3), rec("b", 14, "y", 90)];
    optimize_records_ids(&mut records);
    // 3 < 14 < 30 < 90 before; the images keep that order.
    assert!(records[0].location_id < records[1].what_id);
    assert!(records[1].what_id < records[0].what_id);
    assert!(records[0].what_id < records[1].location_id);
}

#[test]
fn compaction_yields_a_dense_range() {
    let mut records = vec![rec("a", 5, "x", 2), rec("b", 7, "y", 9), rec("c", 11, "x", 2)];
    optimize_records_ids(&mut records);
    let mut ids: Vec<usize> = Vec::new();
    for r in &records {
        if !ids.contains(&r.what_id) {
            ids.push(r.what_id);
        }
        if !ids.contains(&r.location_id) {
            ids.push(r.location_id);
        }
    }
    ids.sort();
    assert_eq!(ids, vec![0, 1, 2, 3, 4]);
}

#[test]
fn shared_ids_are_remapped_consistently() {
    let mut records = vec![rec("a", 5, "x", 2), rec("b", 7, "a", 5)];
    optimize_records_ids(&mut records);
    assert_eq!(records[0].what_id, records[1].location_id);
}

#[test]
fn compaction_of_empty_store_is_a_no_op() {
    let mut records: Vec<Record> = Vec::new();
    optimize_records_ids(&mut records);
    assert!(records.is_empty());
}

#[test]
fn already_dense_store_is_untouched() {
    let mut records = vec![rec("a", 0, "x", 1), rec("b", 2, "y", 3)];
    let before = records.clone();
    optimize_records_ids(&mut records);
    assert_eq!(records, before);
}
