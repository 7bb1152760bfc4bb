use ostore::csv_io::export_csv_rows;
use ostore::csv_io::import_csv_records;
use ostore::csv_io::CsvRecord;
use ostore::data::Record;
use ostore::errors::Error;

fn row(what: &str, location: &str, updated: &str, notes: &str) -> CsvRecord {
    CsvRecord {
        what: what.to_string(),
        location: location.to_string(),
        updated: updated.to_string(),
        notes: notes.to_string(),
    }
}

#[test]
fn import_resolves_locations_and_compacts() {
    let rows = vec![row("Laptop", "Room", "01/01/24", "N/A"), row("Charger", "Laptop", "02/01/24", "spare")];
    let records = import_csv_records(&rows).unwrap();
    assert_eq!(records.len(), 2);
    assert_eq!(records[0].what, "Laptop");
    assert_eq!(records[0].what_id, 0);
    assert_eq!(records[0].location, "Room");
    assert_eq!(records[0].location_id, 2);
    assert_eq!(records[0].created, "01/01/24");
    assert_eq!(records[1].what, "Charger");
    assert_eq!(records[1].what_id, 1);
    assert_eq!(records[1].location, "Laptop");
    assert_eq!(records[1].location_id, 0);
    assert_eq!(records[1].notes, "spare");
}

#[test]
fn import_shares_location_ids_by_first_occurrence() {
    let rows = vec![
        row("a", "Shelf", "01/01/24", "N/A"),
        row("b", "Shelf", "01/01/24", "N/A"),
        row("c", "Other", "01/01/24", "N/A"),
    ];
    let records = import_csv_records(&rows).unwrap();
    assert_eq!(records[0].location_id, records[1].location_id);
    assert_ne!(records[0].location_id, records[2].location_id);
    let mut ids: Vec<usize> = Vec::new();
    for r in &records {
        if !ids.contains(&r.what_id) {
            ids.push(r.what_id);
        }
        if !ids.contains(&r.location_id) {
            ids.push(r.location_id);
        }
    }
    ids.sort();
    assert_eq!(ids, vec![0, 1, 2, 3, 4]);
}

#[test]
fn import_rejects_duplicate_what() {
    let rows = vec![row("Laptop", "Room", "01/01/24", "N/A"), row("Laptop", "Desk", "01/01/24", "N/A")];
    assert_eq!(import_csv_records(&rows), Err(Error::Conflict("Laptop".to_string())));
}

#[test]
fn export_writes_one_row_per_record_in_order() {
    let records = vec![
        Record {
            created: "01/01/24".to_string(),
            location: "Room".to_string(),
            location_id: 2,
            notes: "N/A".to_string(),
            updated: "02/01/24".to_string(),
            what: "Laptop".to_string(),
            what_id: 5,
        },
    ];
    let rows = export_csv_rows(&records);
    assert_eq!(rows, vec![row("Laptop", "Room", "02/01/24", "N/A")]);
}
