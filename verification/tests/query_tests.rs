use ostore::data::get_context;
use ostore::data::Record;
use ostore::query::list_leaf_records;
use ostore::query::list_root_locations;
use ostore::query::render_tree_line;
use ostore::query::search_records;

fn rec(what: &str, what_id: usize, location: &str, location_id: usize) -> Record {
    Record {
        created: "01/01/24".to_string(),
        location: location.to_string(),
        location_id,
        notes: "N/A".to_string(),
        updated: "02/01/24".to_string(),
        what: what.to_string(),
        what_id,
    }
}

fn sample() -> Vec<Record> {
    vec![rec("Laptop", 5, "Room", 2), rec("Charger", 7, "Laptop", 5)]
}

fn strings(tokens: &[&str]) -> Vec<String> {
    tokens.iter().map(|t| t.to_string()).collect()
}

#[test]
fn search_matches_substrings_case_insensitively() {
    let records = sample();
    let hits = search_records(&records, &strings(&["LAP"]), false, false);
    assert_eq!(hits.len(), 2);
    assert_eq!(hits[0].what, "Laptop");
    assert_eq!(hits[1].what, "Charger");
}

#[test]
fn search_matches_numeric_ids() {
    let records = sample();
    let hits = search_records(&records, &strings(&["7"]), false, false);
    assert_eq!(hits.len(), 1);
    assert_eq!(hits[0].what, "Charger");
}

#[test]
fn search_skip_flags_disable_one_side() {
    let records = sample();
    let skip_loc = search_records(&records, &strings(&["lap"]), false, true);
    assert_eq!(skip_loc.len(), 1);
    assert_eq!(skip_loc[0].what, "Laptop");
    let skip_what = search_records(&records, &strings(&["lap"]), true, false);
    assert_eq!(skip_what.len(), 1);
    assert_eq!(skip_what[0].what, "Charger");
    let none = search_records(&records, &strings(&["zzz"]), false, false);
    assert!(none.is_empty());
}

#[test]
fn leaf_records_have_no_children() {
    let records = sample();
    let ctx = get_context(&records);
    let leaves = list_leaf_records(&records, &ctx);
    assert_eq!(leaves.len(), 1);
    assert_eq!(leaves[0].what, "Charger");
}

#[test]
fn root_locations_listed_once() {
    let records = vec![
        rec("Laptop", 5, "Room", 2),
        rec("Chair", 6, "Room", 2),
        rec("Charger", 7, "Laptop", 5),
    ];
    let ctx = get_context(&records);
    let roots = list_root_locations(&records, &ctx);
    assert_eq!(roots.len(), 1);
    assert_eq!(roots[0].location, "Room");
    assert_eq!(roots[0].what, "Laptop");
}

#[test]
fn root_node_count() {
    let records = vec![rec("Laptop", 5, "Room", 2), rec("Pan", 8, "Kitchen", 3)];
    let ctx = get_context(&records);
    assert_eq!(ctx.count_root_nodes(), 2);
}

#[test]
fn tree_walk_is_preorder_with_depths() {
    let records = sample();
    let ctx = get_context(&records);
    let nodes = ctx.tree_nodes();
    assert_eq!(nodes, vec![(1, 2), (2, 5), (3, 7)]);
}

#[test]
fn tree_walk_lists_every_node_of_a_branching_forest() {
    let records = vec![
        rec("Laptop", 5, "Room", 2),
        rec("Chair", 6, "Room", 2),
        rec("Charger", 7, "Laptop", 5),
        rec("Pan", 8, "Kitchen", 3),
    ];
    let ctx = get_context(&records);
    let nodes = ctx.tree_nodes();
    assert_eq!(nodes.len(), 6);
    for id in [2, 3, 5, 6, 7, 8] {
        assert!(nodes.iter().any(|&(_, n)| n == id));
    }
    // Pre-order: each deeper entry follows its parent's entry.
    assert_eq!(nodes, vec![(1, 2), (2, 6), (2, 5), (3, 7), (1, 3), (2, 8)]);
}

#[test]
fn tree_walk_terminates_on_a_cycle() {
    // Two records forming a location loop: 5 -> 6 -> 5.
    let records = vec![rec("a", 5, "b", 6), rec("b", 6, "a", 5)];
    let ctx = get_context(&records);
    let nodes = ctx.tree_nodes();
    // No root exists; the walk lists nothing rather than running forever.
    assert!(nodes.is_empty());
}

#[test]
fn tree_line_format() {
    assert_eq!(render_tree_line(1, 2, &"Room".to_string(), true), "      + Room [2]");
    assert_eq!(render_tree_line(2, 5, &"Laptop".to_string(), false), "            - Laptop [5]");
}

#[test]
fn record_display_line() {
    let r = rec("Laptop", 5, "Room", 2);
    assert_eq!(r.print_line(), "- Laptop [5] | Room [2] | 02/01/24 | N/A");
}

#[test]
fn location_display_line_counts_items() {
    let records = vec![rec("Laptop", 5, "Room", 2), rec("Chair", 6, "Room", 2)];
    let ctx = get_context(&records);
    assert_eq!(records[0].print_location_with_count(&ctx), "- Room [2] <2 items>");
}
