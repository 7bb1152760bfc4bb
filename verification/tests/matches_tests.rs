use ostore::errors::Error;
use ostore::matches::get_matches;
use ostore::matches::MatchItem;

fn files(pairs: &[(&str, &str)]) -> Vec<(String, String)> {
    pairs.iter().map(|(p, c)| (p.to_string(), c.to_string())).collect()
}

#[test]
fn numbers_hits_per_file() {
    let fs = files(&[("a.txt", "banana"), ("b.txt", "cherry")]);
    let items = get_matches(&fs, &"an".to_string()).unwrap();
    assert_eq!(items.len(), 2);
    assert_eq!(items[0].path, "a.txt");
    assert_eq!(items[0].num, 1);
    assert_eq!(items[0].total, 2);
    assert_eq!(items[1].num, 2);
    assert_eq!(items[1].total, 2);
}

#[test]
fn pattern_classes_are_honoured() {
    let fs = files(&[("n.txt", "a1 b22 c333")]);
    let items = get_matches(&fs, &"[0-9]+".to_string()).unwrap();
    assert_eq!(items.len(), 3);
    assert_eq!(items[2].num, 3);
}

#[test]
fn files_without_hits_contribute_nothing() {
    let fs = files(&[("a.txt", "xxx"), ("b.txt", "yyy")]);
    let items = get_matches(&fs, &"z".to_string()).unwrap();
    assert!(items.is_empty());
}

#[test]
fn invalid_pattern_is_rejected() {
    let fs = files(&[("a.txt", "text")]);
    assert_eq!(get_matches(&fs, &"(".to_string()), Err(Error::Input));
}

#[test]
fn match_item_display_line() {
    let item = MatchItem { num: 2, path: "src/main.rs".to_string(), total: 7 };
    assert_eq!(item.display_line(), "src/main.rs [num: 2, total: 7]");
}
