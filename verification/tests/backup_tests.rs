use ostore::backup::revert_plan;
use ostore::backup::write_plan;
use ostore::backup::BackupChain;
use ostore::backup::FileOp;
use ostore::errors::Error;

fn chain(depth: usize, canonical: &str) -> BackupChain {
    BackupChain { depth, canonical: canonical.to_string(), slots: Vec::new() }
}

#[test]
fn rotation_at_depth_two() {
    let mut b = chain(2, "c0");
    b.do_write("w1".to_string());
    assert_eq!(b.canonical, "w1");
    assert_eq!(b.slots, vec!["c0".to_string()]);
    b.do_write("w2".to_string());
    assert_eq!(b.slots, vec!["w1".to_string(), "c0".to_string()]);
    b.do_write("w3".to_string());
    assert_eq!(b.canonical, "w3");
    assert_eq!(b.slots, vec!["w2".to_string(), "w1".to_string()]);
    assert_eq!(b.do_revert(), Ok(()));
    assert_eq!(b.canonical, "w2");
    assert_eq!(b.slots, vec!["w1".to_string()]);
    assert_eq!(b.do_revert(), Ok(()));
    assert_eq!(b.canonical, "w1");
    assert!(b.slots.is_empty());
}

#[test]
fn revert_without_slots_is_a_storage_error() {
    let mut b = chain(3, "c0");
    assert_eq!(b.do_revert(), Err(Error::Storage));
    assert_eq!(b.canonical, "c0");
}

#[test]
fn depth_zero_disables_the_chain() {
    let mut b = chain(0, "c0");
    b.do_write("w1".to_string());
    assert_eq!(b.canonical, "w1");
    assert!(b.slots.is_empty());
    assert_eq!(b.do_revert(), Err(Error::Storage));
}

#[test]
fn write_plan_for_a_full_chain() {
    let plan = write_plan(2, 2);
    assert_eq!(
        plan,
        vec![
            FileOp::DeleteSlot(2),
            FileOp::ShiftSlot(1, 2),
            FileOp::SnapshotCanonical,
            FileOp::ReplaceCanonical,
        ]
    );
}

#[test]
fn write_plan_for_a_chain_with_room() {
    let plan = write_plan(3, 1);
    assert_eq!(
        plan,
        vec![
            FileOp::ShiftSlot(2, 3),
            FileOp::ShiftSlot(1, 2),
            FileOp::SnapshotCanonical,
            FileOp::ReplaceCanonical,
        ]
    );
}

#[test]
fn write_plan_with_backups_disabled() {
    assert_eq!(write_plan(0, 0), vec![FileOp::ReplaceCanonical]);
}

#[test]
fn revert_plan_shifts_remaining_slots_newer() {
    assert_eq!(
        revert_plan(3),
        vec![
            FileOp::RestoreCanonical,
            FileOp::ShiftSlot(2, 1),
            FileOp::ShiftSlot(3, 2),
        ]
    );
    assert_eq!(revert_plan(1), vec![FileOp::RestoreCanonical]);
}
