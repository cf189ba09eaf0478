use lqos_core::table::{cpu_slots, snapshot_step, SnapshotAction, SnapshotEvent};

#[test]
fn snapshot_walks_keys_in_order() {
    let mut items: Vec<(u32, u64)> = Vec::new();
    assert!(matches!(snapshot_step(&mut items, SnapshotEvent::Start), SnapshotAction::AskNextKey(None)));
    assert!(matches!(snapshot_step(&mut items, SnapshotEvent::NextKey(Some(7))), SnapshotAction::Lookup(7)));
    assert!(matches!(
        snapshot_step(&mut items, SnapshotEvent::Looked(7, Some(70))),
        SnapshotAction::AskNextKey(Some(7))
    ));
    assert!(matches!(snapshot_step(&mut items, SnapshotEvent::NextKey(Some(3))), SnapshotAction::Lookup(3)));
    // a failed lookup is skipped, and the walk goes on after that key
    assert!(matches!(
        snapshot_step(&mut items, SnapshotEvent::Looked(3, None)),
        SnapshotAction::AskNextKey(Some(3))
    ));
    assert!(matches!(snapshot_step(&mut items, SnapshotEvent::NextKey(None)), SnapshotAction::Finished));
    assert_eq!(items, vec![(7, 70)]);
}

#[test]
fn at_least_one_cpu_slot() {
    assert_eq!(cpu_slots(-1), 1);
    assert_eq!(cpu_slots(0), 1);
    assert_eq!(cpu_slots(1), 1);
    assert_eq!(cpu_slots(16), 16);
}
