use std::rc::Rc;

use volume_controller::reconcile::update_sink_inputs;
use volume_controller::types::SinkInputData;

fn rec(id: u32, name: &str, volume: u32, mute: bool) -> SinkInputData {
    SinkInputData { id, name: name.to_string(), volume, mute }
}

fn ids(v: &[SinkInputData]) -> Vec<u32> {
    v.iter().map(|r| r.id).collect()
}

#[test]
fn survivor_keeps_its_slot() {
    let a = Rc::new(0u8);
    let mut records = vec![rec(1, "X", 10, false)];
    let mut slots = vec![a.clone()];
    let snapshot = vec![rec(1, "X", 20, false)];
    update_sink_inputs(&mut records, &mut slots, &snapshot, || Rc::new(9u8));
    assert_eq!(records.len(), 1);
    assert_eq!(records[0].volume, 20);
    assert!(Rc::ptr_eq(&slots[0], &a));
}

#[test]
fn ended_stream_is_pruned_with_its_slot() {
    let a = Rc::new(1u8);
    let b = Rc::new(2u8);
    let mut records = vec![rec(1, "X", 3, false), rec(2, "Y", 4, true)];
    let mut slots = vec![a.clone(), b.clone()];
    let snapshot = vec![rec(2, "Y", 5, false)];
    update_sink_inputs(&mut records, &mut slots, &snapshot, || Rc::new(9u8));
    assert_eq!(ids(&records), vec![2]);
    assert_eq!(records[0].volume, 5);
    assert!(!records[0].mute);
    assert_eq!(slots.len(), 1);
    assert!(Rc::ptr_eq(&slots[0], &b));
    assert_eq!(Rc::strong_count(&a), 1);
}

#[test]
fn newcomers_follow_snapshot_order() {
    let mut records: Vec<SinkInputData> = Vec::new();
    let mut slots: Vec<String> = Vec::new();
    let snapshot = vec![rec(3, "P", 1, false), rec(4, "Q", 2, true)];
    update_sink_inputs(&mut records, &mut slots, &snapshot, || "new".to_string());
    assert_eq!(ids(&records), vec![3, 4]);
    assert_eq!(records[0].name, "P");
    assert_eq!(records[1].name, "Q");
    assert!(records[1].mute);
    assert_eq!(slots, vec!["new".to_string(), "new".to_string()]);
}

#[test]
fn mixed_prune_update_and_append() {
    let a = Rc::new(1u8);
    let b = Rc::new(2u8);
    let mut records = vec![rec(1, "X", 7, false), rec(2, "Y", 8, false)];
    let mut slots = vec![a.clone(), b.clone()];
    let snapshot = vec![rec(2, "Y", 1, false), rec(5, "Z", 2, false)];
    update_sink_inputs(&mut records, &mut slots, &snapshot, || Rc::new(9u8));
    assert_eq!(ids(&records), vec![2, 5]);
    assert_eq!(records[0].volume, 1);
    assert_eq!(records[1].volume, 2);
    assert!(Rc::ptr_eq(&slots[0], &b));
    assert!(!Rc::ptr_eq(&slots[1], &a) && !Rc::ptr_eq(&slots[1], &b));
    assert_eq!(*slots[1], 9);
}

#[test]
fn survivors_keep_old_order_not_snapshot_order() {
    let mut records = vec![rec(1, "X", 0, false), rec(2, "Y", 0, false)];
    let mut slots = vec!["A".to_string(), "B".to_string()];
    let snapshot = vec![rec(7, "N", 0, false), rec(2, "Y", 6, false), rec(1, "X", 5, true)];
    update_sink_inputs(&mut records, &mut slots, &snapshot, || "new".to_string());
    assert_eq!(ids(&records), vec![1, 2, 7]);
    assert_eq!(records[0].volume, 5);
    assert!(records[0].mute);
    assert_eq!(records[1].volume, 6);
    assert_eq!(slots, vec!["A".to_string(), "B".to_string(), "new".to_string()]);
}

#[test]
fn name_is_kept_from_the_old_record() {
    let mut records = vec![rec(1, "Old", 0, false)];
    let mut slots = vec![0u8];
    let snapshot = vec![rec(1, "Renamed", 3, false)];
    update_sink_inputs(&mut records, &mut slots, &snapshot, || 1u8);
    assert_eq!(records[0].name, "Old");
    assert_eq!(records[0].volume, 3);
}

#[test]
fn second_reconcile_with_same_snapshot_changes_nothing() {
    let a = Rc::new(1u8);
    let mut records = vec![rec(1, "X", 7, false), rec(2, "Y", 8, false)];
    let mut slots = vec![a.clone(), Rc::new(2u8)];
    let snapshot = vec![rec(2, "Y", 1, true), rec(5, "Z", 2, false), rec(6, "W", 3, false)];
    update_sink_inputs(&mut records, &mut slots, &snapshot, || Rc::new(9u8));
    let first_slots: Vec<Rc<u8>> = slots.clone();
    let first_records: Vec<(u32, String, u32, bool)> =
        records.iter().map(|r| (r.id, r.name.clone(), r.volume, r.mute)).collect();
    update_sink_inputs(&mut records, &mut slots, &snapshot, || Rc::new(9u8));
    let second_records: Vec<(u32, String, u32, bool)> =
        records.iter().map(|r| (r.id, r.name.clone(), r.volume, r.mute)).collect();
    assert_eq!(first_records, second_records);
    assert_eq!(slots.len(), first_slots.len());
    for (x, y) in slots.iter().zip(first_slots.iter()) {
        assert!(Rc::ptr_eq(x, y));
    }
}

#[test]
fn empty_snapshot_prunes_everything() {
    let mut records = vec![rec(1, "X", 7, false), rec(2, "Y", 8, false)];
    let mut slots = vec![1u8, 2u8];
    update_sink_inputs(&mut records, &mut slots, &Vec::new(), || 0u8);
    assert!(records.is_empty());
    assert!(slots.is_empty());
}

#[test]
fn all_old_records_pruned_in_a_row() {
    let mut records = vec![rec(1, "A", 0, false), rec(2, "B", 0, false), rec(3, "C", 0, false), rec(4, "D", 0, false)];
    let mut slots = vec![1u8, 2, 3, 4];
    let snapshot = vec![rec(4, "D", 9, false)];
    update_sink_inputs(&mut records, &mut slots, &snapshot, || 0u8);
    assert_eq!(ids(&records), vec![4]);
    assert_eq!(slots, vec![4u8]);
}

#[test]
fn repeated_snapshot_id_gives_one_record_from_first_entry() {
    let mut records: Vec<SinkInputData> = vec![rec(1, "X", 0, false)];
    let mut slots = vec![0u8];
    let snapshot = vec![rec(1, "X", 10, false), rec(1, "X", 20, true), rec(3, "N", 30, false), rec(3, "N2", 40, true)];
    update_sink_inputs(&mut records, &mut slots, &snapshot, || 5u8);
    assert_eq!(ids(&records), vec![1, 3]);
    assert_eq!(records[0].volume, 10);
    assert!(!records[0].mute);
    assert_eq!(records[1].name, "N");
    assert_eq!(records[1].volume, 30);
    assert_eq!(slots, vec![0u8, 5u8]);
}

#[test]
fn lists_stay_aligned_and_ids_unique_over_many_refreshes() {
    let mut records: Vec<SinkInputData> = Vec::new();
    let mut slots: Vec<u32> = Vec::new();
    let snapshots = vec![
        vec![rec(1, "a", 1, false), rec(2, "b", 2, false)],
        vec![rec(2, "b", 3, false), rec(3, "c", 4, false), rec(3, "c", 5, false)],
        vec![],
        vec![rec(4, "d", 6, true), rec(1, "a", 7, false), rec(4, "d", 8, false)],
        vec![rec(1, "a", 9, false)],
    ];
    for snap in snapshots.iter() {
        update_sink_inputs(&mut records, &mut slots, snap, || 0u32);
        assert_eq!(records.len(), slots.len());
        let mut seen = ids(&records);
        seen.sort();
        seen.dedup();
        assert_eq!(seen.len(), records.len());
    }
    assert_eq!(ids(&records), vec![1]);
    assert_eq!(records[0].volume, 9);
}
