use volume_controller::display::{status_label, volume_percent};
use volume_controller::session::{connect_step, wait_for_operation_step, ContextStatus, IterateOutcome, OperationStatus, Step};
use volume_controller::types::{Counter, MainData, SinkInputData};

#[test]
fn main_channel_refresh() {
    let mut sink = MainData::default();
    assert_eq!(sink, MainData { volume: 0, mute: false });
    sink.refresh(Some(MainData { volume: 300, mute: true }));
    assert_eq!(sink, MainData { volume: 300, mute: true });
    sink.refresh(None);
    assert_eq!(sink, MainData { volume: 300, mute: true });
}

#[test]
fn counter_counts() {
    let mut c = Counter::default();
    assert_eq!(c.value, 0);
    c.inc();
    c.inc();
    assert_eq!(c.value, 2);
}

#[test]
fn record_clone_and_default() {
    let r = SinkInputData { id: 8, name: "player".to_string(), volume: 12, mute: true };
    let c = r.clone();
    assert_eq!((c.id, c.name.as_str(), c.volume, c.mute), (8, "player", 12, true));
    let d = SinkInputData::default();
    assert_eq!((d.id, d.name.as_str(), d.volume, d.mute), (0, "", 0, false));
}

#[test]
fn percent_of_max_volume() {
    assert_eq!(volume_percent(0), 0);
    assert_eq!(volume_percent(65536), 100);
    assert_eq!(volume_percent(32768), 50);
    assert_eq!(volume_percent(655), 0);
    assert_eq!(volume_percent(656), 1);
    assert_eq!(volume_percent(u32::MAX), 6553599);
}

#[test]
fn mute_button_labels() {
    assert_eq!(status_label(true), "Mute");
    assert_eq!(status_label(false), "Unmute");
}

#[test]
fn connect_steps() {
    assert_eq!(connect_step(IterateOutcome::Success, ContextStatus::Pending), Step::Continue);
    assert_eq!(connect_step(IterateOutcome::Success, ContextStatus::Ready), Step::Finished);
    assert_eq!(connect_step(IterateOutcome::Success, ContextStatus::Failed), Step::Abandoned);
    assert_eq!(connect_step(IterateOutcome::Success, ContextStatus::Terminated), Step::Abandoned);
    assert_eq!(connect_step(IterateOutcome::Error, ContextStatus::Ready), Step::Abandoned);
    assert_eq!(connect_step(IterateOutcome::Quit, ContextStatus::Ready), Step::Abandoned);
}

#[test]
fn operation_wait_steps() {
    assert_eq!(wait_for_operation_step(IterateOutcome::Success, OperationStatus::Running), Step::Continue);
    assert_eq!(wait_for_operation_step(IterateOutcome::Success, OperationStatus::Done), Step::Finished);
    assert_eq!(wait_for_operation_step(IterateOutcome::Error, OperationStatus::Done), Step::Finished);
    assert_eq!(wait_for_operation_step(IterateOutcome::Error, OperationStatus::Running), Step::Continue);
    assert_eq!(wait_for_operation_step(IterateOutcome::Success, OperationStatus::Cancelled), Step::Abandoned);
    assert_eq!(wait_for_operation_step(IterateOutcome::Quit, OperationStatus::Done), Step::Abandoned);
}
