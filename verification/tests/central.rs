use microduck::central::{
    adapter_wait, logged_head, pump, setup, version_read, write_answer, Pump, PumpEvent, Queue,
    Slot, WriteRefusal,
};
use microduck::proto::API_VERSION;

#[test]
fn pairing_is_asked_for_everywhere_or_nowhere() {
    let open = setup(false);
    assert!(!open.pairable && !open.agent && !open.encrypt_read && !open.encrypt_write);
    let closed = setup(true);
    assert!(closed.pairable && closed.agent && closed.encrypt_read && closed.encrypt_write);
}

#[test]
fn a_missing_adapter_is_looked_for_again() {
    assert!(adapter_wait(true).is_none());
    assert_eq!(adapter_wait(false).unwrap().nanos(), 5_000_000_000);
}

#[test]
fn the_version_is_one_byte() {
    assert_eq!(version_read(), vec![API_VERSION as u8]);
}

#[test]
fn only_the_head_of_a_chunk_is_logged() {
    assert_eq!(logged_head(&[1, 2, 3]), vec![1, 2, 3]);
    assert_eq!(logged_head(&[1, 2, 3, 4, 5, 6, 7, 8, 9]), vec![1, 2, 3, 4, 5, 6, 7, 8]);
    assert!(logged_head(&[]).is_empty());
}

#[test]
fn a_write_is_refused_for_a_reason() {
    assert_eq!(write_answer(None), Err(WriteRefusal::NoSubscription));
    assert_eq!(write_answer(Some(Queue::Full)), Err(WriteRefusal::QueueFull));
    assert_eq!(write_answer(Some(Queue::Closed)), Err(WriteRefusal::SessionEnded));
    assert_eq!(write_answer(Some(Queue::Taken)), Ok(()));
}

#[test]
fn a_pump_notifies_until_it_cannot() {
    let chunk = matches!(pump(PumpEvent::Chunk(Some(vec![7]))), Pump::Notify(c) if c == vec![7]);
    assert!(chunk);
    assert!(matches!(pump(PumpEvent::Chunk(None)), Pump::End));
    assert!(matches!(pump(PumpEvent::Stopped), Pump::End));
    assert!(matches!(pump(PumpEvent::NotifyFailed), Pump::End));
}

#[test]
fn a_late_unsubscribe_does_not_evict_the_newer_session() {
    let mut slot = Slot::new();
    assert_eq!(slot.current(), None);
    let (first, none) = slot.subscribe();
    assert_eq!(none, None);
    let (second, replaced) = slot.subscribe();
    assert_eq!(replaced, Some(first));
    assert!(!slot.unsubscribe(first));
    assert_eq!(slot.current(), Some(second));
    assert!(slot.unsubscribe(second));
    assert_eq!(slot.current(), None);
}
