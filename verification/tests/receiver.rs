use raptorqr_host::receiver::{
    receiver_step, ReceiverAction, ReceiverEvent, ReceiverMode, ReceiverState,
};

fn step(s: &mut ReceiverState, e: ReceiverEvent) -> Vec<ReceiverAction> {
    let (next, acts) = receiver_step(s, e);
    *s = next;
    acts
}

fn frame(display: usize, now: u64) -> ReceiverEvent {
    ReceiverEvent::Frame { display, now, decodable: true }
}

#[test]
fn each_display_is_throttled_on_its_own() {
    let mut s = ReceiverState::new(ReceiverMode::Headless, false, 0);
    // A display never decoded before is decoded at once.
    assert_eq!(step(&mut s, frame(0, 10)), vec![ReceiverAction::Decode(0)]);
    assert_eq!(step(&mut s, frame(1, 20)), vec![ReceiverAction::Decode(1)]);
    // Display 0 again before 100 ms: skipped; display 1's decode does not matter.
    assert_eq!(step(&mut s, frame(0, 109)), vec![]);
    assert_eq!(step(&mut s, frame(0, 110)), vec![ReceiverAction::Decode(0)]);
    assert_eq!(step(&mut s, frame(1, 115)), vec![]);
    assert_eq!(step(&mut s, frame(1, 120)), vec![ReceiverAction::Decode(1)]);
    // Nothing to decode: not decoded, and the throttle is not restarted.
    let empty = ReceiverEvent::Frame { display: 5, now: 200, decodable: false };
    assert_eq!(step(&mut s, empty), vec![]);
    assert_eq!(step(&mut s, frame(5, 201)), vec![ReceiverAction::Decode(5)]);
}

#[test]
fn completions_are_saved_and_notified_only_when_written() {
    let mut s = ReceiverState::new(ReceiverMode::Headless, false, 0);
    assert_eq!(step(&mut s, ReceiverEvent::Completed), vec![ReceiverAction::Save]);
    assert_eq!(
        step(&mut s, ReceiverEvent::Saved { written: true }),
        vec![ReceiverAction::Notify]
    );
    assert_eq!(step(&mut s, ReceiverEvent::Completed), vec![ReceiverAction::Save]);
    assert_eq!(step(&mut s, ReceiverEvent::Saved { written: false }), vec![]);
    assert!(!s.is_stopped());
}

#[test]
fn once_stops_after_the_first_file() {
    let mut s = ReceiverState::new(ReceiverMode::Headless, true, 0);
    assert_eq!(step(&mut s, ReceiverEvent::Completed), vec![ReceiverAction::Save]);
    assert_eq!(
        step(&mut s, ReceiverEvent::Saved { written: false }),
        vec![ReceiverAction::Stop]
    );
    assert!(s.is_stopped());
    assert_eq!(step(&mut s, frame(0, 1000)), vec![]);
    assert_eq!(step(&mut s, ReceiverEvent::Completed), vec![]);
}

#[test]
fn status_every_half_second() {
    let mut s = ReceiverState::new(ReceiverMode::Headless, false, 1000);
    assert_eq!(step(&mut s, ReceiverEvent::Tick { now: 1499 }), vec![]);
    assert_eq!(step(&mut s, ReceiverEvent::Tick { now: 1500 }), vec![ReceiverAction::Status]);
    assert_eq!(step(&mut s, ReceiverEvent::Tick { now: 1999 }), vec![]);
    assert_eq!(step(&mut s, ReceiverEvent::Tick { now: 2000 }), vec![ReceiverAction::Status]);
    // The worker reports every 250 ms.
    let mut w = ReceiverState::new(ReceiverMode::Worker, false, 0);
    assert_eq!(step(&mut w, ReceiverEvent::Tick { now: 250 }), vec![ReceiverAction::Status]);
}

#[test]
fn worker_previews_and_reports_transfers() {
    let mut w = ReceiverState::new(ReceiverMode::Worker, false, 0);
    assert_eq!(
        step(&mut w, frame(0, 0)),
        vec![ReceiverAction::Preview(0), ReceiverAction::Decode(0)]
    );
    // Other displays are decoded but not previewed.
    assert_eq!(step(&mut w, frame(1, 10)), vec![ReceiverAction::Decode(1)]);
    // The preview follows every 350 ms, or at once when asked.
    assert_eq!(step(&mut w, frame(0, 200)), vec![ReceiverAction::Decode(0)]);
    assert_eq!(step(&mut w, ReceiverEvent::PreviewRequested), vec![]);
    assert_eq!(step(&mut w, frame(0, 250)), vec![ReceiverAction::Preview(0)]);
    assert_eq!(step(&mut w, ReceiverEvent::SelectPreview { display: 1 }), vec![]);
    assert_eq!(
        step(&mut w, frame(1, 600)),
        vec![ReceiverAction::Preview(1), ReceiverAction::Decode(1)]
    );
    assert_eq!(step(&mut w, ReceiverEvent::Completed), vec![ReceiverAction::Save]);
    assert_eq!(
        step(&mut w, ReceiverEvent::Saved { written: true }),
        vec![ReceiverAction::Notify, ReceiverAction::Transfer]
    );
    assert_eq!(
        step(&mut w, ReceiverEvent::Saved { written: false }),
        vec![ReceiverAction::Transfer]
    );
}
