use mostr::event_sender::{failed_events_dir, EventSender, MostrMessage, UNDO_DELAY};
use mostr::kinds::{build_tracking, TASK_KIND};
use mostr::nostr::{EventBuilder, EventId, Signer};

const NOW: u64 = 1_700_000_000;

fn sender() -> EventSender {
    EventSender::from(Some("wss://relay.example".to_string()), Signer::generate())
}

fn task(content: &str) -> EventBuilder {
    EventBuilder::new(TASK_KIND, content)
}

fn contents(messages: Vec<MostrMessage>) -> Vec<Vec<String>> {
    messages
        .into_iter()
        .map(|m| match m {
            MostrMessage::AddTasks(url, events) => {
                assert_eq!(url, "wss://relay.example");
                assert!(events.iter().all(|e| e.is_signed()));
                events.into_iter().map(|e| e.content).collect()
            }
            other => panic!("{:?}", other),
        })
        .collect()
}

#[test]
fn submitted_events_are_pending() {
    let mut sender = sender();
    let event = sender.submit_at(task("one"), NOW);
    assert_eq!(event.pubkey, sender.pubkey());
    assert_eq!(event.created_at, NOW);
    assert_eq!(event.content, "one");
    assert_eq!(sender.queue(), &vec![event.clone()]);
    assert_eq!(sender.queue()[0].sig, event.sig);
    assert!(event.is_signed());
    assert_eq!(sender.take_messages().len(), 0);
}

#[test]
fn flushing_hands_over_the_queue_once() {
    let mut sender = sender();
    sender.submit_at(task("one"), NOW);
    sender.submit_at(task("two"), NOW + 1);
    sender.flush();
    assert_eq!(sender.queue().len(), 0);
    assert_eq!(
        contents(sender.take_messages()),
        vec![vec!["one".to_string(), "two".to_string()]]
    );
    assert_eq!(sender.take_messages().len(), 0);
}

#[test]
fn flushing_keeps_mere_tracking() {
    let mut sender = sender();
    sender.submit_at(build_tracking(None), NOW);
    sender.flush();
    assert_eq!(sender.queue().len(), 1);
    assert_eq!(sender.take_messages().len(), 0);
    sender.force_flush();
    assert_eq!(sender.queue().len(), 0);
    assert_eq!(sender.take_messages().len(), 1);
}

#[test]
fn old_and_future_events_are_handed_over() {
    let mut sender = sender();
    sender.submit_at(task("old"), NOW);
    sender.submit_at(task("new"), NOW + UNDO_DELAY);
    assert_eq!(sender.queue().len(), 2);
    sender.submit_at(task("newer"), NOW + UNDO_DELAY + 1);
    assert_eq!(
        contents(sender.take_messages()),
        vec![vec!["old".to_string(), "new".to_string()]]
    );
    sender.submit_at(task("future").custom_created_at(NOW + 1000), NOW + 62);
    sender.submit_at(task("last"), NOW + 62);
    assert_eq!(
        contents(sender.take_messages()),
        vec![vec!["newer".to_string(), "future".to_string()]]
    );
    assert_eq!(sender.queue().len(), 1);
}

#[test]
fn current_tracking_takes_the_place_of_pending_tracking() {
    let mut sender = sender();
    sender.submit_at(build_tracking(Some(EventId::all_zeros())), NOW);
    sender.submit_at(task("one"), NOW);
    let last = sender.submit_at(build_tracking(None), NOW + 1);
    assert_eq!(sender.queue().len(), 2);
    assert_eq!(sender.queue()[0].content, "one");
    assert_eq!(sender.queue()[1], last);
    // Not so for tracking in the past
    sender.submit_at(build_tracking(None).custom_created_at(NOW - 100), NOW + 2);
    assert_eq!(sender.queue().len(), 3);
}

#[test]
fn without_a_relay_nothing_is_handed_over() {
    let mut sender = EventSender::from(None, Signer::generate());
    sender.submit_at(task("one"), NOW);
    sender.force_flush();
    assert_eq!(sender.queue().len(), 0);
    assert_eq!(sender.take_messages().len(), 0);
}

#[test]
fn clearing_takes_back_what_is_pending() {
    let mut sender = sender();
    let event = sender.submit_at(task("one"), NOW);
    assert_eq!(sender.clear(), vec![event]);
    assert_eq!(sender.clear(), vec![]);
    assert_eq!(sender.take_messages().len(), 0);
}

#[test]
fn submitting_reads_the_clock() {
    let mut sender = sender();
    let event = sender.submit(task("one"));
    assert!(event.created_at.abs_diff(nostr_sdk::Timestamp::now().as_u64()) < 5);
}

#[test]
fn failed_events_are_kept_by_host() {
    assert_eq!(failed_events_dir("wss://relay.example/path"), "failed-events-relay.example/path/");
}
