use mostr::kinds::{to_hashtag_tag, to_prio_tag, PROCEDURE_KIND, TASK_KIND, TEXT_NOTE_KIND};
use mostr::nostr::{EventBuilder, EventId, Signer, Tag};
use mostr::task::state::{State, StateChange};
use mostr::task::Task;
use nostr_sdk::Timestamp;

fn clock() -> u64 {
    Timestamp::now().as_u64()
}

fn reference(id: EventId, marker: &str) -> Tag {
    Tag::parse(vec!["e".to_string(), id.to_string(), "".to_string(), marker.to_string()]).unwrap()
}

#[test]
fn test_state() {
    let keys = Signer::generate();
    let mut task = Task::new(keys.sign(
        EventBuilder::new(TASK_KIND, "task").tags(vec![Tag::hashtag("tag1")]),
        clock(),
    ));
    assert_eq!(task.pure_state(), State::Open);
    assert_eq!(task.list_hashtags().len(), 1);

    let now = clock();
    task.add_prop(keys.sign(
        EventBuilder::new(State::Done.into(), "").custom_created_at(now),
        now,
    ));
    assert_eq!(task.pure_state(), State::Done);
    task.add_prop(keys.sign(
        EventBuilder::new(State::Open.into(), "Ready")
            .tags(vec![Tag::hashtag("tag2")])
            .custom_created_at(now - 2),
        now,
    ));
    assert_eq!(task.pure_state(), State::Done);
    assert_eq!(task.list_hashtags().len(), 2);
    task.add_prop(keys.sign(
        EventBuilder::new(State::Closed.into(), "").custom_created_at(now + 9),
        now,
    ));
    assert_eq!(task.pure_state(), State::Closed);
    assert_eq!(
        task.state_at(now),
        Some(StateChange { state: State::Done, name: None, time: now })
    );
    assert_eq!(
        task.state_at(now - 1),
        Some(StateChange { state: State::Open, name: Some("Ready".to_string()), time: now - 2 })
    );
}

#[test]
fn states_are_listed_newest_first() {
    let keys = Signer::generate();
    let mut task = Task::new(keys.sign(EventBuilder::new(TASK_KIND, "task"), 10));
    task.add_prop(keys.sign(EventBuilder::new(State::Done.into(), ""), 20));
    task.add_prop(keys.sign(EventBuilder::new(TEXT_NOTE_KIND, "note"), 25));
    task.add_prop(keys.sign(EventBuilder::new(State::Open.into(), "again"), 30));
    assert_eq!(
        task.states(),
        vec![
            StateChange { state: State::Open, name: Some("again".to_string()), time: 30 },
            StateChange { state: State::Done, name: None, time: 20 },
        ]
    );
}

#[test]
fn states_have_kinds_and_names() {
    for (state, kind, name) in [
        (State::Open, 1630, "Open"),
        (State::Done, 1631, "Done"),
        (State::Closed, 1632, "Closed"),
        (State::Pending, 1633, "Pending"),
        (State::Procedure, 1639, "Procedure"),
    ] {
        assert_eq!(state.kind(), kind);
        assert_eq!(State::try_from(kind), Ok(state));
        assert_eq!(state.to_string(), name);
        assert_eq!(State::try_from(name), Ok(state));
        assert_eq!(State::try_from(name.to_lowercase().as_str()), Ok(state));
    }
    assert!(State::try_from(1u16).is_err());
    assert!(State::try_from("nothing").is_err());
    assert!(State::Open.is_open() && State::Pending.is_open() && State::Procedure.is_open());
    assert!(!State::Done.is_open() && !State::Closed.is_open());
}

#[test]
fn state_changes_are_labelled() {
    let change = StateChange { state: State::Pending, name: Some("Wait".to_string()), time: 5 };
    assert_eq!(change.get_label(), "Wait");
    assert_eq!(change.get_timestamp(), 5);
    assert!(change.matches_label("wait"));
    assert!(change.matches_label("Pending"));
    assert!(!change.matches_label("Open"));
    assert_eq!(change.to_string(), "Pending: Wait");
    let plain = StateChange { state: State::Done, name: None, time: 5 };
    assert_eq!(plain.get_label(), "Done");
    assert_eq!(plain.to_string(), "Done");
    assert_eq!(StateChange::get_label_for(&State::Open, ""), "Open");
    assert_eq!(StateChange::get_label_for(&State::Open, "later"), "later");
    assert_eq!(State::from(Some(plain)), State::Done);
    assert_eq!(State::from(None::<StateChange>), State::Open);
}

#[test]
fn titles_fall_back_to_the_id() {
    let keys = Signer::generate();
    let task = Task::new(keys.sign(EventBuilder::new(TASK_KIND, "  do it  "), 10));
    assert_eq!(task.get_title(), "do it");
    assert_eq!(task.get_filter_title(), "do it");
    let empty = Task::new(keys.sign(EventBuilder::new(TASK_KIND, "  "), 10));
    assert_eq!(empty.get_title(), empty.get_id().to_string());
    let marked = Task::new(keys.sign(EventBuilder::new(TASK_KIND, " ##tag Case "), 10));
    assert_eq!(marked.get_filter_title(), "tag Case");
}

#[test]
fn references_are_kept_by_marker() {
    let keys = Signer::generate();
    let first = EventId::all_zeros();
    let second = keys.sign(EventBuilder::new(TASK_KIND, "x"), 1).id;
    let task = Task::new(keys.sign(
        EventBuilder::new(TASK_KIND, "sub").tags(vec![
            reference(first, "parent"),
            reference(second, "depends"),
            to_prio_tag(30),
            to_hashtag_tag("one"),
        ]),
        10,
    ));
    assert_eq!(task.parent_id(), Some(first));
    assert_eq!(task.find_dependents(), vec![second]);
    assert_eq!(task.find_refs("depends"), vec![second]);
    assert_eq!(task.find_refs("other"), vec![]);
    assert_eq!(task.priority(), Some(30));
    assert_eq!(task.priority_raw(), Some(&"30".to_string()));
    assert_eq!(task.get("parentid"), Some(first.to_string()));
    assert_eq!(task.get("priority"), Some("30".to_string()));
    assert_eq!(task.get("hashtags"), Some("one".to_string()));
    assert_eq!(task.get("unheard-of"), None);
}

#[test]
fn notes_and_states_are_properties() {
    let keys = Signer::generate();
    let mut task = Task::new(keys.sign(EventBuilder::new(TEXT_NOTE_KIND, "activity"), 10));
    assert!(!task.is_task());
    assert_eq!(task.state_at(100), None);
    assert_eq!(task.state_label_at(100), None);
    task.add_prop(keys.sign(EventBuilder::new(TEXT_NOTE_KIND, "note one"), 20));
    task.add_prop(keys.sign(EventBuilder::new(TEXT_NOTE_KIND, "note two"), 30));
    task.add_prop(keys.sign(EventBuilder::new(TEXT_NOTE_KIND, " "), 40));
    assert_eq!(task.descriptions(), vec!["note two".to_string(), "note one".to_string()]);
    assert_eq!(task.get("desc"), Some("note two".to_string()));
    assert_eq!(task.get("description"), Some("note one note two".to_string()));
    let done = keys.sign(EventBuilder::new(State::Done.into(), ""), 50);
    task.add_prop(done.clone());
    assert!(task.is_task());
    assert_eq!(task.pure_state_at(49), State::Open);
    assert_eq!(task.pure_state_at(50), State::Done);
    assert_eq!(task.last_state_update_at(60), 50);
    task.remove_prop(&done);
    assert!(!task.is_task());
    assert_eq!(task.props().len(), 3);
    assert_eq!(task.all_events().len(), 4);
}

#[test]
fn people_take_part_in_tasks() {
    let keys = Signer::generate();
    let other = Signer::generate().pubkey();
    let task = Task::new(keys.sign(
        EventBuilder::new(TASK_KIND, "task").tags(vec![Tag::public_key(other)]),
        10,
    ));
    assert_eq!(task.get_participants(), vec![other]);
    assert_eq!(task.get_assignee(), Some(other));
    assert_eq!(task.get_owner(), other);
    let own = Task::new(keys.sign(EventBuilder::new(PROCEDURE_KIND, "task"), 10));
    assert_eq!(own.get_assignee(), None);
    assert_eq!(own.get_owner(), keys.pubkey());
    assert!(!own.is_task_kind());
    assert!(!own.is_task());
}
