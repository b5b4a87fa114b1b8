use mostr::event_sender::EventSender;
use mostr::hashtag::Hashtag;
use mostr::kinds::{to_prio_tag, TASK_KIND};
use mostr::nostr::{EventBuilder, EventId, Signer, Tag};
use mostr::task::state::State;
use mostr::task::Task;
use mostr::tasks::children_traversal::{ChildrenTraversal, TraversalFilter};
use mostr::tasks::context::PropertyCollection;
use mostr::tasks::durations::{matching_tag_id, referenced_events, timestamps, Durations};
use mostr::tasks::task_map::{children_for, find_task, traverse_up_from};
use mostr::tasks::{now, StateFilter, TasksRelay};
use nostr_sdk::Timestamp;

fn stub_tasks() -> TasksRelay {
    TasksRelay::with_sender(EventSender::from(None, Signer::generate()))
}

fn clock() -> u64 {
    Timestamp::now().as_u64()
}

fn make(tasks: &mut TasksRelay, name: &str) -> EventId {
    tasks.make_task(name).unwrap()
}

/// A parent with two children, of which the first has a child of its own.
fn family(tasks: &mut TasksRelay) -> [EventId; 4] {
    let parent = make(tasks, "parent");
    tasks.move_to(Some(parent));
    let first = make(tasks, "first");
    let second = make(tasks, "second");
    tasks.move_to(Some(first));
    let grandchild = make(tasks, "grandchild");
    tasks.move_to(None);
    [parent, first, second, grandchild]
}

#[test]
fn histories_and_properties_stay_in_order() {
    let mut tasks = stub_tasks();
    let work = make(&mut tasks, "work");
    for time in [500, 100, 300, 200, 400] {
        tasks.track_at(time, Some(work));
        tasks.custom_time = Some(time);
        tasks.set_state_for(work, "", State::Open);
    }
    let times: Vec<u64> = tasks.get_own_history().unwrap().iter().map(|e| e.created_at).collect();
    let mut sorted = times.clone();
    sorted.sort();
    assert_eq!(times, sorted);
    let times: Vec<u64> =
        tasks.get_by_id(&work).unwrap().props().iter().map(|e| e.created_at).collect();
    assert_eq!(times, vec![500, 400, 300, 200, 100]);
}

#[test]
fn coming_in_again_changes_nothing() {
    let mut tasks = stub_tasks();
    let event = Signer::generate().sign(EventBuilder::new(TASK_KIND, "task"), 100);
    tasks.add(event.clone());
    tasks.add(event);
    assert_eq!(tasks.len(), 1);
}

#[test]
fn properties_wait_for_their_task() {
    let mut tasks = stub_tasks();
    let signer = Signer::generate();
    let task = signer.sign(EventBuilder::new(TASK_KIND, "task"), 100);
    let state = signer.sign(
        EventBuilder::new(State::Done.into(), "").tags(vec![Tag::event(task.id)]),
        200,
    );
    tasks.add(state);
    assert_eq!(tasks.overflow.len(), 1);
    let id = task.id;
    tasks.add(task);
    tasks.process_overflow();
    assert_eq!(tasks.overflow.len(), 0);
    assert_eq!(tasks.get_by_id(&id).unwrap().pure_state(), State::Done);
}

#[test]
fn moving_is_read_back() {
    let mut tasks = stub_tasks();
    let work = make(&mut tasks, "work");
    let other = make(&mut tasks, "other");
    tasks.move_to(Some(work));
    assert_eq!(tasks.get_position(), Some(work));
    tasks.move_to(Some(other));
    assert_eq!(tasks.get_position(), Some(other));
    tasks.move_to(None);
    assert_eq!(tasks.get_position(), None);
    assert!(tasks.get_position_timestamped().0 <= now());
}

#[test]
fn tracking_is_read_back() {
    let mut tasks = stub_tasks();
    let work = make(&mut tasks, "work");
    tasks.track_at(1000, Some(work));
    assert_eq!(tasks.get_position_at(1000, clock()), (1000, Some(work)));
    assert_eq!(tasks.get_position_at(999, clock()).1, None);
    // A stop is recorded with the second before, so that a start fits behind it
    tasks.track_at(2000, None);
    tasks.track_at(2000, Some(work));
    assert_eq!(tasks.get_position_at(1999, clock()), (1999, None));
    assert_eq!(tasks.get_position_at(2000, clock()), (2000, Some(work)));
    // Tracking the same again changes nothing
    assert_eq!(tasks.track_at(2500, Some(work)), None);
}

#[test]
fn tracked_time_is_bounded() {
    let mut tasks = stub_tasks();
    let work = make(&mut tasks, "work");
    tasks.track_at(1000, Some(work));
    tasks.track_at(2001, None);
    let events = tasks.get_own_events_history();
    assert_eq!(Durations::sum(&events, &vec![work], clock()), 1000);
    assert_eq!(Durations::sum(&events, &vec![work], 500), 0);
    assert_eq!(Durations::sum(&vec![events[0].clone()], &vec![work], 1500), 500);
    assert_eq!(Durations::sum(&events, &vec![EventId::all_zeros()], clock()), 0);
    assert_eq!(tasks.time_tracked(work), 1000);
    assert_eq!(
        timestamps(&events, &vec![work]),
        vec![(1000, Some(work)), (2000, None)]
    );
    assert_eq!(referenced_events(&events[0]), vec![work]);
    assert_eq!(matching_tag_id(&events[0], &vec![work]), Some(work));
    assert_eq!(matching_tag_id(&events[1], &vec![work]), None);
}

#[test]
fn a_state_reaches_the_tasks_below() {
    let mut tasks = stub_tasks();
    let [parent, first, second, grandchild] = family(&mut tasks);
    tasks.set_state_for(second, "", State::Done);
    tasks.set_state_for(parent, "", State::Closed);
    for id in [parent, first, grandchild] {
        assert_eq!(tasks.get_by_id(&id).unwrap().pure_state(), State::Closed);
    }
}

#[test]
fn a_new_task_takes_on_the_context() {
    let mut tasks = stub_tasks();
    let parent = make(&mut tasks, "parent");
    tasks.move_to(Some(parent));
    tasks.add_tag("tag");
    tasks.set_priority(Some(40));
    tasks.set_state_filter(StateFilter::from("Waiting"));
    let id = make(&mut tasks, "new # more");
    let task = tasks.get_by_id(&id).unwrap();
    assert_eq!(task.parent_id(), Some(parent));
    assert_eq!(task.priority(), Some(40));
    assert_eq!(task.list_hashtags(), vec![Hashtag::from("more"), Hashtag::from("tag")]);
    assert!(task.state().unwrap().matches_label("Waiting"));
    assert_eq!(task.get_assignee(), Some(tasks.own_key()));
    let own = make(&mut tasks, "other *20");
    assert_eq!(tasks.get_by_id(&own).unwrap().event().tags.contains(&to_prio_tag(20)), true);
}

#[test]
fn a_new_task_is_assigned() {
    let mut tasks = stub_tasks();
    let other = Signer::generate().pubkey();
    tasks.set_key_filter(vec![other]);
    let theirs = make(&mut tasks, "theirs");
    assert_eq!(tasks.get_by_id(&theirs).unwrap().get_assignee(), Some(other));
    tasks.set_key_filter(vec![]);
    let own = make(&mut tasks, "own");
    assert_eq!(tasks.get_by_id(&own).unwrap().get_assignee(), Some(tasks.own_key()));
}

#[test]
fn any_event_can_become_a_task() {
    let mut tasks = stub_tasks();
    let activity = tasks.make_note("reading a book");
    assert!(!tasks.get_by_id(&activity).unwrap().is_task());
    tasks.set_state_for(activity, "", State::Open);
    let task = tasks.get_by_id(&activity).unwrap();
    assert!(task.is_task());
    assert_eq!(task.get_title(), "reading a book");
}

#[test]
fn moving_upwards_confirms() {
    let mut tasks = stub_tasks();
    let parent = make(&mut tasks, "parent");
    tasks.move_to(Some(parent));
    assert_eq!(tasks.sender.queue().len(), 2);
    make(&mut tasks, "child");
    tasks.move_to(None);
    assert_eq!(tasks.sender.queue().len(), 1);
    tasks.undo();
    assert_eq!(tasks.len(), 2);
}

#[test]
fn undoing_takes_back_all_that_is_pending() {
    let mut tasks = stub_tasks();
    make(&mut tasks, "kept");
    tasks.flush();
    let one = make(&mut tasks, "one");
    make(&mut tasks, "two");
    tasks.set_state_for(one, "", State::Done);
    assert_eq!(tasks.len(), 3);
    assert_eq!(tasks.sender.queue().len(), 3);
    assert!(tasks.sender.queue().iter().all(|event| event.is_signed()));
    tasks.undo();
    assert_eq!(tasks.len(), 1);
    assert_eq!(tasks.sender.queue().len(), 0);
}

#[test]
fn moving_in_place_confirms() {
    let mut tasks = stub_tasks();
    make(&mut tasks, "task");
    tasks.move_to(None);
    tasks.undo();
    assert_eq!(tasks.len(), 1);
    make(&mut tasks, "other");
    tasks.undo();
    assert_eq!(tasks.len(), 1);
}

#[test]
fn what_is_in_view_passes_the_filters() {
    let mut tasks = stub_tasks();
    make(&mut tasks, "one # garden");
    make(&mut tasks, "two # house");
    make(&mut tasks, "three # garden");
    tasks.add_tag("garden");
    let now = now();
    let shown = tasks.filtered_tasks(None, false);
    assert_eq!(shown.len(), 2);
    assert!(shown.iter().all(|t| tasks.filter(t, now)));
    tasks.remove_tag("gard");
    assert!(!tasks.tags.contains(&Hashtag::from("garden")));
    tasks.clear_filters();
    assert!(!tasks.has_tag_filter());
    assert_eq!(tasks.filtered_tasks(None, false).len(), 3);
}

#[test]
fn toggling_changes_one_bookmark() {
    let mut tasks = stub_tasks();
    let one = make(&mut tasks, "one");
    let two = make(&mut tasks, "two");
    tasks.toggle_bookmark(one);
    tasks.toggle_bookmark(two);
    assert_eq!(tasks.bookmarks, vec![one, two]);
    tasks.toggle_bookmark(one);
    assert_eq!(tasks.bookmarks, vec![two]);
}

#[test]
fn the_past_is_latest_first() {
    let mut tasks = stub_tasks();
    let work = make(&mut tasks, "work");
    tasks.track_at(1000, Some(work));
    tasks.track_at(3000, None);
    tasks.track_at(2000, Some(work));
    let times: Vec<u64> =
        tasks.history_before_now().iter().map(|e| e.created_at).collect();
    assert_eq!(times, vec![2999, 1000]);
    let from = |stamp: u64| -> Vec<u64> {
        tasks.history_from(stamp).iter().map(|e| e.created_at).collect()
    };
    assert_eq!(from(2999), vec![2999]);
    assert_eq!(from(2000), vec![2999, 1000]);
    assert_eq!(from(1), vec![2999, 1000]);
}

#[test]
fn subtrees_are_walked_level_by_level() {
    let mut tasks = stub_tasks();
    let [parent, first, second, grandchild] = family(&mut tasks);
    assert_eq!(
        ChildrenTraversal::from(&tasks.tasks, parent).get_all(),
        vec![parent, first, second, grandchild]
    );
    assert_eq!(
        ChildrenTraversal::from(&tasks.tasks, parent).get_depth(1),
        vec![parent, first, second]
    );
    let mut traversal = ChildrenTraversal::rooted(&tasks.tasks, Some(parent));
    assert_eq!(traversal.next_task(), Some(first));
    assert_eq!(traversal.next(), Some(second));
    assert_eq!(traversal.next(), None);
    let mut traversal = ChildrenTraversal::rooted(&tasks.tasks, None);
    assert_eq!(traversal.next(), Some(parent));
    assert_eq!(traversal.next(), Some(first));
}

#[test]
fn a_traversal_can_leave_out_tasks() {
    let mut tasks = stub_tasks();
    let [parent, first, second, grandchild] = family(&mut tasks);
    let by_title = |t: &Task| match t.get_title().as_str() {
        "parent" => TraversalFilter::TakeChildren,
        "first" => TraversalFilter::TakeSelf,
        "second" => TraversalFilter::Take,
        _ => TraversalFilter::Reject,
    };
    let mut traversal = ChildrenTraversal::from(&tasks.tasks, parent);
    assert_eq!(traversal.next_filtered(&by_title).map(|t| t.get_id()), Some(first));
    assert_eq!(traversal.next_filtered(&by_title).map(|t| t.get_id()), Some(second));
    assert!(traversal.next_filtered(&by_title).is_none());
    let mut unknown = ChildrenTraversal::from(&tasks.tasks, EventId::all_zeros());
    assert!(unknown.next_filtered(&by_title).is_none());
    let all = |_: &Task| TraversalFilter::Take;
    let mut traversal = ChildrenTraversal::from(&tasks.tasks, first);
    assert_eq!(traversal.next_filtered(&all).map(|t| t.get_id()), Some(first));
    assert_eq!(traversal.next_filtered(&all).map(|t| t.get_id()), Some(grandchild));
    assert!(traversal.next_filtered(&all).is_none());
}

#[test]
fn tasks_are_found_by_id_and_parent() {
    let mut tasks = stub_tasks();
    let [parent, first, _, grandchild] = family(&mut tasks);
    let title = |at: &usize| tasks.tasks[*at].get_title();
    assert_eq!(find_task(&tasks.tasks, first), 1);
    assert_eq!(find_task(&tasks.tasks, EventId::all_zeros()), tasks.len());
    assert_eq!(children_for(&tasks.tasks, Some(parent)).len(), 2);
    assert_eq!(
        traverse_up_from(&tasks.tasks, Some(grandchild)).iter().map(title).collect::<Vec<_>>(),
        vec!["grandchild", "first", "parent"]
    );
}

#[test]
fn columns_are_a_collection() {
    let mut columns = vec!["a".to_string(), "b".to_string()];
    columns.add_or_remove("c".to_string());
    columns.add_or_remove("a".to_string());
    assert_eq!(columns, vec!["b".to_string(), "c".to_string()]);
    columns.add_or_remove_at("d".to_string(), 1);
    assert_eq!(columns, vec!["b".to_string(), "d".to_string(), "c".to_string()]);
    columns.remove_at(0);
    assert_eq!(columns, vec!["d".to_string(), "c".to_string()]);
}

#[test]
fn names_are_matched_step_by_step() {
    let mut tasks = stub_tasks();
    let exact = make(&mut tasks, "walk");
    let longer = make(&mut tasks, "walking the dog");
    let other = make(&mut tasks, "the long walks");
    assert_eq!(tasks.get_matching(None, "WALK"), vec![exact]);
    assert_eq!(tasks.get_matching(None, "walki"), vec![longer]);
    assert_eq!(tasks.get_matching(None, "long"), vec![other]);
    assert_eq!(tasks.get_matching(None, "ong"), vec![]);
    assert_eq!(tasks.get_matching(None, &other.to_string()), vec![other]);
    assert_eq!(tasks.get_matching(None, "nothing"), vec![]);
}
