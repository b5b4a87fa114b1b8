use std::collections::HashSet;

use mostr::event_sender::EventSender;
use mostr::hashtag::Hashtag;
use mostr::kinds::{
    extract_tags, to_hashtag_tag, BOOKMARKS_KIND, HIGH_PRIO, MARKER_DEPENDS, MARKER_PARENT, TASK_KIND,
};
use mostr::nostr::{EventBuilder, EventId, Signer, Tag};
use mostr::task::state::State;
use mostr::task::Task;
use mostr::tasks::children_traversal::ChildrenTraversal;
use mostr::tasks::{now, StateFilter, TasksRelay, QUICK_PRIO};
use nostr_sdk::Timestamp;

fn stub_tasks() -> TasksRelay {
    TasksRelay::with_sender(EventSender::from(None, Signer::generate()))
}

fn clock() -> u64 {
    Timestamp::now().as_u64()
}

fn make_task_unwrapped(tasks: &mut TasksRelay, input: &str) -> EventId {
    tasks.make_task(input).unwrap()
}

fn hashtags(tags: &[&str]) -> Vec<Hashtag> {
    tags.iter().map(|t| Hashtag::from(t)).collect()
}

fn assert_position(tasks: &TasksRelay, id: EventId) {
    let pos = tasks.get_position();
    assert_eq!(
        pos,
        Some(id),
        "Current: {:?}\nExpected: {:?}",
        tasks.get_task_path(pos),
        tasks.get_task_path(Some(id)),
    );
}

fn assert_tasks(tasks: &TasksRelay, tasklist: Vec<&Task>, expected: &[EventId]) {
    assert_eq!(
        tasklist.iter().map(|t| text(t.get_id())).collect::<HashSet<String>>(),
        expected.iter().map(|id| text(*id)).collect::<HashSet<String>>(),
        "Tasks Visible: {:?}\nExpected: {:?}",
        tasklist.iter().map(|t| tasks.get_task_path(Some(t.get_id()))).collect::<Vec<_>>(),
        expected.iter().map(|id| tasks.get_task_path(Some(*id))).collect::<Vec<_>>(),
    );
}

fn text(id: EventId) -> String {
    id.to_string()
}

fn assert_tasks_visible(tasks: &TasksRelay, expected: &[EventId]) {
    assert_tasks(tasks, tasks.visible_tasks(), expected);
}

fn assert_tasks_view(tasks: &TasksRelay, expected: &[EventId]) {
    assert_tasks(tasks, tasks.viewed_tasks(), expected);
}

#[test]
fn test_recursive_closing() {
    let mut tasks = stub_tasks();

    tasks.custom_time = Some(0);
    let parent = make_task_unwrapped(&mut tasks, "parent #tag1");
    tasks.move_to(Some(parent));
    let sub = make_task_unwrapped(&mut tasks, "sub #oi # tag2");
    assert_eq!(tasks.all_hashtags(), hashtags(&["oi", "tag1", "tag2"]));
    tasks.make_note("note with #tag3 # yeah");
    let all_tags = hashtags(&["oi", "tag1", "tag2", "tag3", "yeah"]);
    assert_eq!(tasks.all_hashtags(), all_tags);

    tasks.custom_time = Some(clock());
    tasks.update_state("Finished #YeaH # oi", State::Done);
    assert_eq!(
        tasks.get_by_id(&parent).unwrap().list_hashtags(),
        hashtags(&["YeaH", "oi", "tag3", "yeah", "tag1"])
    );
    assert_eq!(tasks.all_hashtags(), all_tags);

    tasks.custom_time = Some(now());
    tasks.update_state("Closing Down", State::Closed);
    assert_eq!(tasks.get_by_id(&sub).unwrap().pure_state(), State::Closed);
    assert_eq!(tasks.get_by_id(&parent).unwrap().pure_state(), State::Closed);
    assert_eq!(tasks.nonclosed_tasks().len(), 0);
    assert_eq!(tasks.all_hashtags(), vec![]);
}

#[test]
fn test_context() {
    let mut tasks = stub_tasks();
    tasks.update_tags(hashtags(&["dp", "yeah"]));
    assert_eq!(tasks.get_prompt_suffix(), " #dp #yeah");
    tasks.remove_tag("Y");
    assert_eq!(tasks.tags, hashtags(&["dp"]));

    tasks.set_priority(Some(HIGH_PRIO));
    assert_eq!(tasks.get_prompt_suffix(), " #dp *85");
    let id_hp = make_task_unwrapped(&mut tasks, "high prio tagged # tag");
    let hp = tasks.get_by_id(&id_hp).unwrap();
    assert_eq!(hp.priority(), Some(HIGH_PRIO));
    assert_eq!(hp.list_hashtags(), hashtags(&["DP", "tag"]));

    tasks.state = StateFilter::from("WIP");
    tasks.set_priority(Some(QUICK_PRIO));

    tasks.make_task_and_enter("another *4", State::Pending);
    let task2 = tasks.get_current_task().unwrap();
    assert_eq!(task2.priority(), Some(40));
    assert_eq!(task2.pure_state(), State::Pending);
    assert_eq!(task2.state().unwrap().get_label(), "Pending");
    tasks.make_note("*3");
    let task2 = tasks.get_current_task().unwrap();
    assert_eq!(task2.descriptions().len(), 0);
    assert_eq!(task2.priority(), Some(30));
    let anid = task2.get_id();

    tasks.custom_time = Some(clock() + 1);
    let s1 = make_task_unwrapped(&mut tasks, "sub1");
    tasks.custom_time = Some(clock() + 2);
    tasks.set_priority(Some(QUICK_PRIO + 1));
    let s2 = make_task_unwrapped(&mut tasks, "sub2");
    let s3 = make_task_unwrapped(&mut tasks, "sub3");
    tasks.set_priority(Some(QUICK_PRIO));

    assert_tasks_visible(&tasks, &[s1, s2, s3]);
    tasks.state = StateFilter::Default;
    assert_tasks_view(&tasks, &[s1, s2, s3]);
    assert_tasks_visible(&tasks, &[id_hp, s1, s2, s3]);
    tasks.move_up();
    tasks.set_search_depth(1);
    assert_tasks_view(&tasks, &[id_hp]);
    assert_tasks_visible(&tasks, &[s1, s2, s3, id_hp]);

    tasks.set_priority(None);
    let parent_tag = tasks.make_event_tag_from_id(anid, MARKER_PARENT);
    let s4 = tasks.make_task_with("sub4", vec![parent_tag], true).unwrap();
    assert_eq!(tasks.get_parent(Some(s4)), Some(anid));
    assert_tasks_view(&tasks, &[anid, id_hp]);
    // s2-4 are newest while s2,s3,hp are highest prio
    assert_tasks_visible(&tasks, &[s4, s2, s3, anid, id_hp]);

    tasks.set_key_filter(vec![Signer::generate().pubkey()]);
}

#[test]
fn test_sibling_dependency() {
    let mut tasks = stub_tasks();
    let parent = make_task_unwrapped(&mut tasks, "parent");
    let parent_tag = tasks.make_event_tag_from_id(parent, MARKER_PARENT);
    let sub = tasks.submit(EventBuilder::new(TASK_KIND, "sub").tags(vec![parent_tag]));
    assert_tasks_view(&tasks, &[parent]);
    tasks.track_at(clock(), Some(sub));
    assert_eq!(tasks.get_own_events_history().len(), 1);
    assert_tasks_view(&tasks, &[]);

    tasks.make_dependent_sibling("sibling");
    assert_eq!(tasks.len(), 3);
    assert_eq!(tasks.viewed_tasks().len(), 2);
}

#[test]
fn test_bookmarks() {
    let mut tasks = stub_tasks();
    let zero = EventId::all_zeros();
    let test = make_task_unwrapped(&mut tasks, "test # tag");
    let parent = make_task_unwrapped(&mut tasks, "parent");
    assert_eq!(tasks.viewed_tasks().len(), 2);
    tasks.move_to(Some(parent));
    let pin = make_task_unwrapped(&mut tasks, "pin");

    tasks.search_depth = 1;
    assert_eq!(tasks.filtered_tasks(None, true).len(), 2);
    assert_eq!(tasks.filtered_tasks(None, false).len(), 2);
    assert_eq!(tasks.filtered_tasks(Some(zero), false).len(), 0);
    assert_eq!(tasks.filtered_tasks(Some(parent), false).len(), 1);
    assert_eq!(tasks.filtered_tasks(Some(pin), false).len(), 0);
    assert_eq!(tasks.filtered_tasks(Some(zero), false).len(), 0);

    tasks.submit(
        EventBuilder::new(BOOKMARKS_KIND, "").tags(vec![Tag::event(pin), Tag::event(zero)]),
    );
    assert_eq!(tasks.viewed_tasks().len(), 1);
    assert_eq!(tasks.filtered_tasks(Some(pin), true).len(), 0);
    assert_eq!(tasks.filtered_tasks(Some(pin), false).len(), 0);
    assert_eq!(tasks.filtered_tasks(Some(zero), true).len(), 0);
    assert_eq!(
        tasks.filtered_tasks(Some(zero), false).iter().map(|t| t.get_id()).collect::<Vec<_>>(),
        vec![tasks.get_by_id(&pin).unwrap().get_id()]
    );

    tasks.move_to(None);
    assert_eq!(tasks.view_depth, 0);
    assert_tasks_visible(&tasks, &[pin, test, parent]);
    tasks.set_view_depth(1);
    assert_tasks_visible(&tasks, &[pin, test]);
    tasks.add_tag("tag");
    assert_tasks_visible(&tasks, &[test]);
    assert_eq!(
        tasks.filtered_tasks(None, true).iter().map(|t| t.get_id()).collect::<Vec<_>>(),
        vec![tasks.get_by_id(&test).unwrap().get_id()]
    );

    tasks.submit(EventBuilder::new(BOOKMARKS_KIND, ""));
    assert!(tasks.bookmarks.is_empty());
    tasks.clear_filters();
    assert_tasks_visible(&tasks, &[pin, test]);
    tasks.set_view_depth(0);
    tasks.custom_time = Some(now());
    let mut new = (0..3)
        .map(|t| make_task_unwrapped(&mut tasks, t.to_string().as_str()))
        .collect::<Vec<_>>();
    // Show the newest tasks in quick access and remove old pin
    new.extend([test, parent]);
    assert_tasks_visible(&tasks, &new);
}

#[test]
fn test_procedures() {
    let mut tasks = stub_tasks();
    tasks.make_task_and_enter("proc # tags", State::Procedure);
    assert_eq!(tasks.get_own_events_history().len(), 1);
    let depends = tasks.make_event_tag(&tasks.get_current_task().unwrap().event, MARKER_DEPENDS);
    let _side = tasks.submit(EventBuilder::new(TASK_KIND, "side").tags(vec![depends]));
    assert_eq!(tasks.viewed_tasks().len(), 0);
    let sub_id = make_task_unwrapped(&mut tasks, "sub");
    assert_tasks_view(&tasks, &[sub_id]);
    assert_eq!(tasks.len(), 3);
    let sub = tasks.get_by_id(&sub_id).unwrap();
    assert_eq!(sub.find_dependents(), Vec::<EventId>::new());
}

#[test]
fn test_filter_or_create() {
    let mut tasks = stub_tasks();
    let zeros = EventId::all_zeros();
    let zero = Some(zeros);

    let id1 = tasks.filter_or_create(zero, "newer");
    assert_eq!(tasks.len(), 1);
    assert_eq!(tasks.viewed_tasks().len(), 0);
    assert_eq!(tasks.get_by_id(&id1.unwrap()).unwrap().parent_id(), zero);

    tasks.move_to(zero);
    assert_eq!(tasks.viewed_tasks().len(), 1);
    let sub = make_task_unwrapped(&mut tasks, "test");
    assert_eq!(tasks.len(), 2);
    assert_eq!(tasks.viewed_tasks().len(), 2);
    assert_eq!(tasks.get_by_id(&sub).unwrap().parent_id(), zero);

    // Do not substring match invisible subtask
    let id2 = tasks.filter_or_create(None, "#new-is gold wrapped").unwrap();
    assert_eq!(tasks.len(), 3);
    assert_eq!(tasks.viewed_tasks().len(), 2);
    let new2 = tasks.get_by_id(&id2).unwrap();
    assert!(new2.props.is_empty());

    tasks.move_up();
    assert_eq!(tasks.get_matching(tasks.get_position(), "wrapped").len(), 1);
    assert_eq!(tasks.get_matching(tasks.get_position(), "new-i").len(), 1);
    tasks.filter_or_create(None, "is gold");
    assert_position(&tasks, id2);

    assert_eq!(tasks.get_own_events_history().len(), 3);
    // Global match
    assert_eq!(tasks.filter_or_create(None, "newer"), None);
    assert_position(&tasks, id1.unwrap());
    assert_eq!(tasks.get_own_events_history().len(), 4);
    assert_eq!(tasks.len(), 3);
}

#[test]
fn test_tracking() {
    let mut tasks = stub_tasks();
    let zero = EventId::all_zeros();

    tasks.track_at(0, None);
    assert_eq!(tasks.history.len(), 0);

    let almost_now: u64 = clock() - 12u64;
    tasks.track_at(11, Some(zero));
    tasks.track_at(13, Some(zero));
    assert_position(&tasks, zero);
    assert!(tasks.time_tracked(zero) > almost_now);

    // Because None is backtracked by one to avoid conflicts
    tasks.track_at(22 + 1, None);
    assert_eq!(tasks.get_own_events_history().len(), 2);
    assert_eq!(tasks.time_tracked(zero), 11);
    tasks.track_at(22 + 1, Some(zero));
    assert_eq!(tasks.get_own_events_history().len(), 3);
    assert!(tasks.time_tracked(zero) > 999);

    let some = make_task_unwrapped(&mut tasks, "some");
    tasks.track_at(22 + 1, Some(some));
    assert_eq!(tasks.get_own_events_history().len(), 4);
    assert_eq!(tasks.time_tracked(zero), 12);
    assert!(tasks.time_tracked(some) > 999);
}

#[test]
fn test_depth() {
    let mut tasks = stub_tasks();

    let t1 = tasks.make_note("t1");
    let activity_t1 = tasks.get_by_id(&t1).unwrap();
    assert!(!activity_t1.is_task());
    assert_eq!(tasks.view_depth, 0);
    assert_eq!(activity_t1.pure_state(), State::Open);
    assert_eq!(tasks.viewed_tasks().len(), 1);
    tasks.search_depth = 0;
    assert_eq!(tasks.viewed_tasks().len(), 0);
    tasks.recurse_activities = false;
    assert_eq!(tasks.filtered_tasks(None, false).len(), 1);

    tasks.move_to(Some(t1));
    assert_position(&tasks, t1);
    tasks.search_depth = 2;
    assert_eq!(tasks.viewed_tasks().len(), 0);
    let t11 = make_task_unwrapped(&mut tasks, "t11 # tag");
    assert_eq!(tasks.viewed_tasks().len(), 1);
    assert_eq!(tasks.get_task_path(Some(t11)), "t1>t11");
    assert_eq!(tasks.get_relative_path(t11), "t11");
    let t12 = make_task_unwrapped(&mut tasks, "t12");
    assert_eq!(tasks.viewed_tasks().len(), 2);

    tasks.move_to(Some(t11));
    assert_position(&tasks, t11);
    assert_eq!(tasks.viewed_tasks().len(), 0);
    let t111 = make_task_unwrapped(&mut tasks, "t111");
    assert_tasks_view(&tasks, &[t111]);
    assert_eq!(tasks.get_task_path(Some(t111)), "t1>t11>t111");
    assert_eq!(tasks.get_relative_path(t111), "t111");
    tasks.view_depth = 2;
    assert_tasks_view(&tasks, &[t111]);

    let all = &tasks.tasks;
    assert_eq!(ChildrenTraversal::from(all, EventId::all_zeros()).get_all().len(), 1);
    assert_eq!(ChildrenTraversal::from(all, EventId::all_zeros()).get_depth(0).len(), 1);
    assert_eq!(ChildrenTraversal::from(all, t1).get_depth(0).len(), 1);
    assert_eq!(ChildrenTraversal::from(all, t1).get_depth(1).len(), 3);
    assert_eq!(ChildrenTraversal::from(all, t1).get_depth(2).len(), 4);
    assert_eq!(ChildrenTraversal::from(all, t1).get_depth(9).len(), 4);
    assert_eq!(ChildrenTraversal::from(all, t1).get_all().len(), 4);

    tasks.move_up();
    assert_position(&tasks, t1);
    assert_eq!(tasks.get_own_events_history().len(), 3);
    assert_eq!(tasks.get_relative_path(t111), "t11>t111");
    assert_eq!(tasks.view_depth, 2);
    tasks.set_search_depth(1);
    assert_tasks_view(&tasks, &[t111, t12]);
    tasks.set_view_depth(0);
    assert_tasks_view(&tasks, &[t11, t12]);
    tasks.set_view(vec![t11]);
    assert_tasks_view(&tasks, &[t11]);
    tasks.set_view_depth(1);
    assert_tasks_view(&tasks, &[t111]);
    tasks.set_search_depth(2); // resets view
    assert_tasks_view(&tasks, &[t111, t12]);
    tasks.set_view_depth(0);
    assert_tasks_view(&tasks, &[t11, t12]);

    tasks.move_to(None);
    tasks.recurse_activities = true;
    assert_tasks_view(&tasks, &[t11, t12]);
    tasks.recurse_activities = false;
    assert_tasks_view(&tasks, &[t1]);
    tasks.view_depth = 1;
    assert_tasks_view(&tasks, &[t11, t12]);
    tasks.view_depth = 2;
    assert_tasks_view(&tasks, &[t111, t12]);
    tasks.view_depth = 9;
    assert_tasks_view(&tasks, &[t111, t12]);

    tasks.add_tag("tag");
    assert_eq!(tasks.get_prompt_suffix(), " #tag");
    tasks.view_depth = 0;
    assert_tasks_view(&tasks, &[t11]);
    tasks.search_depth = 0;
    assert!(tasks.view.is_empty());
    assert_tasks_view(&tasks, &[]);

    // Upwards
    tasks.move_to(Some(t111));
    assert_eq!(tasks.get_task_path(tasks.get_position()), "t1>t11>t111");
    assert_eq!(tasks.up_by(1), Some(t11));
    assert_eq!(tasks.up_by(2), Some(t1));
    assert_eq!(tasks.up_by(4), None);
    tasks.move_to(Some(t12));
    assert_eq!(tasks.up_by(1), Some(t1));
    assert_eq!(tasks.up_by(2), None);
}

#[test]
fn test_empty_task_title_fallback_to_id() {
    let mut tasks = stub_tasks();

    let empty = tasks.make_task_unchecked("", vec![]);
    let empty_task = tasks.get_by_id(&empty).unwrap();
    let empty_id = empty_task.get_id().to_string();
    assert_eq!(empty_task.get_title(), empty_id);
    assert_eq!(tasks.get_task_path(Some(empty)), empty_id);
}

#[test]
fn test_short_task() {
    let mut tasks = stub_tasks();
    let str = " # one";
    assert_eq!(extract_tags(str, &tasks.users), ("".to_string(), vec![to_hashtag_tag("one")]));
    assert_eq!(tasks.make_task(str), None);
}

#[test]
fn test_unknown_task() {
    let mut tasks = stub_tasks();

    let zero = EventId::all_zeros();
    assert_eq!(tasks.get_task_path(Some(zero)), zero.to_string());
    tasks.move_to(Some(zero));
    let dangling = make_task_unwrapped(&mut tasks, "test");
    assert_eq!(
        tasks.get_task_path(Some(dangling)),
        "0000000000000000000000000000000000000000000000000000000000000000>test"
    );
    assert_eq!(tasks.get_relative_path(dangling), "test");

    tasks.move_to(Some(dangling));
    assert_eq!(tasks.up_by(0), Some(dangling));
    assert_eq!(tasks.up_by(1), Some(zero));
    assert_eq!(tasks.up_by(2), None);
}
