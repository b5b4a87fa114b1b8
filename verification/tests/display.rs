use chrono::{Local, TimeZone};
use colored::control::set_override;
use mostr::event_sender::EventSender;
use mostr::kinds::TASK_KIND;
use mostr::nostr::{EventBuilder, EventId, Signer};
use mostr::task::state::State;
use mostr::task::state::StateChange;
use mostr::tasks::nostr_users::Metadata;
use mostr::tasks::property::{display_time, ProgressStep};
use mostr::tasks::{Progress, TaskProgress, TasksRelay};
use nostr_sdk::Timestamp;

fn stub_tasks() -> TasksRelay {
    TasksRelay::with_sender(EventSender::from(None, Signer::generate()))
}

fn clock() -> u64 {
    Timestamp::now().as_u64()
}

fn make(tasks: &mut TasksRelay, name: &str) -> EventId {
    tasks.make_task(name).unwrap()
}

fn shown(time: u64, format: &str) -> String {
    Local.timestamp_opt(time as i64 + 1, 0).unwrap().format(format).to_string()
}

fn property(tasks: &TasksRelay, id: EventId, name: &str) -> String {
    tasks.get_property(tasks.get_by_id(&id).unwrap(), name)
}

#[test]
fn colours_can_be_switched_off() {
    let change = StateChange { state: State::Open, name: None, time: 0 };
    set_override(true);
    assert_eq!(change.get_colored_label(), "\u{1b}[32mOpen\u{1b}[0m");
    assert_eq!(State::Done.colorize("x"), "\u{1b}[90mx\u{1b}[0m");
    assert_eq!(State::Closed.colorize("x"), "\u{1b}[35mx\u{1b}[0m");
    assert_eq!(State::Pending.colorize("x"), "\u{1b}[33mx\u{1b}[0m");
    assert_eq!(State::Procedure.colorize("x"), "\u{1b}[34mx\u{1b}[0m");
    set_override(false);
    assert_eq!(change.get_colored_label(), "Open");
    assert_eq!(State::Done.colorize("x"), "x");
}

#[test]
fn the_prompt_shows_where_the_user_is() {
    let mut tasks = stub_tasks();
    set_override(false);
    assert_eq!(tasks.prompt("relay"), "relay \u{276f} ");
    let parent = make(&mut tasks, "parent");
    tasks.move_to(Some(parent));
    let child = make(&mut tasks, "child");
    tasks.move_to(Some(child));
    tasks.add_tag("tag");
    assert_eq!(tasks.prompt("relay"), "relay parent>child #tag\u{276f} ");
    set_override(true);
    assert!(tasks.prompt("relay").starts_with("\u{1b}[2mrelay\u{1b}[0m \u{1b}[1mparent"));
    assert!(tasks.prompt("relay").contains("\u{1b}[3m #tag\u{1b}[0m"));
}

#[test]
fn tasks_are_listed_below_their_properties() {
    set_override(false);
    let mut tasks = stub_tasks();
    tasks.properties = vec!["name".to_string(), "state".to_string()];
    make(&mut tasks, "only one");
    let text = tasks.to_string();
    assert!(text.contains("name \tstate\n"), "{}", text);
    assert!(text.contains("only one \tOpen\n"), "{}", text);
    assert!(text.ends_with("1 visible tasks\n"), "{}", text);
}

#[test]
fn without_tasks_the_times_are_told() {
    set_override(false);
    let mut tasks = stub_tasks();
    assert_eq!(tasks.to_string(), "Nothing time-tracked yet\n\n");
    let work = make(&mut tasks, "some work");
    tasks.move_to(Some(work));
    tasks.make_note("a remark");
    let text = tasks.to_string();
    assert!(text.starts_with("Active from "), "{}", text);
    assert!(text.contains("(total tracked time 0m) - Open since "), "{}", text);
    assert!(text.contains("\na remark\n"), "{}", text);
    assert!(text.contains("All Times Tracked on \"some work\""), "{}", text);
    tasks.make_task("below").unwrap();
    tasks.add_tag("other");
    let text = tasks.to_string();
    assert!(text.contains("No tasks here matching #other\n"), "{}", text);
}

#[test]
fn times_are_listed_by_place() {
    set_override(false);
    let mut tasks = stub_tasks();
    let work = make(&mut tasks, "work");
    let start = clock() - 1000;
    tasks.track_at(start, Some(work));
    tasks.track_at(start + 500, None);
    assert_eq!(
        tasks.times_tracked(10),
        format!(
            "All Time-Tracking History for {}:\n{} work\n{} ---",
            tasks.users.get_displayname(&tasks.own_key()),
            shown(start, "%y-%m-%d %a %H:%M"),
            shown(start + 500, "%y-%m-%d %a %H:%M"),
        )
    );
    assert!(tasks.times_tracked(1).starts_with("Recent Time-Tracking"));
    assert_eq!(tasks.times_tracked(1).lines().count(), 2);
    let (label, lines) = tasks.times_tracked_for(&Signer::generate().pubkey());
    assert_eq!((label.as_str(), lines.len()), ("Nothing time-tracked yet", 0));
}

#[test]
fn times_on_a_task_are_intervals() {
    set_override(false);
    let mut tasks = stub_tasks();
    let work = make(&mut tasks, "the \"work\"");
    let start = clock() - 1000;
    tasks.track_at(start, Some(work));
    tasks.track_at(start + 500, None);
    tasks.track_at(start + 600, Some(work));
    let name = tasks.users.get_displayname(&tasks.own_key());
    let (label, lines) = tasks.times_tracked_with(&tasks.own_key());
    assert_eq!(label, "Times Tracked on \"the \\\"work\\\"\"");
    let mut expected = vec![
        format!(
            "{} - {} by {}",
            shown(start, "%y-%m-%d %a %H:%M"),
            shown(start + 500, "%H:%M"),
            name
        ),
        format!("{} started by {}", shown(start + 600, "%y-%m-%d %a %H:%M"), name),
    ];
    expected.sort();
    assert_eq!(lines, expected);
}

#[test]
fn properties_of_a_task() {
    set_override(false);
    let mut tasks = stub_tasks();
    let parent = make(&mut tasks, "parent *30 # tag");
    tasks.move_to(Some(parent));
    let child = make(&mut tasks, "child");
    let done = make(&mut tasks, "done");
    tasks.set_state_for(done, "", State::Done);
    assert_eq!(property(&tasks, parent, "name"), "parent");
    assert_eq!(property(&tasks, parent, "prio"), "30");
    assert_eq!(property(&tasks, parent, "hashtags"), "tag");
    assert_eq!(property(&tasks, parent, "subtasks"), "1/2");
    assert_eq!(property(&tasks, child, "path"), "parent>child");
    assert_eq!(property(&tasks, child, "rpath"), "child");
    assert_eq!(property(&tasks, parent, "state"), "Open");
    tasks.progress = vec![TaskProgress {
        id: parent,
        progress: Progress { label: "50%".to_string(), started: true },
    }];
    assert_eq!(property(&tasks, parent, "progress"), "50%");
    assert_eq!(property(&tasks, parent, "state"), "50%");
}

#[test]
fn waiting_tasks_name_what_they_wait_for() {
    set_override(false);
    let mut tasks = stub_tasks();
    let first = make(&mut tasks, "first");
    tasks.move_to(Some(first));
    tasks.make_dependent_sibling("second");
    let second = tasks.tasks.iter().find(|t| t.get_title() == "second").unwrap().get_id();
    assert!(property(&tasks, second, "state").contains("first"));
    tasks.set_state_for(first, "", State::Done);
    assert_eq!(property(&tasks, second, "state"), "Open");
}

#[test]
fn progress_comes_from_states_and_children() {
    let mut tasks = stub_tasks();
    let parent = make(&mut tasks, "parent");
    let leaf = make(&mut tasks, "leaf");
    tasks.move_to(Some(parent));
    let child = make(&mut tasks, "child");
    let now = clock() + 9;
    assert!(matches!(tasks.progress_step(leaf, now), ProgressStep::Average(v) if v.is_empty()));
    assert!(matches!(tasks.progress_step(parent, now), ProgressStep::Average(v) if v == vec![child]));
    tasks.set_state_for(child, "", State::Done);
    assert!(matches!(tasks.progress_step(child, now), ProgressStep::Complete));
    tasks.set_state_for(leaf, "", State::Closed);
    assert!(matches!(tasks.progress_step(leaf, now), ProgressStep::Unknown));
}

#[test]
fn durations_are_written_out() {
    assert_eq!(display_time("HHhMMm", 3660), "01h01m");
    assert_eq!(display_time(" tracked a total of HHhMMm", 0), "");
}

#[test]
fn changes_are_told_with_their_tags() {
    set_override(false);
    let mut tasks = stub_tasks();
    tasks.custom_time = Some(1_600_000_000);
    let work = make(&mut tasks, "work #tag");
    tasks.custom_time = Some(1_600_000_100);
    tasks.set_state_for(work, "sure", State::Done);
    let lines = tasks.change_history(tasks.get_by_id(&work).unwrap(), clock());
    assert_eq!(
        lines,
        vec![
            format!(
                "{} work #tag [#tag, Key{}: ]",
                shown(1_600_000_000, "%y-%m-%d %a %H:%M:%S"),
                tasks.own_key().to_string()
            ),
            format!("{} State: Done - sure []", shown(1_600_000_100, "%y-%m-%d %a %H:%M:%S")),
        ]
    );
}

#[test]
fn the_own_name_goes_with_the_prompt() {
    set_override(false);
    let mut tasks = stub_tasks();
    let other = Signer::generate();
    tasks.users.insert(other.pubkey(), Metadata::new(Some("jo".to_string()), None), 5);
    tasks.add(other.sign(EventBuilder::new(TASK_KIND, "theirs"), 100));
    tasks.set_key_filter(vec![other.pubkey()]);
    assert_eq!(tasks.pubkey_str(), Some("jo".to_string()));
    assert_eq!(tasks.prompt("relay"), "relay @jo \u{276f} ");
    tasks.set_key_filter(vec![]);
    assert_eq!(tasks.pubkey_str(), Some("ALL".to_string()));
}
