use mostr::event_sender::{EventSender, MostrMessage};
use mostr::hashtag::Hashtag;
use mostr::kinds::TASK_KIND;
use mostr::nostr::{EventBuilder, EventId, Signer};
use mostr::task::state::State;
use mostr::tasks::execute::Reply;
use mostr::tasks::nostr_users::Metadata;
use mostr::tasks::times::{keep_long_ago, since_position_at};
use mostr::tasks::{StateFilter, TasksRelay};
use mostr::time::LocalTime;
use nostr_sdk::Timestamp;

fn stub_tasks() -> TasksRelay {
    TasksRelay::with_sender(EventSender::from(
        Some("wss://relay.example".to_string()),
        Signer::generate(),
    ))
}

fn clock() -> u64 {
    Timestamp::now().as_u64()
}

fn run(tasks: &mut TasksRelay, text: &str) -> Reply {
    let command = tasks.take_command(text);
    assert!(tasks.fits(&command));
    let reply = tasks.execute(command);
    tasks.custom_time = None;
    reply
}

fn title(tasks: &TasksRelay) -> Option<String> {
    tasks.get_current_task().map(|t| t.get_title())
}

fn titles(tasks: &TasksRelay) -> Vec<String> {
    let mut titles: Vec<String> = tasks.visible_tasks().iter().map(|t| t.get_title()).collect();
    titles.sort();
    titles
}

fn texts(values: &[&str]) -> Vec<String> {
    values.iter().map(|v| v.to_string()).collect()
}

fn id_of(tasks: &TasksRelay, name: &str) -> EventId {
    tasks.tasks.iter().find(|t| t.get_title() == name).unwrap().get_id()
}

#[test]
fn names_make_or_find_tasks() {
    let mut tasks = stub_tasks();
    assert_eq!(run(&mut tasks, "first task"), Reply::Show);
    assert_eq!(tasks.len(), 1);
    assert_eq!(titles(&tasks), texts(&["first task"]));
    assert_eq!(run(&mut tasks, "first"), Reply::Show);
    assert_eq!(tasks.len(), 1);
    assert_eq!(title(&tasks), Some("first task".to_string()));
    assert_eq!(run(&mut tasks, "."), Reply::Show);
    assert_eq!(title(&tasks), Some("first task".to_string()));
    run(&mut tasks, "..");
    assert_eq!(title(&tasks), None);
}

#[test]
fn every_line_makes_a_task() {
    let mut tasks = stub_tasks();
    run(&mut tasks, "one\n\ntwo\n  three");
    assert_eq!(titles(&tasks), texts(&["one", "three", "two"]));
}

#[test]
fn an_empty_line_sends_what_is_pending() {
    let mut tasks = stub_tasks();
    run(&mut tasks, "one task");
    assert_eq!(tasks.sender.queue().len(), 1);
    assert_eq!(run(&mut tasks, ""), Reply::Show);
    assert_eq!(tasks.sender.queue().len(), 0);
    let messages = tasks.sender.take_messages();
    assert_eq!(messages.len(), 1);
    assert!(matches!(&messages[0], MostrMessage::AddTasks(_, events) if events.len() == 1));
}

#[test]
fn entering_makes_a_task_and_moves_there() {
    let mut tasks = stub_tasks();
    run(&mut tasks, ".parent");
    assert_eq!(title(&tasks), Some("parent".to_string()));
    run(&mut tasks, ".child");
    assert_eq!(title(&tasks), Some("child".to_string()));
    let child = id_of(&tasks, "child");
    assert_eq!(tasks.get_task_path(Some(child)), "parent>child");
    run(&mut tasks, "..sibling");
    assert_eq!(
        tasks.get_by_id(&id_of(&tasks, "sibling")).unwrap().parent_id(),
        Some(id_of(&tasks, "parent"))
    );
    run(&mut tasks, "/");
    assert_eq!(title(&tasks), None);
}

#[test]
fn a_space_makes_another_task_of_the_same_name() {
    let mut tasks = stub_tasks();
    tasks.custom_time = Some(clock() - 100);
    tasks.make_task("twice");
    tasks.custom_time = None;
    run(&mut tasks, ".twice");
    assert_eq!(tasks.len(), 1);
    run(&mut tasks, "/");
    run(&mut tasks, ". twice");
    assert_eq!(tasks.len(), 2);
    assert_eq!(tasks.get_position(), Some(tasks.tasks[1].get_id()));
    assert_eq!(tasks.tasks[1].get_title(), "twice");
}

#[test]
fn finishing_moves_up() {
    let mut tasks = stub_tasks();
    run(&mut tasks, ".parent");
    run(&mut tasks, ".child");
    assert_eq!(run(&mut tasks, "> well done"), Reply::Show);
    assert_eq!(title(&tasks), Some("parent".to_string()));
    let child = tasks.get_by_id(&id_of(&tasks, "child")).unwrap();
    assert_eq!(child.pure_state(), State::Done);
    assert_eq!(child.state().unwrap().name, Some("well done".to_string()));
    run(&mut tasks, "<");
    assert_eq!(title(&tasks), None);
    assert_eq!(tasks.get_by_id(&id_of(&tasks, "parent")).unwrap().pure_state(), State::Closed);
    assert_eq!(titles(&tasks).len(), 0);
    run(&mut tasks, "??");
    assert!(titles(&tasks).contains(&"parent".to_string()));
    run(&mut tasks, "?");
    assert_eq!(titles(&tasks).len(), 0);
}

#[test]
fn undoing_takes_back_what_was_made() {
    let mut tasks = stub_tasks();
    run(&mut tasks, "kept task");
    run(&mut tasks, "");
    run(&mut tasks, "mistaken entry");
    assert_eq!(tasks.len(), 2);
    assert_eq!(run(&mut tasks, "&"), Reply::Show);
    assert_eq!(titles(&tasks), texts(&["kept task"]));
    run(&mut tasks, "&");
    assert_eq!(tasks.len(), 1);
}

#[test]
fn a_time_behind_a_command_is_recorded() {
    let mut tasks = stub_tasks();
    let command = tasks.take_command("timed task@2 days ago");
    let time = tasks.custom_time.unwrap();
    assert!((clock() - time).abs_diff(2 * 86_400) <= 7200);
    tasks.execute(command);
    assert_eq!(tasks.tasks[0].event().created_at, time);
    assert_eq!(tasks.tasks[0].get_title(), "timed task");
    // What is no time belongs to the command
    tasks.custom_time = None;
    run(&mut tasks, "mail to me@home");
    assert_eq!(tasks.custom_time, None);
    assert_eq!(tasks.tasks[1].get_title(), "mail to me@home");
}

#[test]
fn columns_are_toggled() {
    let mut tasks = stub_tasks();
    let columns = tasks.properties.len();
    assert_eq!(run(&mut tasks, ":"), Reply::Columns);
    run(&mut tasks, ":1 id");
    assert_eq!(tasks.properties[0], "id");
    assert_eq!(tasks.properties.len(), columns + 1);
    run(&mut tasks, ":1");
    assert_eq!(tasks.properties.len(), columns);
    run(&mut tasks, ":id");
    assert_eq!(tasks.properties[columns], "id");
    run(&mut tasks, ":id");
    assert_eq!(tasks.properties.len(), columns);
    run(&mut tasks, ":: name id");
    assert_eq!(tasks.sorting, texts(&["name", "id"]));
    run(&mut tasks, "::created");
    assert_eq!(tasks.sorting[0], "created");
}

#[test]
fn columns_have_to_be_there() {
    let mut tasks = stub_tasks();
    tasks.properties = texts(&["name"]);
    let removal = tasks.take_command(":2");
    assert!(!tasks.fits(&removal));
    let addition = tasks.take_command(":2 id");
    assert!(tasks.fits(&addition));
    let beyond = tasks.take_command(":3 id");
    assert!(!tasks.fits(&beyond));
}

#[test]
fn notes_belong_to_the_active_task() {
    let mut tasks = stub_tasks();
    assert_eq!(run(&mut tasks, ",x"), Reply::Nothing);
    let before = tasks.recurse_activities;
    assert_eq!(run(&mut tasks, ","), Reply::Show);
    assert_eq!(tasks.recurse_activities, !before);
    run(&mut tasks, ".work");
    run(&mut tasks, ", remember this");
    let work = tasks.get_current_task().unwrap();
    assert_eq!(work.descriptions(), texts(&["remember this"]));
    assert_eq!(run(&mut tasks, ","), Reply::Changes);
    let work = tasks.get_current_task().unwrap();
    let changes = tasks.change_history(work, clock());
    assert!(changes.iter().any(|line| line.contains("remember this")));
}

#[test]
fn tags_filter_and_go_to_new_tasks() {
    let mut tasks = stub_tasks();
    run(&mut tasks, "plain task");
    assert_eq!(run(&mut tasks, "#"), Reply::Hashtags);
    run(&mut tasks, "#garden");
    assert_eq!(tasks.tags, vec![Hashtag::from("garden")]);
    run(&mut tasks, "plant flowers");
    assert_eq!(titles(&tasks), texts(&["plant flowers"]));
    assert_eq!(run(&mut tasks, "+"), Reply::HashtagsAndHelp);
    run(&mut tasks, "-garden");
    assert_eq!(tasks.tags, vec![]);
    assert_eq!(titles(&tasks), texts(&["plain task", "plant flowers"]));
    run(&mut tasks, "-garden");
    assert_eq!(titles(&tasks), texts(&["plain task"]));
    run(&mut tasks, "-");
    assert_eq!(titles(&tasks), texts(&["plain task", "plant flowers"]));
    run(&mut tasks, "+garden");
    assert_eq!(titles(&tasks), texts(&["plant flowers"]));
    run(&mut tasks, "#");
    assert_eq!(tasks.tags, vec![]);
    assert_eq!(run(&mut tasks, "+"), Reply::Hashtags);
}

#[test]
fn priority_filters_and_goes_to_new_tasks() {
    let mut tasks = stub_tasks();
    run(&mut tasks, "common task");
    run(&mut tasks, "*7");
    assert_eq!(tasks.priority, Some(70));
    run(&mut tasks, "urgent task");
    assert_eq!(tasks.tasks[1].priority(), Some(70));
    assert_eq!(titles(&tasks), texts(&["urgent task"]));
    run(&mut tasks, "**");
    assert_eq!(titles(&tasks), texts(&["common task", "urgent task"]));
}

#[test]
fn pins_are_toggled() {
    let mut tasks = stub_tasks();
    run(&mut tasks, ".pinned");
    let pinned = id_of(&tasks, "pinned");
    run(&mut tasks, "*");
    assert_eq!(tasks.bookmarks, vec![pinned]);
    run(&mut tasks, "*");
    assert_eq!(tasks.bookmarks, vec![]);
    run(&mut tasks, "*");
    run(&mut tasks, "/");
    run(&mut tasks, "*");
    assert_eq!(tasks.view, vec![pinned]);
}

#[test]
fn states_are_set_and_held_back() {
    let mut tasks = stub_tasks();
    run(&mut tasks, ".work");
    let work = id_of(&tasks, "work");
    run(&mut tasks, "!Review");
    let state = tasks.get_by_id(&work).unwrap().state().unwrap();
    assert_eq!((state.state, state.name), (State::Open, Some("Review".to_string())));
    run(&mut tasks, "/");
    run(&mut tasks, ".other work");
    run(&mut tasks, "!Done");
    let other = tasks.get_by_id(&id_of(&tasks, "other work")).unwrap();
    assert_eq!(other.state().unwrap().state, State::Done);
    run(&mut tasks, "/");
    run(&mut tasks, ".later");
    let work = id_of(&tasks, "later");
    run(&mut tasks, "!2 days: waiting");
    let task = tasks.get_by_id(&work).unwrap();
    let state = task.state().unwrap();
    assert_eq!((state.state, state.name), (State::Pending, Some("waiting".to_string())));
    let later = task.state_at(clock() + 3 * 86_400).unwrap();
    assert_eq!(later.state, State::Open);
}

#[test]
fn procedures_and_siblings() {
    let mut tasks = stub_tasks();
    run(&mut tasks, "||steps");
    assert_eq!(title(&tasks), Some("steps".to_string()));
    assert_eq!(tasks.get_current_task().unwrap().pure_state(), State::Procedure);
    run(&mut tasks, "step one");
    run(&mut tasks, "step two");
    let one = id_of(&tasks, "step one");
    let two = tasks.get_by_id(&id_of(&tasks, "step two")).unwrap();
    assert_eq!(two.find_dependents(), vec![one]);
    run(&mut tasks, "/");
    run(&mut tasks, ".alone");
    run(&mut tasks, "|beside");
    let beside = tasks.get_by_id(&id_of(&tasks, "beside")).unwrap();
    assert_eq!(beside.find_dependents(), vec![id_of(&tasks, "alone")]);
    assert_eq!(beside.parent_id(), None);
}

#[test]
fn procedures_are_marked_and_unmarked() {
    let mut tasks = stub_tasks();
    let signer = tasks.sender.signer().clone();
    tasks.add(signer.sign(EventBuilder::new(TASK_KIND, "list"), 100));
    let list = id_of(&tasks, "list");
    tasks.track_at(clock() - 50, Some(list));
    tasks.custom_time = Some(clock() - 20);
    let command = tasks.take_command("|");
    tasks.execute(command);
    assert_eq!(tasks.get_by_id(&list).unwrap().pure_state(), State::Procedure);
    run(&mut tasks, "|");
    assert_eq!(tasks.get_by_id(&list).unwrap().pure_state(), State::Open);
    run(&mut tasks, "/");
    run(&mut tasks, "|");
    assert!(matches!(&tasks.state, StateFilter::State(s) if s == "Procedure"));
}

#[test]
fn searching_narrows_the_view() {
    let mut tasks = stub_tasks();
    run(&mut tasks, "buy apples # shop");
    run(&mut tasks, "buy pears # shop");
    run(&mut tasks, "call a friend");
    run(&mut tasks, "/buy");
    assert_eq!(titles(&tasks), texts(&["buy apples", "buy pears"]));
    run(&mut tasks, "/pears");
    assert_eq!(title(&tasks), Some("buy pears".to_string()));
    run(&mut tasks, "/3");
    assert_eq!(tasks.search_depth, 3);
    run(&mut tasks, ".2");
    assert_eq!(tasks.view_depth, 2);
}

#[test]
fn going_back_in_the_history() {
    let mut tasks = stub_tasks();
    run(&mut tasks, "one place");
    run(&mut tasks, "two places");
    let one = id_of(&tasks, "one place");
    let two = id_of(&tasks, "two places");
    tasks.track_at(clock() - 300, Some(one));
    tasks.track_at(clock() - 200, Some(two));
    tasks.track_at(clock() - 100, None);
    assert_eq!(run(&mut tasks, "&&"), Reply::Places);
    let places = tasks.back_list(clock());
    assert!(places.iter().any(|line| line.contains("two places")));
    run(&mut tasks, "&one");
    assert_eq!(tasks.get_position(), Some(one));
    run(&mut tasks, "&nowhere");
    assert_eq!(tasks.get_position(), Some(one));
}

#[test]
fn tracking_is_started_and_stopped_at_times() {
    let mut tasks = stub_tasks();
    run(&mut tasks, "some work");
    let work = id_of(&tasks, "some work");
    tasks.track_at(clock() - 100, Some(work));
    run(&mut tasks, "(-60");
    let (start, _) = tasks.get_position_at(clock() - 3000, clock());
    assert!(start.abs_diff(clock() - 3600) < 10);
    assert_eq!(run(&mut tasks, "("), Reply::Times(60));
    assert_eq!(run(&mut tasks, ")+5"), Reply::Times(15));
    assert_eq!(tasks.get_position_at(clock() + 400, clock()).1, None);
    assert_eq!(run(&mut tasks, ")"), Reply::Show);
    assert_eq!(tasks.get_position(), None);
    assert_eq!(run(&mut tasks, "(nothing at all"), Reply::Nothing);
}

#[test]
fn updating_the_state_returns_the_event() {
    let mut tasks = stub_tasks();
    assert_eq!(tasks.update_state("", State::Done), None);
    run(&mut tasks, ".work");
    let id = tasks.update_state("", State::Done).unwrap();
    let work = tasks.get_current_task().unwrap();
    assert!(work.props().iter().any(|event| event.id == id));
}

#[test]
fn the_position_counts_from_when_it_was_taken() {
    let now = LocalTime { secs: 100_000, nanos: 0, offset: 0 };
    let since = LocalTime { secs: 100_000 - 6 * 3600, nanos: 0, offset: 60 };
    let before = LocalTime { secs: since.secs - 1, ..since };
    let id = EventId::all_zeros();
    assert_eq!(since_position_at((since.secs as u64, Some(id)), Some(60)), Some(since));
    assert_eq!(since_position_at((since.secs as u64, None), Some(60)), None);
    assert_eq!(keep_long_ago(Some(since), now), None);
    assert_eq!(keep_long_ago(Some(before), now), Some(before));
    assert_eq!(keep_long_ago(None, now), None);
}

#[test]
fn users_are_shown_by_name() {
    let mut tasks = stub_tasks();
    let other = Signer::generate();
    tasks.users.insert(other.pubkey(), Metadata::new(Some("jo".to_string()), None), 5);
    tasks.add(other.sign(EventBuilder::new(TASK_KIND, "theirs"), clock() - 5));
    run(&mut tasks, "own task");
    run(&mut tasks, "@jo");
    assert_eq!(tasks.keys, vec![other.pubkey()]);
    assert_eq!(titles(&tasks), texts(&["theirs"]));
    assert_eq!(run(&mut tasks, "(jo"), Reply::TimesOf(other.pubkey()));
    run(&mut tasks, "@@");
    assert_eq!(titles(&tasks), texts(&["own task"]));
    run(&mut tasks, "@@");
    assert_eq!(titles(&tasks), texts(&["own task", "theirs"]));
    assert_eq!(run(&mut tasks, "@"), Reply::Show);
}

#[test]
fn relays_are_left_to_the_caller() {
    let mut tasks = stub_tasks();
    assert_eq!(run(&mut tasks, "wss://other.example"), Reply::Nothing);
    assert_eq!(run(&mut tasks, "://other"), Reply::Nothing);
    assert_eq!(tasks.len(), 0);
}
