use mostr::command::{choose_relay, relay_address, select_relay, split_time, Command, RelayChoice};

fn read(text: &str) -> String {
    format!("{:?}", Command::parse(text))
}

#[test]
fn nothing_shows_the_tasks() {
    assert_eq!(read(""), "Show");
}

#[test]
fn columns_and_sorting() {
    assert_eq!(read(":"), "Columns");
    assert_eq!(read("://relay"), "Relay(\"://relay\")");
    assert_eq!(read("::name"), "SortFirstBy(\"name\")");
    assert_eq!(read(":: name  state"), "SortBy([\"name\", \"state\"])");
    assert_eq!(read("::"), "SortBy([])");
    assert_eq!(read(":2"), "RemoveColumn(1)");
    assert_eq!(read(":0"), "RemoveColumn(0)");
    assert_eq!(read(":3 hashtags"), "ToggleColumnAt(\"hashtags\", 2)");
    assert_eq!(read(": desc"), "ToggleColumn(\"desc\")");
}

#[test]
fn notes_and_endings() {
    assert_eq!(read(","), "Changes");
    assert_eq!(read(", a"), "ShortNote");
    assert_eq!(read(",ab"), "Note(\"ab\")");
    assert_eq!(read(">"), "Finish(\"\")");
    assert_eq!(read("> all done"), "Finish(\"all done\")");
    assert_eq!(read("<"), "Close(\"\")");
    assert_eq!(read("<never"), "Close(\"never\")");
}

#[test]
fn going_back() {
    assert_eq!(read("&"), "Undo");
    assert_eq!(read("&&"), "Places");
    assert_eq!(read("&3"), "BackBy(3)");
    assert_eq!(read("&256"), "BackTo(\"256\")");
    assert_eq!(read("& home"), "BackTo(\"home\")");
}

#[test]
fn people_pins_and_priority() {
    assert_eq!(read("@"), "Recent");
    assert_eq!(read("@@"), "ToggleKeys");
    assert_eq!(read("@jo"), "By(\"jo\")");
    assert_eq!(read("*"), "Pin");
    assert_eq!(read("**"), "Priority(None)");
    assert_eq!(read("*5"), "Priority(Some(50))");
    assert_eq!(read("*55"), "Priority(Some(55))");
    assert_eq!(read("*65536"), "Priority(None)");
}

#[test]
fn procedures_and_states() {
    assert_eq!(read("|"), "Procedure");
    assert_eq!(read("|next"), "Sibling(\"next\")");
    assert_eq!(read("||list"), "EnterProcedure(\"list\")");
    assert_eq!(read("?"), "States(Default)");
    assert_eq!(read("??"), "States(All)");
    assert_eq!(read("?Done"), "States(State(\"Done\"))");
    assert_eq!(read("!"), "SetState(\"\")");
    assert_eq!(read("!Pending: wait"), "SetState(\"Pending: wait\")");
}

#[test]
fn tags_and_filters() {
    assert_eq!(read("#"), "Tags([])");
    assert_eq!(read("#one two"), "Tags([\"one\", \"two\"])");
    assert_eq!(read("+"), "ListTags");
    assert_eq!(read("+tag"), "AddTag(\"tag\")");
    assert_eq!(read("-"), "ClearFilters");
    assert_eq!(read("- tag"), "RemoveTag(\"tag\")");
}

#[test]
fn tracking() {
    assert_eq!(read("("), "Times(60)");
    assert_eq!(read("((5"), "Times(5)");
    assert_eq!(read("(("), format!("Times({})", usize::MAX));
    assert_eq!(read("(10"), "Track(\"10\")");
    assert_eq!(read(")"), "Stop");
    assert_eq!(read(") 1530"), "StopAt(\"1530\")");
}

#[test]
fn moving_and_searching() {
    assert_eq!(read("."), "Up(0)");
    assert_eq!(read("..."), "Up(2)");
    assert_eq!(read("..3"), "Depth(1, 3)");
    assert_eq!(read(".10"), "Enter(0, \"10\")");
    assert_eq!(read(".task"), "Enter(0, \"task\")");
    assert_eq!(read("/"), "Root");
    assert_eq!(read("//"), "Over(1)");
    assert_eq!(read("/2"), "SearchDepth(0, 2)");
    assert_eq!(read("//text"), "Search(1, \"text\")");
}

#[test]
fn plain_text_is_a_task_or_a_relay() {
    assert_eq!(read("wss://relay.example"), "OpenRelay(\"wss://relay.example\")");
    assert_eq!(read("ws://relay.example"), "OpenRelay(\"ws://relay.example\")");
    assert_eq!(read("some task"), "Match(\"some task\")");
    assert_eq!(read("one\n \ntwo\n"), "Tasks([\"one\", \"two\"])");
    assert_eq!(read("\u{00e4}hnlich"), "Match(\"\u{00e4}hnlich\")");
}

#[test]
fn a_space_makes_a_task_of_any_text() {
    assert_eq!(read(" :name"), "Match(\" :name\")");
    assert_eq!(read(" .."), "Match(\" ..\")");
}

#[test]
fn a_time_stands_behind_a_command() {
    assert_eq!(split_time(">done@10"), Some((">done".to_string(), "10".to_string())));
    assert_eq!(
        split_time("task @tomorrow@x"),
        Some(("task ".to_string(), "tomorrow@x".to_string()))
    );
    assert_eq!(split_time("@jo"), None);
    assert_eq!(split_time("task"), None);
    assert_eq!(split_time(""), None);
}

#[test]
fn relays_are_chosen_by_their_address() {
    let relays = vec![
        None,
        Some("wss://one.example/".to_string()),
        Some("wss://two.example/".to_string()),
    ];
    assert_eq!(select_relay(&Command::parse("://two"), &relays), Some(2));
    assert_eq!(select_relay(&Command::parse("wss://"), &relays), Some(1));
    assert_eq!(select_relay(&Command::parse("wss://t"), &relays), Some(2));
    assert_eq!(select_relay(&Command::parse("ws://t"), &relays), None);
    assert_eq!(select_relay(&Command::parse("two"), &relays), None);
}

#[test]
fn an_unknown_address_is_opened() {
    let relays = vec![None, Some("wss://one.example".to_string())];
    let choose = |text: &str| choose_relay(&Command::parse(text), &relays);
    assert_eq!(choose("wss://one"), RelayChoice::Select(1));
    assert_eq!(choose("://one"), RelayChoice::Select(1));
    assert_eq!(choose("://two"), RelayChoice::Unknown);
    assert_eq!(choose("wss://TWO.example"), RelayChoice::Open("wss://two.example".to_string()));
    assert_eq!(choose("wss://two.example/"), RelayChoice::Open("wss://two.example/".to_string()));
    assert_eq!(choose("wss://two wss://three"), RelayChoice::Invalid);
    assert_eq!(choose("ws://"), RelayChoice::Invalid);
    assert_eq!(choose("one"), RelayChoice::Nothing);
}

#[test]
fn addresses_have_a_protocol() {
    assert_eq!(relay_address("relay.example"), "wss://relay.example");
    assert_eq!(relay_address("ws://relay.example"), "ws://relay.example");
}
