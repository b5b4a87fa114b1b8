//! The commands that a user can enter.

use crate::helpers::trim_start_count;
use crate::kinds::Prio;
use crate::lists::{group_views, views};
use crate::tasks::{FilterView, StateFilter};
use crate::text::{
    begins_with, byte_len, chars_of, contains, contains_char, has_part, is_digit, lines_in,
    parse_unsigned, parted, same_text, shorter_than, split_lines, split_once, split_words,
    starts_with, starts_with_char, substring, trim, trim_leading, trimmed, unsigned_value,
    without_leading, words,
};
use vstd::prelude::*;

verus! {

/// A command by what it does.
#[derive(Debug)]
pub enum Command {
    /// Submit what is pending and show the tasks.
    Show,
    /// Change to the relay that has the text in its address.
    Relay(String),
    /// Change to the relay at the address.
    OpenRelay(String),
    /// List the properties that there are.
    Columns,
    SortBy(Vec<String>),
    SortFirstBy(String),
    RemoveColumn(usize),
    ToggleColumnAt(String, usize),
    ToggleColumn(String),
    /// List the changes of the active task, or without one see into activities or not.
    Changes,
    /// A note that is too short.
    ShortNote,
    Note(String),
    Finish(String),
    Close(String),
    Undo,
    /// List the previous places.
    Places,
    BackBy(usize),
    BackTo(String),
    /// Show what has changed in the last day.
    Recent,
    /// Show the own tasks or those of everybody.
    ToggleKeys,
    /// Show the tasks of a user, or what has changed since a time.
    By(String),
    /// Pin the active task, or without one show the pinned ones.
    Pin,
    Priority(Option<Prio>),
    /// Make the active task a procedure, or without one show procedures.
    Procedure,
    Sibling(String),
    EnterProcedure(String),
    States(StateFilter),
    SetState(String),
    Tags(Vec<String>),
    ListTags,
    AddTag(String),
    RemoveTag(String),
    ClearFilters,
    /// List the latest times tracked.
    Times(usize),
    /// List the times of a user, or track from a time.
    Track(String),
    Stop,
    StopAt(String),
    /// Move up, or reset the filters.
    Up(usize),
    /// Move up and show that many levels.
    Depth(usize, usize),
    /// Move up and find or make a task there.
    Enter(usize, String),
    Root,
    Over(usize),
    SearchDepth(usize, usize),
    Search(usize, String),
    /// Make a task of each line.
    Tasks(Vec<String>),
    /// Find or make a task.
    Match(String),
}

#[verifier::ext_equal]
pub enum CommandView {
    Show,
    Relay(Seq<char>),
    OpenRelay(Seq<char>),
    Columns,
    SortBy(Seq<Seq<char>>),
    SortFirstBy(Seq<char>),
    RemoveColumn(int),
    ToggleColumnAt(Seq<char>, int),
    ToggleColumn(Seq<char>),
    Changes,
    ShortNote,
    Note(Seq<char>),
    Finish(Seq<char>),
    Close(Seq<char>),
    Undo,
    Places,
    BackBy(int),
    BackTo(Seq<char>),
    Recent,
    ToggleKeys,
    By(Seq<char>),
    Pin,
    Priority(Option<Prio>),
    Procedure,
    Sibling(Seq<char>),
    EnterProcedure(Seq<char>),
    States(FilterView),
    SetState(Seq<char>),
    Tags(Seq<Seq<char>>),
    ListTags,
    AddTag(Seq<char>),
    RemoveTag(Seq<char>),
    ClearFilters,
    Times(int),
    Track(Seq<char>),
    Stop,
    StopAt(Seq<char>),
    Up(int),
    Depth(int, int),
    Enter(int, Seq<char>),
    Root,
    Over(int),
    SearchDepth(int, int),
    Search(int, Seq<char>),
    Tasks(Seq<Seq<char>>),
    Match(Seq<char>),
}

impl View for Command {
    type V = CommandView;

    open spec fn view(&self) -> CommandView {
        match self {
            Command::Show => CommandView::Show,
            Command::Relay(s) => CommandView::Relay(s@),
            Command::OpenRelay(s) => CommandView::OpenRelay(s@),
            Command::Columns => CommandView::Columns,
            Command::SortBy(v) => CommandView::SortBy(views(v@)),
            Command::SortFirstBy(s) => CommandView::SortFirstBy(s@),
            Command::RemoveColumn(i) => CommandView::RemoveColumn(*i as int),
            Command::ToggleColumnAt(s, i) => CommandView::ToggleColumnAt(s@, *i as int),
            Command::ToggleColumn(s) => CommandView::ToggleColumn(s@),
            Command::Changes => CommandView::Changes,
            Command::ShortNote => CommandView::ShortNote,
            Command::Note(s) => CommandView::Note(s@),
            Command::Finish(s) => CommandView::Finish(s@),
            Command::Close(s) => CommandView::Close(s@),
            Command::Undo => CommandView::Undo,
            Command::Places => CommandView::Places,
            Command::BackBy(n) => CommandView::BackBy(*n as int),
            Command::BackTo(s) => CommandView::BackTo(s@),
            Command::Recent => CommandView::Recent,
            Command::ToggleKeys => CommandView::ToggleKeys,
            Command::By(s) => CommandView::By(s@),
            Command::Pin => CommandView::Pin,
            Command::Priority(p) => CommandView::Priority(*p),
            Command::Procedure => CommandView::Procedure,
            Command::Sibling(s) => CommandView::Sibling(s@),
            Command::EnterProcedure(s) => CommandView::EnterProcedure(s@),
            Command::States(f) => CommandView::States(f@),
            Command::SetState(s) => CommandView::SetState(s@),
            Command::Tags(v) => CommandView::Tags(views(v@)),
            Command::ListTags => CommandView::ListTags,
            Command::AddTag(s) => CommandView::AddTag(s@),
            Command::RemoveTag(s) => CommandView::RemoveTag(s@),
            Command::ClearFilters => CommandView::ClearFilters,
            Command::Times(n) => CommandView::Times(*n as int),
            Command::Track(s) => CommandView::Track(s@),
            Command::Stop => CommandView::Stop,
            Command::StopAt(s) => CommandView::StopAt(s@),
            Command::Up(n) => CommandView::Up(*n as int),
            Command::Depth(n, d) => CommandView::Depth(*n as int, *d as int),
            Command::Enter(n, s) => CommandView::Enter(*n as int, s@),
            Command::Root => CommandView::Root,
            Command::Over(n) => CommandView::Over(*n as int),
            Command::SearchDepth(n, d) => CommandView::SearchDepth(*n as int, *d as int),
            Command::Search(n, s) => CommandView::Search(*n as int, s@),
            Command::Tasks(v) => CommandView::Tasks(views(v@)),
            Command::Match(s) => CommandView::Match(s@),
        }
    }
}

// ---------------------------------------------------------------------------
// Grammar

/// What follows the operator, if anything.
pub open spec fn argument(text: Seq<char>) -> Option<Seq<char>> {
    if byte_len(text) > 1 {
        Some(trimmed(text.skip(1)))
    } else {
        None
    }
}

/// `:` Property columns and sorting.
pub open spec fn column_command(text: Seq<char>, arg: Option<Seq<char>>) -> CommandView {
    if begins_with(text, "://"@) {
        CommandView::Relay(text)
    } else {
        match arg {
            None => CommandView::Columns,
            Some(a) => {
                let remaining = trimmed(a.skip(1));
                if a.len() > 0 && a[0] == ':' {
                    let props = words(remaining, true);
                    if props.len() == 1 {
                        CommandView::SortFirstBy(remaining)
                    } else {
                        CommandView::SortBy(props)
                    }
                } else if a.len() > 0 && is_digit(a[0]) {
                    let index = column_index(a[0]);
                    if remaining.len() == 0 {
                        CommandView::RemoveColumn(index)
                    } else {
                        CommandView::ToggleColumnAt(remaining, index)
                    }
                } else {
                    CommandView::ToggleColumn(a)
                }
            },
        }
    }
}

/// Columns are counted from one; zero stands for the first as well.
pub open spec fn column_index(digit: char) -> int {
    let d: int = digit as int - '0' as int;
    if d > 0 {
        d - 1
    } else {
        0
    }
}

/// `,` Notes.
pub open spec fn note_command(arg: Option<Seq<char>>) -> CommandView {
    match arg {
        None => CommandView::Changes,
        Some(a) => if byte_len(trimmed(a)) < 2 {
            CommandView::ShortNote
        } else {
            CommandView::Note(a)
        },
    }
}

/// `&` Undo and previous places.
pub open spec fn back_command(arg: Option<Seq<char>>) -> CommandView {
    match arg {
        None => CommandView::Undo,
        Some(a) => if a == "&"@ {
            CommandView::Places
        } else {
            match unsigned_value(a, 255) {
                Some(n) => CommandView::BackBy(n),
                None => CommandView::BackTo(a),
            }
        },
    }
}

/// `*` Bookmarks and priority. A single digit stands for tens.
pub open spec fn priority_command(arg: Option<Seq<char>>) -> CommandView {
    match arg {
        None => CommandView::Pin,
        Some(a) => if a == "*"@ {
            CommandView::Priority(None)
        } else {
            match unsigned_value(a, 65535) {
                Some(p) => CommandView::Priority(
                    Some(
                        if byte_len(a) < 2 {
                            (p * 10) as u16
                        } else {
                            p as u16
                        },
                    ),
                ),
                None => CommandView::Priority(None),
            }
        },
    }
}

/// `|` Procedures and dependent tasks.
pub open spec fn procedure_command(arg: Option<Seq<char>>) -> CommandView {
    match arg {
        None => CommandView::Procedure,
        Some(a) => if a.len() > 0 && a[0] == '|' {
            CommandView::EnterProcedure(without_leading(a, '|'))
        } else {
            CommandView::Sibling(a)
        },
    }
}

/// `?` Which states are shown.
pub open spec fn states_command(arg: Option<Seq<char>>) -> CommandView {
    match arg {
        None => CommandView::States(FilterView::Default),
        Some(a) => if a == "?"@ {
            CommandView::States(FilterView::All)
        } else {
            CommandView::States(FilterView::State(a))
        },
    }
}

/// `(` Time tracking. The number of entries is as large as can be where it is not given.
pub open spec fn times_command(arg: Option<Seq<char>>) -> CommandView {
    match arg {
        None => CommandView::Times(60),
        Some(a) => if a.len() > 0 && a[0] == '(' {
            match unsigned_value(a.skip(1), usize::MAX as int) {
                Some(n) => CommandView::Times(n),
                None => CommandView::Times(usize::MAX as int),
            }
        } else {
            CommandView::Track(a)
        },
    }
}

/// How many times the operator is repeated.
pub open spec fn repeated(text: Seq<char>, c: char) -> int {
    let run = byte_len(text.take(text.len() - without_leading(text, c).len()));
    if run == 0 {
        0
    } else if run <= usize::MAX {
        run - 1
    } else {
        usize::MAX - 1
    }
}

/// `.` Moving, levels, finding and making tasks.
pub open spec fn move_command(text: Seq<char>) -> CommandView {
    let rest = without_leading(text, '.');
    let up = repeated(text, '.');
    if rest.len() == 0 {
        CommandView::Up(up)
    } else {
        match unsigned_value(rest, usize::MAX as int) {
            Some(depth) => if depth < 10 {
                CommandView::Depth(up, depth)
            } else {
                CommandView::Enter(up, rest)
            },
            None => CommandView::Enter(up, rest),
        }
    }
}

/// `/` Moving and searching.
pub open spec fn search_command(text: Seq<char>, arg: Option<Seq<char>>) -> CommandView {
    let rest = without_leading(text, '/');
    let up = repeated(text, '/');
    if arg is None {
        CommandView::Root
    } else if rest.len() == 0 {
        CommandView::Over(up)
    } else {
        match unsigned_value(rest, usize::MAX as int) {
            Some(depth) => CommandView::SearchDepth(up, depth),
            None => CommandView::Search(up, rest),
        }
    }
}

/// The lines that are not blank.
pub open spec fn filled(lines: Seq<Seq<char>>) -> Seq<Seq<char>>
    decreases lines.len(),
{
    if lines.len() == 0 {
        Seq::empty()
    } else if trimmed(lines.last()).len() > 0 {
        filled(lines.drop_last()).push(lines.last())
    } else {
        filled(lines.drop_last())
    }
}

/// Without an operator: the address of a relay, tasks line by line, or the name of a task.
pub open spec fn plain_command(text: Seq<char>) -> CommandView {
    let t = trimmed(text);
    if begins_with(t, "ws://"@) || begins_with(t, "wss://"@) {
        CommandView::OpenRelay(text)
    } else if text.contains('\n') {
        CommandView::Tasks(filled(lines_in(text)))
    } else {
        CommandView::Match(text)
    }
}

pub open spec fn or_empty(arg: Option<Seq<char>>) -> Seq<char> {
    match arg {
        Some(a) => a,
        None => Seq::empty(),
    }
}

/// The command that a text stands for.
pub open spec fn command_of(text: Seq<char>) -> CommandView {
    let arg = argument(text);
    if text.len() == 0 {
        CommandView::Show
    } else if text[0] == ':' {
        column_command(text, arg)
    } else if text[0] == ',' {
        note_command(arg)
    } else if text[0] == '>' {
        CommandView::Finish(or_empty(arg))
    } else if text[0] == '<' {
        CommandView::Close(or_empty(arg))
    } else if text[0] == '&' {
        back_command(arg)
    } else if text[0] == '@' {
        match arg {
            None => CommandView::Recent,
            Some(a) => if a == "@"@ {
                CommandView::ToggleKeys
            } else {
                CommandView::By(a)
            },
        }
    } else if text[0] == '*' {
        priority_command(arg)
    } else if text[0] == '|' {
        procedure_command(arg)
    } else if text[0] == '?' {
        states_command(arg)
    } else if text[0] == '!' {
        CommandView::SetState(or_empty(arg))
    } else if text[0] == '#' {
        CommandView::Tags(words(or_empty(arg), true))
    } else if text[0] == '+' {
        match arg {
            Some(a) => CommandView::AddTag(a),
            None => CommandView::ListTags,
        }
    } else if text[0] == '-' {
        match arg {
            Some(a) => CommandView::RemoveTag(a),
            None => CommandView::ClearFilters,
        }
    } else if text[0] == '(' {
        times_command(arg)
    } else if text[0] == ')' {
        match arg {
            Some(a) => CommandView::StopAt(a),
            None => CommandView::Stop,
        }
    } else if text[0] == '.' {
        move_command(text)
    } else if text[0] == '/' {
        search_command(text, arg)
    } else {
        plain_command(text)
    }
}

/// A command and the time that it is for, as texts: the time stands behind the first `@`, unless
/// that is the operator.
pub open spec fn timed(text: Seq<char>) -> Option<(Seq<char>, Seq<char>)> {
    if text.len() > 0 && text[0] != '@' {
        parted(text, "@"@)
    } else {
        None
    }
}

// ---------------------------------------------------------------------------
// Reading

pub open spec fn text_of(arg: Option<String>) -> Option<Seq<char>> {
    match arg {
        Some(a) => Some(a@),
        None => None,
    }
}

fn read_argument(text: &str) -> (r: Option<String>)
    ensures
        text_of(r) == argument(text@),
{
    if shorter_than(text, 2) {
        None
    } else {
        let v: Vec<char> = chars_of(text);
        proof {
            crate::text::lemma_byte_len(text@);
        }
        let rest: String = substring(&v, 1, v.len());
        assert(rest@ =~= text@.skip(1));
        Some(trim(rest.as_str()))
    }
}

fn read_rest(arg: &str) -> (r: String)
    requires
        arg@.len() > 0,
    ensures
        r@ == arg@.skip(1),
{
    let v: Vec<char> = chars_of(arg);
    let r: String = substring(&v, 1, v.len());
    assert(r@ =~= arg@.skip(1));
    r
}

fn read_column(text: &str, arg: Option<String>) -> (r: Command)
    ensures
        r@ == column_command(text@, text_of(arg)),
{
    if starts_with(text, "://") {
        return Command::Relay(text.to_string());
    }
    let a: String = match arg {
        Some(a) => a,
        None => {
            return Command::Columns;
        },
    };
    let v: Vec<char> = chars_of(a.as_str());
    if v.len() == 0 {
        return Command::ToggleColumn(a);
    }
    let rest: String = read_rest(a.as_str());
    let remaining: String = trim(rest.as_str());
    let c: char = v[0];
    if c == ':' {
        let props: Vec<String> = split_words(remaining.as_str(), true);
        if props.len() == 1 {
            Command::SortFirstBy(remaining)
        } else {
            Command::SortBy(props)
        }
    } else if '0' <= c && c <= '9' {
        let d: u32 = c as u32 - '0' as u32;
        let index: usize = if d > 0 {
            (d - 1) as usize
        } else {
            0
        };
        if remaining.as_str().is_empty() {
            Command::RemoveColumn(index)
        } else {
            Command::ToggleColumnAt(remaining, index)
        }
    } else {
        Command::ToggleColumn(a)
    }
}

fn read_note(arg: Option<String>) -> (r: Command)
    ensures
        r@ == note_command(text_of(arg)),
{
    match arg {
        None => Command::Changes,
        Some(a) => {
            let t: String = trim(a.as_str());
            if shorter_than(t.as_str(), 2) {
                Command::ShortNote
            } else {
                Command::Note(a)
            }
        },
    }
}

fn read_back(arg: Option<String>) -> (r: Command)
    ensures
        r@ == back_command(text_of(arg)),
{
    match arg {
        None => Command::Undo,
        Some(a) => {
            if same_text(a.as_str(), "&") {
                Command::Places
            } else {
                match parse_unsigned(a.as_str(), 255) {
                    Some(n) => Command::BackBy(n as usize),
                    None => Command::BackTo(a),
                }
            }
        },
    }
}

fn read_priority(arg: Option<String>) -> (r: Command)
    ensures
        r@ == priority_command(text_of(arg)),
{
    match arg {
        None => Command::Pin,
        Some(a) => {
            if same_text(a.as_str(), "*") {
                Command::Priority(None)
            } else {
                match parse_unsigned(a.as_str(), 65535) {
                    Some(p) => {
                        if shorter_than(a.as_str(), 2) {
                            proof {
                                lemma_digit_value(a@);
                            }
                            Command::Priority(Some(p as u16 * 10))
                        } else {
                            Command::Priority(Some(p as u16))
                        }
                    },
                    None => Command::Priority(None),
                }
            }
        },
    }
}

/// The number in a text of one character is that of its digit.
proof fn lemma_digit_value(s: Seq<char>)
    requires
        byte_len(s) < 2,
    ensures
        unsigned_value(s, 65535) matches Some(p) ==> p <= 9,
{
    crate::text::lemma_byte_len(s);
    if s.len() > 0 {
        assert(s.len() == 1);
        assert(s.skip(1).len() == 0);
        reveal_with_fuel(crate::text::digits_value, 2);
    }
}

fn read_procedure(arg: Option<String>) -> (r: Command)
    ensures
        r@ == procedure_command(text_of(arg)),
{
    match arg {
        None => Command::Procedure,
        Some(a) => {
            if starts_with_char(a.as_str(), '|') {
                Command::EnterProcedure(trim_leading(a.as_str(), '|'))
            } else {
                Command::Sibling(a)
            }
        },
    }
}

fn read_states(arg: Option<String>) -> (r: Command)
    ensures
        r@ == states_command(text_of(arg)),
{
    match arg {
        None => Command::States(StateFilter::Default),
        Some(a) => {
            if same_text(a.as_str(), "?") {
                Command::States(StateFilter::All)
            } else {
                Command::States(StateFilter::State(a))
            }
        },
    }
}

fn read_times(arg: Option<String>) -> (r: Command)
    ensures
        r@ == times_command(text_of(arg)),
{
    match arg {
        None => Command::Times(60),
        Some(a) => {
            if starts_with_char(a.as_str(), '(') {
                let rest: String = read_rest(a.as_str());
                match parse_unsigned(rest.as_str(), usize::MAX as u64) {
                    Some(n) => Command::Times(n as usize),
                    None => Command::Times(usize::MAX),
                }
            } else {
                Command::Track(a)
            }
        },
    }
}

fn read_move(text: &str) -> (r: Command)
    ensures
        r@ == move_command(text@),
{
    let (rest, dots): (&str, usize) = trim_start_count(text, '.');
    let up: usize = dots.saturating_sub(1);
    if rest.is_empty() {
        return Command::Up(up);
    }
    match parse_unsigned(rest, usize::MAX as u64) {
        Some(depth) => {
            if depth < 10 {
                return Command::Depth(up, depth as usize);
            }
        },
        None => {},
    }
    Command::Enter(up, rest.to_string())
}

fn read_search(text: &str, arg: Option<String>) -> (r: Command)
    ensures
        r@ == search_command(text@, text_of(arg)),
{
    if arg.is_none() {
        return Command::Root;
    }
    let (rest, dots): (&str, usize) = trim_start_count(text, '/');
    let up: usize = dots.saturating_sub(1);
    if rest.is_empty() {
        return Command::Over(up);
    }
    match parse_unsigned(rest, usize::MAX as u64) {
        Some(depth) => Command::SearchDepth(up, depth as usize),
        None => Command::Search(up, rest.to_string()),
    }
}

fn keep_filled(lines: &Vec<String>) -> (r: Vec<String>)
    ensures
        views(r@) == filled(views(lines@)),
{
    broadcast use group_views;

    let ghost all = views(lines@);
    let mut r: Vec<String> = Vec::new();
    let mut i: usize = 0;
    assert(all.take(0) =~= Seq::<Seq<char>>::empty());
    while i < lines.len()
        invariant
            0 <= i <= lines.len(),
            all == views(lines@),
            views(r@) == filled(all.take(i as int)),
        decreases lines.len() - i,
    {
        assert(all.take(i + 1).drop_last() =~= all.take(i as int));
        assert(all.take(i + 1).last() == lines@[i as int]@);
        let t: String = trim(lines[i].as_str());
        if !t.as_str().is_empty() {
            r.push(lines[i].clone());
        }
        i += 1;
    }
    assert(all.take(lines@.len() as int) =~= all);
    r
}

fn read_plain(text: &str) -> (r: Command)
    ensures
        r@ == plain_command(text@),
{
    let t: String = trim(text);
    if starts_with(t.as_str(), "ws://") || starts_with(t.as_str(), "wss://") {
        Command::OpenRelay(text.to_string())
    } else if contains_char(text, '\n') {
        let lines: Vec<String> = split_lines(text);
        Command::Tasks(keep_filled(&lines))
    } else {
        Command::Match(text.to_string())
    }
}

fn text_or_empty(arg: Option<String>) -> (r: String)
    ensures
        r@ == or_empty(text_of(arg)),
{
    match arg {
        Some(a) => a,
        None => String::new(),
    }
}

impl Command {
    /// The command that a text stands for.
    pub fn parse(text: &str) -> (r: Command)
        ensures
            r@ == command_of(text@),
    {
        let v: Vec<char> = chars_of(text);
        if v.len() == 0 {
            return Command::Show;
        }
        let op: char = v[0];
        let arg: Option<String> = read_argument(text);
        if op == ':' {
            read_column(text, arg)
        } else if op == ',' {
            read_note(arg)
        } else if op == '>' {
            Command::Finish(text_or_empty(arg))
        } else if op == '<' {
            Command::Close(text_or_empty(arg))
        } else if op == '&' {
            read_back(arg)
        } else if op == '@' {
            match arg {
                None => Command::Recent,
                Some(a) => {
                    if same_text(a.as_str(), "@") {
                        Command::ToggleKeys
                    } else {
                        Command::By(a)
                    }
                },
            }
        } else if op == '*' {
            read_priority(arg)
        } else if op == '|' {
            read_procedure(arg)
        } else if op == '?' {
            read_states(arg)
        } else if op == '!' {
            Command::SetState(text_or_empty(arg))
        } else if op == '#' {
            let tags: String = text_or_empty(arg);
            Command::Tags(split_words(tags.as_str(), true))
        } else if op == '+' {
            match arg {
                Some(a) => Command::AddTag(a),
                None => Command::ListTags,
            }
        } else if op == '-' {
            match arg {
                Some(a) => Command::RemoveTag(a),
                None => Command::ClearFilters,
            }
        } else if op == '(' {
            read_times(arg)
        } else if op == ')' {
            match arg {
                Some(a) => Command::StopAt(a),
                None => Command::Stop,
            }
        } else if op == '.' {
            read_move(text)
        } else if op == '/' {
            read_search(text, arg)
        } else {
            read_plain(text)
        }
    }
}

/// A command and the time that it is for, as texts.
pub fn split_time(text: &str) -> (r: Option<(String, String)>)
    ensures
        match r {
            Some((left, time)) => timed(text@) == Some((left@, time@)),
            None => timed(text@) is None,
        },
{
    if text.is_empty() || starts_with_char(text, '@') {
        None
    } else {
        split_once(text, "@")
    }
}

// ---------------------------------------------------------------------------
// Laws

/// Leaving out the time behind a command does not change its operator.
pub proof fn the_time_leaves_the_operator(text: Seq<char>)
    ensures
        timed(text) matches Some((left, _)) ==> left.len() > 0 && left[0] == text[0],
{
    reveal_strlit("@");
    if text.len() > 0 && text[0] != '@' {
        assert(!crate::text::stands_at(text, "@"@, 0)) by {
            if crate::text::stands_at(text, "@"@, 0) {
                assert(text.subrange(0, 1)[0] == '@');
            }
        }
        lemma_first_part_from(text, "@"@, 1);
    }
}

proof fn lemma_first_part_from(s: Seq<char>, part: Seq<char>, from: int)
    ensures
        crate::text::first_part(s, part, from) matches Some(at) ==> at >= from && at <= s.len(),
    decreases s.len() - from + 1,
{
    if 0 <= from <= s.len() && !crate::text::stands_at(s, part, from) {
        lemma_first_part_from(s, part, from + 1);
    }
}

/// A line that starts with a space is the name of a task, whatever follows; only an address is
/// still that of a relay.
pub proof fn a_leading_space_makes_a_task(text: Seq<char>)
    requires
        text.len() > 0,
        text[0] == ' ',
        !text.contains('\n'),
        !begins_with(trimmed(text), "ws://"@),
        !begins_with(trimmed(text), "wss://"@),
    ensures
        command_of(text) == CommandView::Match(text),
{
}

// ---------------------------------------------------------------------------
// Relays

/// Whether a command asks for the relay of that address.
pub open spec fn selects(command: CommandView, address: Option<Seq<char>>) -> bool {
    match (command, address) {
        (CommandView::Relay(text), Some(a)) => has_part(a, text),
        (CommandView::OpenRelay(text), Some(a)) => begins_with(a, text),
        _ => false,
    }
}

/// The first of the relays that a command asks for.
pub fn select_relay(command: &Command, addresses: &Vec<Option<String>>) -> (r: Option<usize>)
    ensures
        match r {
            Some(i) => i < addresses.len() && selects(command@, text_of(addresses[i as int]))
                && forall|k: int|
                0 <= k < i ==> !selects(command@, text_of(#[trigger] addresses[k])),
            None => forall|k: int|
                0 <= k < addresses.len() ==> !selects(command@, text_of(#[trigger] addresses[k])),
        },
{
    let mut i: usize = 0;
    while i < addresses.len()
        invariant
            0 <= i <= addresses.len(),
            forall|k: int| 0 <= k < i ==> !selects(command@, text_of(#[trigger] addresses[k])),
        decreases addresses.len() - i,
    {
        match &addresses[i] {
            Some(a) => {
                let selected: bool = match command {
                    Command::Relay(text) => contains(a.as_str(), text.as_str()),
                    Command::OpenRelay(text) => starts_with(a.as_str(), text.as_str()),
                    _ => false,
                };
                if selected {
                    return Some(i);
                }
            },
            None => {},
        }
        i += 1;
    }
    None
}

/// The address that `nostr_sdk` makes of a text, if it is that of a relay.
pub uninterp spec fn relay_url(text: Seq<char>) -> Option<Seq<char>>;

/// `nostr_sdk::RelayUrl::parse`: whether a text is the address of a relay, and how that is
/// written, depends on the text alone.
#[verifier::external_body]
fn parse_relay_url(text: &str) -> (r: Option<String>)
    ensures
        match r {
            Some(url) => relay_url(text@) == Some(url@),
            None => relay_url(text@) is None,
        },
{
    nostr_sdk::RelayUrl::parse(text).ok().map(|url| url.to_string())
}

/// What comes of a command that asks for a relay.
#[derive(Debug, PartialEq, Eq)]
pub enum RelayChoice {
    /// Change to the relay at that place.
    Select(usize),
    /// Add the relay of that address.
    Open(String),
    /// The address cannot be that of a relay.
    Invalid,
    /// No relay has the text in its address.
    Unknown,
    /// The command asks for no relay.
    Nothing,
}

/// Changes to a known relay where the command asks for one, and else opens the relay of the
/// address.
pub fn choose_relay(command: &Command, addresses: &Vec<Option<String>>) -> (r: RelayChoice)
    ensures
        match r {
            RelayChoice::Select(i) => i < addresses.len() && selects(
                command@,
                text_of(addresses[i as int]),
            ) && forall|k: int| 0 <= k < i ==> !selects(command@, text_of(#[trigger] addresses[k])),
            _ => forall|k: int|
                0 <= k < addresses.len() ==> !selects(command@, text_of(#[trigger] addresses[k])),
        },
        match (r, command@) {
            (RelayChoice::Select(_), _) => true,
            (RelayChoice::Open(url), CommandView::OpenRelay(text)) => relay_url(text) == Some(url@),
            (RelayChoice::Invalid, CommandView::OpenRelay(text)) => relay_url(text) is None,
            (RelayChoice::Unknown, CommandView::Relay(_)) => true,
            (RelayChoice::Nothing, CommandView::OpenRelay(_)) => false,
            (RelayChoice::Nothing, CommandView::Relay(_)) => false,
            (RelayChoice::Nothing, _) => true,
            _ => false,
        },
{
    match select_relay(command, addresses) {
        Some(i) => RelayChoice::Select(i),
        None => match command {
            Command::OpenRelay(text) => match parse_relay_url(text.as_str()) {
                Some(url) => RelayChoice::Open(url),
                None => RelayChoice::Invalid,
            },
            Command::Relay(_) => RelayChoice::Unknown,
            _ => RelayChoice::Nothing,
        },
    }
}

/// The address of a relay as it was entered, with the protocol where it was left out.
pub open spec fn address_of(line: Seq<char>) -> Seq<char> {
    if has_part(line, "://"@) {
        line
    } else {
        "wss://"@ + line
    }
}

pub fn relay_address(line: &str) -> (r: String)
    ensures
        r@ == address_of(line@),
{
    if contains(line, "://") {
        line.to_string()
    } else {
        let mut r: String = "wss://".to_string();
        r.append(line);
        r
    }
}

} // verus!
