//! The states of a task.

use crate::helpers::{non_empty, some_non_empty};
use crate::kinds::{
    PROCEDURE_KIND, STATUS_CLOSED_KIND, STATUS_DONE_KIND, STATUS_OPEN_KIND, STATUS_PENDING_KIND,
};
use crate::paint::{color, painted, Paint};
use crate::text::{lower, same_ignoring_case, same_text, to_lower, trim, trimmed};
use vstd::prelude::*;

verus! {

#[derive(Debug, Copy, Clone, Eq, PartialEq, Structural, PartialOrd, Ord, Hash)]
pub enum State {
    /// Actionable
    Open,
    /// Completed
    Done,
    /// Not Actionable (anymore)
    Closed,
    /// Temporarily not actionable
    Pending,
    /// Ordered task list
    Procedure,
}

/// The state that an event of the given kind sets.
pub open spec fn state_of_kind(kind: u16) -> Option<State> {
    if kind == STATUS_OPEN_KIND {
        Some(State::Open)
    } else if kind == STATUS_DONE_KIND {
        Some(State::Done)
    } else if kind == STATUS_CLOSED_KIND {
        Some(State::Closed)
    } else if kind == STATUS_PENDING_KIND {
        Some(State::Pending)
    } else if kind == PROCEDURE_KIND {
        Some(State::Procedure)
    } else {
        None
    }
}

/// The state that a name stands for, in any case.
pub open spec fn state_of_name(name: Seq<char>) -> Option<State> {
    let l = lower(name);
    if l == "closed"@ {
        Some(State::Closed)
    } else if l == "done"@ {
        Some(State::Done)
    } else if l == "pending"@ {
        Some(State::Pending)
    } else if l == "proc"@ || l == "procedure"@ || l == "list"@ {
        Some(State::Procedure)
    } else if l == "open"@ {
        Some(State::Open)
    } else {
        None
    }
}

impl State {
    pub open spec fn text(self) -> Seq<char> {
        match self {
            State::Open => "Open"@,
            State::Done => "Done"@,
            State::Closed => "Closed"@,
            State::Pending => "Pending"@,
            State::Procedure => "Procedure"@,
        }
    }

    pub open spec fn open(self) -> bool {
        self is Open || self is Pending || self is Procedure
    }

    pub open spec fn kind_of(self) -> u16 {
        match self {
            State::Open => STATUS_OPEN_KIND,
            State::Done => STATUS_DONE_KIND,
            State::Closed => STATUS_CLOSED_KIND,
            State::Pending => STATUS_PENDING_KIND,
            State::Procedure => PROCEDURE_KIND,
        }
    }

    pub open spec fn paint(self) -> Paint {
        match self {
            State::Open => Paint::Green,
            State::Done => Paint::BrightBlack,
            State::Closed => Paint::Magenta,
            State::Pending => Paint::Yellow,
            State::Procedure => Paint::Blue,
        }
    }

    /// The name of the state.
    pub fn to_string(&self) -> (r: String)
        ensures
            r@ == self.text(),
    {
        match self {
            State::Open => "Open".to_string(),
            State::Done => "Done".to_string(),
            State::Closed => "Closed".to_string(),
            State::Pending => "Pending".to_string(),
            State::Procedure => "Procedure".to_string(),
        }
    }

    pub fn is_open(&self) -> (r: bool)
        ensures
            r == self.open(),
    {
        matches!(self, State::Open | State::Pending | State::Procedure)
    }

    /// The kind of the events that set this state.
    pub fn kind(self) -> (r: u16)
        ensures
            r == self.kind_of(),
    {
        match self {
            State::Open => STATUS_OPEN_KIND,
            State::Done => STATUS_DONE_KIND,
            State::Closed => STATUS_CLOSED_KIND,
            State::Pending => STATUS_PENDING_KIND,
            State::Procedure => PROCEDURE_KIND,
        }
    }

    /// `str` in the colour of the state, where the terminal takes it.
    pub fn colorize(&self, str: &str) -> (r: String)
        ensures
            exists|on: bool| r@ == #[trigger] painted(self.paint().code(), str@, on),
    {
        match self {
            State::Open => color(str, Paint::Green),
            State::Done => color(str, Paint::BrightBlack),
            State::Closed => color(str, Paint::Magenta),
            State::Pending => color(str, Paint::Yellow),
            State::Procedure => color(str, Paint::Blue),
        }
    }
}

impl TryFrom<&str> for State {
    type Error = ();

    fn try_from(value: &str) -> (r: Result<Self, Self::Error>) {
        let l: String = to_lower(value);
        let l: &str = l.as_str();
        if same_text(l, "closed") {
            Ok(State::Closed)
        } else if same_text(l, "done") {
            Ok(State::Done)
        } else if same_text(l, "pending") {
            Ok(State::Pending)
        } else if same_text(l, "proc") || same_text(l, "procedure") || same_text(l, "list") {
            Ok(State::Procedure)
        } else if same_text(l, "open") {
            Ok(State::Open)
        } else {
            Err(())
        }
    }
}

impl vstd::std_specs::convert::TryFromSpecImpl<&str> for State {
    open spec fn obeys_try_from_spec() -> bool {
        true
    }

    open spec fn try_from_spec(value: &str) -> Result<Self, Self::Error> {
        match state_of_name(value@) {
            Some(s) => Ok(s),
            None => Err(()),
        }
    }
}

impl TryFrom<u16> for State {
    type Error = ();

    fn try_from(value: u16) -> (r: Result<Self, Self::Error>) {
        if value == STATUS_OPEN_KIND {
            Ok(State::Open)
        } else if value == STATUS_DONE_KIND {
            Ok(State::Done)
        } else if value == STATUS_CLOSED_KIND {
            Ok(State::Closed)
        } else if value == STATUS_PENDING_KIND {
            Ok(State::Pending)
        } else if value == PROCEDURE_KIND {
            Ok(State::Procedure)
        } else {
            Err(())
        }
    }
}

impl vstd::std_specs::convert::TryFromSpecImpl<u16> for State {
    open spec fn obeys_try_from_spec() -> bool {
        true
    }

    open spec fn try_from_spec(value: u16) -> Result<Self, Self::Error> {
        match state_of_kind(value) {
            Some(s) => Ok(s),
            None => Err(()),
        }
    }
}

impl From<State> for u16 {
    fn from(value: State) -> (r: u16) {
        value.kind()
    }
}

impl vstd::std_specs::convert::FromSpecImpl<State> for u16 {
    open spec fn obeys_from_spec() -> bool {
        true
    }

    open spec fn from_spec(value: State) -> u16 {
        value.kind_of()
    }
}

/// The kind of a state is read back as that state, and no other kind is.
pub proof fn state_kind_round_trip(state: State, kind: u16)
    ensures
        state_of_kind(state.kind_of()) == Some(state),
        state_of_kind(kind) == Some(state) ==> kind == state.kind_of(),
{
}

/// The name of a state is read back as that state.
pub proof fn state_name_round_trip(state: State)
    ensures
        state_of_name(state.text()) == Some(state),
{
    reveal_strlit("Open");
    reveal_strlit("open");
    reveal_strlit("Done");
    reveal_strlit("done");
    reveal_strlit("Closed");
    reveal_strlit("closed");
    reveal_strlit("Pending");
    reveal_strlit("pending");
    reveal_strlit("Procedure");
    reveal_strlit("procedure");
    reveal_strlit("proc");
    reveal_strlit("list");
    assert(lower("Open"@) =~= "open"@);
    assert(lower("Done"@) =~= "done"@);
    assert(lower("Closed"@) =~= "closed"@);
    assert(lower("Pending"@) =~= "pending"@);
    assert(lower("Procedure"@) =~= "procedure"@);
    assert("open"@[0] != "done"@[0]);
    assert("open"@[0] != "list"@[0]);
    assert("open"@[0] != "proc"@[0]);
    assert("done"@[0] != "open"@[0]);
    assert("pending"@.len() == 7);
    assert("procedure"@.len() == 9);
    assert("closed"@.len() == 6);
}

/// A change of state, with the name it was given.
#[derive(Debug)]
pub struct StateChange {
    pub state: State,
    pub name: Option<String>,
    pub time: u64,
}

#[verifier::ext_equal]
pub struct ChangeView {
    pub state: State,
    pub name: Option<Seq<char>>,
    pub time: u64,
}

impl View for StateChange {
    type V = ChangeView;

    open spec fn view(&self) -> ChangeView {
        ChangeView {
            state: self.state,
            name: match self.name {
                Some(s) => Some(s@),
                None => None,
            },
            time: self.time,
        }
    }
}

impl ChangeView {
    pub open spec fn label(self) -> Seq<char> {
        match self.name {
            Some(name) => name,
            None => self.state.text(),
        }
    }

    /// The state, followed by the name if that says more.
    pub open spec fn text(self) -> Seq<char> {
        match self.name {
            Some(name) => {
                if lower(trimmed(name)) == lower(self.state.text()) {
                    self.state.text()
                } else {
                    self.state.text() + ": "@ + trimmed(name)
                }
            },
            None => self.state.text(),
        }
    }

    pub open spec fn matches(self, label: Seq<char>) -> bool {
        ||| (self.name matches Some(name) && lower(name) == lower(label))
        ||| lower(self.state.text()) == lower(label)
    }
}

impl StateChange {
    /// The comment, or the name of the state where there is none.
    pub fn get_label_for(state: &State, comment: &str) -> (r: String)
        ensures
            r@ == match non_empty(comment@) {
                Some(c) => c,
                None => state.text(),
            },
    {
        match some_non_empty(comment) {
            Some(c) => c,
            None => state.to_string(),
        }
    }

    pub fn get_label(&self) -> (r: String)
        ensures
            r@ == self@.label(),
    {
        match &self.name {
            Some(name) => name.clone(),
            None => self.state.to_string(),
        }
    }

    pub fn get_colored_label(&self) -> (r: String)
        ensures
            exists|on: bool| r@ == #[trigger] painted(self.state.paint().code(), self@.label(), on),
    {
        let label: String = self.get_label();
        self.state.colorize(label.as_str())
    }

    pub fn matches_label(&self, label: &str) -> (r: bool)
        ensures
            r == self@.matches(label@),
    {
        let named: bool = match &self.name {
            Some(name) => same_ignoring_case(name.as_str(), label),
            None => false,
        };
        let state: String = self.state.to_string();
        named || same_ignoring_case(state.as_str(), label)
    }

    pub fn get_timestamp(&self) -> (r: u64)
        ensures
            r == self.time,
    {
        self.time
    }

    pub fn to_string(&self) -> (r: String)
        ensures
            r@ == self@.text(),
    {
        let mut r: String = self.state.to_string();
        match &self.name {
            Some(name) => {
                let name: String = trim(name.as_str());
                if !same_ignoring_case(name.as_str(), r.as_str()) {
                    r.append(": ");
                    r.append(name.as_str());
                }
            },
            None => {},
        }
        r
    }
}

impl Clone for StateChange {
    fn clone(&self) -> (r: StateChange)
        ensures
            r@ == self@,
    {
        StateChange {
            state: self.state,
            name: match &self.name {
                Some(name) => Some(name.clone()),
                None => None,
            },
            time: self.time,
        }
    }
}

impl PartialEq for StateChange {
    fn eq(&self, other: &StateChange) -> (r: bool) {
        let names: bool = match (&self.name, &other.name) {
            (Some(a), Some(b)) => same_text(a.as_str(), b.as_str()),
            (None, None) => true,
            _ => false,
        };
        names && self.state == other.state && self.time == other.time
    }
}

impl vstd::std_specs::cmp::PartialEqSpecImpl for StateChange {
    open spec fn obeys_eq_spec() -> bool {
        true
    }

    open spec fn eq_spec(&self, other: &StateChange) -> bool {
        self@ == other@
    }
}

/// The state of an optional change: without one a task is open.
pub open spec fn pure_state_of(change: Option<ChangeView>) -> State {
    match change {
        Some(c) => c.state,
        None => State::Open,
    }
}

impl From<Option<StateChange>> for State {
    fn from(value: Option<StateChange>) -> (r: State) {
        match value {
            Some(s) => s.state,
            None => State::Open,
        }
    }
}

impl vstd::std_specs::convert::FromSpecImpl<Option<StateChange>> for State {
    open spec fn obeys_from_spec() -> bool {
        true
    }

    open spec fn from_spec(value: Option<StateChange>) -> State {
        match value {
            Some(s) => s.state,
            None => State::Open,
        }
    }
}

} // verus!
